//! What a baked document is handed back as: which fields are read, over what range, and in
//! what order their bytes stand.

use vstd::prelude::*;
use crate::grid::{cell, lemma_cell, lemma_split};
use crate::raster::UVec2;
use crate::single::Single;
use crate::terrain::TerrainSpec;
use crate::evaluate::texels_at;
use crate::water::WaterState;

verus! {

/// The places of the first `upto` fields that are baked at their resolution.
pub open spec fn readable(spec: TerrainSpec, upto: int) -> Seq<int>
    decreases upto,
{
    if upto <= 0 {
        Seq::empty()
    } else {
        let rest = readable(spec, upto - 1);
        if spec.fields@[upto - 1].baked.size == texels_at(spec, upto - 1) {
            rest.push(upto - 1)
        } else {
            rest
        }
    }
}

/// The solved water, where it covers the document as it stands.
pub open spec fn readable_state(spec: TerrainSpec) -> Option<WaterState> {
    match spec.water {
        Some(state) => if state.depth.size == spec.size {
            Some(state)
        } else {
            None
        },
        None => None,
    }
}

/// How the bytes of a channel stand for numbers.
#[derive(Clone, Copy, Debug, PartialEq, Eq, Structural)]
pub enum ChannelMeta {
    /// Evenly from the first number to the second.
    Linear(Single, Single),
    /// By the logarithm, up to a greatest number.
    Log(Single),
    /// Evenly from minus one to one.
    Unit,
}

impl TerrainSpec {
    /// The fields a finished terrain carries: those baked at their resolution, in declaration
    /// order, by place.
    pub fn readable_fields(&self) -> (list: Vec<usize>)
        ensures
            crate::topology::places(list@) == readable(*self, self.fields@.len() as int),
    {
        let mut list: Vec<usize> = Vec::new();
        let mut i: usize = 0;
        proof {
            assert(crate::topology::places(list@) =~= Seq::<int>::empty());
        }
        while i < self.fields.len()
            invariant
                i <= self.fields@.len(),
                crate::topology::places(list@) == readable(*self, i as int),
            decreases self.fields@.len() - i,
        {
            if self.fields[i].baked.size == self.fields[i].resolution(self.size) {
                let ghost before = list@;
                list.push(i);
                proof {
                    assert(crate::topology::places(list@) =~= crate::topology::places(before).push(
                        i as int,
                    ));
                }
            }
            i = i + 1;
        }
        list
    }

    /// The solved water, where it covers the document as it stands.
    pub fn readable_water(&self) -> (state: Option<&WaterState>)
        ensures
            match state {
                Some(state) => readable_state(*self) == Some(*state),
                None => readable_state(*self) is None,
            },
    {
        match &self.water {
            Some(state) => if state.size() == self.size {
                Some(state)
            } else {
                None
            },
            None => None,
        }
    }
}

/// The least and the greatest of the finite numbers among some, or `None` where there are
/// none. Of equal numbers the first is kept.
pub open spec fn spanned(values: Seq<Single>) -> Option<(Single, Single)>
    decreases values.len(),
{
    if values.len() == 0 {
        None
    } else {
        let rest = spanned(values.drop_last());
        let value = values.last();
        if !value.finite() {
            rest
        } else {
            match rest {
                None => Some((value, value)),
                Some((low, high)) => Some(
                    (
                        if value.below(low) {
                            value
                        } else {
                            low
                        },
                        if high.below(value) {
                            value
                        } else {
                            high
                        },
                    ),
                ),
            }
        }
    }
}

/// How a field's values are stored: evenly over the range they lie in, leaving out what is
/// not finite, and from zero to zero where nothing is.
pub open spec fn meta_of(values: Seq<Single>) -> ChannelMeta {
    match spanned(values) {
        Some((low, high)) => ChannelMeta::Linear(low, high),
        None => ChannelMeta::Linear(Single(0), Single(0)),
    }
}

/// How a field's values are stored.
pub fn value_range(values: &Vec<Single>) -> (meta: ChannelMeta)
    ensures
        meta == meta_of(values@),
{
    let mut span: Option<(Single, Single)> = None;
    let mut i: usize = 0;
    proof {
        assert(values@.take(0) =~= Seq::<Single>::empty());
    }
    while i < values.len()
        invariant
            i <= values@.len(),
            span == spanned(values@.take(i as int)),
        decreases values@.len() - i,
    {
        let value: Single = values[i];
        proof {
            assert(values@.take(i + 1).drop_last() =~= values@.take(i as int));
        }
        if value.is_finite() {
            span = match span {
                None => Some((value, value)),
                Some((low, high)) => Some(
                    (
                        if value.lt(low) {
                            value
                        } else {
                            low
                        },
                        if high.lt(value) {
                            value
                        } else {
                            high
                        },
                    ),
                ),
            };
        }
        i = i + 1;
    }
    proof {
        assert(values@.take(i as int) =~= values@);
    }
    match span {
        Some((low, high)) => ChannelMeta::Linear(low, high),
        None => ChannelMeta::Linear(Single(0), Single(0)),
    }
}

/// Every finite value lies in the range, and both its ends are finite values.
pub proof fn law_the_range_holds_every_finite_value(values: Seq<Single>, i: int)
    requires
        0 <= i < values.len(),
        values[i].finite(),
    ensures
        match spanned(values) {
            Some((low, high)) => {
                &&& low.at_most(values[i])
                &&& values[i].at_most(high)
                &&& values.contains(low) && low.finite()
                &&& values.contains(high) && high.finite()
            },
            None => false,
        },
    decreases values.len(),
{
    let shorter = values.drop_last();
    lemma_span_ends(values);
    if i < shorter.len() {
        assert(shorter[i] == values[i]);
        law_the_range_holds_every_finite_value(shorter, i);
    } else {
        lemma_span_ends(shorter);
    }
}

proof fn lemma_span_ends(values: Seq<Single>)
    ensures
        spanned(values) matches Some(range) ==> values.contains(range.0) && values.contains(range.1)
            && range.0.finite() && range.1.finite(),
    decreases values.len(),
{
    if values.len() > 0 {
        let shorter = values.drop_last();
        lemma_span_ends(shorter);
        assert(values.contains(values.last())) by {
            assert(values[values.len() - 1] == values.last());
        }
        if let Some((low, high)) = spanned(shorter) {
            let a = choose|a: int| 0 <= a < shorter.len() && shorter[a] == low;
            let b = choose|b: int| 0 <= b < shorter.len() && shorter[b] == high;
            assert(values[a] == low);
            assert(values[b] == high);
        }
    }
}

/// The bytes of a water depth, none of them zero where any water stands: a depth too shallow
/// for its scale would otherwise read as dry ground.
pub open spec fn lifted(depth: Seq<Single>, encoded: Seq<u8>) -> Seq<u8> {
    Seq::new(
        encoded.len(),
        |i: int|
            if Single(0).below(depth[i]) && encoded[i] == 0 {
                1
            } else {
                encoded[i]
            },
    )
}

/// The bytes of a water depth.
pub fn depth_bytes(depth: &Vec<Single>, encoded: &Vec<u8>) -> (bytes: Vec<u8>)
    requires
        depth@.len() == encoded@.len(),
    ensures
        bytes@ == lifted(depth@, encoded@),
{
    let mut bytes: Vec<u8> = Vec::new();
    let mut i: usize = 0;
    while i < encoded.len()
        invariant
            i <= encoded@.len(),
            depth@.len() == encoded@.len(),
            bytes@.len() == i,
            forall|j: int|
                0 <= j < i ==> #[trigger] bytes@[j] == (if Single(0).below(depth@[j])
                    && encoded@[j] == 0 {
                    1
                } else {
                    encoded@[j]
                }),
        decreases encoded@.len() - i,
    {
        let byte: u8 = if Single(0).lt(depth[i]) && encoded[i] == 0 {
            1
        } else {
            encoded[i]
        };
        bytes.push(byte);
        i = i + 1;
    }
    bytes
}

/// An image being put together from one column of bytes per channel.
#[derive(Debug)]
pub struct LayerBuild {
    /// The shift of the fields in it.
    pub shift: Option<u8>,
    /// The extent in texels.
    pub size: UVec2,
    /// How the bytes of each channel stand for numbers.
    pub channels: Vec<ChannelMeta>,
    /// The bytes of each channel, row by row.
    pub columns: Vec<Vec<u8>>,
}

impl LayerBuild {
    /// An image with no channels.
    pub fn new(shift: Option<u8>, size: UVec2) -> (layer: LayerBuild)
        ensures
            layer.shift == shift,
            layer.size == size,
            layer.channels@.len() == 0,
            layer.columns@.len() == 0,
    {
        LayerBuild { shift, size, channels: Vec::new(), columns: Vec::new() }
    }

    /// Adds a channel.
    pub fn push(&mut self, meta: ChannelMeta, bytes: Vec<u8>)
        ensures
            final(self).channels@ == old(self).channels@.push(meta),
            final(self).columns@ == old(self).columns@.push(bytes),
            *final(self) == (LayerBuild {
                channels: final(self).channels,
                columns: final(self).columns,
                ..*old(self)
            }),
    {
        self.channels.push(meta);
        self.columns.push(bytes);
    }

    /// The bytes of the image: for each texel in turn, one byte of each channel. A channel
    /// that has too few bytes is filled up with zeros.
    pub fn finish(&self) -> (bytes: Vec<u8>)
        requires
            self.size.area() * self.columns@.len() <= usize::MAX,
            forall|c: int|
                0 <= c < self.columns@.len() ==> (#[trigger] self.columns@[c])@.len()
                    <= self.size.area(),
        ensures
            bytes@.len() == self.size.area() * self.columns@.len(),
            forall|texel: int, channel: int|
                0 <= texel < self.size.area() && 0 <= channel < self.columns@.len()
                    ==> bytes@[#[trigger] cell(channel, texel, self.columns@.len() as int)] == (
                if texel < self.columns@[channel]@.len() {
                    self.columns@[channel]@[texel]
                } else {
                    0
                }),
    {
        let mut bytes: Vec<u8> = Vec::new();
        let channels: usize = self.columns.len();
        let ghost texels = self.size.area();
        proof {
            assert(0 <= texels) by (nonlinear_arith)
                requires
                    texels == self.size.x * self.size.y,
            ;
            assert(channels > 0 ==> texels <= usize::MAX) by (nonlinear_arith)
                requires
                    texels * channels <= usize::MAX,
                    0 <= texels,
            ;
        }
        if channels == 0 {
            assert(texels * channels == 0) by (nonlinear_arith)
                requires
                    channels == 0,
            ;
            return bytes;
        }
        let count: usize = self.size.x as usize * self.size.y as usize;
        let total: usize = count * channels;
        let mut index: usize = 0;
        while index < total
            invariant
                channels == self.columns@.len(),
                count == texels,
                texels == self.size.area(),
                total == count * channels,
                index <= total,
                bytes@.len() == index,
                forall|texel: int, channel: int|
                    0 <= texel < texels && 0 <= channel < channels && cell(
                        channel,
                        texel,
                        channels as int,
                    ) < index ==> bytes@[#[trigger] cell(channel, texel, channels as int)] == (
                    if texel < self.columns@[channel]@.len() {
                        self.columns@[channel]@[texel]
                    } else {
                        0
                    }),
            decreases total - index,
        {
            proof {
                assert(channels * count == count * channels) by (nonlinear_arith);
                lemma_split(index as int, channels as int, count as int);
            }
            let channel: usize = index % channels;
            let texel: usize = index / channels;
            let byte: u8 = if texel < self.columns[channel].len() {
                self.columns[channel][texel]
            } else {
                0
            };
            let ghost before = bytes@;
            bytes.push(byte);
            proof {
                assert forall|t: int, c: int|
                    0 <= t < texels && 0 <= c < channels && cell(c, t, channels as int) < index
                        + 1 implies bytes@[#[trigger] cell(c, t, channels as int)] == (if t
                    < self.columns@[c]@.len() {
                    self.columns@[c]@[t]
                } else {
                    0
                }) by {
                    lemma_cell(c, t, channels as int, count as int);
                    if cell(c, t, channels as int) < index {
                        assert(bytes@[cell(c, t, channels as int)] == before[cell(
                            c,
                            t,
                            channels as int,
                        )]);
                    }
                }
            }
            index = index + 1;
        }
        proof {
            assert forall|t: int, c: int| 0 <= t < texels && 0 <= c < channels implies bytes@[
            #[trigger] cell(c, t, channels as int)] == (if t < self.columns@[c]@.len() {
                self.columns@[c]@[t]
            } else {
                0
            }) by {
                lemma_cell(c, t, channels as int, count as int);
                assert(channels * count == count * channels) by (nonlinear_arith);
            }
        }
        bytes
    }
}

} // verus!
