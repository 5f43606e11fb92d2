//! Showing a document: what the map is drawn from, what its colours are fitted to, and what
//! of it is on screen.

use vstd::prelude::*;
use crate::brush::CellRect;
use crate::grid::{cell, lemma_cell, lemma_split};
use crate::raster::{Raster, UVec2};
use crate::single::{held_between, law_key_orders_values, Single};
use crate::water::WaterState;

verus! {

/// Whether some values stand in the order of their keys.
pub open spec fn in_key_order(values: Seq<Single>) -> bool {
    forall|i: int, j: int| 0 <= i <= j < values.len() ==> values[i].key() <= values[j].key()
}

/// The finite numbers among some.
pub open spec fn finite_of(values: Seq<Single>) -> Seq<Single>
    decreases values.len(),
{
    if values.len() == 0 {
        Seq::empty()
    } else if values.last().finite() {
        finite_of(values.drop_last()).push(values.last())
    } else {
        finite_of(values.drop_last())
    }
}

/// Whether some values are those of another list, in the order of their keys.
pub open spec fn sorts(sorted: Seq<Single>, values: Seq<Single>) -> bool {
    in_key_order(sorted) && sorted.to_multiset() == values.to_multiset()
}

/// Puts one more value into a list in its place.
fn insert_sorted(values: &mut Vec<Single>, value: Single)
    requires
        in_key_order(old(values)@),
    ensures
        in_key_order(final(values)@),
        final(values)@.to_multiset() == old(values)@.to_multiset().insert(value),
        final(values)@.len() == old(values)@.len() + 1,
{
    broadcast use vstd::seq_lib::group_to_multiset_ensures;

    let mut at: usize = 0;
    while at < values.len() && values[at].order_key() <= value.order_key()
        invariant
            at <= values@.len(),
            values@ == old(values)@,
            forall|i: int| 0 <= i < at ==> values@[i].key() <= value.key(),
        decreases values@.len() - at,
    {
        at = at + 1;
    }
    let ghost before = values@;
    values.insert(at, value);
    proof {
        let after = values@;
        assert(after =~= before.insert(at as int, value));
        assert forall|i: int, j: int| 0 <= i <= j < after.len() implies after[i].key()
            <= after[j].key() by {
            if at < before.len() {
                assert(before[at as int].key() > value.key());
            }
            if i < at && j > at {
                assert(before[i].key() <= before[j - 1].key());
            } else if i > at {
                assert(before[i - 1].key() <= before[j - 1].key());
            } else if j < at {
                assert(before[i].key() <= before[j].key());
            } else if i == at && j > at {
                assert(before[at as int].key() <= before[j - 1].key());
            }
        }
        before.to_multiset_ensures();
    }
}

/// The values that the ends of a colour ramp stand for: the least and the greatest of the
/// finite samples, given in order, once the fortieth part of them at each end has been left
/// out. Nothing where there are none.
pub open spec fn fitted(sorted: Seq<Single>) -> Option<(Single, Single)> {
    let trim = sorted.len() as int / 40;
    if sorted.len() == 0 {
        None
    } else {
        Some((sorted[trim], sorted[sorted.len() - 1 - trim]))
    }
}

/// The values that the ends of a colour ramp stand for, from samples of what is on screen.
pub fn fit_range(samples: &Vec<Single>) -> (range: Option<(Single, Single)>)
    ensures
        exists|sorted: Seq<Single>| #[trigger]
            sorts(sorted, finite_of(samples@)) && range == fitted(sorted),
{
    broadcast use vstd::seq_lib::group_to_multiset_ensures;

    let mut sorted: Vec<Single> = Vec::new();
    let mut i: usize = 0;
    proof {
        assert(samples@.take(0) =~= Seq::<Single>::empty());
        assert(sorted@.to_multiset() =~= Seq::<Single>::empty().to_multiset());
    }
    while i < samples.len()
        invariant
            i <= samples@.len(),
            sorts(sorted@, finite_of(samples@.take(i as int))),
        decreases samples@.len() - i,
    {
        let value: Single = samples[i];
        proof {
            assert(samples@.take(i + 1).drop_last() =~= samples@.take(i as int));
            finite_of(samples@.take(i as int)).to_multiset_ensures();
        }
        if value.is_finite() {
            insert_sorted(&mut sorted, value);
        }
        i = i + 1;
    }
    proof {
        assert(samples@.take(i as int) =~= samples@);
        assert(sorts(sorted@, finite_of(samples@)));
    }
    let count: usize = sorted.len();
    if count == 0 {
        return None;
    }
    let trim: usize = count / 40;
    Some((sorted[trim], sorted[count - 1 - trim]))
}

/// Two lists of the same values in the order of their keys are the same, so a range is fitted
/// in one way.
pub proof fn law_a_range_is_fitted_in_one_way(
    values: Seq<Single>,
    a: Seq<Single>,
    b: Seq<Single>,
)
    requires
        sorts(a, values),
        sorts(b, values),
    ensures
        a == b,
    decreases a.len(),
{
    broadcast use vstd::seq_lib::group_to_multiset_ensures;

    a.to_multiset_ensures();
    b.to_multiset_ensures();
    values.to_multiset_ensures();
    assert(a.len() == b.len());
    if a.len() > 0 {
        let x = a.last();
        let y = b.last();
        assert(a[a.len() - 1] == x);
        assert(b[b.len() - 1] == y);
        assert(a.contains(x));
        assert(a.to_multiset().count(x) > 0);
        assert(b.contains(x));
        assert(b.contains(y));
        assert(b.to_multiset().count(y) > 0);
        assert(a.contains(y));
        let i = choose|i: int| 0 <= i < a.len() && a[i] == y;
        let j = choose|j: int| 0 <= j < b.len() && b[j] == x;
        assert(a[i].key() <= a[a.len() - 1].key());
        assert(b[j].key() <= b[b.len() - 1].key());
        assert(x.key() == y.key());
        law_key_orders_values(x, y);
        let c = a.drop_last();
        let d = b.drop_last();
        assert(a =~= c.push(x));
        assert(b =~= d.push(x));
        c.to_multiset_ensures();
        d.to_multiset_ensures();
        assert(c.to_multiset() =~= a.to_multiset().remove(x));
        assert(d.to_multiset() =~= b.to_multiset().remove(x));
        assert forall|p: int, q: int| 0 <= p <= q < d.len() implies d[p].key() <= d[q].key() by {
            assert(b[p].key() <= b[q].key());
        }
        assert forall|p: int, q: int| 0 <= p <= q < c.len() implies c[p].key() <= c[q].key() by {
            assert(a[p].key() <= a[q].key());
        }
        law_a_range_is_fitted_in_one_way(c, c, d);
    } else {
        assert(a =~= b);
    }
}

/// Whether the diverging ramp is in use: the ends straddle zero.
pub fn diverges(low: Single, high: Single) -> (answer: bool)
    ensures
        answer == (low.below(Single(0)) && Single(0).below(high)),
{
    low.lt(Single(0)) && Single(0).lt(high)
}

/// How the legend says the ends of the ramp were arrived at.
pub fn legend_caption(diverging: bool) -> (text: &'static str)
    ensures
        text@ == (if diverging {
            "diverging about 0"@
        } else {
            "fitted to the view"@
        }),
{
    if diverging {
        "diverging about 0"
    } else {
        "fitted to the view"
    }
}

/// The byte of a channel that is on or off.
pub open spec fn lit(on: bool) -> u8 {
    if on {
        255
    } else {
        0
    }
}

/// Whether bytes are the water map of a state: for each cell whether water stands there, and
/// whether enough reaches it to be a channel.
pub open spec fn is_water_map(bytes: Seq<u8>, state: WaterState, threshold: u16) -> bool {
    &&& bytes.len() == 2 * state.depth.size.area()
    &&& forall|x: int, y: int|
        state.depth.covers(x, y) ==> bytes[2 * #[trigger] cell(
            x,
            y,
            state.depth.size.x as int,
        )] == lit(Single(0).below(state.depth.texel(x, y))) && bytes[2 * cell(
            x,
            y,
            state.depth.size.x as int,
        ) + 1] == lit(state.flow_accum.texel(x, y) >= threshold)
}

/// The bytes of the water map. `threshold` is the code of the least that is enough for a
/// channel.
pub fn water_map(state: &WaterState, threshold: u16) -> (bytes: Vec<u8>)
    requires
        state.wf(),
    ensures
        is_water_map(bytes@, *state, threshold),
{
    let size: UVec2 = state.depth.size;
    let mut bytes: Vec<u8> = Vec::new();
    let count: usize = state.depth.data.len();
    let mut index: usize = 0;
    while index < count
        invariant
            state.wf(),
            size == state.depth.size,
            count == size.area(),
            index <= count,
            bytes@.len() == 2 * index,
            forall|x: int, y: int|
                state.depth.covers(x, y) && cell(x, y, size.x as int) < index ==> bytes@[2
                    * #[trigger] cell(x, y, size.x as int)] == lit(Single(0).below(state.depth.texel(x, y))) && bytes@[2 * cell(x, y, size.x as int) + 1] == lit(state.flow_accum.texel(x, y) >= threshold),
        decreases count - index,
    {
        proof {
            lemma_split(index as int, size.x as int, size.y as int);
        }
        let x: u32 = (index % size.x as usize) as u32;
        let y: u32 = (index / size.x as usize) as u32;
        let ghost before = bytes@;
        let wet: u8 = if state.is_water(x, y) {
            255
        } else {
            0
        };
        bytes.push(wet);
        let channel: u8 = if state.channel(x, y, threshold) {
            255
        } else {
            0
        };
        bytes.push(channel);
        proof {
            assert forall|a: int, b: int|
                state.depth.covers(a, b) && cell(a, b, size.x as int) < index + 1 implies bytes@[2
                * #[trigger] cell(a, b, size.x as int)] == lit(Single(0).below(state.depth.texel(a, b))) && bytes@[2 * cell(a, b, size.x as int) + 1] == lit(state.flow_accum.texel(a, b) >= threshold) by {
                lemma_cell(a, b, size.x as int, size.y as int);
                let c = cell(a, b, size.x as int);
                if c < index {
                    assert(bytes@[2 * c] == before[2 * c]);
                    assert(bytes@[2 * c + 1] == before[2 * c + 1]);
                } else {
                    assert(a == x && b == y);
                }
            }
        }
        index = index + 1;
    }
    proof {
        assert forall|x: int, y: int| state.depth.covers(x, y) implies bytes@[2 * #[trigger] cell(
            x,
            y,
            size.x as int,
        )] == lit(Single(0).below(state.depth.texel(x, y))) && bytes@[2 * cell(x, y, size.x as int) + 1] == lit(state.flow_accum.texel(x, y) >= threshold) by {
            lemma_cell(x, y, size.x as int, size.y as int);
        }
    }
    bytes
}

/// What the maps on screen were last drawn from.
#[derive(Clone, Copy, Debug)]
pub struct MapRevisions {
    /// The revision of the document and the generation of what is shown alone.
    pub field: Option<(u64, u64)>,
    /// The revision of the water.
    pub water: Option<u64>,
}

impl MapRevisions {
    /// Nothing has been drawn.
    pub fn new() -> (revisions: MapRevisions)
        ensures
            revisions.field is None,
            revisions.water is None,
    {
        MapRevisions { field: None, water: None }
    }

    /// Whether the field map has to be drawn again, noting that it has been.
    pub fn field_is_stale(&mut self, revision: u64, generation: u64) -> (answer: bool)
        ensures
            answer == (old(self).field != Some((revision, generation))),
            final(self).field == Some((revision, generation)),
            final(self).water == old(self).water,
    {
        let stale: bool = match self.field {
            Some((a, b)) => a != revision || b != generation,
            None => true,
        };
        self.field = Some((revision, generation));
        stale
    }

    /// Whether the water map has to be drawn again, noting that it has been.
    pub fn water_is_stale(&mut self, revision: u64) -> (answer: bool)
        ensures
            answer == (old(self).water != Some(revision)),
            final(self).water == Some(revision),
            final(self).field == old(self).field,
    {
        let stale: bool = match self.water {
            Some(drawn) => drawn != revision,
            None => true,
        };
        self.water = Some(revision);
        stale
    }
}

/// The texels of the map drawn of a raster: one, blank, where it has none.
pub fn map_resolution(baked: &Raster<Single>) -> (texels: UVec2)
    ensures
        texels == (if baked.data@.len() == 0 {
            UVec2 { x: 1, y: 1 }
        } else {
            baked.size
        }),
{
    if baked.is_empty() {
        UVec2 { x: 1, y: 1 }
    } else {
        baked.size
    }
}

/// The keys that move the view.
#[derive(Clone, Copy, Debug, PartialEq, Eq, Structural)]
pub struct PanKeys {
    /// Towards lower columns.
    pub left: bool,
    /// Towards higher columns.
    pub right: bool,
    /// Downwards.
    pub down: bool,
    /// Upwards.
    pub up: bool,
}

/// Which way the view moves: opposite keys cancel, and a text field that has the keyboard
/// takes them all.
pub fn pan_direction(keys: PanKeys, typing: bool) -> (direction: (i8, i8))
    ensures
        direction.0 == (if typing || keys.left == keys.right {
            0int
        } else if keys.left {
            -1
        } else {
            1
        }),
        direction.1 == (if typing || keys.down == keys.up {
            0int
        } else if keys.down {
            -1
        } else {
            1
        }),
{
    let across: i8 = if typing || keys.left == keys.right {
        0
    } else if keys.left {
        -1
    } else {
        1
    };
    let along: i8 = if typing || keys.down == keys.up {
        0
    } else if keys.down {
        -1
    } else {
        1
    };
    (across, along)
}

/// How a frame zooms: whether the wheel is listened to, and how many steps the keys add. The
/// wheel over the canvas or over a panel is theirs, and a text field that has the keyboard
/// takes the keys.
pub fn zoom_input(over_canvas: bool, over_ui: bool, typing: bool, closer: bool, farther: bool) -> (
answer: (bool, i8))
    ensures
        answer.0 == (!over_canvas && !over_ui),
        answer.1 == (if typing || closer == farther {
            0int
        } else if closer {
            1
        } else {
            -1
        }),
{
    let steps: i8 = if typing || closer == farther {
        0
    } else if closer {
        1
    } else {
        -1
    };
    (!over_canvas && !over_ui, steps)
}

/// The document cells on screen: those from `low` up to `end`, as far as the document goes.
/// The ends are rounded outwards, so a cell only half on screen is inside.
pub fn visible_cells(low: (i64, i64), end: (i64, i64), size: UVec2) -> (rect: CellRect)
    ensures
        ({
            let whole = CellRect {
                min: UVec2 {
                    x: held_between(low.0 as int, 0, size.x as int) as u32,
                    y: held_between(low.1 as int, 0, size.y as int) as u32,
                },
                max: UVec2 {
                    x: held_between(end.0 as int, 0, size.x as int) as u32,
                    y: held_between(end.1 as int, 0, size.y as int) as u32,
                },
            };
            if whole.vacant() {
                rect == (CellRect { min: UVec2 { x: 0, y: 0 }, max: UVec2 { x: 0, y: 0 } })
            } else {
                rect == whole
            }
        }),
{
    let rect: CellRect = CellRect {
        min: UVec2 {
            x: crate::brush::clip(low.0, size.x),
            y: crate::brush::clip(low.1, size.y),
        },
        max: UVec2 {
            x: crate::brush::clip(end.0, size.x),
            y: crate::brush::clip(end.1, size.y),
        },
    };
    if rect.is_empty() {
        CellRect::empty()
    } else {
        rect
    }
}

} // verus!
