//! What the form of a layer offers: its op's numbers and the range each is held in, its mask,
//! and what its rows may do.

use vstd::prelude::*;
use crate::brush::Brush;
use crate::layer::{texts_view, UNIT};
use crate::layout::same_text;
use crate::names::FieldId;
use crate::noise::{NoiseKind, NoiseSpec, SampleTransform, WarpSpec, NOISE_OCTAVES};
use crate::raster::{Raster, UVec2};
use crate::single::Single;
use crate::text::{decimal, decimal_of};

verus! {

/// One kind of region and what it gives each column.
#[derive(Debug)]
pub struct Region {
    /// How often the kind comes up against the others.
    pub weight: Single,
    /// Its value in each column.
    pub values: Vec<Single>,
}

/// A table of regions over a lattice.
#[derive(Debug)]
pub struct RegionSpec {
    /// The seed of the lattice.
    pub seed: u32,
    /// How far apart lattice cells are, in tiles.
    pub cell_tiles: u32,
    /// How far one region blends into the next, in tiles.
    pub blend_tiles: u32,
    /// What the columns are called.
    pub columns: Vec<String>,
    /// The kinds of region.
    pub regions: Vec<Region>,
}

/// What is read of a table of regions.
#[derive(Debug)]
pub enum RegionOutput {
    /// The value of a column.
    Column(String),
    /// Which region it is.
    RegionId,
    /// Which class of cover it is.
    CoverClass,
}

/// What a layer of a stack produces.
#[derive(Debug)]
pub enum LayerOp {
    /// One value everywhere.
    Constant(Single),
    /// Noise.
    Noise(NoiseSpec),
    /// How steep another field is.
    Slope {
        /// The field.
        of: FieldId,
        /// How far apart the samples are, in tiles.
        sample_tiles: Single,
        /// Which of the readings of a slope.
        mode: u8,
    },
    /// Another field's value.
    FieldRef(FieldId),
    /// A table of regions.
    Regions {
        /// The table.
        spec: RegionSpec,
        /// What is read of it.
        output: RegionOutput,
    },
    /// A raster painted by hand.
    Paint(Raster<u8>),
    /// A raster from outside.
    External(Raster<Single>),
}

/// The field a new reference is to: the first there is, or the height where there are none.
pub open spec fn first_named(names: Seq<Seq<char>>) -> Seq<char> {
    if names.len() > 0 {
        names[0]
    } else {
        "height"@
    }
}

/// The field a new reference is to.
pub fn first_field(names: &Vec<String>) -> (id: FieldId)
    ensures
        id@ == first_named(texts_view(names@)),
{
    if names.len() > 0 {
        FieldId::new(names[0].as_str())
    } else {
        FieldId::new("height")
    }
}

/// Whether an op is what the add button makes for a kind.
pub open spec fn is_default_op(op: LayerOp, kind: Seq<char>, names: Seq<Seq<char>>) -> bool {
    if kind == "constant"@ {
        op == LayerOp::Constant(Single(0x3f00_0000))
    } else if kind == "fieldref"@ {
        op matches LayerOp::FieldRef(id) && id@ == first_named(names)
    } else if kind == "slope"@ {
        op matches LayerOp::Slope { of, sample_tiles, mode } && of@ == first_named(names)
            && sample_tiles == Single(0x4080_0000) && mode == 0
    } else if kind == "paint"@ {
        op matches LayerOp::Paint(raster) && raster.wf() && raster.size == (UVec2 { x: 0, y: 0 })
    } else {
        op == LayerOp::Noise(
            NoiseSpec {
                seed: 1,
                kind: NoiseKind::Fbm,
                scale: Single(0x3ca3_d70a),
                octaves: NOISE_OCTAVES,
                salt: 0,
                transform: SampleTransform { strike_degrees: Single(0), aspect: Single(UNIT) },
                warp: None,
            },
        )
    }
}

/// What the add button makes, which has to be something that bakes on its own: a field
/// reference to nothing would put the document in an error state on the frame it was added,
/// and the panel would look like it had refused.
pub fn default_op(kind: &str, names: &Vec<String>) -> (op: LayerOp)
    ensures
        is_default_op(op, kind@, texts_view(names@)),
{
    if same_text(kind, "constant") {
        LayerOp::Constant(Single(0x3f00_0000))
    } else if same_text(kind, "fieldref") {
        LayerOp::FieldRef(first_field(names))
    } else if same_text(kind, "slope") {
        LayerOp::Slope { of: first_field(names), sample_tiles: Single(0x4080_0000), mode: 0 }
    } else if same_text(kind, "paint") {
        LayerOp::Paint(Raster::empty())
    } else {
        LayerOp::Noise(NoiseSpec::new(1, NoiseKind::Fbm, Single(0x3ca3_d70a)))
    }
}

/// A number of an op's form.
#[derive(Clone, Copy, Debug, PartialEq, Eq, Structural)]
pub enum OpNumber {
    /// The value of a constant.
    Constant,
    /// The seed of noise.
    NoiseSeed,
    /// The scale of noise.
    NoiseScale,
    /// The octaves of noise.
    NoiseOctaves,
    /// The direction noise varies fastest in.
    NoiseStrike,
    /// The elongation of noise.
    NoiseAspect,
    /// How far a warp displaces.
    WarpAmplitude,
    /// The scale of a warp.
    WarpScale,
    /// The octaves of a warp.
    WarpOctaves,
    /// How far apart a slope's samples are.
    SlopeTiles,
    /// The seed of a region lattice.
    RegionSeed,
    /// How far apart region lattice cells are.
    RegionCells,
    /// How far regions blend.
    RegionBlend,
    /// The weight of a kind of region.
    RegionWeight(usize),
    /// What a kind of region gives a column.
    RegionValue(usize, usize),
}

/// A number as it is typed or shown.
#[derive(Clone, Copy, Debug, PartialEq, Eq, Structural)]
pub enum Amount {
    /// A whole number.
    Whole(u32),
    /// Any other.
    Real(Single),
}

/// The number of an op.
pub open spec fn amount_at(op: LayerOp, number: OpNumber) -> Option<Amount> {
    match (op, number) {
        (LayerOp::Constant(value), OpNumber::Constant) => Some(Amount::Real(value)),
        (LayerOp::Noise(spec), OpNumber::NoiseSeed) => Some(Amount::Whole(spec.seed)),
        (LayerOp::Noise(spec), OpNumber::NoiseScale) => Some(Amount::Real(spec.scale)),
        (LayerOp::Noise(spec), OpNumber::NoiseOctaves) => Some(Amount::Whole(spec.octaves)),
        (LayerOp::Noise(spec), OpNumber::NoiseStrike) => Some(
            Amount::Real(spec.transform.strike_degrees),
        ),
        (LayerOp::Noise(spec), OpNumber::NoiseAspect) => Some(Amount::Real(spec.transform.aspect)),
        (LayerOp::Noise(spec), OpNumber::WarpAmplitude) => match spec.warp {
            Some(warp) => Some(Amount::Real(warp.amplitude)),
            None => None,
        },
        (LayerOp::Noise(spec), OpNumber::WarpScale) => match spec.warp {
            Some(warp) => Some(Amount::Real(warp.scale)),
            None => None,
        },
        (LayerOp::Noise(spec), OpNumber::WarpOctaves) => match spec.warp {
            Some(warp) => Some(Amount::Whole(warp.octaves)),
            None => None,
        },
        (LayerOp::Slope { of, sample_tiles, mode }, OpNumber::SlopeTiles) => Some(
            Amount::Real(sample_tiles),
        ),
        (LayerOp::Regions { spec, output }, OpNumber::RegionSeed) => Some(Amount::Whole(spec.seed)),
        (LayerOp::Regions { spec, output }, OpNumber::RegionCells) => Some(
            Amount::Whole(spec.cell_tiles),
        ),
        (LayerOp::Regions { spec, output }, OpNumber::RegionBlend) => Some(
            Amount::Whole(spec.blend_tiles),
        ),
        (LayerOp::Regions { spec, output }, OpNumber::RegionWeight(at)) => if at
            < spec.regions@.len() {
            Some(Amount::Real(spec.regions@[at as int].weight))
        } else {
            None
        },
        (LayerOp::Regions { spec, output }, OpNumber::RegionValue(at, column)) => if at
            < spec.regions@.len() && column < spec.regions@[at as int].values@.len() {
            Some(Amount::Real(spec.regions@[at as int].values@[column as int]))
        } else {
            None
        },
        _ => None,
    }
}

/// The range a whole number is held in.
pub open spec fn whole_span(number: OpNumber) -> (u32, u32) {
    match number {
        OpNumber::NoiseOctaves => (1, 10),
        OpNumber::WarpOctaves => (1, 6),
        OpNumber::RegionCells => (8, 4096),
        OpNumber::RegionBlend => (0, 1024),
        _ => (0, u32::MAX),
    }
}

/// The range any other number is held in, where it is held.
pub open spec fn real_span(number: OpNumber) -> Option<(Single, Single)> {
    match number {
        OpNumber::NoiseScale => Some((Single(0), Single(UNIT))),
        OpNumber::NoiseStrike => Some((Single(0xc334_0000), Single(0x4334_0000))),
        OpNumber::NoiseAspect => Some((Single(UNIT), Single(0x4200_0000))),
        OpNumber::SlopeTiles => Some((Single(0x3f00_0000), Single(0x4280_0000))),
        _ => None,
    }
}

/// A number as a form takes it.
pub open spec fn taken(number: OpNumber, amount: Amount) -> Amount {
    match amount {
        Amount::Whole(value) => Amount::Whole(
            if value < whole_span(number).0 {
                whole_span(number).0
            } else if value > whole_span(number).1 {
                whole_span(number).1
            } else {
                value
            },
        ),
        Amount::Real(value) => Amount::Real(
            match real_span(number) {
                Some((low, high)) => value.held(low, high),
                None => value,
            },
        ),
    }
}

/// Whether two numbers are of one kind.
pub open spec fn alike(a: Amount, b: Amount) -> bool {
    (a is Whole) == (b is Whole)
}

fn take_whole(number: OpNumber, value: u32) -> (answer: u32)
    ensures
        taken(number, Amount::Whole(value)) == Amount::Whole(answer),
{
    let (low, high): (u32, u32) = match number {
        OpNumber::NoiseOctaves => (1, 10),
        OpNumber::WarpOctaves => (1, 6),
        OpNumber::RegionCells => (8, 4096),
        OpNumber::RegionBlend => (0, 1024),
        _ => (0, u32::MAX),
    };
    if value < low {
        low
    } else if value > high {
        high
    } else {
        value
    }
}

fn take_real(number: OpNumber, value: Single) -> (answer: Single)
    ensures
        taken(number, Amount::Real(value)) == Amount::Real(answer),
{
    match number {
        OpNumber::NoiseScale => value.clamp(Single(0), Single(UNIT)),
        OpNumber::NoiseStrike => value.clamp(Single(0xc334_0000), Single(0x4334_0000)),
        OpNumber::NoiseAspect => value.clamp(Single(UNIT), Single(0x4200_0000)),
        OpNumber::SlopeTiles => value.clamp(Single(0x3f00_0000), Single(0x4280_0000)),
        _ => value,
    }
}

/// Whether two ops are of one kind, and the same in everything that is not a number of the
/// form.
pub open spec fn same_but_numbers(a: LayerOp, b: LayerOp) -> bool {
    match (a, b) {
        (LayerOp::Constant(_), LayerOp::Constant(_)) => true,
        (LayerOp::Noise(x), LayerOp::Noise(y)) => {
            &&& x.kind == y.kind
            &&& x.salt == y.salt
            &&& match (x.warp, y.warp) {
                (Some(p), Some(q)) => p.seed == q.seed && p.salts == q.salts,
                (None, None) => true,
                _ => false,
            }
        },
        (
            LayerOp::Slope { of, sample_tiles, mode },
            LayerOp::Slope { of: other, sample_tiles: tiles, mode: way },
        ) => of == other && mode == way,
        (LayerOp::Regions { spec, output }, LayerOp::Regions { spec: other, output: read }) => {
            &&& output == read
            &&& spec.columns == other.columns
            &&& spec.regions@.len() == other.regions@.len()
            &&& forall|i: int|
                0 <= i < spec.regions@.len() ==> (#[trigger] spec.regions@[i]).values@.len()
                    == other.regions@[i].values@.len()
        },
        _ => a == b,
    }
}

impl LayerOp {
    /// The number of the op's form.
    pub fn read(&self, number: OpNumber) -> (amount: Option<Amount>)
        ensures
            amount == amount_at(*self, number),
    {
        match (self, number) {
            (LayerOp::Constant(value), OpNumber::Constant) => Some(Amount::Real(*value)),
            (LayerOp::Noise(spec), OpNumber::NoiseSeed) => Some(Amount::Whole(spec.seed)),
            (LayerOp::Noise(spec), OpNumber::NoiseScale) => Some(Amount::Real(spec.scale)),
            (LayerOp::Noise(spec), OpNumber::NoiseOctaves) => Some(Amount::Whole(spec.octaves)),
            (LayerOp::Noise(spec), OpNumber::NoiseStrike) => Some(
                Amount::Real(spec.transform.strike_degrees),
            ),
            (LayerOp::Noise(spec), OpNumber::NoiseAspect) => Some(
                Amount::Real(spec.transform.aspect),
            ),
            (LayerOp::Noise(spec), OpNumber::WarpAmplitude) => match &spec.warp {
                Some(warp) => Some(Amount::Real(warp.amplitude)),
                None => None,
            },
            (LayerOp::Noise(spec), OpNumber::WarpScale) => match &spec.warp {
                Some(warp) => Some(Amount::Real(warp.scale)),
                None => None,
            },
            (LayerOp::Noise(spec), OpNumber::WarpOctaves) => match &spec.warp {
                Some(warp) => Some(Amount::Whole(warp.octaves)),
                None => None,
            },
            (LayerOp::Slope { of: _, sample_tiles, mode: _ }, OpNumber::SlopeTiles) => Some(
                Amount::Real(*sample_tiles),
            ),
            (LayerOp::Regions { spec, output: _ }, OpNumber::RegionSeed) => Some(
                Amount::Whole(spec.seed),
            ),
            (LayerOp::Regions { spec, output: _ }, OpNumber::RegionCells) => Some(
                Amount::Whole(spec.cell_tiles),
            ),
            (LayerOp::Regions { spec, output: _ }, OpNumber::RegionBlend) => Some(
                Amount::Whole(spec.blend_tiles),
            ),
            (LayerOp::Regions { spec, output: _ }, OpNumber::RegionWeight(at)) => {
                if at < spec.regions.len() {
                    Some(Amount::Real(spec.regions[at].weight))
                } else {
                    None
                }
            },
            (LayerOp::Regions { spec, output: _ }, OpNumber::RegionValue(at, column)) => {
                if at < spec.regions.len() && column < spec.regions[at].values.len() {
                    Some(Amount::Real(spec.regions[at].values[column]))
                } else {
                    None
                }
            },
            _ => None,
        }
    }

    /// Puts a number into the op's form, held in the range the form offers, and says whether
    /// the op has such a number of that kind. Every other number stands.
    pub fn write(&mut self, number: OpNumber, amount: Amount) -> (answer: bool)
        ensures
            answer == (amount_at(*old(self), number) matches Some(was) && alike(was, amount)),
            answer ==> amount_at(*final(self), number) == Some(taken(number, amount)),
            same_but_numbers(*old(self), *final(self)),
            forall|other: OpNumber|
                other != number || !answer ==> #[trigger] amount_at(*final(self), other)
                    == amount_at(*old(self), other),
    {
        match amount {
            Amount::Whole(value) => self.write_whole(number, take_whole(number, value)),
            Amount::Real(value) => self.write_real(number, take_real(number, value)),
        }
    }

    fn write_whole(&mut self, number: OpNumber, value: u32) -> (answer: bool)
        ensures
            answer == (amount_at(*old(self), number) matches Some(was) && was is Whole),
            answer ==> amount_at(*final(self), number) == Some(Amount::Whole(value)),
            same_but_numbers(*old(self), *final(self)),
            forall|other: OpNumber|
                other != number || !answer ==> #[trigger] amount_at(*final(self), other)
                    == amount_at(*old(self), other),
    {
        match self {
            LayerOp::Noise(spec) => match number {
                OpNumber::NoiseSeed => {
                    spec.seed = value;
                    true
                },
                OpNumber::NoiseOctaves => {
                    spec.octaves = value;
                    true
                },
                OpNumber::WarpOctaves => match spec.warp {
                    Some(warp) => {
                        spec.warp = Some(WarpSpec { octaves: value, ..warp });
                        true
                    },
                    None => false,
                },
                _ => false,
            },
            LayerOp::Regions { spec, output: _ } => match number {
                OpNumber::RegionSeed => {
                    spec.seed = value;
                    true
                },
                OpNumber::RegionCells => {
                    spec.cell_tiles = value;
                    true
                },
                OpNumber::RegionBlend => {
                    spec.blend_tiles = value;
                    true
                },
                _ => false,
            },
            _ => false,
        }
    }

    fn write_real(&mut self, number: OpNumber, value: Single) -> (answer: bool)
        ensures
            answer == (amount_at(*old(self), number) matches Some(was) && was is Real),
            answer ==> amount_at(*final(self), number) == Some(Amount::Real(value)),
            same_but_numbers(*old(self), *final(self)),
            forall|other: OpNumber|
                other != number || !answer ==> #[trigger] amount_at(*final(self), other)
                    == amount_at(*old(self), other),
    {
        match self {
            LayerOp::Constant(held) => match number {
                OpNumber::Constant => {
                    *held = value;
                    true
                },
                _ => false,
            },
            LayerOp::Noise(spec) => match number {
                OpNumber::NoiseScale => {
                    spec.scale = value;
                    true
                },
                OpNumber::NoiseStrike => {
                    spec.transform.strike_degrees = value;
                    true
                },
                OpNumber::NoiseAspect => {
                    spec.transform.aspect = value;
                    true
                },
                OpNumber::WarpAmplitude => match spec.warp {
                    Some(warp) => {
                        spec.warp = Some(WarpSpec { amplitude: value, ..warp });
                        true
                    },
                    None => false,
                },
                OpNumber::WarpScale => match spec.warp {
                    Some(warp) => {
                        spec.warp = Some(WarpSpec { scale: value, ..warp });
                        true
                    },
                    None => false,
                },
                _ => false,
            },
            LayerOp::Slope { of: _, sample_tiles, mode: _ } => match number {
                OpNumber::SlopeTiles => {
                    *sample_tiles = value;
                    true
                },
                _ => false,
            },
            LayerOp::Regions { spec, output: _ } => match number {
                OpNumber::RegionWeight(at) => {
                    if at < spec.regions.len() {
                        spec.regions[at].weight = value;
                        true
                    } else {
                        false
                    }
                },
                OpNumber::RegionValue(at, column) => {
                    if at < spec.regions.len() && column < spec.regions[at].values.len() {
                        spec.regions[at].values.set(column, value);
                        true
                    } else {
                        false
                    }
                },
                _ => false,
            },
            _ => false,
        }
    }
}

/// The names a table of regions can be read by: its columns, then the two readings that name a
/// class.
pub open spec fn output_names(columns: Seq<Seq<char>>) -> Seq<Seq<char>> {
    columns.push("region_id"@).push("cover_class"@)
}

impl RegionOutput {
    /// What the output is called.
    pub open spec fn called(self) -> Seq<char> {
        match self {
            RegionOutput::Column(name) => name@,
            RegionOutput::RegionId => "region_id"@,
            RegionOutput::CoverClass => "cover_class"@,
        }
    }

    /// The output of a name.
    pub fn named(name: &str) -> (output: RegionOutput)
        ensures
            output.called() == name@,
            output is RegionId <==> name@ == "region_id"@,
            output is CoverClass <==> name@ == "cover_class"@ && name@ != "region_id"@,
    {
        if same_text(name, "region_id") {
            RegionOutput::RegionId
        } else if same_text(name, "cover_class") {
            RegionOutput::CoverClass
        } else {
            RegionOutput::Column(String::from_str(name))
        }
    }
}

/// The names a table of regions can be read by.
pub fn region_outputs(spec: &RegionSpec) -> (names: Vec<String>)
    ensures
        texts_view(names@) == output_names(texts_view(spec.columns@)),
{
    let mut names: Vec<String> = crate::layer::copy_texts(&spec.columns);
    names.push(String::from_str("region_id"));
    names.push(String::from_str("cover_class"));
    proof {
        assert(texts_view(names@) =~= output_names(texts_view(spec.columns@)));
    }
    names
}

impl LayerOp {
    /// Picks a kind of noise and says whether that changed the op. Nothing of another op.
    pub fn choose_kind(&mut self, kind: NoiseKind) -> (answer: bool)
        ensures
            match *old(self) {
                LayerOp::Noise(spec) => answer == (spec.kind != kind) && *final(self)
                    == LayerOp::Noise(NoiseSpec { kind, ..spec }),
                _ => !answer && *final(self) == *old(self),
            },
    {
        match self {
            LayerOp::Noise(spec) => {
                let changed: bool = spec.kind != kind;
                spec.kind = kind;
                changed
            },
            _ => false,
        }
    }

    /// Picks a reading of a slope and says whether that changed the op. Nothing of another op.
    pub fn choose_reading(&mut self, picked: u8) -> (answer: bool)
        ensures
            match (*old(self), *final(self)) {
                (
                    LayerOp::Slope { of, sample_tiles, mode },
                    LayerOp::Slope { of: after_of, sample_tiles: after_tiles, mode: after_mode },
                ) => answer == (mode != picked) && after_of == of && after_tiles == sample_tiles
                    && after_mode == picked,
                (LayerOp::Slope { .. }, _) => false,
                (before, after) => !answer && after == before,
            },
    {
        match self {
            LayerOp::Slope { mode, .. } => {
                let changed: bool = *mode != picked;
                *mode = picked;
                changed
            },
            _ => false,
        }
    }
}

/// Points a reference at another field and says whether that changed it.
pub fn choose_field(id: &mut FieldId, name: &str) -> (answer: bool)
    ensures
        answer == (old(id)@ != name@),
        final(id)@ == name@,
{
    if id.is(name) {
        return false;
    }
    *id = FieldId::new(name);
    true
}

/// An affine map from one interval to another.
#[derive(Clone, Copy, Debug, PartialEq, Eq)]
pub struct Remap {
    /// The interval mapped from.
    pub from: (Single, Single),
    /// The interval mapped to.
    pub to: (Single, Single),
}

/// Where a layer applies.
#[derive(Debug)]
pub enum Mask {
    /// Everywhere as much.
    Constant(Single),
    /// As painted by hand.
    Painted(Raster<u8>),
    /// As another field says.
    Field(FieldId, Remap),
}

impl Mask {
    /// What a kind of mask is called.
    pub open spec fn called(self) -> Seq<char> {
        match self {
            Mask::Constant(_) => "constant"@,
            Mask::Painted(_) => "painted"@,
            Mask::Field(_, _) => "field"@,
        }
    }

    /// What the mask's kind is called.
    pub fn name(&self) -> (name: &'static str)
        ensures
            name@ == self.called(),
    {
        match self {
            Mask::Constant(_) => "constant",
            Mask::Painted(_) => "painted",
            Mask::Field(_, _) => "field",
        }
    }

    /// Holds how much a mask applies everywhere between none and all, and says whether the mask
    /// is of that kind.
    pub fn write_amount(&mut self, amount: Single) -> (answer: bool)
        ensures
            answer == (*old(self) is Constant),
            *final(self) == (if answer {
                Mask::Constant(amount.held(Single(0), Single(UNIT)))
            } else {
                *old(self)
            }),
    {
        match self {
            Mask::Constant(value) => {
                *value = amount.clamp(Single(0), Single(UNIT));
                true
            },
            _ => false,
        }
    }

    /// What a painted mask says of itself; nothing of another kind.
    pub fn painted_label(&self) -> (label: Option<String>)
        ensures
            match (*self, label) {
                (Mask::Painted(raster), Some(label)) => label@ == extent_text(
                    raster.size,
                    " painted"@,
                ),
                (Mask::Painted(_), None) => false,
                (_, label) => label is None,
            },
    {
        match self {
            Mask::Painted(raster) => Some(extent_label(raster.size, " painted")),
            _ => None,
        }
    }
}

/// An extent as columns by rows, and what covers it.
pub open spec fn extent_text(size: UVec2, what: Seq<char>) -> Seq<char> {
    decimal(size.x as nat) + "x"@ + decimal(size.y as nat) + what
}

fn extent_label(size: UVec2, what: &str) -> (label: String)
    ensures
        label@ == extent_text(size, what@),
{
    let mut label: String = decimal_of(size.x as u128);
    label.append("x");
    label.append(decimal_of(size.y as u128).as_str());
    label.append(what);
    label
}

impl LayerOp {
    /// What an op that is a raster says of itself; nothing of another kind.
    pub fn raster_label(&self) -> (label: Option<String>)
        ensures
            match (*self, label) {
                (LayerOp::Paint(raster), Some(label)) => label@ == (if raster.data@.len() == 0 {
                    "unpainted"@
                } else {
                    extent_text(raster.size, " painted"@)
                }),
                (LayerOp::External(raster), Some(label)) => label@ == extent_text(
                    raster.size,
                    " raster"@,
                ),
                (LayerOp::Paint(_), None) | (LayerOp::External(_), None) => false,
                (_, label) => label is None,
            },
    {
        match self {
            LayerOp::Paint(raster) => Some(
                if raster.is_empty() {
                    String::from_str("unpainted")
                } else {
                    extent_label(raster.size, " painted")
                },
            ),
            LayerOp::External(raster) => Some(extent_label(raster.size, " raster")),
            _ => None,
        }
    }
}

/// A number of the brush.
#[derive(Clone, Copy, Debug, PartialEq, Eq, Structural)]
pub enum BrushNumber {
    /// How far it reaches, in document cells.
    Radius,
    /// How soft its rim is.
    Falloff,
    /// How hard it presses.
    Strength,
    /// What setting moves toward.
    Value,
}

/// The greatest radius, in cells.
pub const MOST_RADIUS: u32 = 0x4400_0000;

/// A brush with a number written: the radius is held between none and five hundred and twelve
/// cells, the falloff between none and all.
pub open spec fn brushed(brush: Brush, number: BrushNumber, value: Single) -> Brush {
    match number {
        BrushNumber::Radius => Brush {
            radius_cells: value.held(Single(0), Single(MOST_RADIUS)),
            ..brush
        },
        BrushNumber::Falloff => Brush { falloff: value.held(Single(0), Single(UNIT)), ..brush },
        BrushNumber::Strength => Brush { strength: value, ..brush },
        BrushNumber::Value => Brush { value, ..brush },
    }
}

/// Writes a number of the brush.
pub fn write_brush(brush: &mut Brush, number: BrushNumber, value: Single)
    ensures
        *final(brush) == brushed(*old(brush), number, value),
{
    match number {
        BrushNumber::Radius => {
            brush.radius_cells = value.clamp(Single(0), Single(MOST_RADIUS));
        },
        BrushNumber::Falloff => {
            brush.falloff = value.clamp(Single(0), Single(UNIT));
        },
        BrushNumber::Strength => {
            brush.strength = value;
        },
        BrushNumber::Value => {
            brush.value = value;
        },
    }
}

/// A kind of mask that a form offers. A painted one is not offered: there is nothing here that
/// paints one, and a shape that cannot be filled in is worse than one that cannot be chosen.
#[derive(Clone, Copy, Debug, PartialEq, Eq, Structural)]
pub enum MaskKind {
    /// Everywhere as much.
    Constant,
    /// As another field says.
    Field,
}

/// Makes a mask of a kind, unless it is of that kind already, and says whether that changed it.
pub fn choose_mask(mask: &mut Mask, kind: MaskKind, names: &Vec<String>) -> (answer: bool)
    ensures
        match kind {
            MaskKind::Constant => if *old(mask) is Constant {
                !answer && *final(mask) == *old(mask)
            } else {
                answer && *final(mask) == Mask::Constant(Single(UNIT))
            },
            MaskKind::Field => if *old(mask) is Field {
                !answer && *final(mask) == *old(mask)
            } else {
                answer && match *final(mask) {
                    Mask::Field(id, remap) => id@ == first_named(texts_view(names@)) && remap.from
                        == (Single(0), Single(UNIT)) && remap.to == (Single(0), Single(UNIT)),
                    _ => false,
                }
            },
        },
{
    match (kind, &*mask) {
        (MaskKind::Constant, Mask::Constant(_)) => false,
        (MaskKind::Field, Mask::Field(_, _)) => false,
        (MaskKind::Constant, _) => {
            *mask = Mask::Constant(Single(UNIT));
            true
        },
        (MaskKind::Field, _) => {
            *mask = Mask::Field(
                first_field(names),
                Remap { from: (Single(0), Single(UNIT)), to: (Single(0), Single(UNIT)) },
            );
            true
        },
    }
}

/// Where a layer of a stack of `count` may be moved: one place up unless it is the first, one
/// down unless it is the last.
pub fn moves(index: usize, count: usize) -> (answer: (Option<usize>, Option<usize>))
    requires
        index < count,
    ensures
        answer.0 == (if index > 0 {
            Some((index - 1) as usize)
        } else {
            None
        }),
        answer.1 == (if index + 1 < count {
            Some((index + 1) as usize)
        } else {
            None
        }),
{
    let up: Option<usize> = if index > 0 {
        Some(index - 1)
    } else {
        None
    };
    let down: Option<usize> = if index < count - 1 {
        Some(index + 1)
    } else {
        None
    };
    (up, down)
}

/// Whether the shift of a field is not to be edited: the water solve reads it one texel per
/// cell, and it is already so. A field that arrived at a coarse height some other way can still
/// be put back.
pub fn shift_is_settled(read_by_solve: bool, shift: u8) -> (answer: bool)
    ensures
        answer == (read_by_solve && shift == 0),
{
    read_by_solve && shift == 0
}

/// What the brush panel says of where a drag would land.
pub fn brush_target(active: &str, target: Option<(&str, usize)>) -> (text: String)
    ensures
        text@ == (match target {
            Some((field, index)) => "drag paints "@ + field@ + " layer "@ + decimal(index as nat),
            None => active@ + " has no paint layer"@,
        }),
{
    match target {
        Some((field, index)) => {
            let mut text: String = String::from_str("drag paints ");
            text.append(field);
            text.append(" layer ");
            text.append(decimal_of(index as u128).as_str());
            text
        },
        None => {
            let mut text: String = String::from_str(active);
            text.append(" has no paint layer");
            text
        },
    }
}

} // verus!
