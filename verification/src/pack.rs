//! A baked document as it is handed back: the channels of its fields and its water, put
//! together layer by layer.

use vstd::prelude::*;
use crate::bake::{handed_back, BakeError, BakeErrorView};
use crate::evaluate::texels_at;
use crate::layer::{resolution, texels_of, Layer};
use crate::names::FieldRole;
use crate::quantize::{
    depth_bytes, lifted, meta_of, readable, readable_state, value_range, ChannelMeta, LayerBuild,
};
use crate::raster::UVec2;
use crate::single::Single;
use crate::terrain::TerrainSpec;
use crate::topology::places;
use crate::water::WaterState;

verus! {

/// Where a field's bytes stand.
#[derive(Clone, Copy, Debug, PartialEq, Eq, Structural)]
pub struct Placement {
    /// The layer they are in.
    pub layer: u8,
    /// Which of its channels.
    pub channel: u8,
}

/// A field of a finished terrain.
#[derive(Debug)]
pub struct FieldInfo {
    /// What it is called.
    pub name: String,
    /// What it is for.
    pub role: FieldRole,
    /// How coarse it is.
    pub shift: u8,
    /// Whether it holds classes rather than a quantity.
    pub categorical: bool,
    /// Where its bytes stand.
    pub place: Placement,
}

/// The water of a finished terrain.
#[derive(Clone, Copy, Debug, PartialEq, Eq, Structural)]
pub struct WaterInfo {
    /// How many lakes there are.
    pub lakes: u32,
    /// The layer its bytes are in.
    pub layer: u8,
}

/// The bytes of solved water, one of each per cell.
#[derive(Debug)]
pub struct WaterBytes {
    /// The depths.
    pub depth: Vec<u8>,
    /// The flow along rows.
    pub across: Vec<u8>,
    /// The flow along columns.
    pub down: Vec<u8>,
    /// What reaches each cell.
    pub accumulation: Vec<u8>,
    /// The most that reaches any.
    pub largest: Single,
}

/// What the fields and the water of a document are stored as.
#[derive(Debug)]
pub struct Tables {
    /// The shift of each layer.
    pub shifts: Vec<u8>,
    /// Where each readable field is.
    pub placements: Vec<Placement>,
    /// The bytes of each readable field.
    pub encoded: Vec<Vec<u8>>,
    /// The bytes of the water.
    pub water: WaterBytes,
}

impl Tables {
    /// The tables of a document with nothing to read.
    pub fn none() -> (tables: Tables)
        ensures
            tables.shifts@.len() == 0,
            tables.placements@.len() == 0,
            tables.encoded@.len() == 0,
            tables.water.depth@.len() == 0,
            tables.water.across@.len() == 0,
            tables.water.down@.len() == 0,
            tables.water.accumulation@.len() == 0,
            tables.water.largest == Single(0),
    {
        Tables {
            shifts: Vec::new(),
            placements: Vec::new(),
            encoded: Vec::new(),
            water: WaterBytes {
                depth: Vec::new(),
                across: Vec::new(),
                down: Vec::new(),
                accumulation: Vec::new(),
                largest: Single(0),
            },
        }
    }
}

/// A baked document as it is handed back.
#[derive(Debug)]
pub struct Packed {
    /// The extent in cells.
    pub size: UVec2,
    /// The fields that are baked, in declaration order.
    pub fields: Vec<FieldInfo>,
    /// The layers their bytes are in, and last that of the water.
    pub layers: Vec<LayerBuild>,
    /// The water, where there is any.
    pub water: Option<WaterInfo>,
}

/// The fields of a document that are baked, by place.
pub open spec fn all_readable(spec: TerrainSpec) -> Seq<int> {
    readable(spec, spec.fields@.len() as int)
}

/// Whether tables are those of a document: a place in one of the layers and the bytes for
/// each field that is baked, and a depth for each cell of the water.
pub open spec fn fits(spec: TerrainSpec, tables: Tables) -> bool {
    &&& tables.placements@.len() == all_readable(spec).len()
    &&& tables.encoded@.len() == all_readable(spec).len()
    &&& forall|i: int|
        0 <= i < tables.placements@.len() ==> (#[trigger] tables.placements@[i]).layer
            < tables.shifts@.len()
    &&& readable_state(spec) matches Some(state) ==> tables.water.depth@.len()
        == state.depth.data@.len()
}

/// Which of the first `upto` fields are in a layer.
pub open spec fn placed_in(placements: Seq<Placement>, layer: int, upto: int) -> Seq<int>
    decreases upto,
{
    if upto <= 0 {
        Seq::empty()
    } else {
        let rest = placed_in(placements, layer, upto - 1);
        if placements[upto - 1].layer == layer {
            rest.push(upto - 1)
        } else {
            rest
        }
    }
}

/// Columns of bytes.
pub open spec fn columns_view(columns: Seq<Vec<u8>>) -> Seq<Seq<u8>> {
    columns.map_values(|column: Vec<u8>| column@)
}

/// Whether a layer holds those of the first `upto` fields that are placed in it, in order.
pub open spec fn holds_fields(
    build: LayerBuild,
    spec: TerrainSpec,
    tables: Tables,
    layer: int,
    upto: int,
) -> bool {
    let list = all_readable(spec);
    let chosen = placed_in(tables.placements@, layer, upto);
    &&& build.shift == Some(tables.shifts@[layer])
    &&& build.size == texels_of(spec.size, tables.shifts@[layer])
    &&& build.channels@ == chosen.map_values(
        |i: int| meta_of(spec.fields@[list[i]].baked.data@),
    )
    &&& columns_view(build.columns@) == chosen.map_values(|i: int| tables.encoded@[i]@)
}

/// Whether a field of a finished terrain is the field at a place of the document.
pub open spec fn describes(info: FieldInfo, field: Layer, place: Placement) -> bool {
    &&& info.name@ == field.id@
    &&& info.role == field.role
    &&& info.shift == field.shift
    &&& info.categorical == field.categorical
    &&& info.place == place
}

/// The greatest of the finite numbers among some and zero.
pub open spec fn deepest_of(values: Seq<Single>) -> Single
    decreases values.len(),
{
    if values.len() == 0 {
        Single(0)
    } else {
        let rest = deepest_of(values.drop_last());
        if values.last().finite() {
            rest.larger(values.last())
        } else {
            rest
        }
    }
}

/// Whether a layer holds the water: its depth, its flow along both axes and what reaches each
/// cell.
pub open spec fn holds_water(
    build: LayerBuild,
    state: WaterState,
    size: UVec2,
    bytes: WaterBytes,
) -> bool {
    &&& build.shift == Some(0u8)
    &&& build.size == size
    &&& build.channels@ == seq![
        ChannelMeta::Log(deepest_of(state.depth.data@)),
        ChannelMeta::Unit,
        ChannelMeta::Unit,
        ChannelMeta::Log(bytes.largest),
    ]
    &&& columns_view(build.columns@) == seq![
        lifted(state.depth.data@, bytes.depth@),
        bytes.across@,
        bytes.down@,
        bytes.accumulation@,
    ]
}

/// Whether a finished terrain is what a document and its tables make.
pub open spec fn packs(spec: TerrainSpec, tables: Tables, packed: Packed) -> bool {
    let list = all_readable(spec);
    let count = tables.shifts@.len();
    &&& packed.size == spec.size
    &&& packed.fields@.len() == list.len()
    &&& forall|i: int|
        0 <= i < list.len() ==> describes(
            #[trigger] packed.fields@[i],
            spec.fields@[list[i]],
            tables.placements@[i],
        )
    &&& forall|layer: int|
        0 <= layer < count ==> holds_fields(
            #[trigger] packed.layers@[layer],
            spec,
            tables,
            layer,
            list.len() as int,
        )
    &&& match readable_state(spec) {
        Some(state) => {
            &&& packed.layers@.len() == count + 1
            &&& holds_water(packed.layers@[count as int], state, spec.size, tables.water)
            &&& packed.water == Some(WaterInfo { lakes: state.lakes, layer: (count % 256) as u8 })
        },
        None => packed.layers@.len() == count && packed.water is None,
    }
}

/// The greatest of the finite numbers among some and zero.
pub fn deepest(values: &Vec<Single>) -> (answer: Single)
    ensures
        answer == deepest_of(values@),
{
    let mut answer: Single = Single(0);
    let mut i: usize = 0;
    proof {
        assert(values@.take(0) =~= Seq::<Single>::empty());
    }
    while i < values.len()
        invariant
            i <= values@.len(),
            answer == deepest_of(values@.take(i as int)),
        decreases values@.len() - i,
    {
        proof {
            assert(values@.take(i as int + 1).drop_last() =~= values@.take(i as int));
        }
        if values[i].is_finite() {
            answer = answer.max(values[i]);
        }
        i = i + 1;
    }
    proof {
        assert(values@.take(i as int) =~= values@);
    }
    answer
}

/// The layer of the water.
pub fn water_layer(state: &WaterState, size: UVec2, bytes: WaterBytes) -> (build: LayerBuild)
    requires
        bytes.depth@.len() == state.depth.data@.len(),
    ensures
        holds_water(build, *state, size, bytes),
{
    let mut build: LayerBuild = LayerBuild::new(Some(0), size);
    build.push(
        ChannelMeta::Log(deepest(&state.depth.data)),
        depth_bytes(&state.depth.data, &bytes.depth),
    );
    build.push(ChannelMeta::Unit, bytes.across);
    build.push(ChannelMeta::Unit, bytes.down);
    build.push(ChannelMeta::Log(bytes.largest), bytes.accumulation);
    proof {
        assert(build.channels@ =~= seq![
            ChannelMeta::Log(deepest_of(state.depth.data@)),
            ChannelMeta::Unit,
            ChannelMeta::Unit,
            ChannelMeta::Log(bytes.largest),
        ]);
        assert(columns_view(build.columns@) =~= seq![
            lifted(state.depth.data@, bytes.depth@),
            bytes.across@,
            bytes.down@,
            bytes.accumulation@,
        ]);
    }
    build
}

/// Whether each field has a place in one of the layers.
fn all_placed(placements: &Vec<Placement>, layers: usize) -> (answer: bool)
    ensures
        answer == forall|i: int|
            0 <= i < placements@.len() ==> (#[trigger] placements@[i]).layer < layers,
{
    let mut i: usize = 0;
    while i < placements.len()
        invariant
            i <= placements@.len(),
            forall|j: int| 0 <= j < i ==> (#[trigger] placements@[j]).layer < layers,
        decreases placements@.len() - i,
    {
        if placements[i].layer as usize >= layers {
            return false;
        }
        i = i + 1;
    }
    true
}

/// The layers before any field is in them.
fn empty_layers(size: UVec2, shifts: &Vec<u8>) -> (layers: Vec<LayerBuild>)
    ensures
        layers@.len() == shifts@.len(),
        forall|l: int|
            0 <= l < shifts@.len() ==> {
                &&& (#[trigger] layers@[l]).shift == Some(shifts@[l])
                &&& layers@[l].size == texels_of(size, shifts@[l])
                &&& layers@[l].channels@.len() == 0
                &&& layers@[l].columns@.len() == 0
            },
{
    let mut layers: Vec<LayerBuild> = Vec::new();
    let mut i: usize = 0;
    while i < shifts.len()
        invariant
            i <= shifts@.len(),
            layers@.len() == i,
            forall|l: int|
                0 <= l < i ==> {
                    &&& (#[trigger] layers@[l]).shift == Some(shifts@[l])
                    &&& layers@[l].size == texels_of(size, shifts@[l])
                    &&& layers@[l].channels@.len() == 0
                    &&& layers@[l].columns@.len() == 0
                },
        decreases shifts@.len() - i,
    {
        layers.push(LayerBuild::new(Some(shifts[i]), resolution(size, shifts[i])));
        i = i + 1;
    }
    layers
}

/// Whether some values are all whole numbers.
pub open spec fn all_whole(values: Seq<Single>) -> bool {
    forall|i: int| 0 <= i < values.len() ==> (#[trigger] values[i]).integral()
}

/// Whether a field of a document is baked, holds classes, and has a value that is not whole.
pub open spec fn misclassed(spec: TerrainSpec, place: int) -> bool {
    let field = spec.fields@[place];
    field.categorical && field.baked.size == texels_at(spec, place) && !all_whole(
        field.baked.data@,
    )
}

/// The first of the fields from a place on that holds classes with a value that is not whole.
pub open spec fn misclassed_from(spec: TerrainSpec, from: int) -> Option<int>
    decreases spec.fields@.len() - from,
{
    if from < 0 || from >= spec.fields@.len() {
        None
    } else if misclassed(spec, from) {
        Some(from)
    } else {
        misclassed_from(spec, from + 1)
    }
}

fn are_whole(values: &Vec<Single>) -> (answer: bool)
    ensures
        answer == all_whole(values@),
{
    let mut i: usize = 0;
    while i < values.len()
        invariant
            i <= values@.len(),
            forall|j: int| 0 <= j < i ==> (#[trigger] values@[j]).integral(),
        decreases values@.len() - i,
    {
        if !values[i].is_integral() {
            return false;
        }
        i = i + 1;
    }
    true
}

impl TerrainSpec {
    /// The first field that is baked and holds classes of which one is not whole, by place.
    pub fn misclassed_field(&self) -> (place: Option<usize>)
        ensures
            match place {
                Some(place) => misclassed_from(*self, 0) == Some(place as int) && place
                    < self.fields@.len() && misclassed(*self, place as int),
                None => misclassed_from(*self, 0) is None,
            },
    {
        let mut i: usize = 0;
        while i < self.fields.len()
            invariant
                i <= self.fields@.len(),
                misclassed_from(*self, 0) == misclassed_from(*self, i as int),
            decreases self.fields@.len() - i,
        {
            let field: &Layer = &self.fields[i];
            if field.categorical && field.baked.size == field.resolution(self.size) && !are_whole(
                &field.baked.data,
            ) {
                return Some(i);
            }
            i = i + 1;
        }
        None
    }
}

/// A document is refused for a class that is not whole exactly where a field that is baked
/// holds one, and no field before the one it is refused for does.
pub proof fn law_only_a_class_that_is_not_whole_is_refused(spec: TerrainSpec)
    ensures
        match misclassed_from(spec, 0) {
            Some(place) => {
                &&& 0 <= place < spec.fields@.len()
                &&& misclassed(spec, place)
                &&& forall|i: int| 0 <= i < place ==> !#[trigger] misclassed(spec, i)
            },
            None => forall|i: int| 0 <= i < spec.fields@.len() ==> !#[trigger] misclassed(spec, i),
        },
{
    lemma_misclassed_from(spec, 0);
}

proof fn lemma_misclassed_from(spec: TerrainSpec, from: int)
    requires
        0 <= from,
    ensures
        match misclassed_from(spec, from) {
            Some(place) => {
                &&& from <= place < spec.fields@.len()
                &&& misclassed(spec, place)
                &&& forall|i: int| from <= i < place ==> !#[trigger] misclassed(spec, i)
            },
            None => forall|i: int|
                from <= i < spec.fields@.len() ==> !#[trigger] misclassed(spec, i),
        },
    decreases spec.fields@.len() - from,
{
    if from < spec.fields@.len() && !misclassed(spec, from) {
        lemma_misclassed_from(spec, from + 1);
    }
}

/// Puts a baked document together from what its fields and its water are stored as: the
/// fields that are baked at their resolution, each in the layer it is placed in, and last the
/// water where it covers the document. Nothing where the tables are not those of the document.
///
/// [`BakeError::Channel`] where a field of classes holds a value that is not whole, for the
/// first that does.
pub fn quantize(spec: &TerrainSpec, tables: Tables) -> (answer: Result<Option<Packed>, BakeError>)
    ensures
        match answer {
            Ok(packed) => misclassed_from(*spec, 0) is None && handed_back(*spec, tables, packed),
            Err(error) => misclassed_from(*spec, 0) is Some && error@ == BakeErrorView::Channel(
                spec.fields@[misclassed_from(*spec, 0)->0].id@,
            ),
        },
{
    match spec.misclassed_field() {
        Some(place) => Err(BakeError::Channel(spec.fields[place].id.to_text())),
        None => Ok(assembled(spec, tables)),
    }
}

fn assembled(spec: &TerrainSpec, tables: Tables) -> (answer: Option<Packed>)
    ensures
        handed_back(*spec, tables, answer),
{
    let ghost given = tables;
    let list: Vec<usize> = spec.readable_fields();
    let ghost order = all_readable(*spec);
    proof {
        lemma_readable(*spec, spec.fields@.len() as int);
        assert(places(list@).len() == list@.len());
    }
    if tables.placements.len() != list.len() || tables.encoded.len() != list.len() {
        return None;
    }
    if !all_placed(&tables.placements, tables.shifts.len()) {
        return None;
    }
    if let Some(state) = spec.readable_water() {
        if tables.water.depth.len() != state.depth.data.len() {
            return None;
        }
    }
    let mut layers: Vec<LayerBuild> = empty_layers(spec.size, &tables.shifts);
    let count: usize = tables.shifts.len();
    let placements: Vec<Placement> = tables.placements;
    let mut encoded: Vec<Vec<u8>> = tables.encoded;
    let mut fields: Vec<FieldInfo> = Vec::new();
    let mut i: usize = 0;
    proof {
        assert forall|l: int| 0 <= l < count implies holds_fields(
            #[trigger] layers@[l],
            *spec,
            given,
            l,
            0,
        ) by {
            let chosen = placed_in(given.placements@, l, 0);
            assert(layers@[l].channels@ =~= chosen.map_values(
                |i: int| meta_of(spec.fields@[order[i]].baked.data@),
            ));
            assert(columns_view(layers@[l].columns@) =~= chosen.map_values(
                |i: int| given.encoded@[i]@,
            ));
        }
    }
    while i < list.len()
        invariant
            i <= list@.len(),
            order == all_readable(*spec),
            places(list@) == order,
            order.len() == list@.len(),
            forall|k: int| 0 <= k < order.len() ==> 0 <= #[trigger] order[k] < spec.fields@.len(),
            fits(*spec, given),
            placements@ == given.placements@,
            placements@.len() == list@.len(),
            count == given.shifts@.len(),
            layers@.len() == count,
            encoded@.len() == list@.len(),
            forall|k: int| i <= k < encoded@.len() ==> #[trigger] encoded@[k] == given.encoded@[k],
            fields@.len() == i,
            forall|k: int|
                0 <= k < i ==> describes(
                    #[trigger] fields@[k],
                    spec.fields@[order[k]],
                    placements@[k],
                ),
            forall|l: int|
                0 <= l < count ==> holds_fields(
                    #[trigger] layers@[l],
                    *spec,
                    given,
                    l,
                    i as int,
                ),
        decreases list@.len() - i,
    {
        proof {
            assert(places(list@)[i as int] == list@[i as int]);
            assert(order[i as int] == list@[i as int]);
        }
        let field: &Layer = &spec.fields[list[i]];
        let place: Placement = placements[i];
        let at: usize = place.layer as usize;
        assert(given.placements@[i as int].layer < given.shifts@.len());
        let mut column: Vec<u8> = Vec::new();
        std::mem::swap(&mut column, &mut encoded[i]);
        assert(column == given.encoded@[i as int]);
        let ghost before = layers@;
        layers[at].push(value_range(&field.baked.data), column);
        fields.push(
            FieldInfo {
                name: field.id.to_text(),
                role: field.role,
                shift: field.shift,
                categorical: field.categorical,
                place,
            },
        );
        proof {
            assert forall|l: int| 0 <= l < count implies holds_fields(
                #[trigger] layers@[l],
                *spec,
                given,
                l,
                i as int + 1,
            ) by {
                assert(holds_fields(before[l], *spec, given, l, i as int));
                if l == at {
                    let chosen = placed_in(given.placements@, l, i as int);
                    let more = placed_in(given.placements@, l, i as int + 1);
                    assert(more =~= chosen.push(i as int));
                    assert(layers@[l].channels@ =~= more.map_values(
                        |i: int| meta_of(spec.fields@[order[i]].baked.data@),
                    ));
                    assert(columns_view(layers@[l].columns@) =~= columns_view(
                        before[l].columns@,
                    ).push(column@));
                    assert(columns_view(layers@[l].columns@) =~= more.map_values(
                        |i: int| given.encoded@[i]@,
                    ));
                }
            }
        }
        i = i + 1;
    }
    let water: Option<WaterInfo> = match spec.readable_water() {
        Some(state) => {
            layers.push(water_layer(state, spec.size, tables.water));
            Some(WaterInfo { lakes: state.lakes(), layer: (count % 256) as u8 })
        },
        None => None,
    };
    Some(Packed { size: spec.size, fields, layers, water })
}

/// A field that is baked is one of the document's.
proof fn lemma_readable(spec: TerrainSpec, upto: int)
    requires
        0 <= upto <= spec.fields@.len(),
    ensures
        forall|k: int|
            0 <= k < readable(spec, upto).len() ==> 0 <= #[trigger] readable(spec, upto)[k] < upto,
    decreases upto,
{
    if upto > 0 {
        lemma_readable(spec, upto - 1);
        let rest = readable(spec, upto - 1);
        let all = readable(spec, upto);
        assert forall|k: int| 0 <= k < all.len() implies 0 <= #[trigger] all[k] < upto by {
            if k < rest.len() {
                assert(all[k] == rest[k]);
            }
        }
    }
}

} // verus!
