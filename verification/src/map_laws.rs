//! What holds of every map that is drawn: where its bytes come from.

use vstd::prelude::*;
use crate::document_laws::first_named;
use crate::faults::{found, ids_of, lemma_found};
use crate::grid::{lemma_cell, lemma_split};
use crate::layer::Layer;
use crate::maps::{
    maps_field, maps_water, settings_of, shown_field, value_bytes, ByteOrder, FieldMap, WaterMap,
};
use crate::raster::{Raster, UVec2};
use crate::single::Single;
use crate::single_laws::law_the_bytes_of_a_word_spell_it;
use crate::terrain::TerrainSpec;
use crate::view::{finite_of, fitted, is_water_map};
use crate::water::WaterState;

verus! {

/// The bytes of some values are four for each, in the values' order, that add up to its
/// pattern: from the least significant or from the most.
pub proof fn law_each_value_is_four_bytes_in_its_place(
    values: Seq<Single>,
    order: ByteOrder,
    k: int,
)
    requires
        0 <= k < values.len(),
    ensures
        ({
            let bytes = value_bytes(values, order);
            &&& bytes.len() == 4 * values.len()
            &&& order is Little ==> bytes[4 * k] + 0x100 * bytes[4 * k + 1] + 0x1_0000 * bytes[4 * k
                + 2] + 0x100_0000 * bytes[4 * k + 3] == values[k].0
            &&& order is Big ==> 0x100_0000 * bytes[4 * k] + 0x1_0000 * bytes[4 * k + 1] + 0x100
                * bytes[4 * k + 2] + bytes[4 * k + 3] == values[k].0
        }),
    decreases values.len(),
{
    let shorter = values.drop_last();
    let before = value_bytes(shorter, order);
    lemma_bytes_fit(shorter, order);
    law_the_bytes_of_a_word_spell_it(values.last().0);
    if k < shorter.len() {
        law_each_value_is_four_bytes_in_its_place(shorter, order, k);
        let bytes = value_bytes(values, order);
        assert(bytes[4 * k] == before[4 * k]);
        assert(bytes[4 * k + 1] == before[4 * k + 1]);
        assert(bytes[4 * k + 2] == before[4 * k + 2]);
        assert(bytes[4 * k + 3] == before[4 * k + 3]);
        assert(shorter[k] == values[k]);
    }
}

proof fn lemma_bytes_fit(values: Seq<Single>, order: ByteOrder)
    ensures
        value_bytes(values, order).len() == 4 * values.len(),
    decreases values.len(),
{
    if values.len() > 0 {
        lemma_bytes_fit(values.drop_last(), order);
        law_the_bytes_of_a_word_spell_it(values.last().0);
    }
}

/// The map of a field that is baked has the field's extent and its numbers row by row: the
/// four bytes of the texel in a column and a row stand at four times its place.
pub proof fn law_a_field_is_mapped_row_by_row(
    map: FieldMap,
    baked: Raster<Single>,
    document: UVec2,
    x: int,
    y: int,
)
    requires
        baked.wf(),
        maps_field(map, baked, document, ByteOrder::Little),
        0 <= x < baked.size.x,
        0 <= y < baked.size.y,
    ensures
        ({
            let at = 4 * (y * baked.size.x + x);
            &&& map.document == document
            &&& map.resolution == baked.size
            &&& map.bytes@.len() == 4 * (baked.size.x * baked.size.y)
            &&& map.bytes@[at] + 0x100 * map.bytes@[at + 1] + 0x1_0000 * map.bytes@[at + 2]
                + 0x100_0000 * map.bytes@[at + 3] == baked.data@[y * baked.size.x + x].0
        }),
{
    lemma_cell(x, y, baked.size.x as int, baked.size.y as int);
    law_each_value_is_four_bytes_in_its_place(
        baked.data@,
        ByteOrder::Little,
        y * baked.size.x + x,
    );
}

/// A field without a bake is mapped as one texel of zero.
pub proof fn law_an_unbaked_field_is_one_blank_texel(
    map: FieldMap,
    baked: Raster<Single>,
    document: UVec2,
    order: ByteOrder,
)
    requires
        baked.wf(),
        baked.size.x == 0 || baked.size.y == 0,
        maps_field(map, baked, document, order),
    ensures
        map.document == document,
        map.resolution.x == 1 && map.resolution.y == 1,
        map.bytes@.len() == 4,
        forall|i: int| 0 <= i < 4 ==> #[trigger] map.bytes@[i] == 0,
{
    assert(baked.size.x * baked.size.y == 0) by (nonlinear_arith)
        requires
            baked.size.x == 0 || baked.size.y == 0,
    ;
}

/// The map of the water has two bytes for each cell, in the order of the cells: the first
/// full where water stands on the cell, the second where what reaches it is no less than the
/// threshold, and zero otherwise.
pub proof fn law_the_water_is_mapped_cell_by_cell(
    bytes: Seq<u8>,
    state: WaterState,
    threshold: u16,
    k: int,
)
    requires
        state.wf(),
        is_water_map(bytes, state, threshold),
        0 <= k < state.depth.data@.len(),
    ensures
        ({
            let wet = !state.depth.data@[k].nan() && state.depth.data@[k].rank() > 0;
            &&& bytes.len() == 2 * state.depth.data@.len()
            &&& bytes[2 * k] == (if wet {
                255int
            } else {
                0int
            })
            &&& bytes[2 * k + 1] == (if state.flow_accum.data@[k] >= threshold {
                255int
            } else {
                0int
            })
        }),
{
    let width = state.depth.size.x as int;
    lemma_split(k, width, state.depth.size.y as int);
    let x = k % width;
    let y = k / width;
    assert(state.depth.covers(x, y));
    assert(crate::grid::cell(x, y, width) == k);
    assert(state.depth.texel(x, y) == state.depth.data@[k]);
    assert(state.flow_accum.texel(x, y) == state.flow_accum.data@[k]);
}

/// A document without water is mapped as one blank cell, and one with water at its extent.
pub proof fn law_the_water_map_has_the_extent_of_the_water(
    map: WaterMap,
    water: Option<WaterState>,
    threshold: u16,
)
    requires
        maps_water(map, water, threshold),
    ensures
        water matches Some(state) ==> map.resolution == state.depth.size && map.bytes@.len() == 2 * (
        state.depth.size.x * state.depth.size.y),
        water is None ==> map.resolution.x == 1 && map.resolution.y == 1 && map.bytes@ == seq![
            0u8,
            0u8,
        ],
{
}

/// A layer is lit and lined as it says.
pub proof fn law_a_layer_is_shown_as_it_says(layer: Layer)
    ensures
        settings_of(layer).hillshade <==> layer.hillshade,
        settings_of(layer).contours <==> layer.contours,
        settings_of(layer).light_azimuth == layer.light_azimuth,
        settings_of(layer).contour_interval == layer.contour_interval,
{
}

/// The field that is shown is the first of the name that is asked for.
pub proof fn law_the_field_shown_is_the_one_asked_for(terrain: TerrainSpec, active: Seq<char>)
    ensures
        match shown_field(terrain, active) {
            Some(field) => exists|at: int| #[trigger]
                first_named(terrain.fields@, active, at) && terrain.fields@[at] == field,
            None => forall|i: int|
                0 <= i < terrain.fields@.len() ==> (#[trigger] terrain.fields@[i]).id@ != active,
        },
{
    let fields = terrain.fields@;
    let ids = ids_of(fields);
    lemma_found(ids, active, 0);
    match found(ids, active) {
        Some(at) => {
            assert(ids[at] == fields[at].id@);
            assert forall|i: int| 0 <= i < at implies (#[trigger] fields[i]).id@ != active by {
                assert(ids[i] == fields[i].id@);
            }
            assert(first_named(fields, active, at));
        },
        None => {
            assert forall|i: int| 0 <= i < fields.len() implies (#[trigger] fields[i]).id@
                != active by {
                assert(ids[i] == fields[i].id@);
            }
        },
    }
}

/// The ends of a ramp leave out one sample of each forty at either end: of samples in order,
/// the lower end is the first that is kept and the upper the last.
pub proof fn law_a_fortieth_is_left_out_at_each_end(sorted: Seq<Single>, trim: int)
    requires
        sorted.len() > 0,
        40 * trim <= sorted.len() < 40 * trim + 40,
    ensures
        fitted(sorted) matches Some((low, high)) && low == sorted[trim] && high
            == sorted[sorted.len() - 1 - trim],
        trim <= sorted.len() - 1 - trim,
        fitted(Seq::<Single>::empty()) is None,
{
}

/// The samples a ramp is fitted to are the finite ones, each as often as it occurs.
pub proof fn law_only_finite_samples_count(values: Seq<Single>, value: Single)
    ensures
        value.finite() ==> finite_of(values).to_multiset().count(value)
            == values.to_multiset().count(value),
        !value.finite() ==> finite_of(values).to_multiset().count(value) == 0,
    decreases values.len(),
{
    broadcast use vstd::seq_lib::group_to_multiset_ensures;

    if values.len() > 0 {
        let shorter = values.drop_last();
        law_only_finite_samples_count(shorter, value);
        assert(values =~= shorter.push(values.last()));
    }
}

} // verus!
