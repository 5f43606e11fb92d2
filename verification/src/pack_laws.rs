//! What holds of every finished terrain: where its fields and its water are found again.

use vstd::prelude::*;
use crate::bake::handed_back;
use crate::layer::texels_of;
use crate::pack::{
    all_readable, columns_view, deepest_of, holds_fields, placed_in, Packed, Placement, Tables,
};
use crate::quantize::{law_the_range_holds_every_finite_value, lifted, readable, ChannelMeta};
use crate::single::Single;
use crate::terrain::TerrainSpec;
use crate::water::WaterState;

verus! {

/// The greatest depth is no less than any finite one, and is one of them or zero.
pub proof fn law_the_deepest_is_no_less_than_any(values: Seq<Single>, i: int)
    requires
        0 <= i < values.len(),
    ensures
        values[i].finite() ==> values[i].rank() <= deepest_of(values).rank(),
        deepest_of(values) == Single(0) || values.contains(deepest_of(values)),
        deepest_of(values).finite(),
        deepest_of(values).rank() >= 0,
{
    lemma_deepest(values);
    if values[i].finite() {
        lemma_deepest_at(values, i);
    }
}

proof fn lemma_deepest(values: Seq<Single>)
    ensures
        deepest_of(values) == Single(0) || values.contains(deepest_of(values)),
        deepest_of(values).finite(),
        deepest_of(values).rank() >= 0,
    decreases values.len(),
{
    if values.len() > 0 {
        let shorter = values.drop_last();
        lemma_deepest(shorter);
        if shorter.contains(deepest_of(shorter)) {
            let k = choose|k: int| 0 <= k < shorter.len() && shorter[k] == deepest_of(shorter);
            assert(values[k] == deepest_of(shorter));
        }
        assert(values[values.len() - 1] == values.last());
    }
}

proof fn lemma_deepest_at(values: Seq<Single>, i: int)
    requires
        0 <= i < values.len(),
        values[i].finite(),
    ensures
        values[i].rank() <= deepest_of(values).rank(),
    decreases values.len(),
{
    let shorter = values.drop_last();
    lemma_deepest(shorter);
    if i < shorter.len() {
        assert(shorter[i] == values[i]);
        lemma_deepest_at(shorter, i);
    }
}

/// A terrain with water over all of it ends with the layer of the water. Its first column is
/// the depth, the second the flow across, the third the flow down, the fourth what reaches
/// each cell, each byte for byte as it was stored, but that a cell with water in it never has
/// a depth of zero.
pub proof fn law_the_water_is_packed_column_by_column(
    spec: TerrainSpec,
    tables: Tables,
    packed: Packed,
    state: WaterState,
)
    requires
        handed_back(spec, tables, Some(packed)),
        spec.water == Some(state),
        state.depth.size == spec.size,
    ensures
        ({
            let count = tables.shifts@.len() as int;
            let layer = packed.layers@[count];
            &&& packed.layers@.len() == count + 1
            &&& packed.water is Some
            &&& (packed.water->0).lakes == state.lakes
            &&& count < 256 ==> (packed.water->0).layer == count
            &&& layer.shift == Some(0u8)
            &&& layer.size == spec.size
            &&& layer.columns@.len() == 4
            &&& layer.channels@.len() == 4
            &&& layer.columns@[0]@.len() == tables.water.depth@.len()
            &&& forall|i: int|
                0 <= i < tables.water.depth@.len() ==> {
                    let byte = #[trigger] layer.columns@[0]@[i];
                    let wet = !state.depth.data@[i].nan() && state.depth.data@[i].rank() > 0;
                    &&& tables.water.depth@[i] > 0 ==> byte == tables.water.depth@[i]
                    &&& tables.water.depth@[i] == 0 && wet ==> byte == 1
                    &&& tables.water.depth@[i] == 0 && !wet ==> byte == 0
                }
            &&& layer.columns@[1]@ == tables.water.across@
            &&& layer.columns@[2]@ == tables.water.down@
            &&& layer.columns@[3]@ == tables.water.accumulation@
            &&& layer.channels@[0] == ChannelMeta::Log(deepest_of(state.depth.data@))
            &&& layer.channels@[1] == ChannelMeta::Unit
            &&& layer.channels@[2] == ChannelMeta::Unit
            &&& layer.channels@[3] == ChannelMeta::Log(tables.water.largest)
        }),
{
    let layer = packed.layers@[tables.shifts@.len() as int];
    let columns = columns_view(layer.columns@);
    assert(columns.len() == 4);
    assert(columns[0] == layer.columns@[0]@);
    assert(columns[1] == layer.columns@[1]@);
    assert(columns[2] == layer.columns@[2]@);
    assert(columns[3] == layer.columns@[3]@);
    assert(columns[0] == lifted(state.depth.data@, tables.water.depth@));
}

/// A terrain without water over all of it has no layer but those of its fields, and says so.
pub proof fn law_water_that_does_not_cover_is_not_packed(
    spec: TerrainSpec,
    tables: Tables,
    packed: Packed,
)
    requires
        handed_back(spec, tables, Some(packed)),
        spec.water matches Some(state) ==> state.depth.size != spec.size,
    ensures
        packed.layers@.len() == tables.shifts@.len(),
        packed.water is None,
{
}

/// How many of the first `upto` places are in a layer.
pub open spec fn placed_count(placements: Seq<Placement>, layer: int, upto: int) -> int
    decreases upto,
{
    if upto <= 0 {
        0
    } else {
        placed_count(placements, layer, upto - 1) + if placements[upto - 1].layer == layer {
            1int
        } else {
            0int
        }
    }
}

proof fn lemma_placed(placements: Seq<Placement>, layer: int, upto: int)
    requires
        0 <= upto <= placements.len(),
    ensures
        placed_in(placements, layer, upto).len() == placed_count(placements, layer, upto),
        0 <= placed_count(placements, layer, upto) <= upto,
    decreases upto,
{
    if upto > 0 {
        lemma_placed(placements, layer, upto - 1);
    }
}

proof fn lemma_placed_at(placements: Seq<Placement>, layer: int, upto: int, i: int)
    requires
        0 <= i < upto <= placements.len(),
        placements[i].layer == layer,
    ensures
        placed_count(placements, layer, i) < placed_count(placements, layer, upto),
        placed_in(placements, layer, upto)[placed_count(placements, layer, i)] == i,
    decreases upto,
{
    lemma_placed(placements, layer, upto - 1);
    lemma_placed(placements, layer, upto);
    lemma_placed(placements, layer, i);
    if i < upto - 1 {
        lemma_placed_at(placements, layer, upto - 1, i);
    }
}

/// The bytes of each field are a column of the layer it is placed in: after those of the
/// fields before it in the same layer, byte for byte, with the least and the greatest of the
/// field's finite values beside them. The layer has the shift and the extent of its own, a
/// column for each field placed in it and no other.
pub proof fn law_a_field_is_packed_into_its_layer(
    spec: TerrainSpec,
    tables: Tables,
    packed: Packed,
    i: int,
)
    requires
        handed_back(spec, tables, Some(packed)),
        0 <= i < tables.placements@.len(),
    ensures
        ({
            let place = tables.placements@[i];
            let layer = packed.layers@[place.layer as int];
            let column = placed_count(tables.placements@, place.layer as int, i);
            let values = spec.fields@[all_readable(spec)[i]].baked.data@;
            &&& place.layer < packed.layers@.len()
            &&& layer.shift == Some(tables.shifts@[place.layer as int])
            &&& layer.size == texels_of(spec.size, tables.shifts@[place.layer as int])
            &&& layer.columns@.len() == placed_count(
                tables.placements@,
                place.layer as int,
                tables.placements@.len() as int,
            )
            &&& layer.channels@.len() == layer.columns@.len()
            &&& 0 <= column < layer.columns@.len()
            &&& layer.columns@[column]@ == tables.encoded@[i]@
            &&& layer.channels@[column] matches ChannelMeta::Linear(low, high) && forall|k: int|
                0 <= k < values.len() && (#[trigger] values[k]).finite() ==> low.rank()
                    <= values[k].rank() <= high.rank() && values.contains(low) && values.contains(
                    high,
                )
        }),
{
    let n = tables.placements@.len() as int;
    let place = tables.placements@[i];
    let at = place.layer as int;
    let layer = packed.layers@[at];
    let values = spec.fields@[all_readable(spec)[i]].baked.data@;
    lemma_placed(tables.placements@, at, n);
    lemma_placed(tables.placements@, at, i);
    lemma_placed_at(tables.placements@, at, n, i);
    let column = placed_count(tables.placements@, at, i);
    let chosen = placed_in(tables.placements@, at, n);
    assert(chosen[column] == i);
    assert(holds_fields(packed.layers@[at], spec, tables, at, n));
    assert(columns_view(layer.columns@).len() == chosen.len());
    assert(columns_view(layer.columns@)[column] == layer.columns@[column]@);
    if let ChannelMeta::Linear(low, high) = layer.channels@[column] {
        assert forall|k: int| 0 <= k < values.len() && (#[trigger] values[k]).finite() implies
            low.rank() <= values[k].rank() <= high.rank() && values.contains(low)
            && values.contains(high) by {
            law_the_range_holds_every_finite_value(values, k);
        }
    }
}

/// The fields of a terrain are the document's that are baked at their own resolution, in the
/// document's order, each under its own name with its own role, shift and place.
pub proof fn law_the_fields_are_those_baked_at_their_resolution(
    spec: TerrainSpec,
    tables: Tables,
    packed: Packed,
)
    requires
        handed_back(spec, tables, Some(packed)),
    ensures
        ({
            let list = all_readable(spec);
            &&& packed.size == spec.size
            &&& packed.fields@.len() == list.len()
            &&& forall|i: int, j: int| 0 <= i < j < list.len() ==> list[i] < list[j]
            &&& forall|i: int|
                0 <= i < list.len() ==> 0 <= #[trigger] list[i] < spec.fields@.len()
                    && spec.fields@[list[i]].baked.size == texels_of(
                    spec.size,
                    spec.fields@[list[i]].shift,
                )
            &&& forall|p: int|
                0 <= p < spec.fields@.len() && (#[trigger] spec.fields@[p]).baked.size == texels_of(
                    spec.size,
                    spec.fields@[p].shift,
                ) ==> list.contains(p)
            &&& forall|i: int|
                0 <= i < list.len() ==> {
                    &&& (#[trigger] packed.fields@[i]).name@ == spec.fields@[list[i]].id@
                    &&& packed.fields@[i].role == spec.fields@[list[i]].role
                    &&& packed.fields@[i].shift == spec.fields@[list[i]].shift
                    &&& packed.fields@[i].categorical == spec.fields@[list[i]].categorical
                    &&& packed.fields@[i].place == tables.placements@[i]
                }
        }),
{
    lemma_readable_list(spec, spec.fields@.len() as int);
}

proof fn lemma_readable_list(spec: TerrainSpec, upto: int)
    requires
        0 <= upto <= spec.fields@.len(),
    ensures
        ({
            let list = readable(spec, upto);
            &&& forall|i: int, j: int| 0 <= i < j < list.len() ==> list[i] < list[j]
            &&& forall|i: int|
                0 <= i < list.len() ==> 0 <= #[trigger] list[i] < upto
                    && spec.fields@[list[i]].baked.size == texels_of(
                    spec.size,
                    spec.fields@[list[i]].shift,
                )
            &&& forall|p: int|
                0 <= p < upto && (#[trigger] spec.fields@[p]).baked.size == texels_of(
                    spec.size,
                    spec.fields@[p].shift,
                ) ==> list.contains(p)
        }),
    decreases upto,
{
    if upto > 0 {
        lemma_readable_list(spec, upto - 1);
        let rest = readable(spec, upto - 1);
        let list = readable(spec, upto);
        assert forall|i: int| 0 <= i < list.len() implies 0 <= #[trigger] list[i] < upto
            && spec.fields@[list[i]].baked.size == texels_of(
            spec.size,
            spec.fields@[list[i]].shift,
        ) by {
            if i < rest.len() {
                assert(list[i] == rest[i]);
            }
        }
        assert forall|p: int|
            0 <= p < upto && (#[trigger] spec.fields@[p]).baked.size == texels_of(
                spec.size,
                spec.fields@[p].shift,
            ) implies list.contains(p) by {
            if p < upto - 1 {
                assert(rest.contains(p));
                let k = choose|k: int| 0 <= k < rest.len() && rest[k] == p;
                assert(list[k] == p);
            } else {
                assert(list[list.len() - 1] == p);
            }
        }
    }
}

/// Tables with a place in one of the layers and bytes for each field that is baked, and a
/// depth for each cell of the water where that covers the document, are packed; others are
/// not.
pub proof fn law_tables_that_fit_are_packed(
    spec: TerrainSpec,
    tables: Tables,
    answer: Option<Packed>,
)
    requires
        handed_back(spec, tables, answer),
    ensures
        answer is Some <==> {
            &&& tables.placements@.len() == all_readable(spec).len()
            &&& tables.encoded@.len() == all_readable(spec).len()
            &&& forall|i: int|
                0 <= i < tables.placements@.len() ==> (#[trigger] tables.placements@[i]).layer
                    < tables.shifts@.len()
            &&& spec.water matches Some(state) ==> state.depth.size == spec.size
                ==> tables.water.depth@.len() == state.depth.data@.len()
        },
{
}

} // verus!
