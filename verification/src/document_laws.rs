//! What holds of every document that is checked, planned and baked step by step.

use vstd::prelude::*;
use crate::bake::{
    advanced, finish_fault, named_in, planned, released_by, step_fault, step_run, watered, Bake,
    BakeError, BakeErrorView, BakeProgress, StepKind, StepView,
};
use crate::bake_laws::{
    law_a_run_is_baked_number_by_number, law_held_values_are_baked_number_by_number,
};
use crate::evaluate::{bake_refusal, baked_whole, reallocated, texels_at};
use crate::faults::{
    all_reads, all_resolved, found, ids_of, lemma_found, readable_rows, repeat_from, resolved,
    unreadable_faults, Names, Reasons,
};
use crate::grid::{cell, lemma_cell, step_x, step_y};
use crate::layer::{texels_of, Layer};
use crate::names::FieldRole;
use crate::plan_error::PlanErrorView;
use crate::raster::{Raster, UVec2};
use crate::single::Single;
use crate::single_laws::kept_between;
use crate::solve::{height_place, water_fault};
use crate::terrain::{
    allocated, evaluated, full_order, held_bytes, readable_order, released, role_fault, role_from,
    role_holder, role_shared, without_faults, Dispatch, TerrainSpec,
};
use crate::topology::{law_an_order_puts_each_after_what_it_reads, ordered};
use crate::values::sorts_before;
use crate::water::{is_state, WaterErrorView, WaterParts, WaterSpec, WaterState};

verus! {

/// Whether a field of that name stands at a place and none of that name before it.
pub open spec fn first_named(fields: Seq<Layer>, name: Seq<char>, at: int) -> bool {
    &&& 0 <= at < fields.len()
    &&& fields[at].id@ == name
    &&& forall|i: int| 0 <= i < at ==> (#[trigger] fields[i]).id@ != name
}

/// Whether no field has a name.
pub open spec fn unnamed(fields: Seq<Layer>, name: Seq<char>) -> bool {
    forall|i: int| 0 <= i < fields.len() ==> (#[trigger] fields[i]).id@ != name
}

proof fn lemma_named_place(fields: Seq<Layer>, name: Seq<char>)
    ensures
        found(ids_of(fields), name) matches Some(at) ==> first_named(fields, name, at),
        found(ids_of(fields), name) is None ==> unnamed(fields, name),
{
    let ids = ids_of(fields);
    lemma_found(ids, name, 0);
    if let Some(at) = found(ids, name) {
        assert(ids[at] == fields[at].id@);
        assert forall|i: int| 0 <= i < at implies (#[trigger] fields[i]).id@ != name by {
            assert(ids[i] == fields[i].id@);
        }
    } else {
        assert forall|i: int| 0 <= i < fields.len() implies (#[trigger] fields[i]).id@ != name by {
            assert(ids[i] == fields[i].id@);
        }
    }
}

/// Water can be solved over a document with cells where the first field of the height's name
/// is at full resolution and baked at the document's size and the moisture, where it is
/// named, is a field too. Otherwise the fault is the first of these that does not hold, and
/// names what it is about.
pub proof fn law_water_is_refused_for_the_first_thing_amiss(spec: TerrainSpec, water: WaterSpec)
    ensures
        ({
            let fields = spec.fields@;
            let cells = spec.size.x > 0 && spec.size.y > 0;
            match water_fault(spec, water) {
                Some(WaterErrorView::ZeroSize(x, y)) => !cells && x == spec.size.x && y
                    == spec.size.y,
                Some(WaterErrorView::UnknownHeightField(name)) => cells && name == water.height@
                    && unnamed(fields, name),
                Some(WaterErrorView::CoarseHeight(name, shift)) => cells && name == water.height@
                    && exists|at: int| #[trigger]
                    first_named(fields, name, at) && fields[at].shift == shift && shift > 0,
                Some(WaterErrorView::UnbakedHeight(name)) => cells && name == water.height@
                    && exists|at: int| #[trigger]
                    first_named(fields, name, at) && fields[at].shift == 0 && fields[at].baked.size
                        != spec.size,
                Some(WaterErrorView::UnknownMoistureField(name)) => cells && unnamed(fields, name)
                    && water.moisture is Some && (water.moisture->0)@ == name && exists|at: int|
                    #[trigger]
                    first_named(fields, water.height@, at) && fields[at].shift == 0
                        && fields[at].baked.size == spec.size,
                None => cells && (exists|at: int| #[trigger]
                    first_named(fields, water.height@, at) && fields[at].shift == 0
                        && fields[at].baked.size == spec.size) && (water.moisture is Some
                    ==> !unnamed(fields, (water.moisture->0)@)),
            }
        }),
{
    let fields = spec.fields@;
    lemma_named_place(fields, water.height@);
    if water.moisture is Some {
        let name = (water.moisture->0)@;
        lemma_named_place(fields, name);
        assert(unnamed(fields, name) == (found(ids_of(fields), name) is None)) by {
            if let Some(at) = found(ids_of(fields), name) {
                assert(fields[at].id@ == name);
            }
        }
    }
    match water_fault(spec, water) {
        Some(WaterErrorView::ZeroSize(x, y)) => {},
        Some(WaterErrorView::UnknownHeightField(name)) => {},
        Some(WaterErrorView::CoarseHeight(name, shift)) => {
            assert(first_named(fields, name, height_place(spec, water)->0));
        },
        Some(WaterErrorView::UnbakedHeight(name)) => {
            assert(first_named(fields, name, height_place(spec, water)->0));
        },
        Some(WaterErrorView::UnknownMoistureField(name)) => {
            assert(first_named(fields, water.height@, height_place(spec, water)->0));
        },
        None => {
            assert(first_named(fields, water.height@, height_place(spec, water)->0));
        },
    }
}

proof fn lemma_role_from(fields: Seq<Layer>, role: FieldRole, from: int)
    requires
        0 <= from,
    ensures
        role_from(fields, role, from) matches Some(at) ==> from <= at < fields.len()
            && fields[at].role == role && forall|i: int|
            from <= i < at ==> (#[trigger] fields[i]).role != role,
        role_from(fields, role, from) is None ==> forall|i: int|
            from <= i < fields.len() ==> (#[trigger] fields[i]).role != role,
    decreases fields.len() - from,
{
    if from < fields.len() && fields[from].role != role {
        lemma_role_from(fields, role, from + 1);
    }
}

/// Whether two fields hold a role.
pub open spec fn held_twice(fields: Seq<Layer>, role: FieldRole) -> bool {
    exists|i: int, j: int|
        0 <= i < j < fields.len() && (#[trigger] fields[i]).role == role && (
        #[trigger] fields[j]).role == role
}

proof fn lemma_role_shared(fields: Seq<Layer>, role: FieldRole)
    ensures
        role_shared(fields, role) == held_twice(fields, role),
{
    lemma_role_from(fields, role, 0);
    if let Some(at) = role_from(fields, role, 0) {
        lemma_role_from(fields, role, at + 1);
        if role_from(fields, role, at + 1) is Some {
            let next = role_from(fields, role, at + 1)->0;
            assert(fields[at].role == role && fields[next].role == role);
        } else if held_twice(fields, role) {
            let (i, j) = choose|i: int, j: int|
                0 <= i < j < fields.len() && (#[trigger] fields[i]).role == role && (
                #[trigger] fields[j]).role == role;
            assert(at <= i);
            assert(fields[j].role != role);
        }
    } else if held_twice(fields, role) {
        let (i, j) = choose|i: int, j: int|
            0 <= i < j < fields.len() && (#[trigger] fields[i]).role == role && (
            #[trigger] fields[j]).role == role;
        assert(fields[i].role != role);
    }
}

/// A role other than the custom one is held by the first field that claims it, and by none
/// exactly where no field does.
pub proof fn law_a_role_is_held_by_the_first_to_claim_it(fields: Seq<Layer>, role: FieldRole)
    requires
        role != FieldRole::Custom,
    ensures
        match role_holder(fields, role) {
            Some(at) => 0 <= at < fields.len() && fields[at].role == role && forall|i: int|
                0 <= i < at ==> (#[trigger] fields[i]).role != role,
            None => forall|i: int| 0 <= i < fields.len() ==> (#[trigger] fields[i]).role != role,
        },
        role_holder(fields, FieldRole::Custom) is None,
{
    lemma_role_from(fields, role, 0);
}

/// The roles of a document are sound where no two fields hold the height or the moisture,
/// the height is at full resolution, and there is a height where water is wanted. Otherwise
/// the fault names the first of these that does not hold.
pub proof fn law_roles_are_refused_for_the_first_thing_amiss(fields: Seq<Layer>, wanted: bool)
    ensures
        match role_fault(fields, wanted) {
            Some(PlanErrorView::DuplicateRole(role)) => held_twice(fields, role) && (role
                == FieldRole::Height || role == FieldRole::Moisture && !held_twice(
                fields,
                FieldRole::Height,
            )),
            Some(PlanErrorView::CoarseHeight(name, shift)) => shift > 0 && !held_twice(
                fields,
                FieldRole::Height,
            ) && !held_twice(fields, FieldRole::Moisture) && exists|at: int|
                0 <= at < fields.len() && (#[trigger] fields[at]).role == FieldRole::Height
                    && fields[at].id@ == name && fields[at].shift == shift,
            Some(PlanErrorView::MissingHeightField) => wanted && !held_twice(
                fields,
                FieldRole::Moisture,
            ) && forall|i: int|
                0 <= i < fields.len() ==> (#[trigger] fields[i]).role != FieldRole::Height,
            Some(_) => false,
            None => {
                &&& !held_twice(fields, FieldRole::Height)
                &&& !held_twice(fields, FieldRole::Moisture)
                &&& forall|i: int|
                    0 <= i < fields.len() && (#[trigger] fields[i]).role == FieldRole::Height
                        ==> fields[i].shift == 0
                &&& wanted ==> exists|at: int|
                    0 <= at < fields.len() && (#[trigger] fields[at]).role == FieldRole::Height
            },
        },
{
    lemma_role_shared(fields, FieldRole::Height);
    lemma_role_shared(fields, FieldRole::Moisture);
    law_a_role_is_held_by_the_first_to_claim_it(fields, FieldRole::Height);
    if let Some(at) = role_holder(fields, FieldRole::Height) {
        assert(fields[at].role == FieldRole::Height);
        if !held_twice(fields, FieldRole::Height) {
            assert forall|i: int|
                0 <= i < fields.len() && (#[trigger] fields[i]).role
                    == FieldRole::Height implies i == at by {
                if i > at {
                    assert(fields[at].role == FieldRole::Height && fields[i].role
                        == FieldRole::Height);
                }
            }
        }
    }
}

proof fn lemma_repeat_from(ids: Names, from: int)
    requires
        0 <= from,
    ensures
        match repeat_from(ids, from) {
            Some(at) => from <= at < ids.len() && ids.take(at).contains(ids[at]) && forall|j: int|
                from <= j < at ==> !ids.take(j).contains(#[trigger] ids[j]),
            None => forall|j: int|
                from <= j < ids.len() ==> !ids.take(j).contains(#[trigger] ids[j]),
        },
    decreases ids.len() - from,
{
    if from < ids.len() && !ids.take(from).contains(ids[from]) {
        lemma_repeat_from(ids, from + 1);
    }
}

/// A field is baked on its own where the document has cells, no two fields share a name and
/// one has the name that is asked for; otherwise the fault is the first of these that does
/// not hold.
pub proof fn law_a_field_is_refused_for_the_first_thing_amiss(spec: TerrainSpec, id: Seq<char>)
    ensures
        ({
            let fields = spec.fields@;
            let cells = spec.size.x > 0 && spec.size.y > 0;
            let distinct = forall|i: int, j: int|
                0 <= i < j < fields.len() ==> (#[trigger] fields[i]).id@ != (
                #[trigger] fields[j]).id@;
            match bake_refusal(spec, id) {
                Some(PlanErrorView::ZeroSize(x, y)) => !cells && x == spec.size.x && y
                    == spec.size.y,
                Some(PlanErrorView::DuplicateField(name)) => cells && exists|i: int, j: int|
                    0 <= i < j < fields.len() && (#[trigger] fields[i]).id@ == name && (
                    #[trigger] fields[j]).id@ == name,
                Some(PlanErrorView::UnknownField { referenced, reader }) => cells && distinct
                    && referenced == id && reader == id && unnamed(fields, id),
                Some(_) => false,
                None => cells && distinct && !unnamed(fields, id),
            }
        }),
{
    let fields = spec.fields@;
    let ids = ids_of(fields);
    lemma_repeat_from(ids, 0);
    lemma_named_place(fields, id);
    match repeat_from(ids, 0) {
        Some(at) => {
            let i = choose|i: int| 0 <= i < ids.take(at).len() && ids.take(at)[i] == ids[at];
            assert(ids[i] == fields[i].id@ && ids[at] == fields[at].id@);
            assert(fields[i].id@ == ids[at] && fields[at].id@ == ids[at]);
        },
        None => {
            assert forall|i: int, j: int| 0 <= i < j < fields.len() implies (
            #[trigger] fields[i]).id@ != (#[trigger] fields[j]).id@ by {
                assert(ids[i] == fields[i].id@ && ids[j] == fields[j].id@);
                assert(!ids.take(j).contains(ids[j]));
                assert(ids.take(j)[i] == ids[i]);
            }
            if let Some(at) = found(ids, id) {
                assert(fields[at].id@ == id);
            }
        },
    }
}

/// A dispatch that gave the wrong number of values, or failed, leaves the field with the
/// shader it had: its bake is the one it had where that is at its resolution, zeros
/// otherwise.
pub proof fn law_a_dispatch_that_fails_leaves_the_values(
    before: Layer,
    after: Layer,
    dispatch: Dispatch,
    texels: UVec2,
)
    requires
        evaluated(before, after, dispatch, texels),
        dispatch matches Dispatch::Made { values, key } ==> values@.len() != texels.x * texels.y,
        !(dispatch is Held),
    ensures
        dispatch.fault(texels) is Some,
        after.shader == before.shader,
        after.baked.size == texels,
        before.baked.size == texels ==> after.baked == before.baked,
        before.baked.size != texels ==> forall|k: int|
            0 <= k < after.baked.data@.len() ==> #[trigger] after.baked.data@[k] == Single(0),
{
}

/// A step that bakes a field from values that a dispatch made leaves each of them, held in
/// the field's range, at its place in the field that the step names, and every other field,
/// the water and the seed as they were.
pub proof fn law_a_step_bakes_the_field_it_names(
    before: Bake,
    after: Bake,
    values: Vec<Single>,
    key: u64,
    parts: WaterParts,
    answer: Result<BakeProgress, BakeError>,
    at: int,
    k: int,
)
    requires
        advanced(before, after, Dispatch::Made { values, key }, parts, answer),
        answer is Ok,
        before.next_step < before.plan@.len(),
        before.plan@[before.next_step as int].kind == StepKind::Field,
        before.plan@[before.next_step as int].releases.len() == 0,
        first_named(before.spec.fields@, before.plan@[before.next_step as int].field, at),
        before.spec.fields@[at].bounded(),
        0 <= k < values@.len(),
    ensures
        ({
            let field = before.spec.fields@[at];
            let baked = after.spec.fields@[at];
            let texels = texels_of(before.spec.size, field.shift);
            &&& after.spec.fields@.len() == before.spec.fields@.len()
            &&& values@.len() == texels.x * texels.y
            &&& baked.baked.size == texels
            &&& kept_between(values@[k], field.range.0, field.range.1, baked.baked.data@[k])
            &&& baked.shader.stamp == Some(key)
            &&& baked.id == field.id
            &&& forall|i: int|
                0 <= i < after.spec.fields@.len() && i != at ==> #[trigger] after.spec.fields@[i]
                    == before.spec.fields@[i]
            &&& after.spec.water == before.spec.water
            &&& after.spec.seed == before.spec.seed
            &&& after.spec.size == before.spec.size
            &&& after.next_step == before.next_step + 1
            &&& after.last_field@ == before.plan@[before.next_step as int].field
            &&& answer->Ok_0 == BakeProgress::Finished <==> after.next_step == before.plan@.len()
        }),
{
    let step = before.plan@[before.next_step as int];
    let dispatch = Dispatch::Made { values, key };
    lemma_named_place(before.spec.fields@, step.field);
    let place = found(ids_of(before.spec.fields@), step.field);
    assert(place is Some && place->0 == at) by {
        if let Some(p) = place {
            assert(first_named(before.spec.fields@, step.field, p));
            if p < at {
                assert(before.spec.fields@[p].id@ != step.field);
            } else if at < p {
                assert(before.spec.fields@[at].id@ != step.field);
            }
        }
    }
    let mid = choose|mid: TerrainSpec|
        step_fault(before.spec, step, dispatch) is None && #[trigger] step_run(
            before.spec,
            mid,
            step,
            dispatch,
            parts,
        ) && released_by(mid, after.spec, step.releases);
    assert(bake_refusal(before.spec, step.field) is None);
    assert forall|i: int| 0 <= i < mid.fields@.len() implies #[trigger] after.spec.fields@[i]
        == mid.fields@[i] by {
        assert(!named_in(mid, step.releases, i));
    }
    let texels = texels_at(before.spec, at);
    assert(values@.len() == texels.area());
    law_a_run_is_baked_number_by_number(
        before.spec.fields@[at],
        mid.fields@[at],
        values,
        key,
        texels,
        k,
    );
}

/// A document that has been given water has that of a solve over the field its water names,
/// the depths and the codes in the order of the cells, and is otherwise as it was.
pub proof fn law_water_is_solved_over_the_field_it_names(
    before: TerrainSpec,
    after: TerrainSpec,
    water: WaterSpec,
    parts: WaterParts,
    at: int,
)
    requires
        watered(before, after, water, parts),
        first_named(before.fields@, water.height@, at),
    ensures
        after.fields == before.fields,
        after.size == before.size,
        after.seed == before.seed,
        after.water_spec == Some(water),
        after.water is Some,
        is_state(
            after.water->0,
            before.fields@[at].baked,
            parts,
            water.lake_min_cells as int,
        ),
        parts.fit(before.fields@[at].baked.size.area()) && before.fields@[at].baked.size.area() > 0
            ==> (after.water->0).depth.data@ == parts.depth@ && (after.water->0).flow_accum.data@
            == parts.codes@ && (after.water->0).depth.size == before.fields@[at].baked.size,
{
    lemma_named_place(before.fields@, water.height@);
    let place = height_place(before, water);
    assert(place is Some && place->0 == at) by {
        if let Some(p) = place {
            assert(first_named(before.fields@, water.height@, p));
            if p < at {
                assert(before.fields@[p].id@ != water.height@);
            } else if at < p {
                assert(before.fields@[at].id@ != water.height@);
            }
        }
    }
}

/// The cell that a cell drains into is the one its direction code points at: east for one
/// and then on round by eighths of a turn, south-east for two, south for three.
pub proof fn law_water_goes_where_its_code_points(state: WaterState, x: int, y: int)
    requires
        state.wf(),
        0 <= x < state.depth.size.x,
        0 <= y < state.depth.size.y,
    ensures
        ({
            let width = state.depth.size.x as int;
            let rows = state.depth.size.y as int;
            let code = state.flow_dir.data@[y * width + x];
            let across = x + step_x(code as int - 1);
            let down = y + step_y(code as int - 1);
            &&& 1 <= code <= 8 && 0 <= across < width && 0 <= down < rows ==> state.drains_to(x, y)
                == Some((across, down))
            &&& code == 0 || code > 8 ==> state.drains_to(x, y) is None
            &&& !(0 <= across < width && 0 <= down < rows) ==> state.drains_to(x, y) is None
            &&& code == 1 && x + 1 < width ==> state.drains_to(x, y) == Some((x + 1, y))
            &&& code == 3 && y + 1 < rows ==> state.drains_to(x, y) == Some((x, y + 1))
            &&& code == 5 && x > 0 ==> state.drains_to(x, y) == Some((x - 1, y))
            &&& code == 7 && y > 0 ==> state.drains_to(x, y) == Some((x, y - 1))
        }),
{
    let width = state.depth.size.x as int;
    let rows = state.depth.size.y as int;
    lemma_cell(x, y, width, rows);
    let code = state.flow_dir.data@[y * width + x];
    let across = x + step_x(code as int - 1);
    let down = y + step_y(code as int - 1);
    assert(state.depth.covers(x, y));
    assert(cell(x, y, width) == y * width + x);
    if 0 <= across < width && 0 <= down < rows {
        lemma_cell(across, down, width, rows);
    }
}

/// A bake can be finished once every step of its plan has run, and says how many have not.
pub proof fn law_a_bake_waits_for_its_last_step(bake: Bake)
    requires
        bake.wf(),
    ensures
        bake.next_step < bake.plan@.len() ==> (finish_fault(bake) matches Some(
            BakeErrorView::StepsRemaining(count),
        ) && count + bake.next_step == bake.plan@.len()),
        bake.next_step == bake.plan@.len() ==> !(finish_fault(bake) matches Some(
            BakeErrorView::StepsRemaining(_),
        )),
{
}

/// The rasters of a document hold four bytes for each of their texels: one more field holds
/// four times its texels more, and fields of one extent hold that many times the same.
pub proof fn law_a_texel_takes_four_bytes(fields: Seq<Layer>, area: int, count: int)
    requires
        0 <= count <= fields.len(),
        forall|i: int| 0 <= i < fields.len() ==> (#[trigger] fields[i]).baked.size.area() == area,
    ensures
        held_bytes(fields, count) == 4 * area * count,
    decreases count,
{
    if count > 0 {
        law_a_texel_takes_four_bytes(fields, area, count - 1);
        assert(4 * area * count == 4 * area * (count - 1) + 4 * area) by (nonlinear_arith);
    } else {
        assert(4 * area * count == 0) by (nonlinear_arith)
            requires
                count == 0,
        ;
    }
}

/// Names sort by the first character in which they differ, and a name before every longer one
/// that starts with it.
pub proof fn law_names_sort_by_their_first_difference(
    start: Seq<char>,
    a: Seq<char>,
    b: Seq<char>,
)
    ensures
        a.len() > 0 && b.len() > 0 && a[0] < b[0] ==> sorts_before(start + a, start + b)
            && !sorts_before(start + b, start + a),
        b.len() > 0 ==> sorts_before(start, start + b) && !sorts_before(start + b, start),
        !sorts_before(start, start),
    decreases start.len(),
{
    if start.len() == 0 {
        assert(start + a =~= a);
        assert(start + b =~= b);
    } else {
        let rest = start.skip(1);
        law_names_sort_by_their_first_difference(rest, a, b);
        assert((start + a).skip(1) =~= rest + a);
        assert((start + b).skip(1) =~= rest + b);
        assert((start + a)[0] == start[0] && (start + b)[0] == start[0]);
    }
}

/// A step that bakes a field can run where the document can be baked, has the field, and the
/// dispatch gave as many values as the field has texels or none were asked for. A step that
/// solves the water can run where water is wanted and nothing is amiss with it.
pub proof fn law_a_step_runs_where_nothing_is_amiss(
    spec: TerrainSpec,
    step: StepView,
    dispatch: Dispatch,
    at: int,
)
    requires
        step.kind == StepKind::Field ==> first_named(spec.fields@, step.field, at),
    ensures
        step.kind == StepKind::Field && bake_refusal(spec, step.field) is None ==> (step_fault(
            spec,
            step,
            dispatch,
        ) is None <==> match dispatch {
            Dispatch::Held => true,
            Dispatch::Made { values, key } => {
                let texels = texels_of(spec.size, spec.fields@[at].shift);
                values@.len() == texels.x * texels.y
            },
            Dispatch::Failed(_) => false,
        }),
        step.kind == StepKind::Field && bake_refusal(spec, step.field) is Some ==> step_fault(
            spec,
            step,
            dispatch,
        ) is Some,
        step.kind == StepKind::Water ==> (step_fault(spec, step, dispatch) is None <==> (
        spec.water_spec matches Some(water) && water_fault(spec, water) is None)),
{
    if step.kind == StepKind::Field {
        lemma_named_place(spec.fields@, step.field);
        let place = found(ids_of(spec.fields@), step.field);
        assert(place is Some && place->0 == at) by {
            if let Some(p) = place {
                assert(first_named(spec.fields@, step.field, p));
                if p < at {
                    assert(spec.fields@[p].id@ != step.field);
                } else if at < p {
                    assert(spec.fields@[at].id@ != step.field);
                }
            }
        }
    }
}

/// What a step releases loses its bake and nothing else; what it does not release stays as it
/// was.
pub proof fn law_a_step_releases_what_it_names(
    before: TerrainSpec,
    after: TerrainSpec,
    names: Seq<Seq<char>>,
    at: int,
)
    requires
        released_by(before, after, names),
        0 <= at < before.fields@.len(),
        forall|i: int, j: int|
            0 <= i < j < before.fields@.len() ==> (#[trigger] before.fields@[i]).id@ != (
            #[trigger] before.fields@[j]).id@,
    ensures
        after.fields@.len() == before.fields@.len(),
        names.contains(before.fields@[at].id@) ==> {
            &&& after.fields@[at].baked.data@.len() == 0
            &&& after.fields@[at].shader == before.fields@[at].shader
            &&& after.fields@[at].id == before.fields@[at].id
        },
        !names.contains(before.fields@[at].id@) ==> after.fields@[at] == before.fields@[at],
        after.water == before.water && after.size == before.size && after.seed == before.seed,
{
    let fields = before.fields@;
    let ids = ids_of(fields);
    let name = fields[at].id@;
    if names.contains(name) {
        let k = choose|k: int| 0 <= k < names.len() && names[k] == name;
        lemma_named_place(fields, name);
        let place = found(ids, name);
        assert(place == Some(at)) by {
            if let Some(p) = place {
                assert(first_named(fields, name, p));
                if p != at {
                    if p < at {
                        assert(fields[p].id@ != fields[at].id@);
                    } else {
                        assert(fields[at].id@ != fields[p].id@);
                    }
                }
            }
        }
        assert(found(ids, names[k]) == Some(at));
        assert(named_in(before, names, at));
        assert(after.fields@[at].baked.size == (UVec2 { x: 0, y: 0 }));
    } else {
        assert(!named_in(before, names, at)) by {
            if named_in(before, names, at) {
                let k = choose|k: int|
                    0 <= k < names.len() && found(ids, #[trigger] names[k]) == Some(at);
                lemma_named_place(fields, names[k]);
                assert(names[k] == name);
            }
        }
    }
}

/// A document that is baked in place has every field that can bake baked from the values its
/// shader holds, number by number where those are at the field's resolution, and every other
/// field without a bake.
pub proof fn law_baking_in_place_bakes_what_each_field_holds(
    before: TerrainSpec,
    after: TerrainSpec,
    faults: Reasons,
    at: int,
    k: int,
)
    requires
        before.wf(),
        baked_whole(before, after, faults),
        0 <= at < before.fields@.len(),
        before.fields@[at].bounded(),
    ensures
        ({
            let field = before.fields@[at];
            let baked = after.fields@[at];
            let texels = texels_of(before.size, field.shift);
            &&& after.fields@.len() == before.fields@.len()
            &&& after.water == before.water && after.size == before.size && after.seed
                == before.seed
            &&& baked.shader == field.shader && baked.id == field.id
            &&& faults[at] is Some ==> baked.baked.data@.len() == 0
            &&& faults[at] is None ==> baked.baked.size == texels
            &&& faults[at] is None && field.shader.values.size == texels && 0 <= k < texels.x
                * texels.y ==> kept_between(
                field.shader.values.data@[k],
                field.range.0,
                field.range.1,
                baked.baked.data@[k],
            )
        }),
{
    let field = before.fields@[at];
    let texels = texels_of(before.size, field.shift);
    assert(field.wf());
    if faults[at] is None {
        assert(evaluated(field, after.fields@[at], Dispatch::Held, texels));
        if 0 <= k < texels.x * texels.y {
            law_held_values_are_baked_number_by_number(field, after.fields@[at], texels, k);
        }
    } else {
        assert(released(field, after.fields@[at]));
        assert(after.fields@[at].baked.size == (UVec2 { x: 0, y: 0 }));
    }
}

/// The last step of the plan of a document that wants water solves it over the first field
/// that holds the height, by its name.
pub proof fn law_the_water_is_planned_over_the_height(spec: TerrainSpec)
    requires
        planned(spec) is Ok,
        spec.water_spec is Some,
    ensures
        ({
            let steps = planned(spec)->Ok_0;
            &&& steps.len() > 0
            &&& steps.last().kind == StepKind::Water
            &&& steps.last().releases.len() == 0
            &&& exists|at: int|
                0 <= at < spec.fields@.len() && (#[trigger] spec.fields@[at]).role
                    == FieldRole::Height && steps.last().field == spec.fields@[at].id@
        }),
{
    law_a_role_is_held_by_the_first_to_claim_it(spec.fields@, FieldRole::Height);
    let at = role_holder(spec.fields@, FieldRole::Height)->0;
    assert(role_holder(spec.fields@, FieldRole::Height) is Some);
    assert(spec.fields@[at].role == FieldRole::Height);
}

proof fn lemma_resolved_holds(ids: Names, names: Names, k: int)
    requires
        0 <= k < names.len(),
        resolved(ids, names) is Ok,
    ensures
        found(ids, names[k]) is Some,
        (resolved(ids, names)->Ok_0).contains(found(ids, names[k])->0),
    decreases names.len(),
{
    let rest = names.drop_last();
    let row = resolved(ids, rest)->Ok_0;
    let all = resolved(ids, names)->Ok_0;
    if k < rest.len() {
        assert(rest[k] == names[k]);
        lemma_resolved_holds(ids, rest, k);
        let place = found(ids, names[k])->0;
        let i = choose|i: int| 0 <= i < row.len() && row[i] == place;
        assert(all[i] == place);
    } else {
        let place = found(ids, names[k])->0;
        if !row.contains(place) {
            assert(all[all.len() - 1] == place);
        }
    }
}

proof fn lemma_resolved_fault(ids: Names, names: Names)
    requires
        resolved(ids, names) is Err,
    ensures
        names.contains(resolved(ids, names)->Err_0),
        found(ids, resolved(ids, names)->Err_0) is None,
    decreases names.len(),
{
    let rest = names.drop_last();
    if resolved(ids, rest) is Err {
        lemma_resolved_fault(ids, rest);
        let name = resolved(ids, rest)->Err_0;
        let i = choose|i: int| 0 <= i < rest.len() && rest[i] == name;
        assert(names[i] == name);
    } else {
        assert(names[names.len() - 1] == names.last());
    }
}

proof fn lemma_all_resolved_rows(ids: Names, reads: Seq<Names>, upto: int)
    requires
        0 <= upto,
    ensures
        match all_resolved(ids, reads, upto) {
            Ok(rows) => rows.len() == upto && forall|i: int|
                0 <= i < upto ==> resolved(ids, reads[i]) == Ok::<Seq<int>, Seq<char>>(
                    #[trigger] rows[i],
                ),
            Err(fault) => exists|i: int|
                0 <= i < upto && #[trigger] resolved(ids, reads[i]) == Err::<Seq<int>, Seq<char>>(
                    fault.0,
                ) && ids[i] == fault.1,
        },
    decreases upto,
{
    if upto > 0 {
        lemma_all_resolved_rows(ids, reads, upto - 1);
        match all_resolved(ids, reads, upto - 1) {
            Err(fault) => {},
            Ok(rows) => {
                match resolved(ids, reads[upto - 1]) {
                    Err(name) => {
                        assert(resolved(ids, reads[upto - 1]) == Err::<Seq<int>, Seq<char>>(name));
                    },
                    Ok(row) => {
                        let all = rows.push(row);
                        assert forall|i: int| 0 <= i < upto implies resolved(ids, reads[i]) == Ok::<
                            Seq<int>,
                            Seq<char>,
                        >(#[trigger] all[i]) by {
                            if i < upto - 1 {
                                assert(all[i] == rows[i]);
                            }
                        }
                    },
                }
            },
        }
    }
}

/// In the order that a document's fields bake in, a field stands after every field whose name
/// it reads; each field stands in it once.
pub proof fn law_fields_bake_after_the_names_they_read(
    ids: Names,
    reads: Seq<Names>,
    place: int,
    k: int,
)
    requires
        reads.len() == ids.len(),
        full_order(ids, reads) is Ok,
        0 <= place < ids.len(),
        0 <= k < reads[(full_order(ids, reads)->Ok_0)[place]].len(),
    ensures
        ({
            let order = full_order(ids, reads)->Ok_0;
            let name = reads[order[place]][k];
            &&& order.len() == ids.len()
            &&& order.no_duplicates()
            &&& exists|earlier: int|
                0 <= earlier < place && ids[#[trigger] order[earlier]] == name
        }),
{
    let n = ids.len() as int;
    let rows = all_resolved(ids, reads, n)->Ok_0;
    lemma_all_resolved_rows(ids, reads, n);
    crate::terrain::lemma_all_resolved(ids, reads, n);
    assert(crate::topology::rows_fit(rows));
    let order = ordered(rows)->Ok_0;
    law_an_order_puts_each_after_what_it_reads(rows, place, 0);
    let at = order[place];
    let name = reads[at][k];
    assert(resolved(ids, reads[at]) == Ok::<Seq<int>, Seq<char>>(rows[at]));
    lemma_resolved_holds(ids, reads[at], k);
    lemma_found(ids, name, 0);
    let read = found(ids, name)->0;
    law_an_order_puts_each_after_what_it_reads(rows, place, read);
    let earlier = choose|e: int| 0 <= e < order.take(place).len() && order.take(place)[e] == read;
    assert(order[earlier] == read);
}

/// A document that cannot be ordered says why: a name that two fields share, a name that is
/// read and that no field has, with the field that reads it, or a circle.
pub proof fn law_an_order_is_refused_for_what_is_amiss(ids: Names, reads: Seq<Names>)
    requires
        reads.len() == ids.len(),
    ensures
        match full_order(ids, reads) {
            Err(PlanErrorView::DuplicateField(name)) => exists|i: int, j: int|
                0 <= i < j < ids.len() && #[trigger] ids[i] == name && #[trigger] ids[j] == name,
            Err(PlanErrorView::UnknownField { referenced, reader }) => !ids.contains(referenced)
                && exists|i: int|
                0 <= i < ids.len() && #[trigger] ids[i] == reader && reads[i].contains(referenced),
            Err(PlanErrorView::Cycle(_)) => true,
            Err(_) => false,
            Ok(_) => forall|i: int, k: int|
                0 <= i < ids.len() && 0 <= k < reads[i].len() ==> ids.contains(
                    #[trigger] reads[i][k],
                ),
        },
{
    let n = ids.len() as int;
    lemma_repeat_from(ids, 0);
    match repeat_from(ids, 0) {
        Some(at) => {
            let i = choose|i: int| 0 <= i < ids.take(at).len() && ids.take(at)[i] == ids[at];
            assert(ids[i] == ids[at]);
        },
        None => {
            lemma_all_resolved_rows(ids, reads, n);
            match all_resolved(ids, reads, n) {
                Err(fault) => {
                    let i = choose|i: int|
                        0 <= i < n && #[trigger] resolved(ids, reads[i]) == Err::<
                            Seq<int>,
                            Seq<char>,
                        >(fault.0) && ids[i] == fault.1;
                    lemma_resolved_fault(ids, reads[i]);
                    lemma_found(ids, fault.0, 0);
                    assert(ids[i] == fault.1);
                    if ids.contains(fault.0) {
                        let j = choose|j: int| 0 <= j < ids.len() && ids[j] == fault.0;
                        assert(ids[j] != fault.0);
                    }
                },
                Ok(rows) => {
                    assert forall|i: int, k: int|
                        0 <= i < ids.len() && 0 <= k < reads[i].len() implies ids.contains(
                        #[trigger] reads[i][k],
                    ) by {
                        assert(resolved(ids, reads[i]) == Ok::<Seq<int>, Seq<char>>(rows[i]));
                        lemma_resolved_holds(ids, reads[i], k);
                        lemma_found(ids, reads[i][k], 0);
                        assert(ids[found(ids, reads[i][k])->0] == reads[i][k]);
                    }
                },
            }
        },
    }
}

/// A bake that starts gives every field that can bake a raster at its own resolution, the one
/// it had where that fits and zeros otherwise, takes that of every other field, and changes
/// nothing else.
pub proof fn law_a_bake_starts_from_rasters_at_each_resolution(
    before: TerrainSpec,
    after: TerrainSpec,
    faults: Reasons,
    at: int,
)
    requires
        reallocated(before, after, faults),
        0 <= at < before.fields@.len(),
    ensures
        ({
            let field = before.fields@[at];
            let left = after.fields@[at];
            let texels = texels_of(before.size, field.shift);
            &&& after.fields@.len() == before.fields@.len()
            &&& after.water == before.water && after.size == before.size
            &&& left.shader == field.shader && left.id == field.id
            &&& faults[at] is Some ==> left.baked.data@.len() == 0
            &&& faults[at] is None ==> left.baked.size == texels
            &&& faults[at] is None && field.baked.size == texels ==> left.baked == field.baked
            &&& faults[at] is None && field.baked.size != texels ==> forall|k: int|
                0 <= k < left.baked.data@.len() ==> #[trigger] left.baked.data@[k] == Single(0)
        }),
{
    if faults[at] is Some {
        assert(released(before.fields@[at], after.fields@[at]));
        assert(after.fields@[at].baked.size == (UVec2 { x: 0, y: 0 }));
    } else {
        assert(allocated(before.fields@[at], after.fields@[at], texels_at(before, at)));
    }
}

/// A solve over no cells, or with parts that are not one for each cell, gives no water.
pub proof fn law_water_without_its_parts_is_empty(
    state: WaterState,
    height: Raster<Single>,
    parts: WaterParts,
    least: int,
)
    requires
        height.wf(),
        is_state(state, height, parts, least),
        height.data@.len() == 0 || parts.depth@.len() != height.data@.len() || parts.codes@.len()
            != height.data@.len() || parts.slopes@.len() != height.data@.len(),
    ensures
        state.depth.data@.len() == 0,
        state.flow_dir.data@.len() == 0,
        state.lake_id.data@.len() == 0,
        state.lakes == 0,
{
}

/// A plan is refused for the first thing amiss: a document without cells, then its roles, then
/// the order of its fields; where nothing is, there is a plan.
pub proof fn law_a_plan_is_refused_for_the_first_thing_amiss(spec: TerrainSpec)
    ensures
        ({
            let cells = spec.size.x > 0 && spec.size.y > 0;
            let roles = role_fault(spec.fields@, spec.water_spec is Some);
            let order = full_order(ids_of(spec.fields@), all_reads(spec.fields@));
            &&& !cells ==> planned(spec) == Err::<Seq<StepView>, PlanErrorView>(
                PlanErrorView::ZeroSize(spec.size.x, spec.size.y),
            )
            &&& cells && roles is Some ==> planned(spec) == Err::<Seq<StepView>, PlanErrorView>(
                roles->0,
            )
            &&& cells && roles is None && order is Err ==> planned(spec) == Err::<
                Seq<StepView>,
                PlanErrorView,
            >(order->Err_0)
            &&& cells && roles is None && order is Ok ==> planned(spec) is Ok
        }),
{
}

/// The fields that can be read have an order where the document has cells, no two fields share
/// a name and those fields do not read each other in a circle; the order leaves out what
/// cannot bake and no other field.
pub proof fn law_what_can_be_read_is_ordered(
    size: UVec2,
    ids: Names,
    reads: Seq<Names>,
    place: int,
)
    requires
        reads.len() == ids.len(),
        0 <= place < ids.len(),
    ensures
        size.x == 0 || size.y == 0 ==> readable_order(size, ids, reads) == Err::<
            Seq<int>,
            PlanErrorView,
        >(PlanErrorView::ZeroSize(size.x, size.y)),
        size.x > 0 && size.y > 0 ==> match readable_order(size, ids, reads) {
            Ok(order) => ids.no_duplicates() && (order.contains(place)
                <==> unreadable_faults(ids, reads)[place] is None),
            Err(PlanErrorView::DuplicateField(name)) => !ids.no_duplicates() && ids.contains(name),
            Err(PlanErrorView::Cycle(_)) => ids.no_duplicates(),
            Err(_) => false,
        },
{
    let faults = unreadable_faults(ids, reads);
    lemma_repeat_from(ids, 0);
    match repeat_from(ids, 0) {
        Some(at) => {
            let i = choose|i: int| 0 <= i < ids.take(at).len() && ids.take(at)[i] == ids[at];
            assert(ids[i] == ids[at]);
        },
        None => {
            assert forall|i: int, j: int|
                0 <= i < ids.len() && 0 <= j < ids.len() && i != j implies ids[i] != ids[j] by {
                if i < j {
                    assert(!ids.take(j).contains(ids[j]));
                    assert(ids.take(j)[i] == ids[i]);
                } else {
                    assert(!ids.take(i).contains(ids[i]));
                    assert(ids.take(i)[j] == ids[j]);
                }
            }
            let rows = readable_rows(ids, reads, faults);
            if let Ok(order) = ordered(rows) {
                crate::faults::lemma_known_fit(ids, reads, faults);
                law_an_order_puts_each_after_what_it_reads(rows, 0, 0);
                lemma_without_faults(order, faults, place);
            }
        },
    }
}

proof fn lemma_without_faults(order: Seq<int>, faults: Reasons, place: int)
    ensures
        without_faults(order, faults).contains(place) <==> order.contains(place) && faults[place]
            is None,
    decreases order.len(),
{
    if order.len() > 0 {
        let rest = order.drop_last();
        let kept = without_faults(rest, faults);
        let all = without_faults(order, faults);
        lemma_without_faults(rest, faults, place);
        assert(order[order.len() - 1] == order.last());
        if kept.contains(place) {
            let k = choose|k: int| 0 <= k < kept.len() && kept[k] == place;
            assert(all[k] == place);
        }
        if all.contains(place) && !kept.contains(place) {
            let k = choose|k: int| 0 <= k < all.len() && all[k] == place;
            if k < kept.len() {
                assert(kept[k] == place);
            }
        }
        if order.contains(place) {
            let k = choose|k: int| 0 <= k < order.len() && order[k] == place;
            if k < rest.len() {
                assert(rest[k] == place);
            } else if faults[place] is None {
                assert(all[all.len() - 1] == place);
            }
        }
        if rest.contains(place) {
            let k = choose|k: int| 0 <= k < rest.len() && rest[k] == place;
            assert(order[k] == place);
        }
    }
}

} // verus!
