//! What a bake promises however it is driven.

use vstd::prelude::*;
use crate::bake::{
    advanced, field_steps, planned, water_step, Bake, BakeError, BakeErrorView, BakeProgress,
    StepKind, StepView,
};
use crate::evaluate::{baked_whole, differs_at, texels_at};
use crate::fault_laws::{astray, law_only_a_field_gone_astray_is_left_unbaked, strays};
use crate::faults::{
    all_reads, all_resolved, first_unknown, found, ids_of, known, repeat_from, resolved,
    unreadable_faults, Names,
};
use crate::grid::{lemma_cell, lemma_split};
use crate::layer::{ordered_range, Layer};
use crate::raster::{Raster, UVec2};
use crate::single::Single;
use crate::single_laws::kept_between;
use crate::terrain::{
    evaluated, full_order, is_bake, lemma_full_order, released, role_fault, Dispatch, TerrainSpec,
};
use crate::topology::law_an_order_puts_each_after_what_it_reads;
use crate::water::WaterParts;

verus! {

/// Each advance that succeeds runs one step: it says that the bake finished where the step
/// was the last and that it advanced where it was not, and the bake then reports one step
/// more and the field of that step. One that fails leaves the count and the field as they
/// were, one past the last step fails with nothing done, and no advance changes the plan.
pub proof fn law_a_bake_counts_its_steps(
    before: Bake,
    after: Bake,
    dispatch: Dispatch,
    parts: WaterParts,
    answer: Result<BakeProgress, BakeError>,
)
    requires
        advanced(before, after, dispatch, parts, answer),
        before.next_step <= before.plan@.len(),
    ensures
        after.plan == before.plan,
        before.next_step == before.plan@.len() ==> after == before && answer is Err
            && answer->Err_0@ == BakeErrorView::NoStepRemaining,
        answer matches Ok(progress) ==> {
            &&& before.next_step < before.plan@.len()
            &&& progress == BakeProgress::Finished <==> before.next_step + 1
                == before.plan@.len()
            &&& progress == BakeProgress::Advanced <==> before.next_step + 1 < before.plan@.len()
            &&& after.next_step == before.next_step + 1
            &&& after.last_field@ == before.plan@[before.next_step as int].field
        },
        answer is Err ==> after.next_step == before.next_step && after.last_field
            == before.last_field,
{
}

/// Whether bakes are those that advances made one after another leave behind, with what each
/// was handed and what it answered.
pub open spec fn is_run(
    bakes: Seq<Bake>,
    handed: Seq<(Dispatch, WaterParts)>,
    answers: Seq<Result<BakeProgress, BakeError>>,
) -> bool {
    &&& bakes.len() == answers.len() + 1
    &&& handed.len() == answers.len()
    &&& forall|i: int|
        0 <= i < answers.len() ==> advanced(
            bakes[i],
            bakes[i + 1],
            handed[i].0,
            handed[i].1,
            #[trigger] answers[i],
        )
}

/// How many of the first answers of a run are successes.
pub open spec fn successes(answers: Seq<Result<BakeProgress, BakeError>>, upto: int) -> int
    decreases upto,
{
    if upto <= 0 {
        0
    } else {
        successes(answers, upto - 1) + (if answers[upto - 1] is Ok {
            1int
        } else {
            0
        })
    }
}

/// However a bake is advanced from its start, it has run as many steps as advances succeeded,
/// and never more than its plan has; an advance answers that it finished exactly where it is
/// the success that runs the last step.
pub proof fn law_a_run_of_a_bake_counts_to_the_end_of_its_plan(
    bakes: Seq<Bake>,
    handed: Seq<(Dispatch, WaterParts)>,
    answers: Seq<Result<BakeProgress, BakeError>>,
    at: int,
)
    requires
        is_run(bakes, handed, answers),
        bakes[0].next_step == 0,
        0 <= at < bakes.len(),
    ensures
        bakes[at].plan == bakes[0].plan,
        bakes[at].next_step == successes(answers, at),
        bakes[at].next_step <= bakes[0].plan@.len(),
        at > 0 ==> (answers[at - 1] == Ok::<BakeProgress, BakeError>(BakeProgress::Finished)
            <==> answers[at - 1] is Ok && bakes[at].next_step == bakes[0].plan@.len()),
    decreases at,
{
    if at > 0 {
        law_a_run_of_a_bake_counts_to_the_end_of_its_plan(bakes, handed, answers, at - 1);
        assert(advanced(
            bakes[at - 1],
            bakes[at - 1 + 1],
            handed[at - 1].0,
            handed[at - 1].1,
            answers[at - 1],
        ));
    }
}

/// Two bakes of the same values into the same range at the same resolution are texel for
/// texel the same.
pub proof fn law_a_bake_is_determined(
    a: Raster<Single>,
    b: Raster<Single>,
    source: Raster<Single>,
    range: (Single, Single),
    texels: UVec2,
)
    requires
        is_bake(a, source, range, texels),
        is_bake(b, source, range, texels),
    ensures
        a.size == b.size,
        a.data@ == b.data@,
{
    assert forall|c: int| 0 <= c < a.data@.len() implies a.data@[c] == b.data@[c] by {
        lemma_split(c, texels.x as int, texels.y as int);
        let x = c % (texels.x as int);
        let y = c / (texels.x as int);
        assert(a.covers(x, y) && b.covers(x, y));
        assert(a.texel(x, y) == b.texel(x, y));
    }
    assert(a.data@ =~= b.data@);
}

/// The texel in column `x` of row `y` of a bake is the number in the same column and row of
/// what was baked, held in the range; beyond the last column or row of what was baked it is
/// the number in that last column or row.
pub proof fn law_a_bake_keeps_columns_and_rows(
    raster: Raster<Single>,
    source: Raster<Single>,
    range: (Single, Single),
    texels: UVec2,
    x: int,
    y: int,
)
    requires
        is_bake(raster, source, range, texels),
        source.wf(),
        source.size.x > 0,
        source.size.y > 0,
        !range.0.nan(),
        !range.1.nan(),
        0 <= x < texels.x,
        0 <= y < texels.y,
    ensures
        raster.size == texels,
        raster.data@.len() == texels.x * texels.y,
        0 <= y * texels.x + x < texels.x * texels.y,
        ({
            let column = if x < source.size.x {
                x
            } else {
                source.size.x - 1
            };
            let row = if y < source.size.y {
                y
            } else {
                source.size.y - 1
            };
            kept_between(
                source.data@[row * source.size.x + column],
                range.0,
                range.1,
                raster.data@[y * texels.x + x],
            )
        }),
{
    lemma_cell(x, y, texels.x as int, texels.y as int);
    assert(raster.covers(x, y));
    assert(raster.texel(x, y) == raster.data@[y * texels.x + x]);
}

/// Where what is baked has the resolution of the bake, each number of the bake is the number
/// at the same place of it, held in the range.
pub proof fn law_a_bake_keeps_every_number_in_its_place(
    raster: Raster<Single>,
    source: Raster<Single>,
    range: (Single, Single),
    texels: UVec2,
    k: int,
)
    requires
        is_bake(raster, source, range, texels),
        source.wf(),
        source.size == texels,
        !range.0.nan(),
        !range.1.nan(),
        0 <= k < texels.x * texels.y,
    ensures
        raster.data@.len() == source.data@.len(),
        kept_between(source.data@[k], range.0, range.1, raster.data@[k]),
        range.0.rank() <= range.1.rank() ==> raster.data@[k] == source.data@[k].held(
            range.0,
            range.1,
        ),
        range.1.rank() < range.0.rank() ==> raster.data@[k] == source.data@[k].held(
            range.1,
            range.0,
        ),
{
    lemma_split(k, texels.x as int, texels.y as int);
    assert(raster.covers(k % (texels.x as int), k / (texels.x as int)));
    assert(raster.texel(k % (texels.x as int), k / (texels.x as int)) == raster.data@[k]);
    law_a_bake_keeps_columns_and_rows(
        raster,
        source,
        range,
        texels,
        k % (texels.x as int),
        k / (texels.x as int),
    );
}

/// A field whose shader was run is baked from what the run gave, each number at its place,
/// held in the field's range.
pub proof fn law_a_run_is_baked_number_by_number(
    before: Layer,
    after: Layer,
    values: Vec<Single>,
    key: u64,
    texels: UVec2,
    k: int,
)
    requires
        before.bounded(),
        evaluated(before, after, Dispatch::Made { values, key }, texels),
        values@.len() == texels.x * texels.y,
        0 <= k < texels.x * texels.y,
    ensures
        after.baked.size == texels,
        after.baked.data@.len() == values@.len(),
        kept_between(values@[k], before.range.0, before.range.1, after.baked.data@[k]),
        after.shader.values.data@ == values@,
        after.shader.stamp == Some(key),
{
    law_a_bake_keeps_every_number_in_its_place(
        after.baked,
        after.shader.values,
        before.range,
        texels,
        k,
    );
}

/// A field whose shader was not run is baked from the values it holds, number by number where
/// they are at the field's resolution, and zero held in its range where it holds none.
pub proof fn law_held_values_are_baked_number_by_number(
    before: Layer,
    after: Layer,
    texels: UVec2,
    k: int,
)
    requires
        before.wf(),
        before.bounded(),
        evaluated(before, after, Dispatch::Held, texels),
        0 <= k < texels.x * texels.y,
    ensures
        after.shader == before.shader,
        after.baked.size == texels,
        before.shader.values.size == texels ==> kept_between(
            before.shader.values.data@[k],
            before.range.0,
            before.range.1,
            after.baked.data@[k],
        ),
        before.shader.values.size == (UVec2 { x: 1, y: 1 }) ==> kept_between(
            before.shader.values.data@[0],
            before.range.0,
            before.range.1,
            after.baked.data@[k],
        ),
        before.shader.values.size == (UVec2 { x: 0, y: 0 }) ==> kept_between(
            Single(0),
            before.range.0,
            before.range.1,
            after.baked.data@[k],
        ),
{
    let w = texels.x as int;
    lemma_split(k, w, texels.y as int);
    let x = k % w;
    let y = k / w;
    assert(after.baked.covers(x, y));
    assert(after.baked.texel(x, y) == after.baked.data@[k]);
    if before.shader.values.size.x > 0 && before.shader.values.size.y > 0 {
        law_a_bake_keeps_columns_and_rows(
            after.baked,
            before.shader.values,
            before.range,
            texels,
            x,
            y,
        );
    }
}

/// Every number in the bake of a field that was computed lies in the range the field
/// declares, whichever way round the range was stored.
pub proof fn law_a_bake_lies_in_the_range_it_declares(
    before: Layer,
    after: Layer,
    dispatch: Dispatch,
    texels: UVec2,
)
    requires
        before.bounded(),
        dispatch.fault(texels) is None,
        evaluated(before, after, dispatch, texels),
    ensures
        after.range == before.range,
        forall|x: int, y: int|
            after.baked.covers(x, y) && !(#[trigger] after.baked.texel(x, y)).nan() ==> {
                &&& ordered_range(after.range).0.at_most(after.baked.texel(x, y))
                &&& after.baked.texel(x, y).at_most(ordered_range(after.range).1)
            },
{
}

/// A field that was baked, released and baked again from the values its shader still holds
/// has the bake it had.
pub proof fn law_a_released_field_bakes_back(
    start: Layer,
    baked: Layer,
    dropped: Layer,
    again: Layer,
    texels: UVec2,
)
    requires
        evaluated(start, baked, Dispatch::Held, texels),
        released(baked, dropped),
        evaluated(dropped, again, Dispatch::Held, texels),
    ensures
        dropped.baked.size.vacant(),
        again.baked.size == baked.baked.size,
        again.baked.data@ == baked.baked.data@,
        again == (Layer { baked: again.baked, ..baked }),
{
    law_a_bake_is_determined(
        baked.baked,
        again.baked,
        start.shader.values,
        start.range,
        texels,
    );
}

/// Whether one document follows another by baking the fields at some places in turn, each
/// from the values its shader holds.
pub open spec fn is_staged(stages: Seq<TerrainSpec>, order: Seq<int>) -> bool {
    &&& stages.len() == order.len() + 1
    &&& forall|k: int|
        0 <= k < order.len() ==> {
            &&& differs_at(#[trigger] stages[k], stages[k + 1], order[k])
            &&& evaluated(
                stages[k].fields@[order[k]],
                stages[k + 1].fields@[order[k]],
                Dispatch::Held,
                texels_at(stages[k], order[k]),
            )
        }
}

/// What a stage has made of a field: nothing while its place is still to come, its bake
/// after that.
proof fn lemma_stage(stages: Seq<TerrainSpec>, order: Seq<int>, upto: int, place: int)
    requires
        is_staged(stages, order),
        order.no_duplicates(),
        0 <= upto <= order.len(),
        0 <= place < stages[0].fields@.len(),
        forall|i: int| 0 <= i < order.len() ==> 0 <= #[trigger] order[i] < stages[0].fields@.len(),
    ensures
        stages[upto] == (TerrainSpec { fields: stages[upto].fields, ..stages[0] }),
        stages[upto].fields@.len() == stages[0].fields@.len(),
        if order.take(upto).contains(place) {
            evaluated(
                stages[0].fields@[place],
                stages[upto].fields@[place],
                Dispatch::Held,
                texels_at(stages[0], place),
            )
        } else {
            stages[upto].fields@[place] == stages[0].fields@[place]
        },
    decreases upto,
{
    if upto > 0 {
        let at = upto - 1;
        lemma_stage(stages, order, at, place);
        assert(differs_at(stages[at], stages[at + 1], order[at]));
        if order[at] == place {
            assert(order.take(upto)[at] == place);
            if order.take(at).contains(place) {
                let k = choose|k: int| 0 <= k < order.take(at).len() && order.take(at)[k] == place;
                assert(order[k] == order[at]);
            }
        } else {
            assert(stages[at + 1].fields@[place] == stages[at].fields@[place]);
            if order.take(upto).contains(place) {
                let k = choose|k: int|
                    0 <= k < order.take(upto).len() && order.take(upto)[k] == place;
                assert(order.take(at)[k] == place);
            } else if order.take(at).contains(place) {
                let k = choose|k: int| 0 <= k < order.take(at).len() && order.take(at)[k] == place;
                assert(order.take(upto)[k] == place);
            }
        }
    } else {
        assert(order.take(0) =~= Seq::<int>::empty());
        assert(stages[0].fields@.len() == stages[0].fields@.len());
    }
}

/// What is read has a name, and all that have one are read.
proof fn lemma_resolved_known(ids: Names, names: Names)
    requires
        resolved(ids, names) is Ok,
    ensures
        resolved(ids, names)->Ok_0 == known(ids, names),
        forall|i: int| 0 <= i < names.len() ==> found(ids, #[trigger] names[i]) is Some,
    decreases names.len(),
{
    if names.len() > 0 {
        lemma_resolved_known(ids, names.drop_last());
        assert forall|i: int| 0 <= i < names.len() implies found(ids, #[trigger] names[i])
            is Some by {
            if i < names.len() - 1 {
                assert(names.drop_last()[i] == names[i]);
            }
        }
    }
}

proof fn lemma_none_unknown(ids: Names, names: Names)
    requires
        forall|i: int| 0 <= i < names.len() ==> found(ids, #[trigger] names[i]) is Some,
    ensures
        first_unknown(ids, names) is None,
    decreases names.len(),
{
    if names.len() > 0 {
        assert forall|i: int| 0 <= i < names.skip(1).len() implies found(
            ids,
            #[trigger] names.skip(1)[i],
        ) is Some by {
            assert(names.skip(1)[i] == names[i + 1]);
        }
        lemma_none_unknown(ids, names.skip(1));
    }
}

proof fn lemma_rows_known(ids: Names, reads: Seq<Names>, upto: int)
    requires
        0 <= upto,
        all_resolved(ids, reads, upto) is Ok,
    ensures
        all_resolved(ids, reads, upto)->Ok_0.len() == upto,
        forall|i: int|
            0 <= i < upto ==> #[trigger] all_resolved(ids, reads, upto)->Ok_0[i] == known(
                ids,
                reads[i],
            ) && resolved(ids, reads[i]) is Ok,
    decreases upto,
{
    if upto > 0 {
        lemma_rows_known(ids, reads, upto - 1);
        lemma_resolved_known(ids, reads[upto - 1]);
        let rows = all_resolved(ids, reads, upto)->Ok_0;
        let fewer = all_resolved(ids, reads, upto - 1)->Ok_0;
        assert forall|i: int| 0 <= i < upto implies #[trigger] rows[i] == known(ids, reads[i])
            && resolved(ids, reads[i]) is Ok by {
            if i < upto - 1 {
                assert(rows[i] == fewer[i]);
            }
        }
    }
}

/// A document whose fields can all be ordered leaves none of them unbaked.
pub proof fn law_an_ordered_document_bakes_every_field(
    ids: Names,
    reads: Seq<Names>,
    place: int,
)
    requires
        reads.len() == ids.len(),
        full_order(ids, reads) is Ok,
        0 <= place < ids.len(),
    ensures
        unreadable_faults(ids, reads)[place] is None,
{
    lemma_rows_known(ids, reads, ids.len() as int);
    law_only_a_field_gone_astray_is_left_unbaked(ids, reads, place);
    if astray(ids, reads, place) {
        let trail = choose|trail: Seq<int>|
            #[trigger] strays(ids, reads, trail) && trail[0] == place;
        let last = trail.last();
        assert(0 <= trail[trail.len() - 1] < ids.len());
        assert(all_resolved(ids, reads, ids.len() as int)->Ok_0[last] == known(ids, reads[last]));
        lemma_resolved_known(ids, reads[last]);
        lemma_none_unknown(ids, reads[last]);
    }
}

/// Baking a document a field at a time in its bake order writes exactly what baking it whole
/// writes.
pub proof fn law_a_staged_bake_writes_what_a_whole_bake_writes(
    stages: Seq<TerrainSpec>,
    whole: TerrainSpec,
    place: int,
)
    requires
        stages.len() > 0,
        ({
            let ids = ids_of(stages[0].fields@);
            let reads = all_reads(stages[0].fields@);
            &&& full_order(ids, reads) is Ok
            &&& is_staged(stages, full_order(ids, reads)->Ok_0)
            &&& baked_whole(stages[0], whole, unreadable_faults(ids, reads))
        }),
        0 <= place < stages[0].fields@.len(),
    ensures
        stages.last().fields@[place].baked.size == whole.fields@[place].baked.size,
        stages.last().fields@[place].baked.data@ == whole.fields@[place].baked.data@,
        stages.last().fields@[place] == (Layer {
            baked: stages.last().fields@[place].baked,
            ..whole.fields@[place]
        }),
{
    let before = stages[0];
    let ids = ids_of(before.fields@);
    let reads = all_reads(before.fields@);
    let order = full_order(ids, reads)->Ok_0;
    lemma_full_order(ids, reads);
    lemma_stage(stages, order, order.len() as int, place);
    assert(order.take(order.len() as int) =~= order);
    assert(order.contains(place));
    law_an_ordered_document_bakes_every_field(ids, reads, place);
    let one = stages.last().fields@[place];
    let other = whole.fields@[place];
    law_a_bake_is_determined(
        one.baked,
        other.baked,
        before.fields@[place].shader.values,
        before.fields@[place].range,
        texels_at(before, place),
    );
}

/// No field step is planned where every field is baked at its resolution.
proof fn lemma_no_steps(spec: TerrainSpec, order: Seq<int>, upto: int)
    requires
        0 <= upto <= order.len(),
        forall|i: int|
            0 <= i < order.len() ==> spec.fields@[#[trigger] order[i]].baked.size == texels_at(
                spec,
                order[i],
            ),
    ensures
        field_steps(spec, order, upto) == Seq::<StepView>::empty(),
    decreases upto,
{
    if upto > 0 {
        lemma_no_steps(spec, order, upto - 1);
        assert(spec.fields@[order[upto - 1]].baked.size == texels_at(spec, order[upto - 1]));
    }
}

/// A document that plans, every field of which has been baked, plans nothing but the water it
/// declares.
pub proof fn law_a_baked_document_plans_no_field(before: TerrainSpec, after: TerrainSpec)
    requires
        planned(before) is Ok,
        baked_whole(
            before,
            after,
            unreadable_faults(ids_of(before.fields@), all_reads(before.fields@)),
        ),
    ensures
        planned(after) == Ok::<_, crate::plan_error::PlanErrorView>(
            if before.water_spec is Some {
                seq![water_step(after)]
            } else {
                Seq::empty()
            },
        ),
{
    let ids = ids_of(before.fields@);
    let reads = all_reads(before.fields@);
    lemma_full_order(ids, reads);
    assert forall|i: int| 0 <= i < before.fields@.len() implies (#[trigger] after.fields@[i])
        == (Layer { baked: after.fields@[i].baked, ..before.fields@[i] })
        && after.fields@[i].baked.size == texels_at(after, i) by {
        law_an_ordered_document_bakes_every_field(ids, reads, i);
    }
    assert(ids_of(after.fields@) =~= ids);
    assert(all_reads(after.fields@) =~= reads);
    lemma_same_roles(before.fields@, after.fields@, before.water_spec is Some);
    let order = full_order(ids, reads)->Ok_0;
    assert forall|i: int| 0 <= i < order.len() implies after.fields@[#[trigger] order[i]].baked.size
        == texels_at(after, order[i]) by {
        assert(0 <= order[i] < ids.len());
        assert(after.fields@[order[i]].baked.size == texels_at(after, order[i]));
    }
    lemma_no_steps(after, order, order.len() as int);
    assert(Seq::<StepView>::empty().push(water_step(after)) =~= seq![water_step(after)]);
}

/// Documents whose fields differ in their bakes alone have the same role faults.
proof fn lemma_same_roles(a: Seq<Layer>, b: Seq<Layer>, wants_water: bool)
    requires
        a.len() == b.len(),
        forall|i: int|
            0 <= i < a.len() ==> (#[trigger] b[i]) == (Layer { baked: b[i].baked, ..a[i] }),
    ensures
        role_fault(a, wants_water) == role_fault(b, wants_water),
{
    lemma_same_role_from(a, b, crate::names::FieldRole::Height, 0);
    lemma_same_role_from(a, b, crate::names::FieldRole::Moisture, 0);
}

proof fn lemma_same_role_from(a: Seq<Layer>, b: Seq<Layer>, role: crate::names::FieldRole, from: int)
    requires
        a.len() == b.len(),
        0 <= from,
        forall|i: int|
            0 <= i < a.len() ==> (#[trigger] b[i]) == (Layer { baked: b[i].baked, ..a[i] }),
    ensures
        crate::terrain::role_from(a, role, from) == crate::terrain::role_from(b, role, from),
        crate::terrain::role_from(a, role, from) matches Some(at) ==> from <= at < a.len()
            && crate::terrain::role_from(a, role, at + 1) == crate::terrain::role_from(
            b,
            role,
            at + 1,
        ),
    decreases a.len() - from,
{
    if from < a.len() {
        assert(b[from] == (Layer { baked: b[from].baked, ..a[from] }));
        lemma_same_role_from(a, b, role, from + 1);
    }
}

/// Whether the field at a place is not baked at its declared resolution.
pub open spec fn unbaked(spec: TerrainSpec, place: int) -> bool {
    spec.fields@[place].baked.size != texels_at(spec, place)
}

/// Whether a step bakes the field at a place.
pub open spec fn bakes(spec: TerrainSpec, step: StepView, place: int) -> bool {
    &&& step.kind == StepKind::Field
    &&& step.field == spec.fields@[place].id@
    &&& step.releases == Seq::<Seq<char>>::empty()
    &&& unbaked(spec, place)
}

/// Whether a step bakes a field of the document.
pub open spec fn bakes_one(spec: TerrainSpec, step: StepView) -> bool {
    exists|place: int| 0 <= place < spec.fields@.len() && #[trigger] bakes(spec, step, place)
}

/// Whether a step among the first `before` bakes the field at a place.
pub open spec fn baked_earlier(
    spec: TerrainSpec,
    steps: Seq<StepView>,
    before: int,
    place: int,
) -> bool {
    exists|k: int| 0 <= k < before && #[trigger] bakes(spec, steps[k], place)
}

/// Whether a step bakes the field at a place of an order, after those at earlier places.
spec fn in_step(spec: TerrainSpec, order: Seq<int>, steps: Seq<StepView>, k: int, j: int) -> bool {
    &&& bakes(spec, steps[k], order[j])
    &&& forall|i: int|
        0 <= i < j && unbaked(spec, #[trigger] order[i]) ==> baked_earlier(
            spec,
            steps,
            k,
            order[i],
        )
}

/// Whether a step bakes the field at one of the first `upto` places of an order.
spec fn has_step(
    spec: TerrainSpec,
    order: Seq<int>,
    steps: Seq<StepView>,
    k: int,
    upto: int,
) -> bool {
    exists|j: int| 0 <= j < upto && in_step(spec, order, steps, k, j)
}

proof fn lemma_steps(spec: TerrainSpec, order: Seq<int>, upto: int)
    requires
        0 <= upto <= order.len(),
    ensures
        ({
            let steps = field_steps(spec, order, upto);
            &&& forall|k: int|
                0 <= k < steps.len() ==> #[trigger] has_step(spec, order, steps, k, upto)
            &&& forall|i: int|
                0 <= i < upto && unbaked(spec, #[trigger] order[i]) ==> baked_earlier(
                    spec,
                    steps,
                    steps.len() as int,
                    order[i],
                )
        }),
    decreases upto,
{
    if upto > 0 {
        let fewer = field_steps(spec, order, upto - 1);
        let steps = field_steps(spec, order, upto);
        lemma_steps(spec, order, upto - 1);
        assert forall|k: int| 0 <= k < fewer.len() implies #[trigger] has_step(
            spec,
            order,
            steps,
            k,
            upto,
        ) by {
            assert(has_step(spec, order, fewer, k, upto - 1));
            let j = choose|j: int| 0 <= j < upto - 1 && in_step(spec, order, fewer, k, j);
            assert(steps[k] == fewer[k]);
            assert forall|i: int|
                0 <= i < j && unbaked(spec, #[trigger] order[i]) implies baked_earlier(
                spec,
                steps,
                k,
                order[i],
            ) by {
                let m = choose|m: int| 0 <= m < k && #[trigger] bakes(spec, fewer[m], order[i]);
                assert(steps[m] == fewer[m]);
                assert(bakes(spec, steps[m], order[i]));
            }
            assert(in_step(spec, order, steps, k, j));
        }
        assert forall|i: int|
            0 <= i < upto - 1 && unbaked(spec, #[trigger] order[i]) implies baked_earlier(
            spec,
            steps,
            fewer.len() as int,
            order[i],
        ) by {
            let m = choose|m: int|
                0 <= m < fewer.len() && #[trigger] bakes(spec, fewer[m], order[i]);
            assert(steps[m] == fewer[m]);
            assert(bakes(spec, steps[m], order[i]));
        }
        if unbaked(spec, order[upto - 1]) {
            let k = fewer.len() as int;
            assert(bakes(spec, steps[k], order[upto - 1]));
            assert(in_step(spec, order, steps, k, upto - 1));
            assert forall|i: int|
                0 <= i < upto && unbaked(spec, #[trigger] order[i]) implies baked_earlier(
                spec,
                steps,
                steps.len() as int,
                order[i],
            ) by {
                if i < upto - 1 {
                    let m = choose|m: int|
                        0 <= m < fewer.len() && #[trigger] bakes(spec, steps[m], order[i]);
                    assert(bakes(spec, steps[m], order[i]));
                }
            }
        }
    }
}

/// A plan solves the water last, and once, where the document declares any; every other step
/// bakes one field that is not baked yet; and a step for each such field is there.
pub proof fn law_a_plan_bakes_each_unbaked_field_and_then_the_water(spec: TerrainSpec, place: int)
    requires
        planned(spec) is Ok,
        0 <= place < spec.fields@.len(),
    ensures
        ({
            let steps = planned(spec)->Ok_0;
            let last = if spec.water_spec is Some {
                steps.len() - 1
            } else {
                steps.len() as int
            };
            &&& spec.water_spec is Some ==> last >= 0 && steps[last] == water_step(spec)
            &&& forall|k: int| 0 <= k < last ==> bakes_one(spec, #[trigger] steps[k])
            &&& unbaked(spec, place) <==> baked_earlier(spec, steps, last, place)
        }),
{
    let ids = ids_of(spec.fields@);
    let reads = all_reads(spec.fields@);
    let order = full_order(ids, reads)->Ok_0;
    lemma_full_order(ids, reads);
    let fields = field_steps(spec, order, order.len() as int);
    let steps = planned(spec)->Ok_0;
    let last = fields.len() as int;
    lemma_steps(spec, order, order.len() as int);
    assert forall|k: int| 0 <= k < last implies bakes_one(spec, #[trigger] steps[k]) by {
        assert(has_step(spec, order, fields, k, order.len() as int));
        let j = choose|j: int| 0 <= j < order.len() && in_step(spec, order, fields, k, j);
        assert(steps[k] == fields[k]);
        assert(0 <= order[j] < ids.len());
        assert(bakes(spec, steps[k], order[j]));
    }
    assert(order.contains(place));
    let i = choose|i: int| 0 <= i < order.len() && order[i] == place;
    if unbaked(spec, place) {
        assert(unbaked(spec, order[i]));
        let m = choose|m: int| 0 <= m < last && #[trigger] bakes(spec, fields[m], order[i]);
        assert(steps[m] == fields[m]);
        assert(bakes(spec, steps[m], place));
    }
}

/// A step of a plan bakes its field only after every field that one reads: each was baked
/// before, or an earlier step bakes it.
pub proof fn law_a_step_comes_after_what_its_field_reads(
    spec: TerrainSpec,
    step: int,
    place: int,
    read: int,
)
    requires
        planned(spec) is Ok,
        0 <= step < planned(spec)->Ok_0.len(),
        0 <= place < spec.fields@.len(),
        bakes(spec, planned(spec)->Ok_0[step], place),
        crate::fault_laws::reads_field(
            ids_of(spec.fields@),
            all_reads(spec.fields@),
            place,
            read,
        ),
    ensures
        !unbaked(spec, read) || baked_earlier(spec, planned(spec)->Ok_0, step, read),
{
    let ids = ids_of(spec.fields@);
    let reads = all_reads(spec.fields@);
    let rows = all_resolved(ids, reads, ids.len() as int)->Ok_0;
    let order = full_order(ids, reads)->Ok_0;
    lemma_full_order(ids, reads);
    lemma_rows_known(ids, reads, ids.len() as int);
    crate::terrain::lemma_all_resolved(ids, reads, ids.len() as int);
    let fields = field_steps(spec, order, order.len() as int);
    let steps = planned(spec)->Ok_0;
    lemma_steps(spec, order, order.len() as int);
    assert(steps[step] == fields[step]);
    assert(has_step(spec, order, fields, step, order.len() as int));
    let j = choose|j: int| 0 <= j < order.len() && in_step(spec, order, fields, step, j);
    assert(0 <= order[j] < ids.len());
    lemma_named_once(ids, place, order[j]);
    law_an_order_puts_each_after_what_it_reads(rows, j, read);
    assert(rows[place] == known(ids, reads[place]));
    assert(order.take(j).contains(read));
    let i = choose|i: int| 0 <= i < order.take(j).len() && order.take(j)[i] == read;
    assert(order[i] == read);
    if unbaked(spec, read) {
        assert(unbaked(spec, order[i]));
        let m = choose|m: int| 0 <= m < step && #[trigger] bakes(spec, fields[m], order[i]);
        assert(steps[m] == fields[m]);
        assert(bakes(spec, steps[m], read));
    }
}

/// Where no name is repeated one name stands at one place.
proof fn lemma_named_once(ids: Names, a: int, b: int)
    requires
        repeat_from(ids, 0) is None,
        0 <= a < ids.len(),
        0 <= b < ids.len(),
        ids[a] == ids[b],
    ensures
        a == b,
{
    if a < b {
        lemma_no_repeat(ids, 0, b);
        assert(ids.take(b)[a] == ids[b]);
    } else if b < a {
        lemma_no_repeat(ids, 0, a);
        assert(ids.take(a)[b] == ids[a]);
    }
}

proof fn lemma_no_repeat(ids: Names, from: int, at: int)
    requires
        repeat_from(ids, from) is None,
        0 <= from <= at < ids.len(),
    ensures
        !ids.take(at).contains(ids[at]),
    decreases at - from,
{
    if from < at {
        lemma_no_repeat(ids, from + 1, at);
    }
}

} // verus!
