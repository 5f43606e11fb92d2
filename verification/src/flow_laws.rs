//! What holds of the way water runs over a filled height field.

use vstd::prelude::*;
use crate::counting::lemma_distinct_fit;
use crate::drain::{can_take, crosses, descends, drains_by, routed};
use crate::flood::{flooded, is_flood, spread_to};
use crate::flood_laws::{law_inland_cells_fall, numbers};
use crate::grid::{adjacent, lemma_target, on_border, target, SINK};
use crate::single::{Single, INFINITE_MAGNITUDE};
use crate::transfer::{
    fed_first, feeds, held_back, is_plan, last_into, moves_before, outlet, planned,
};

verus! {

/// Whether one cell stands below another: by its water surface, or on one level by its
/// routing surface.
pub open spec fn lower(filled: Seq<Single>, routing: Seq<Single>, a: int, b: int) -> bool {
    filled[a].rank() < filled[b].rank() || (filled[a].rank() == filled[b].rank()
        && routing[a].rank() < routing[b].rank())
}

/// Whether every cell drains into a lower one or not at all.
pub open spec fn falls(
    flow: Seq<u8>,
    width: int,
    rows: int,
    filled: Seq<Single>,
    routing: Seq<Single>,
) -> bool {
    forall|a: int, b: int| #[trigger]
        feeds(flow, width, rows, a, b) ==> 0 <= b < width * rows && lower(filled, routing, b, a)
}

/// Where water from a cell is after it has taken `steps` steps, if it can take them.
pub open spec fn course(
    flow: Seq<u8>,
    width: int,
    rows: int,
    start: int,
    steps: nat,
) -> Option<int>
    decreases steps,
{
    if steps == 0 {
        Some(start)
    } else {
        match course(flow, width, rows, start, (steps - 1) as nat) {
            Some(cell) => outlet(flow, width, rows, cell),
            None => None,
        }
    }
}

/// Whether every step that falls has a slope above zero.
pub open spec fn slopes_show_falls(
    filled: Seq<Single>,
    routing: Seq<Single>,
    slopes: Seq<[Single; 8]>,
    width: int,
    rows: int,
) -> bool {
    forall|c: int, step: int|
        0 <= c < width * rows && 0 <= step < 8 ==> (match #[trigger] target(c, step, width, rows) {
            Some(to) => descends(filled, c, to) || crosses(filled, routing, c, to),
            None => false,
        }) ==> Single(0).below(slopes[c]@[step])
}

/// No cell drains uphill on the filled surface, and on a level stretch each step goes
/// down the routing surface.
pub proof fn law_no_cell_drains_uphill(
    ground: Seq<Single>,
    width: int,
    rows: int,
    filled: Seq<Single>,
    routing: Seq<Single>,
    slopes: Seq<[Single; 8]>,
    flow: Seq<u8>,
)
    requires
        flooded(ground, width, rows, filled, routing),
        ground.len() == width * rows,
        0 <= width,
        0 <= rows,
        numbers(ground),
        routed(filled, routing, slopes, width, rows, flow),
    ensures
        falls(flow, width, rows, filled, routing),
{
    let (time, from) = choose|time: Seq<int>, from: Seq<int>| #[trigger]
        is_flood(ground, width, rows, filled, routing, time, from);
    assert forall|a: int, b: int| #[trigger] feeds(flow, width, rows, a, b) implies 0 <= b < width
        * rows && lower(filled, routing, b, a) by {
        assert(drains_by(filled, routing, slopes[a]@, width, rows, a, flow[a]));
        let step = flow[a] - 1;
        lemma_target(a, step, width, rows);
        assert(spread_to(ground, width, rows, filled, routing, from, a));
        assert(spread_to(ground, width, rows, filled, routing, from, b));
        assert(!ground[a].nan() && !ground[b].nan());
        assert(can_take(filled, routing, slopes[a]@, width, rows, a, true, step) || can_take(
            filled,
            routing,
            slopes[a]@,
            width,
            rows,
            a,
            false,
            step,
        ));
    }
}

/// Water leaves only at the border: an inland cell always drains somewhere. A routing
/// level that has climbed to infinity has nothing above it and is left out.
pub proof fn law_sinks_are_on_the_border(
    ground: Seq<Single>,
    width: int,
    rows: int,
    filled: Seq<Single>,
    routing: Seq<Single>,
    slopes: Seq<[Single; 8]>,
    flow: Seq<u8>,
    index: int,
)
    requires
        flooded(ground, width, rows, filled, routing),
        ground.len() == width * rows,
        0 <= width,
        0 <= rows,
        numbers(ground),
        slopes_show_falls(filled, routing, slopes, width, rows),
        routed(filled, routing, slopes, width, rows, flow),
        0 <= index < width * rows,
        outlet(flow, width, rows, index) is None,
        routing[index].0 != INFINITE_MAGNITUDE,
    ensures
        on_border(index, width, rows),
{
    assert(drains_by(filled, routing, slopes[index]@, width, rows, index, flow[index]));
    if flow[index] != SINK {
        let step = flow[index] - 1;
        assert(can_take(filled, routing, slopes[index]@, width, rows, index, true, step)
            || can_take(filled, routing, slopes[index]@, width, rows, index, false, step));
    } else if !on_border(index, width, rows) {
        law_inland_cells_fall(ground, width, rows, filled, routing, index);
        let next = choose|next: int|
            0 <= next < width * rows && #[trigger] adjacent(index, next, width, rows)
                && filled[next].at_most(filled[index]) && routing[next].below(routing[index]);
        let step = choose|step: int|
            0 <= step < 8 && #[trigger] target(index, step, width, rows) == Some(next);
        assert(can_take(
            filled,
            routing,
            slopes[index]@,
            width,
            rows,
            index,
            descends(filled, index, next),
            step,
        ));
    }
}

/// Following the flow from any cell ends at a cell without an outlet, in fewer steps than
/// there are cells: a flow path cannot cycle.
pub proof fn law_flow_paths_end(
    flow: Seq<u8>,
    width: int,
    rows: int,
    filled: Seq<Single>,
    routing: Seq<Single>,
    start: int,
)
    requires
        falls(flow, width, rows, filled, routing),
        0 <= start < width * rows,
    ensures
        exists|steps: nat|
            steps < width * rows && (#[trigger] course(flow, width, rows, start, steps)) is Some
                && outlet(flow, width, rows, course(flow, width, rows, start, steps)->0) is None,
{
    let count = (width * rows) as nat;
    if forall|steps: nat|
        steps < count && (#[trigger] course(flow, width, rows, start, steps)) is Some ==> outlet(
            flow,
            width,
            rows,
            course(flow, width, rows, start, steps)->0,
        ) is Some {
        let cells = Seq::new(count + 1, |k: int| course(flow, width, rows, start, k as nat)->0);
        assert forall|k: nat| k <= count implies (#[trigger] course(flow, width, rows, start, k))
            is Some && 0 <= course(flow, width, rows, start, k)->0 < count by {
            lemma_course_goes_on(flow, width, rows, filled, routing, start, k, count);
        }
        assert forall|i: int, j: int|
            0 <= i < cells.len() && 0 <= j < cells.len() && i != j implies cells[i] != cells[j] by {
            if i < j {
                lemma_course_falls(flow, width, rows, filled, routing, start, i as nat, j as nat);
            } else {
                lemma_course_falls(flow, width, rows, filled, routing, start, j as nat, i as nat);
            }
        }
        assert forall|i: int| 0 <= i < cells.len() implies 0 <= #[trigger] cells[i] < count by {
            assert(course(flow, width, rows, start, i as nat) is Some);
        }
        lemma_distinct_fit(cells, count as int);
        assert(false);
    }
}

proof fn lemma_course_goes_on(
    flow: Seq<u8>,
    width: int,
    rows: int,
    filled: Seq<Single>,
    routing: Seq<Single>,
    start: int,
    steps: nat,
    count: nat,
)
    requires
        falls(flow, width, rows, filled, routing),
        0 <= start < width * rows,
        count == width * rows,
        steps <= count,
        forall|k: nat|
            k < count && (#[trigger] course(flow, width, rows, start, k)) is Some ==> outlet(
                flow,
                width,
                rows,
                course(flow, width, rows, start, k)->0,
            ) is Some,
    ensures
        course(flow, width, rows, start, steps) is Some,
        0 <= course(flow, width, rows, start, steps)->0 < count,
    decreases steps,
{
    if steps > 0 {
        let before = (steps - 1) as nat;
        lemma_course_goes_on(flow, width, rows, filled, routing, start, before, count);
        let a = course(flow, width, rows, start, before)->0;
        assert(outlet(flow, width, rows, a) is Some);
        let b = outlet(flow, width, rows, a)->0;
        assert(feeds(flow, width, rows, a, b));
    }
}

proof fn lemma_course_falls(
    flow: Seq<u8>,
    width: int,
    rows: int,
    filled: Seq<Single>,
    routing: Seq<Single>,
    start: int,
    early: nat,
    late: nat,
)
    requires
        falls(flow, width, rows, filled, routing),
        early < late,
        forall|k: nat|
            k <= late ==> (#[trigger] course(flow, width, rows, start, k)) is Some && 0 <= course(
                flow,
                width,
                rows,
                start,
                k,
            )->0 < width * rows,
    ensures
        lower(
            filled,
            routing,
            course(flow, width, rows, start, late)->0,
            course(flow, width, rows, start, early)->0,
        ),
    decreases late,
{
    let before = (late - 1) as nat;
    let a = course(flow, width, rows, start, before)->0;
    assert(course(flow, width, rows, start, before) is Some);
    assert(course(flow, width, rows, start, late) is Some);
    let b = course(flow, width, rows, start, late)->0;
    assert(feeds(flow, width, rows, a, b));
    if early < before {
        lemma_course_falls(flow, width, rows, filled, routing, start, early, before);
    }
}

/// Where water only runs down, the transfers move the water of every cell that has an
/// outlet: none is ever left waiting.
pub proof fn law_every_cell_moves(
    flow: Seq<u8>,
    width: int,
    rows: int,
    filled: Seq<Single>,
    routing: Seq<Single>,
    plan: Seq<(usize, usize)>,
    at: Seq<int>,
    due: Seq<int>,
    index: int,
)
    requires
        falls(flow, width, rows, filled, routing),
        is_plan(flow, width, rows, plan, at, due),
        0 <= index < width * rows,
    ensures
        at[index] >= 0 <==> outlet(flow, width, rows, index) is Some,
{
    if at[index] >= 0 {
        let k = at[index];
        assert(plan[k].0 == index);
        assert(feeds(flow, width, rows, plan[k].0 as int, plan[k].1 as int));
    } else if outlet(flow, width, rows, index) is Some {
        let count = (width * rows) as nat;
        let chain = lemma_blocked_chain(
            flow,
            width,
            rows,
            filled,
            routing,
            plan,
            at,
            due,
            index,
            count,
        );
        assert forall|i: int, j: int|
            0 <= i < chain.len() && 0 <= j < chain.len() && i != j implies chain[i] != chain[j] by {
            assert(i < j ==> lower(filled, routing, chain[i], chain[j]));
            assert(j < i ==> lower(filled, routing, chain[j], chain[i]));
        }
        lemma_distinct_fit(chain, count as int);
    }
}

/// A cell that waits has ever higher cells waiting above it.
proof fn lemma_blocked_chain(
    flow: Seq<u8>,
    width: int,
    rows: int,
    filled: Seq<Single>,
    routing: Seq<Single>,
    plan: Seq<(usize, usize)>,
    at: Seq<int>,
    due: Seq<int>,
    index: int,
    length: nat,
) -> (chain: Seq<int>)
    requires
        falls(flow, width, rows, filled, routing),
        is_plan(flow, width, rows, plan, at, due),
        0 <= index < width * rows,
        at[index] < 0,
        outlet(flow, width, rows, index) is Some,
    ensures
        chain.len() == length + 1,
        chain[0] == index,
        forall|i: int| 0 <= i < chain.len() ==> 0 <= #[trigger] chain[i] < width * rows,
        forall|i: int, j: int|
            0 <= i < j < chain.len() ==> #[trigger] lower(filled, routing, chain[i], chain[j]),
    decreases length,
{
    if length == 0 {
        seq![index]
    } else {
        assert(held_back(flow, width, rows, at, index));
        let other = choose|other: int| #[trigger]
            feeds(flow, width, rows, other, index) && at[other] < 0;
        let rest = lemma_blocked_chain(
            flow,
            width,
            rows,
            filled,
            routing,
            plan,
            at,
            due,
            other,
            (length - 1) as nat,
        );
        let chain = seq![index] + rest;
        assert forall|i: int| 0 <= i < chain.len() implies 0 <= #[trigger] chain[i] < width
            * rows by {
            if i > 0 {
                assert(chain[i] == rest[i - 1]);
            }
        }
        assert forall|i: int, j: int| 0 <= i < j < chain.len() implies #[trigger] lower(
            filled,
            routing,
            chain[i],
            chain[j],
        ) by {
            assert(chain[j] == rest[j - 1]);
            if i > 0 {
                assert(chain[i] == rest[i - 1]);
                assert(lower(filled, routing, rest[i - 1], rest[j - 1]));
            } else if j > 1 {
                assert(lower(filled, routing, rest[0], rest[j - 1]));
            }
        }
        chain
    }
}

/// What each cell holds after the transfers have been made in turn.
pub open spec fn poured(plan: Seq<(usize, usize)>, weight: Seq<int>) -> Seq<int>
    decreases plan.len(),
{
    if plan.len() == 0 {
        weight
    } else {
        let before = poured(plan.drop_last(), weight);
        let (from, to) = plan.last();
        before.update(to as int, before[to as int] + before[from as int])
    }
}

/// The sum of what the first `upto` cells hold that drain into a cell.
pub open spec fn inflow(
    flow: Seq<u8>,
    width: int,
    rows: int,
    total: Seq<int>,
    index: int,
    upto: int,
) -> int
    decreases upto,
{
    if upto <= 0 {
        0
    } else {
        inflow(flow, width, rows, total, index, upto - 1) + (if outlet(flow, width, rows, upto - 1)
            == Some(index) {
            total[upto - 1]
        } else {
            0
        })
    }
}

/// The sum of what the first `upto` cells without an outlet hold.
pub open spec fn at_sinks(
    flow: Seq<u8>,
    width: int,
    rows: int,
    total: Seq<int>,
    upto: int,
) -> int
    decreases upto,
{
    if upto <= 0 {
        0
    } else {
        at_sinks(flow, width, rows, total, upto - 1) + (if outlet(flow, width, rows, upto - 1)
            is None {
            total[upto - 1]
        } else {
            0
        })
    }
}

/// The sum of the first `upto` weights.
pub open spec fn sum_to(weight: Seq<int>, upto: int) -> int
    decreases upto,
{
    if upto <= 0 {
        0
    } else {
        sum_to(weight, upto - 1) + weight[upto - 1]
    }
}

/// Accumulation is exact: after the transfers each cell holds its own weight and what
/// every cell draining into it holds.
pub proof fn law_a_cell_holds_what_drains_into_it(
    flow: Seq<u8>,
    width: int,
    rows: int,
    filled: Seq<Single>,
    routing: Seq<Single>,
    plan: Seq<(usize, usize)>,
    weight: Seq<int>,
    index: int,
)
    requires
        falls(flow, width, rows, filled, routing),
        planned(flow, width, rows, plan),
        weight.len() == width * rows,
        0 <= index < width * rows,
    ensures
        poured(plan, weight)[index] == weight[index] + inflow(
            flow,
            width,
            rows,
            poured(plan, weight),
            index,
            width * rows,
        ),
{
    let (at, due) = choose|at: Seq<int>, due: Seq<int>| #[trigger]
        is_plan(flow, width, rows, plan, at, due);
    lemma_part_poured(
        flow,
        width,
        rows,
        filled,
        routing,
        plan,
        at,
        due,
        weight,
        plan.len() as int,
        index,
    );
    assert(plan.take(plan.len() as int) =~= plan);
    let total = poured(plan, weight);
    assert forall|c: int| 0 <= c < width * rows implies (#[trigger] at[c] >= 0 <==> outlet(
        flow,
        width,
        rows,
        c,
    ) is Some) by {
        law_every_cell_moves(flow, width, rows, filled, routing, plan, at, due, c);
    }
    lemma_all_inflow(
        flow,
        width,
        rows,
        at,
        plan.len() as int,
        total,
        index,
        width * rows,
    );
}

/// No water is lost or made: after the transfers the cells without an outlet hold the
/// weight of the whole document.
pub proof fn law_accumulation_is_conserved(
    flow: Seq<u8>,
    width: int,
    rows: int,
    filled: Seq<Single>,
    routing: Seq<Single>,
    plan: Seq<(usize, usize)>,
    weight: Seq<int>,
)
    requires
        falls(flow, width, rows, filled, routing),
        planned(flow, width, rows, plan),
        weight.len() == width * rows,
    ensures
        at_sinks(flow, width, rows, poured(plan, weight), width * rows) == sum_to(
            weight,
            width * rows,
        ),
{
    let (at, due) = choose|at: Seq<int>, due: Seq<int>| #[trigger]
        is_plan(flow, width, rows, plan, at, due);
    assert forall|c: int| 0 <= c < width * rows implies (#[trigger] at[c] >= 0 <==> outlet(
        flow,
        width,
        rows,
        c,
    ) is Some) by {
        law_every_cell_moves(flow, width, rows, filled, routing, plan, at, due, c);
    }
    lemma_part_conserved(
        flow,
        width,
        rows,
        filled,
        routing,
        plan,
        at,
        due,
        weight,
        plan.len() as int,
    );
    assert(plan.take(plan.len() as int) =~= plan);
    lemma_rest_is_sinks(
        flow,
        width,
        rows,
        plan,
        at,
        due,
        poured(plan, weight),
        width * rows,
    );
}

/// The sum of what the first `upto` cells hold that drain into a cell by one of the
/// first `moved` transfers.
spec fn inflow_so_far(
    flow: Seq<u8>,
    width: int,
    rows: int,
    at: Seq<int>,
    moved: int,
    total: Seq<int>,
    index: int,
    upto: int,
) -> int
    decreases upto,
{
    if upto <= 0 {
        0
    } else {
        inflow_so_far(flow, width, rows, at, moved, total, index, upto - 1) + (if outlet(
            flow,
            width,
            rows,
            upto - 1,
        ) == Some(index) && 0 <= at[upto - 1] < moved {
            total[upto - 1]
        } else {
            0
        })
    }
}

/// The sum of what the first `upto` cells hold whose water is not in the first `moved`
/// transfers.
spec fn remaining(at: Seq<int>, moved: int, total: Seq<int>, upto: int) -> int
    decreases upto,
{
    if upto <= 0 {
        0
    } else {
        remaining(at, moved, total, upto - 1) + (if 0 <= at[upto - 1] < moved {
            0
        } else {
            total[upto - 1]
        })
    }
}

proof fn lemma_all_inflow(
    flow: Seq<u8>,
    width: int,
    rows: int,
    at: Seq<int>,
    moved: int,
    total: Seq<int>,
    index: int,
    upto: int,
)
    requires
        upto <= width * rows,
        forall|c: int|
            0 <= c < width * rows ==> (#[trigger] at[c] >= 0 <==> outlet(flow, width, rows, c)
                is Some),
        forall|c: int| 0 <= c < width * rows ==> #[trigger] at[c] < moved,
    ensures
        inflow_so_far(flow, width, rows, at, moved, total, index, upto) == inflow(
            flow,
            width,
            rows,
            total,
            index,
            upto,
        ),
    decreases upto,
{
    if upto > 0 {
        assert(at[upto - 1] < moved);
        lemma_all_inflow(flow, width, rows, at, moved, total, index, upto - 1);
    }
}

proof fn lemma_poured_len(plan: Seq<(usize, usize)>, weight: Seq<int>)
    requires
        forall|k: int| 0 <= k < plan.len() ==> (#[trigger] plan[k]).1 < weight.len(),
    ensures
        poured(plan, weight).len() == weight.len(),
    decreases plan.len(),
{
    if plan.len() > 0 {
        assert(plan[plan.len() - 1].1 < weight.len());
        assert forall|k: int| 0 <= k < plan.len() - 1 implies (#[trigger] plan.drop_last()[k]).1
            < weight.len() by {
            assert(plan[k].1 < weight.len());
        }
        lemma_poured_len(plan.drop_last(), weight);
    }
}

/// One more transfer adds its water to the inflow of the cell it goes into alone.
proof fn lemma_inflow_step(
    flow: Seq<u8>,
    width: int,
    rows: int,
    plan: Seq<(usize, usize)>,
    at: Seq<int>,
    due: Seq<int>,
    total: Seq<int>,
    moved: int,
    index: int,
    upto: int,
)
    requires
        is_plan(flow, width, rows, plan, at, due),
        0 <= moved < plan.len(),
        upto <= width * rows,
        total.len() == width * rows,
        plan[moved].1 < width * rows,
    ensures
        ({
            let from = plan[moved].0 as int;
            let to = plan[moved].1 as int;
            let after = total.update(to, total[to] + total[from]);
            inflow_so_far(flow, width, rows, at, moved + 1, after, index, upto) == inflow_so_far(
                flow,
                width,
                rows,
                at,
                moved,
                total,
                index,
                upto,
            ) + (if index == to && from < upto {
                total[from]
            } else {
                0
            })
        }),
    decreases upto,
{
    if upto > 0 {
        lemma_inflow_step(flow, width, rows, plan, at, due, total, moved, index, upto - 1);
        let from = plan[moved].0 as int;
        let to = plan[moved].1 as int;
        let j = upto - 1;
        assert(feeds(flow, width, rows, from, to));
        assert(at[from] == moved);
        assert(fed_first(flow, width, rows, at, to));
        assert(at[j] == -1 || plan[at[j]].0 == j);
    }
}

proof fn lemma_part_poured(
    flow: Seq<u8>,
    width: int,
    rows: int,
    filled: Seq<Single>,
    routing: Seq<Single>,
    plan: Seq<(usize, usize)>,
    at: Seq<int>,
    due: Seq<int>,
    weight: Seq<int>,
    moved: int,
    index: int,
)
    requires
        falls(flow, width, rows, filled, routing),
        is_plan(flow, width, rows, plan, at, due),
        weight.len() == width * rows,
        0 <= moved <= plan.len(),
        0 <= index < width * rows,
    ensures
        poured(plan.take(moved), weight)[index] == weight[index] + inflow_so_far(
            flow,
            width,
            rows,
            at,
            moved,
            poured(plan.take(moved), weight),
            index,
            width * rows,
        ),
    decreases moved,
{
    if moved == 0 {
        lemma_no_inflow(flow, width, rows, at, weight, index, width * rows);
    } else {
        let before = plan.take(moved - 1);
        lemma_part_poured(
            flow,
            width,
            rows,
            filled,
            routing,
            plan,
            at,
            due,
            weight,
            moved - 1,
            index,
        );
        assert forall|k: int| 0 <= k < before.len() implies (#[trigger] before[k]).1
            < weight.len() by {
            assert(feeds(flow, width, rows, plan[k].0 as int, plan[k].1 as int));
        }
        lemma_poured_len(before, weight);
        assert(plan.take(moved).drop_last() =~= before);
        assert(feeds(flow, width, rows, plan[moved - 1].0 as int, plan[moved - 1].1 as int));
        lemma_inflow_step(
            flow,
            width,
            rows,
            plan,
            at,
            due,
            poured(before, weight),
            moved - 1,
            index,
            width * rows,
        );
    }
}

proof fn lemma_no_inflow(
    flow: Seq<u8>,
    width: int,
    rows: int,
    at: Seq<int>,
    total: Seq<int>,
    index: int,
    upto: int,
)
    ensures
        inflow_so_far(flow, width, rows, at, 0, total, index, upto) == 0,
    decreases upto,
{
    if upto > 0 {
        lemma_no_inflow(flow, width, rows, at, total, index, upto - 1);
    }
}

proof fn lemma_nothing_moved(at: Seq<int>, total: Seq<int>, upto: int)
    ensures
        remaining(at, 0, total, upto) == sum_to(total, upto),
    decreases upto,
{
    if upto > 0 {
        lemma_nothing_moved(at, total, upto - 1);
    }
}

proof fn lemma_remaining_step(
    flow: Seq<u8>,
    width: int,
    rows: int,
    plan: Seq<(usize, usize)>,
    at: Seq<int>,
    due: Seq<int>,
    total: Seq<int>,
    moved: int,
    upto: int,
)
    requires
        is_plan(flow, width, rows, plan, at, due),
        0 <= moved < plan.len(),
        upto <= width * rows,
        total.len() == width * rows,
        plan[moved].1 < width * rows,
        plan[moved].0 != plan[moved].1,
    ensures
        ({
            let from = plan[moved].0 as int;
            let to = plan[moved].1 as int;
            let after = total.update(to, total[to] + total[from]);
            remaining(at, moved + 1, after, upto) == remaining(at, moved, total, upto) + (if to
                < upto {
                total[from]
            } else {
                0
            }) - (if from < upto {
                total[from]
            } else {
                0
            })
        }),
    decreases upto,
{
    if upto > 0 {
        lemma_remaining_step(flow, width, rows, plan, at, due, total, moved, upto - 1);
        let from = plan[moved].0 as int;
        let to = plan[moved].1 as int;
        let j = upto - 1;
        assert(feeds(flow, width, rows, from, to));
        assert(at[from] == moved);
        assert(fed_first(flow, width, rows, at, to));
        assert(at[j] == -1 || plan[at[j]].0 == j);
    }
}

proof fn lemma_part_conserved(
    flow: Seq<u8>,
    width: int,
    rows: int,
    filled: Seq<Single>,
    routing: Seq<Single>,
    plan: Seq<(usize, usize)>,
    at: Seq<int>,
    due: Seq<int>,
    weight: Seq<int>,
    moved: int,
)
    requires
        falls(flow, width, rows, filled, routing),
        is_plan(flow, width, rows, plan, at, due),
        weight.len() == width * rows,
        0 <= moved <= plan.len(),
    ensures
        remaining(at, moved, poured(plan.take(moved), weight), width * rows) == sum_to(
            weight,
            width * rows,
        ),
    decreases moved,
{
    if moved == 0 {
        lemma_nothing_moved(at, weight, width * rows);
    } else {
        let before = plan.take(moved - 1);
        lemma_part_conserved(
            flow,
            width,
            rows,
            filled,
            routing,
            plan,
            at,
            due,
            weight,
            moved - 1,
        );
        assert forall|k: int| 0 <= k < before.len() implies (#[trigger] before[k]).1
            < weight.len() by {
            assert(feeds(flow, width, rows, plan[k].0 as int, plan[k].1 as int));
        }
        lemma_poured_len(before, weight);
        assert(plan.take(moved).drop_last() =~= before);
        assert(feeds(flow, width, rows, plan[moved - 1].0 as int, plan[moved - 1].1 as int));
        lemma_remaining_step(
            flow,
            width,
            rows,
            plan,
            at,
            due,
            poured(before, weight),
            moved - 1,
            width * rows,
        );
    }
}

proof fn lemma_rest_is_sinks(
    flow: Seq<u8>,
    width: int,
    rows: int,
    plan: Seq<(usize, usize)>,
    at: Seq<int>,
    due: Seq<int>,
    total: Seq<int>,
    upto: int,
)
    requires
        is_plan(flow, width, rows, plan, at, due),
        upto <= width * rows,
        forall|c: int|
            0 <= c < width * rows ==> (#[trigger] at[c] >= 0 <==> outlet(flow, width, rows, c)
                is Some),
    ensures
        remaining(at, plan.len() as int, total, upto) == at_sinks(flow, width, rows, total, upto),
    decreases upto,
{
    if upto > 0 {
        lemma_rest_is_sinks(flow, width, rows, plan, at, due, total, upto - 1);
        assert(at[upto - 1] == -1 || 0 <= at[upto - 1] < plan.len());
    }
}

/// Water goes down the steepest way: where some step of a cell goes down the surface and has
/// a slope, the cell drains down a step at least as steep, and of those equally steep the
/// first.
pub proof fn law_water_takes_the_steepest_way_down(
    filled: Seq<Single>,
    routing: Seq<Single>,
    slopes: Seq<[Single; 8]>,
    width: int,
    rows: int,
    flow: Seq<u8>,
    index: int,
    step: int,
    to: int,
)
    requires
        routed(filled, routing, slopes, width, rows, flow),
        0 <= index < width * rows,
        0 <= step < 8,
        target(index, step, width, rows) == Some(to),
        !filled[index].nan() && !filled[to].nan(),
        filled[to].rank() < filled[index].rank(),
        !slopes[index]@[step].nan(),
        slopes[index]@[step].rank() > 0,
    ensures
        1 <= flow[index] <= 8,
        ({
            let taken = flow[index] - 1;
            &&& target(index, taken, width, rows) matches Some(next) && filled[next].rank()
                < filled[index].rank()
            &&& slopes[index]@[taken].rank() >= slopes[index]@[step].rank()
            &&& step < taken ==> slopes[index]@[taken].rank() > slopes[index]@[step].rank()
        }),
{
    assert(drains_by(filled, routing, slopes[index]@, width, rows, index, flow[index]));
    assert(can_take(filled, routing, slopes[index]@, width, rows, index, true, step));
}

/// On a level stretch, where no step of a cell goes down and has a slope, water takes the
/// steepest of the steps that stay level and lead down the routing surface.
pub proof fn law_level_water_takes_the_steepest_way_on(
    filled: Seq<Single>,
    routing: Seq<Single>,
    slopes: Seq<[Single; 8]>,
    width: int,
    rows: int,
    flow: Seq<u8>,
    index: int,
    step: int,
    to: int,
)
    requires
        routed(filled, routing, slopes, width, rows, flow),
        0 <= index < width * rows,
        0 <= step < 8,
        forall|other: int, next: int|
            0 <= other < 8 && #[trigger] target(index, other, width, rows) == Some(next)
                && #[trigger] filled[next].rank() < filled[index].rank() ==> filled[next].nan()
                || filled[index].nan() || slopes[index]@[other].nan()
                || slopes[index]@[other].rank() <= 0,
        target(index, step, width, rows) == Some(to),
        !filled[index].nan() && !filled[to].nan() && !routing[index].nan() && !routing[to].nan(),
        filled[to].rank() == filled[index].rank(),
        routing[to].rank() < routing[index].rank(),
        !slopes[index]@[step].nan(),
        slopes[index]@[step].rank() > 0,
    ensures
        1 <= flow[index] <= 8,
        ({
            let taken = flow[index] - 1;
            &&& target(index, taken, width, rows) matches Some(next)
                && !filled[next].below(filled[index]) && !filled[index].below(filled[next])
                && routing[next].rank() < routing[index].rank()
            &&& slopes[index]@[taken].rank() >= slopes[index]@[step].rank()
            &&& step < taken ==> slopes[index]@[taken].rank() > slopes[index]@[step].rank()
        }),
{
    assert(drains_by(filled, routing, slopes[index]@, width, rows, index, flow[index]));
    assert(can_take(filled, routing, slopes[index]@, width, rows, index, false, step));
    assert forall|other: int| 0 <= other < 8 implies !#[trigger] can_take(
        filled,
        routing,
        slopes[index]@,
        width,
        rows,
        index,
        true,
        other,
    ) by {
        if let Some(next) = target(index, other, width, rows) {
            assert(target(index, other, width, rows) == Some(next));
            let level = filled[next].rank();
        }
    }
}

/// A cell drains nowhere exactly where no step of it has a slope and goes down the surface,
/// or stays level and goes down the routing surface.
pub proof fn law_a_cell_drains_wherever_it_can(
    filled: Seq<Single>,
    routing: Seq<Single>,
    slopes: Seq<[Single; 8]>,
    width: int,
    rows: int,
    flow: Seq<u8>,
    index: int,
)
    requires
        routed(filled, routing, slopes, width, rows, flow),
        numbers(filled),
        numbers(routing),
        filled.len() == width * rows,
        routing.len() == width * rows,
        0 <= width,
        0 <= rows,
        0 <= index < width * rows,
    ensures
        flow[index] != 0 <==> exists|step: int|
            0 <= step < 8 && (#[trigger] target(index, step, width, rows) matches Some(to) && lower(
                filled,
                routing,
                to,
                index,
            ) && Single(0).below(slopes[index]@[step])),
{
    assert(drains_by(filled, routing, slopes[index]@, width, rows, index, flow[index]));
    assert forall|step: int| 0 <= step < 8 implies (can_take(
        filled,
        routing,
        slopes[index]@,
        width,
        rows,
        index,
        true,
        step,
    ) || #[trigger] can_take(
        filled,
        routing,
        slopes[index]@,
        width,
        rows,
        index,
        false,
        step,
    )) == (target(index, step, width, rows) matches Some(to) && lower(filled, routing, to, index)
        && Single(0).below(slopes[index]@[step])) by {
        if target(index, step, width, rows) is Some {
            lemma_target(index, step, width, rows);
        }
    }
    if flow[index] != 0 {
        let step = flow[index] - 1;
        assert(can_take(filled, routing, slopes[index]@, width, rows, index, false, step)
            || can_take(filled, routing, slopes[index]@, width, rows, index, true, step));
        assert(target(index, step, width, rows) is Some);
    } else {
        assert forall|step: int| 0 <= step < 8 implies !(#[trigger] target(index, step, width, rows)
            matches Some(to) && lower(filled, routing, to, index) && Single(0).below(
            slopes[index]@[step],
        )) by {
            assert(!can_take(filled, routing, slopes[index]@, width, rows, index, false, step));
            assert(!can_take(filled, routing, slopes[index]@, width, rows, index, true, step));
        }
    }
}

/// Of two cells that nothing drains into, the one of the lower index moves its water first; and
/// a cell moves its water after every cell that drains into it.
pub proof fn law_water_moves_from_its_springs_in_turn(
    flow: Seq<u8>,
    width: int,
    rows: int,
    plan: Seq<(usize, usize)>,
    at: Seq<int>,
    due: Seq<int>,
    j: int,
    k: int,
)
    requires
        is_plan(flow, width, rows, plan, at, due),
        0 <= j < k < plan.len(),
    ensures
        (forall|other: int|
            !#[trigger] feeds(flow, width, rows, other, plan[j].0 as int) && !feeds(
                flow,
                width,
                rows,
                other,
                plan[k].0 as int,
            )) ==> plan[j].0 < plan[k].0,
        !feeds(flow, width, rows, plan[k].0 as int, plan[j].0 as int),
        outlet(flow, width, rows, plan[j].0 as int) == Some(plan[j].1 as int),
{
    let a = plan[j].0 as int;
    let b = plan[k].0 as int;
    assert(at[plan[j].0 as int] == j && at[plan[k].0 as int] == k);
    assert(fed_first(flow, width, rows, at, a));
    assert(last_into(flow, width, rows, plan, at, a, due[a]));
    assert(last_into(flow, width, rows, plan, at, b, due[b]));
    assert(moves_before(due, plan[j].0 as int, plan[k].0 as int));
    assert(feeds(flow, width, rows, plan[j].0 as int, plan[j].1 as int));
    if forall|other: int|
        !#[trigger] feeds(flow, width, rows, other, a) && !feeds(flow, width, rows, other, b) {
        if due[a] >= 0 {
            assert(plan[due[a]].1 == a);
            assert(feeds(flow, width, rows, plan[due[a]].0 as int, plan[due[a]].1 as int));
        }
        if due[b] >= 0 {
            assert(plan[due[b]].1 == b);
            assert(feeds(flow, width, rows, plan[due[b]].0 as int, plan[due[b]].1 as int));
            assert(!feeds(flow, width, rows, plan[due[b]].0 as int, a));
        }
    }
}

} // verus!
