//! The order in which water moves from cell to cell.

use vstd::prelude::*;
use crate::counting::lemma_distinct_fit;
use crate::grid::{direction_index, led_to, lemma_split, neighbour};

verus! {

/// The cell that a cell drains into.
pub open spec fn outlet(flow: Seq<u8>, width: int, rows: int, index: int) -> Option<int> {
    led_to(index, flow[index], width, rows)
}

/// Whether `from` drains into `to`.
pub open spec fn feeds(flow: Seq<u8>, width: int, rows: int, from: int, to: int) -> bool {
    0 <= from < width * rows && outlet(flow, width, rows, from) == Some(to)
}

/// Whether everything that drains into a cell moves before the cell's own water does.
pub open spec fn fed_first(
    flow: Seq<u8>,
    width: int,
    rows: int,
    at: Seq<int>,
    index: int,
) -> bool {
    at[index] >= 0 ==> forall|other: int| #[trigger]
        feeds(flow, width, rows, other, index) ==> 0 <= at[other] < at[index]
}

/// Whether a cell whose water does not move is one that drains nowhere, or waits on
/// another whose water does not.
pub open spec fn held_back(
    flow: Seq<u8>,
    width: int,
    rows: int,
    at: Seq<int>,
    index: int,
) -> bool {
    at[index] < 0 ==> outlet(flow, width, rows, index) is None || exists|other: int| #[trigger]
        feeds(flow, width, rows, other, index) && at[other] < 0
}

/// Whether `due` is the last transfer into a cell, or -1 where nothing drains into it.
pub open spec fn last_into(
    flow: Seq<u8>,
    width: int,
    rows: int,
    plan: Seq<(usize, usize)>,
    at: Seq<int>,
    index: int,
    due: int,
) -> bool {
    if due < 0 {
        due == -1 && forall|other: int| !#[trigger] feeds(flow, width, rows, other, index)
    } else {
        &&& due < plan.len()
        &&& plan[due].1 == index
        &&& forall|other: int| #[trigger]
            feeds(flow, width, rows, other, index) ==> 0 <= at[other] <= due
    }
}

/// Whether one cell's water moves before another's: the one that was complete earlier,
/// and among those that nothing drains into the one with the lower index.
pub open spec fn moves_before(due: Seq<int>, a: int, b: int) -> bool {
    due[a] < due[b] || (due[a] == -1 && due[b] == -1 && a < b)
}

/// Whether `plan` moves the water of every cell that can be completed, each time from a
/// cell into the one it drains into, in the order in which the cells are complete.
/// `at` says where a cell's own transfer stands in the plan, or -1, and `due` where the
/// last one into it does.
pub open spec fn is_plan(
    flow: Seq<u8>,
    width: int,
    rows: int,
    plan: Seq<(usize, usize)>,
    at: Seq<int>,
    due: Seq<int>,
) -> bool {
    let count = width * rows;
    &&& at.len() == count && due.len() == count
    &&& forall|k: int|
        0 <= k < plan.len() ==> (#[trigger] plan[k]).0 < count && feeds(
            flow,
            width,
            rows,
            plan[k].0 as int,
            plan[k].1 as int,
        ) && at[plan[k].0 as int] == k
    &&& forall|c: int|
        0 <= c < count ==> #[trigger] at[c] == -1 || (0 <= at[c] < plan.len() && plan[at[c]].0
            == c)
    &&& forall|c: int| 0 <= c < count ==> #[trigger] fed_first(flow, width, rows, at, c)
    &&& forall|c: int| 0 <= c < count ==> #[trigger] held_back(flow, width, rows, at, c)
    &&& forall|c: int|
        0 <= c < count && at[c] >= 0 ==> #[trigger] last_into(
            flow,
            width,
            rows,
            plan,
            at,
            c,
            due[c],
        )
    &&& forall|j: int, k: int|
        0 <= j < k < plan.len() ==> #[trigger] moves_before(
            due,
            plan[j].0 as int,
            plan[k].0 as int,
        )
}

/// Whether `plan` is the order in which the water of `flow` moves.
pub open spec fn planned(
    flow: Seq<u8>,
    width: int,
    rows: int,
    plan: Seq<(usize, usize)>,
) -> bool {
    exists|at: Seq<int>, due: Seq<int>| #[trigger] is_plan(flow, width, rows, plan, at, due)
}

/// How many of the first `upto` cells drain into a cell and have not moved.
spec fn waiting(
    flow: Seq<u8>,
    width: int,
    rows: int,
    moved: Seq<bool>,
    index: int,
    upto: int,
) -> nat
    decreases upto,
{
    if upto <= 0 {
        0
    } else {
        waiting(flow, width, rows, moved, index, upto - 1) + (if outlet(
            flow,
            width,
            rows,
            upto - 1,
        ) == Some(index) && !moved[upto - 1] {
            1nat
        } else {
            0nat
        })
    }
}

proof fn lemma_waiting_none(
    flow: Seq<u8>,
    width: int,
    rows: int,
    moved: Seq<bool>,
    index: int,
    upto: int,
)
    ensures
        waiting(flow, width, rows, moved, index, upto) == 0 <==> forall|j: int|
            0 <= j < upto && #[trigger] outlet(flow, width, rows, j) == Some(index) ==> moved[j],
    decreases upto,
{
    if upto > 0 {
        lemma_waiting_none(flow, width, rows, moved, index, upto - 1);
        if waiting(flow, width, rows, moved, index, upto) != 0 && (forall|j: int|
            0 <= j < upto && #[trigger] outlet(flow, width, rows, j) == Some(index) ==> moved[j]) {
            assert(forall|j: int|
                0 <= j < upto - 1 && #[trigger] outlet(flow, width, rows, j) == Some(index)
                    ==> moved[j]);
            assert(false);
        }
    }
}

proof fn lemma_waiting_move(
    flow: Seq<u8>,
    width: int,
    rows: int,
    moved: Seq<bool>,
    index: int,
    upto: int,
    cell: int,
)
    requires
        0 <= cell < moved.len(),
        upto <= moved.len(),
        !moved[cell],
    ensures
        waiting(flow, width, rows, moved, index, upto) == waiting(
            flow,
            width,
            rows,
            moved.update(cell, true),
            index,
            upto,
        ) + (if cell < upto && outlet(flow, width, rows, cell) == Some(index) {
            1nat
        } else {
            0nat
        }),
    decreases upto,
{
    if upto > 0 {
        lemma_waiting_move(flow, width, rows, moved, index, upto - 1, cell);
    }
}

proof fn lemma_waiting_bound(
    flow: Seq<u8>,
    width: int,
    rows: int,
    moved: Seq<bool>,
    index: int,
    upto: int,
)
    requires
        0 <= upto,
    ensures
        waiting(flow, width, rows, moved, index, upto) <= upto,
    decreases upto,
{
    if upto > 0 {
        lemma_waiting_bound(flow, width, rows, moved, index, upto - 1);
    }
}

/// The cell that a cell drains into.
fn downstream_of(flow: &Vec<u8>, width: usize, rows: usize, index: usize) -> (answer: Option<usize>)
    requires
        flow@.len() == width * rows,
        width * rows <= usize::MAX,
        index < width * rows,
    ensures
        match answer {
            Some(to) => outlet(flow@, width as int, rows as int, index as int) == Some(to as int)
                && to < width * rows,
            None => outlet(flow@, width as int, rows as int, index as int) is None,
        },
{
    proof {
        lemma_split(index as int, width as int, rows as int);
    }
    match direction_index(flow[index]) {
        Some(step) => neighbour(index % width, index / width, step, width, rows),
        None => None,
    }
}

/// The transfers part of the way: the cells in `queue` are complete, and the water of
/// the first `head` of them has moved.
spec fn moving(
    flow: Seq<u8>,
    width: int,
    rows: int,
    incoming: Seq<usize>,
    queue: Seq<usize>,
    head: int,
    plan: Seq<(usize, usize)>,
    moved: Seq<bool>,
    place: Seq<int>,
    at: Seq<int>,
    due: Seq<int>,
) -> bool {
    let count = width * rows;
    &&& flow.len() == count && incoming.len() == count && moved.len() == count
    &&& place.len() == count && at.len() == count && due.len() == count
    &&& 0 <= head <= queue.len()
    &&& forall|k: int|
        0 <= k < queue.len() ==> #[trigger] queue[k] < count && place[queue[k] as int] == k
    &&& forall|c: int|
        0 <= c < count ==> #[trigger] place[c] == -1 || (0 <= place[c] < queue.len()
            && queue[place[c]] == c)
    &&& forall|c: int| 0 <= c < count ==> (place[c] >= 0 <==> #[trigger] incoming[c] == 0)
    &&& forall|c: int|
        0 <= c < count ==> #[trigger] incoming[c] == waiting(flow, width, rows, moved, c, count)
    &&& forall|c: int| 0 <= c < count ==> (#[trigger] moved[c] <==> 0 <= place[c] < head)
    &&& forall|k: int|
        0 <= k < plan.len() ==> (#[trigger] plan[k]).0 < count && feeds(
            flow,
            width,
            rows,
            plan[k].0 as int,
            plan[k].1 as int,
        ) && at[plan[k].0 as int] == k
    &&& forall|c: int|
        0 <= c < count ==> #[trigger] at[c] == -1 || (0 <= at[c] < plan.len() && plan[at[c]].0
            == c)
    &&& forall|c: int|
        0 <= c < count ==> (#[trigger] at[c] >= 0 <==> moved[c] && outlet(flow, width, rows, c)
            is Some)
    &&& forall|j: int, k: int|
        0 <= j < k < plan.len() ==> place[(#[trigger] plan[j]).0 as int] < place[(
        #[trigger] plan[k]).0 as int]
    &&& forall|c: int|
        0 <= c < count && place[c] >= 0 ==> #[trigger] last_into(
            flow,
            width,
            rows,
            plan,
            at,
            c,
            due[c],
        )
    &&& forall|c: int| 0 <= c < count && at[c] >= 0 ==> #[trigger] due[c] < at[c]
    &&& forall|j: int, k: int|
        0 <= j < k < queue.len() ==> #[trigger] moves_before(
            due,
            queue[j] as int,
            queue[k] as int,
        )
}

/// The queue never holds more cells than there are.
proof fn lemma_queue_fits(
    flow: Seq<u8>,
    width: int,
    rows: int,
    incoming: Seq<usize>,
    queue: Seq<usize>,
    head: int,
    plan: Seq<(usize, usize)>,
    moved: Seq<bool>,
    place: Seq<int>,
    at: Seq<int>,
    due: Seq<int>,
)
    requires
        moving(flow, width, rows, incoming, queue, head, plan, moved, place, at, due),
    ensures
        queue.len() <= width * rows,
{
    let cells = queue.map_values(|c: usize| c as int);
    assert forall|i: int, j: int|
        0 <= i < cells.len() && 0 <= j < cells.len() && i != j implies cells[i] != cells[j] by {
        assert(place[queue[i] as int] == i);
        assert(place[queue[j] as int] == j);
    }
    assert forall|i: int| 0 <= i < cells.len() implies 0 <= #[trigger] cells[i] < width * rows by {
        assert(queue[i] < width * rows);
    }
    lemma_distinct_fit(cells, width * rows);
}

/// Moving a cell that drains nowhere keeps the transfers going.
proof fn lemma_settle(
    flow: Seq<u8>,
    width: int,
    rows: int,
    incoming: Seq<usize>,
    queue: Seq<usize>,
    head: int,
    plan: Seq<(usize, usize)>,
    moved: Seq<bool>,
    place: Seq<int>,
    at: Seq<int>,
    due: Seq<int>,
)
    requires
        moving(flow, width, rows, incoming, queue, head, plan, moved, place, at, due),
        head < queue.len(),
        outlet(flow, width, rows, queue[head] as int) is None,
    ensures
        moving(
            flow,
            width,
            rows,
            incoming,
            queue,
            head + 1,
            plan,
            moved.update(queue[head] as int, true),
            place,
            at,
            due,
        ),
{
    let count = width * rows;
    let index = queue[head] as int;
    let moved2 = moved.update(index, true);
    assert(place[index] == head);
    assert(!moved[index]);
    assert forall|c: int| 0 <= c < count implies #[trigger] incoming[c] == waiting(
        flow,
        width,
        rows,
        moved2,
        c,
        count,
    ) by {
        lemma_waiting_move(flow, width, rows, moved, c, count, index);
    }
    assert forall|c: int| 0 <= c < count implies (#[trigger] moved2[c] <==> 0 <= place[c] < head
        + 1) by {
        assert(moved[c] <==> 0 <= place[c] < head);
        if place[c] == head {
            assert(queue[place[c]] == c);
        }
    }
}

/// Moving a cell's water into the next keeps the transfers going.
proof fn lemma_pour(
    flow: Seq<u8>,
    width: int,
    rows: int,
    incoming: Seq<usize>,
    queue: Seq<usize>,
    head: int,
    plan: Seq<(usize, usize)>,
    moved: Seq<bool>,
    place: Seq<int>,
    at: Seq<int>,
    due: Seq<int>,
    to: usize,
)
    requires
        moving(flow, width, rows, incoming, queue, head, plan, moved, place, at, due),
        head < queue.len(),
        to < width * rows,
        outlet(flow, width, rows, queue[head] as int) == Some(to as int),
    ensures
        incoming[to as int] > 0,
        place[to as int] == -1,
        ({
            let index = queue[head] as int;
            let left = (incoming[to as int] - 1) as usize;
            moving(
                flow,
                width,
                rows,
                incoming.update(to as int, left),
                if left == 0 {
                    queue.push(to)
                } else {
                    queue
                },
                head + 1,
                plan.push((queue[head], to)),
                moved.update(index, true),
                if left == 0 {
                    place.update(to as int, queue.len() as int)
                } else {
                    place
                },
                at.update(index, plan.len() as int),
                if left == 0 {
                    due.update(to as int, plan.len() as int)
                } else {
                    due
                },
            )
        }),
{
    let count = width * rows;
    let index = queue[head] as int;
    let goal = to as int;
    let moved2 = moved.update(index, true);
    let plan2 = plan.push((queue[head], to));
    let at2 = at.update(index, plan.len() as int);
    assert(place[index] == head);
    assert(!moved[index]);
    assert(at[index] == -1);
    lemma_waiting_move(flow, width, rows, moved, goal, count, index);
    assert(incoming[goal] == waiting(flow, width, rows, moved, goal, count));
    assert(incoming[goal] > 0);
    assert(place[goal] == -1);
    assert(goal != index);
    let left = (incoming[goal] - 1) as usize;
    let incoming2 = incoming.update(goal, left);
    let queue2 = if left == 0 {
        queue.push(to)
    } else {
        queue
    };
    let place2 = if left == 0 {
        place.update(goal, queue.len() as int)
    } else {
        place
    };
    let due2 = if left == 0 {
        due.update(goal, plan.len() as int)
    } else {
        due
    };
    assert forall|c: int| 0 <= c < count implies #[trigger] incoming2[c] == waiting(
        flow,
        width,
        rows,
        moved2,
        c,
        count,
    ) by {
        assert(incoming[c] == waiting(flow, width, rows, moved, c, count));
        lemma_waiting_move(flow, width, rows, moved, c, count, index);
    }
    assert forall|c: int| 0 <= c < count implies (#[trigger] moved2[c] <==> 0 <= place2[c] < head
        + 1) by {
        assert(moved[c] <==> 0 <= place[c] < head);
        if place[c] == head {
            assert(queue[place[c]] == c);
        }
    }
    assert forall|c: int| 0 <= c < count implies (place2[c] >= 0 <==> #[trigger] incoming2[c]
        == 0) by {
        assert(place[c] >= 0 <==> incoming[c] == 0);
    }
    assert forall|k: int| 0 <= k < queue2.len() implies #[trigger] queue2[k] < count
        && place2[queue2[k] as int] == k by {
        if k < queue.len() {
            assert(place[queue[k] as int] == k);
        }
    }
    assert forall|c: int| 0 <= c < count implies #[trigger] place2[c] == -1 || (0 <= place2[c]
        < queue2.len() && queue2[place2[c]] == c) by {
        assert(place[c] == -1 || queue[place[c]] == c);
    }
    assert forall|k: int| 0 <= k < plan2.len() implies (#[trigger] plan2[k]).0 < count && feeds(
        flow,
        width,
        rows,
        plan2[k].0 as int,
        plan2[k].1 as int,
    ) && at2[plan2[k].0 as int] == k by {
        if k < plan.len() {
            assert(plan2[k] == plan[k]);
            assert(at[plan[k].0 as int] == k);
        }
    }
    assert forall|c: int| 0 <= c < count implies #[trigger] at2[c] == -1 || (0 <= at2[c]
        < plan2.len() && plan2[at2[c]].0 == c) by {
        assert(at[c] == -1 || plan[at[c]].0 == c);
    }
    assert forall|c: int| 0 <= c < count implies (#[trigger] at2[c] >= 0 <==> moved2[c] && outlet(
        flow,
        width,
        rows,
        c,
    ) is Some) by {
        assert(at[c] >= 0 <==> moved[c] && outlet(flow, width, rows, c) is Some);
    }
    assert forall|j: int, k: int| 0 <= j < k < plan2.len() implies place2[(
    #[trigger] plan2[j]).0 as int] < place2[(#[trigger] plan2[k]).0 as int] by {
        assert(plan2[j] == plan[j]);
        assert(at[plan[j].0 as int] == j);
        assert(moved[plan[j].0 as int]);
        if k < plan.len() {
            assert(plan2[k] == plan[k]);
            assert(at[plan[k].0 as int] == k);
            assert(moved[plan[k].0 as int]);
            assert(place[plan[j].0 as int] < place[plan[k].0 as int]);
        }
    }
    assert forall|c: int| 0 <= c < count && place2[c] >= 0 implies #[trigger] last_into(
        flow,
        width,
        rows,
        plan2,
        at2,
        c,
        due2[c],
    ) by {
        if c == goal {
            lemma_waiting_none(flow, width, rows, moved2, goal, count);
            assert(incoming2[goal] == 0);
            assert forall|other: int| #[trigger] feeds(flow, width, rows, other, c) implies 0
                <= at2[other] <= due2[c] by {
                assert(moved2[other]);
                assert(at2[other] >= 0);
            }
        } else {
            assert(place[c] >= 0);
            assert(last_into(flow, width, rows, plan, at, c, due[c]));
            if due[c] >= 0 {
                assert(plan2[due[c]] == plan[due[c]]);
                assert forall|other: int| #[trigger] feeds(flow, width, rows, other, c) implies 0
                    <= at2[other] <= due2[c] by {
                    assert(0 <= at[other] <= due[c]);
                }
            }
        }
    }
    assert forall|c: int| 0 <= c < count && at2[c] >= 0 implies #[trigger] due2[c] < at2[c] by {
        if c == index {
            assert(last_into(flow, width, rows, plan, at, c, due[c]));
        } else {
            assert(at[c] >= 0);
            assert(moved[c]);
            assert(due[c] < at[c]);
        }
    }
    assert forall|j: int, k: int| 0 <= j < k < queue2.len() implies #[trigger] moves_before(
        due2,
        queue2[j] as int,
        queue2[k] as int,
    ) by {
        assert(queue2[j] == queue[j]);
        assert(place[queue[j] as int] == j);
        if k < queue.len() {
            assert(queue2[k] == queue[k]);
            assert(place[queue[k] as int] == k);
            assert(moves_before(due, queue[j] as int, queue[k] as int));
        } else {
            let c = queue[j] as int;
            assert(last_into(flow, width, rows, plan, at, c, due[c]));
        }
    }
}

/// The transfers by which water runs off: each pair names a cell and the cell its water
/// moves into, in order, so that all that drains into a cell has arrived before the
/// cell's own water moves on.
///
/// Adding, for each pair in turn, the first cell's total to the second's leaves in each
/// cell its own weight and everything upstream of it.
pub fn accumulate(flow: &Vec<u8>, width: usize, rows: usize) -> (plan: Vec<(usize, usize)>)
    requires
        width * rows <= usize::MAX,
        flow@.len() == width * rows,
    ensures
        planned(flow@, width as int, rows as int, plan@),
{
    proof {
        assert(0 <= width * rows) by (nonlinear_arith);
    }
    let count: usize = width * rows;
    let ghost w = width as int;
    let ghost h = rows as int;
    let ghost mut moved: Seq<bool> = Seq::new(count as nat, |c: int| false);
    let mut incoming: Vec<usize> = Vec::new();
    let mut index: usize = 0;
    while index < count
        invariant
            index <= count,
            incoming@.len() == index,
            forall|c: int| 0 <= c < index ==> incoming@[c] == 0,
        decreases count - index,
    {
        incoming.push(0);
        index = index + 1;
    }
    index = 0;
    while index < count
        invariant
            index <= count,
            count == width * rows,
            width * rows <= usize::MAX,
            flow@.len() == width * rows,
            w == width,
            h == rows,
            incoming@.len() == count,
            moved.len() == count,
            forall|c: int| 0 <= c < count ==> !moved[c],
            forall|c: int|
                0 <= c < count ==> #[trigger] incoming@[c] == waiting(
                    flow@,
                    w,
                    h,
                    moved,
                    c,
                    index as int,
                ),
        decreases count - index,
    {
        if let Some(to) = downstream_of(flow, width, rows, index) {
            proof {
                lemma_waiting_bound(flow@, w, h, moved, to as int, index as int);
            }
            let more: usize = incoming[to] + 1;
            incoming.set(to, more);
        }
        index = index + 1;
    }

    let ghost mut place: Seq<int> = Seq::new(count as nat, |c: int| -1int);
    let ghost mut at: Seq<int> = Seq::new(count as nat, |c: int| -1int);
    let ghost mut due: Seq<int> = Seq::new(count as nat, |c: int| -1int);
    let mut queue: Vec<usize> = Vec::new();
    index = 0;
    while index < count
        invariant
            index <= count,
            count == incoming@.len(),
            place.len() == count,
            due.len() == count,
            forall|c: int| 0 <= c < count ==> #[trigger] due[c] == -1,
            forall|k: int|
                0 <= k < queue@.len() ==> #[trigger] queue@[k] < index && place[queue@[k] as int]
                    == k,
            forall|c: int|
                0 <= c < count ==> #[trigger] place[c] == -1 || (0 <= place[c] < queue@.len()
                    && queue@[place[c]] == c),
            forall|c: int| 0 <= c < index ==> (place[c] >= 0 <==> #[trigger] incoming@[c] == 0),
            forall|c: int| index <= c < count ==> #[trigger] place[c] == -1,
            forall|j: int, k: int| 0 <= j < k < queue@.len() ==> queue@[j] < queue@[k],
        decreases count - index,
    {
        if incoming[index] == 0 {
            proof {
                place = place.update(index as int, queue@.len() as int);
            }
            queue.push(index);
        }
        index = index + 1;
    }

    let mut plan: Vec<(usize, usize)> = Vec::new();
    let mut head: usize = 0;
    proof {
        assert forall|c: int| 0 <= c < count && place[c] >= 0 implies #[trigger] last_into(
            flow@,
            w,
            h,
            plan@,
            at,
            c,
            due[c],
        ) by {
            assert(incoming@[c] == 0);
            lemma_waiting_none(flow@, w, h, moved, c, count as int);
            assert(due[c] == -1);
            assert forall|other: int| !#[trigger] feeds(flow@, w, h, other, c) by {
                if feeds(flow@, w, h, other, c) {
                    assert(moved[other]);
                }
            }
        }
        assert forall|j: int, k: int| 0 <= j < k < queue@.len() implies #[trigger] moves_before(
            due,
            queue@[j] as int,
            queue@[k] as int,
        ) by {
            assert(due[queue@[j] as int] == -1 && due[queue@[k] as int] == -1);
        }
        assert(moving(flow@, w, h, incoming@, queue@, 0, plan@, moved, place, at, due));
    }
    while head < queue.len()
        invariant
            count == width * rows,
            width * rows <= usize::MAX,
            flow@.len() == width * rows,
            w == width,
            h == rows,
            moving(flow@, w, h, incoming@, queue@, head as int, plan@, moved, place, at, due),
        decreases count - head,
    {
        proof {
            lemma_queue_fits(
                flow@,
                w,
                h,
                incoming@,
                queue@,
                head as int,
                plan@,
                moved,
                place,
                at,
                due,
            );
        }
        let cell: usize = queue[head];
        let way: Option<usize> = downstream_of(flow, width, rows, cell);
        match way {
            None => {
                proof {
                    lemma_settle(
                        flow@,
                        w,
                        h,
                        incoming@,
                        queue@,
                        head as int,
                        plan@,
                        moved,
                        place,
                        at,
                        due,
                    );
                    moved = moved.update(cell as int, true);
                }
            },
            Some(to) => {
                proof {
                    lemma_pour(
                        flow@,
                        w,
                        h,
                        incoming@,
                        queue@,
                        head as int,
                        plan@,
                        moved,
                        place,
                        at,
                        due,
                        to,
                    );
                    moved = moved.update(cell as int, true);
                    at = at.update(cell as int, plan@.len() as int);
                }
                let left: usize = incoming[to] - 1;
                incoming.set(to, left);
                proof {
                    if left == 0 {
                        place = place.update(to as int, queue@.len() as int);
                        due = due.update(to as int, plan@.len() as int);
                    }
                }
                plan.push((cell, to));
                if left == 0 {
                    queue.push(to);
                }
            },
        }
        head = head + 1;
    }
    proof {
        assert forall|c: int| 0 <= c < count implies #[trigger] fed_first(flow@, w, h, at, c) by {
            if at[c] >= 0 {
                assert(moved[c]);
                assert(last_into(flow@, w, h, plan@, at, c, due[c]));
                assert(due[c] < at[c]);
            }
        }
        assert forall|c: int| 0 <= c < count implies #[trigger] held_back(flow@, w, h, at, c) by {
            if at[c] < 0 && outlet(flow@, w, h, c) is Some {
                assert(!moved[c]);
                assert(place[c] == -1);
                assert(incoming@[c] != 0);
                lemma_waiting_none(flow@, w, h, moved, c, count as int);
                let other = choose|other: int|
                    0 <= other < count && #[trigger] outlet(flow@, w, h, other) == Some(c)
                        && !moved[other];
                assert(feeds(flow@, w, h, other, c));
                assert(at[other] < 0);
            }
        }
        assert forall|c: int| 0 <= c < count && at[c] >= 0 implies #[trigger] last_into(
            flow@,
            w,
            h,
            plan@,
            at,
            c,
            due[c],
        ) by {
            assert(moved[c]);
        }
        assert forall|j: int, k: int| 0 <= j < k < plan@.len() implies #[trigger] moves_before(
            due,
            plan@[j].0 as int,
            plan@[k].0 as int,
        ) by {
            let a = plan@[j].0 as int;
            let b = plan@[k].0 as int;
            assert(at[a] == j && at[b] == k);
            assert(moved[a] && moved[b]);
            assert(place[a] < place[b]);
            assert(queue@[place[a]] == a && queue@[place[b]] == b);
            assert(moves_before(due, queue@[place[a]] as int, queue@[place[b]] as int));
        }
        assert(is_plan(flow@, w, h, plan@, at, due));
    }
    plan
}

} // verus!
