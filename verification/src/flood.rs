//! Filling the hollows of a height field: every cell is raised to the lowest level at
//! which water standing on it could run off over the border.

use vstd::prelude::*;
use vstd::multiset::Multiset;
use crate::counting::lemma_distinct_leave_room;
use crate::grid::{adjacent, cell, inside, lemma_cell, lemma_split, neighbour, on_border, target};
use crate::heap::{Pending, Queue};
use crate::raster::Raster;
use crate::single::Single;

verus! {

/// What filling a height field gives: the water surface, and the surface that water is
/// routed over where the first is level.
#[derive(Debug)]
pub struct Flood {
    /// The level water stands at in each cell, which is the ground where it stands dry.
    pub filled: Vec<Single>,
    /// The ground raised so that it falls towards the border everywhere.
    pub routing: Vec<Single>,
}

/// A cell as the queue holds it.
pub open spec fn pending(filled: Seq<Single>, index: int) -> Pending {
    Pending { key: filled[index].key(), index: index as usize }
}

/// Whether a cell's levels are those of the cell the water reached it from: its ground,
/// or the other's level where that is higher. A border cell stands at its ground.
pub open spec fn spread_to(
    ground: Seq<Single>,
    width: int,
    rows: int,
    filled: Seq<Single>,
    routing: Seq<Single>,
    from: Seq<int>,
    index: int,
) -> bool {
    if on_border(index, width, rows) {
        filled[index] == ground[index] && routing[index] == ground[index]
    } else {
        let source = from[index];
        &&& 0 <= source < width * rows
        &&& adjacent(source, index, width, rows)
        &&& filled[index] == ground[index].larger(filled[source])
        &&& routing[index] == ground[index].larger(routing[source].following())
    }
}

/// Whether a cell was reached from the first of its neighbours to be spread from.
pub open spec fn reached_first(
    width: int,
    rows: int,
    time: Seq<int>,
    from: Seq<int>,
    index: int,
) -> bool {
    !on_border(index, width, rows) ==> forall|other: int|
        0 <= other < width * rows && #[trigger] adjacent(other, index, width, rows)
            ==> time[from[index]] <= time[other]
}

/// Whether `late`, which was already reached when `early` was spread from and came after
/// it, stands behind it in the queue's order.
pub open spec fn in_turn(
    width: int,
    rows: int,
    filled: Seq<Single>,
    time: Seq<int>,
    from: Seq<int>,
    early: int,
    late: int,
) -> bool {
    time[early] < time[late] && (on_border(late, width, rows) || time[from[late]] < time[early])
        ==> pending(filled, early).precedes(pending(filled, late))
}

/// Whether `filled` and `routing` are what a flood from the border leaves. Water enters
/// at every border cell; the cell with the lowest surface is always the next to spread
/// from, and a cell takes its levels from the first neighbour to reach it. `time` says
/// when each cell was spread from and `from` which neighbour reached it.
pub open spec fn is_flood(
    ground: Seq<Single>,
    width: int,
    rows: int,
    filled: Seq<Single>,
    routing: Seq<Single>,
    time: Seq<int>,
    from: Seq<int>,
) -> bool {
    let count = width * rows;
    &&& filled.len() == count && routing.len() == count && time.len() == count && from.len()
        == count
    &&& forall|c: int| 0 <= c < count ==> 0 <= #[trigger] time[c] < count
    &&& forall|a: int, b: int|
        0 <= a < count && 0 <= b < count && a != b ==> #[trigger] time[a] != #[trigger] time[b]
    &&& forall|c: int|
        0 <= c < count ==> #[trigger] spread_to(ground, width, rows, filled, routing, from, c)
    &&& forall|c: int|
        0 <= c < count && !on_border(c, width, rows) ==> time[from[c]] < #[trigger] time[c]
    &&& forall|c: int| 0 <= c < count ==> #[trigger] reached_first(width, rows, time, from, c)
    &&& forall|early: int, late: int|
        0 <= early < count && 0 <= late < count ==> #[trigger] in_turn(
            width,
            rows,
            filled,
            time,
            from,
            early,
            late,
        )
}

/// Whether `filled` and `routing` are what flooding `ground` leaves.
pub open spec fn flooded(
    ground: Seq<Single>,
    width: int,
    rows: int,
    filled: Seq<Single>,
    routing: Seq<Single>,
) -> bool {
    exists|time: Seq<int>, from: Seq<int>| #[trigger]
        is_flood(ground, width, rows, filled, routing, time, from)
}

/// The flood part of the way: `taken` cells have been spread from, and `busy`, where it
/// is a cell, is being spread from now.
spec fn underway(
    ground: Seq<Single>,
    width: int,
    rows: int,
    filled: Seq<Single>,
    routing: Seq<Single>,
    seen: Seq<bool>,
    time: Seq<int>,
    from: Seq<int>,
    taken: int,
    busy: int,
) -> bool {
    let count = width * rows;
    &&& ground.len() == count
    &&& filled.len() == count && routing.len() == count && seen.len() == count
    &&& time.len() == count && from.len() == count
    &&& 0 <= taken <= count
    &&& forall|c: int|
        0 <= c < count ==> 0 <= #[trigger] time[c] && (time[c] < taken || time[c] == count)
    &&& forall|a: int, b: int|
        0 <= a < count && 0 <= b < count && a != b && time[a] < taken ==> #[trigger] time[a]
            != #[trigger] time[b]
    &&& forall|c: int|
        0 <= c < count && (time[c] < taken || on_border(c, width, rows)) ==> #[trigger] seen[c]
    &&& forall|c: int|
        0 <= c < count && seen[c] ==> #[trigger] spread_to(
            ground,
            width,
            rows,
            filled,
            routing,
            from,
            c,
        )
    &&& forall|c: int|
        0 <= c < count && seen[c] && !on_border(c, width, rows) ==> time[#[trigger] from[c]]
            < taken && time[from[c]] < time[c]
    &&& forall|c: int|
        0 <= c < count && seen[c] ==> #[trigger] reached_first(width, rows, time, from, c)
    &&& forall|c: int, b: int|
        0 <= c < count && 0 <= b < count && !seen[c] && #[trigger] adjacent(b, c, width, rows) && b
            != busy ==> time[b] == count
    &&& forall|early: int, late: int|
        0 <= early < count && 0 <= late < count && time[early] < taken && seen[late]
            ==> #[trigger] in_turn(width, rows, filled, time, from, early, late)
}

/// Whether the queue holds the cells that were reached and not spread from.
spec fn queued(
    queue: Multiset<Pending>,
    filled: Seq<Single>,
    seen: Seq<bool>,
    time: Seq<int>,
) -> bool {
    forall|item: Pending| #[trigger]
        queue.count(item) == (if item.index < seen.len() && seen[item.index as int]
            && time[item.index as int] == seen.len() && item == pending(
            filled,
            item.index as int,
        ) {
            1nat
        } else {
            0nat
        })
}

/// Spreads from a cell to those of its neighbours that were not reached before.
fn spread_from(
    ground: &Vec<Single>,
    width: usize,
    rows: usize,
    index: usize,
    filled: &mut Vec<Single>,
    routing: &mut Vec<Single>,
    seen: &mut Vec<bool>,
    queue: &mut Queue,
    Ghost(time): Ghost<Seq<int>>,
    Ghost(reached): Ghost<Seq<int>>,
    Ghost(taken): Ghost<int>,
) -> (from: Ghost<Seq<int>>)
    requires
        index < width * rows,
        width * rows <= usize::MAX,
        index < time.len(),
        time[index as int] == taken - 1,
        underway(
            ground@,
            width as int,
            rows as int,
            old(filled)@,
            old(routing)@,
            old(seen)@,
            time,
            reached,
            taken,
            index as int,
        ),
        old(queue).wf(),
        queued(old(queue)@, old(filled)@, old(seen)@, time),
    ensures
        underway(
            ground@,
            width as int,
            rows as int,
            final(filled)@,
            final(routing)@,
            final(seen)@,
            time,
            from@,
            taken,
            -1,
        ),
        final(queue).wf(),
        queued(final(queue)@, final(filled)@, final(seen)@, time),
{
    let ghost mut from: Seq<int> = reached;
    proof {
        lemma_split(index as int, width as int, rows as int);
    }
    let x: usize = index % width;
    let y: usize = index / width;
    let mut step: usize = 0;
    while step < 8
        invariant
            step <= 8,
            index < width * rows,
            width * rows <= usize::MAX,
            width > 0,
            x == index % width,
            y == index / width,
            time[index as int] == taken - 1,
            underway(
                ground@,
                width as int,
                rows as int,
                filled@,
                routing@,
                seen@,
                time,
                from,
                taken,
                index as int,
            ),
            forall|s: int|
                0 <= s < step ==> match #[trigger] target(
                    index as int,
                    s,
                    width as int,
                    rows as int,
                ) {
                    Some(next) => 0 <= next < width * rows && seen@[next],
                    None => true,
                },
            queue.wf(),
            queued(queue@, filled@, seen@, time),
        decreases 8 - step,
    {
        let way: Option<usize> = neighbour(x, y, step, width, rows);
        if let Some(next) = way {
            assert(target(index as int, step as int, width as int, rows as int) == Some(
                next as int,
            ));
            if !seen[next] {
                let ghost old_filled = filled@;
                let ghost old_routing = routing@;
                let ghost old_seen = seen@;
                let ghost old_from = from;
                let ghost old_queue = queue@;
                seen.set(next, true);
                let level: Single = ground[next].max(filled[index]);
                filled.set(next, level);
                let lifted: Single = ground[next].max(routing[index].next_up());
                routing.set(next, lifted);
                queue.push(Pending { key: level.order_key(), index: next });
                proof {
                    from = from.update(next as int, index as int);
                    lemma_reach(
                        ground@,
                        width as int,
                        rows as int,
                        old_filled,
                        old_routing,
                        old_seen,
                        time,
                        old_from,
                        taken,
                        index as int,
                        next as int,
                    );
                    assert(filled@ =~= old_filled.update(next as int, level));
                    assert forall|item: Pending| #[trigger]
                        queue@.count(item) == (if item.index < seen@.len()
                            && seen@[item.index as int] && time[item.index as int] == seen@.len()
                            && item == pending(filled@, item.index as int) {
                            1nat
                        } else {
                            0nat
                        }) by {
                        assert(old_queue.count(item) <= 1);
                        if item.index != next && item.index < seen@.len() {
                            assert(filled@[item.index as int] == old_filled[item.index as int]);
                        }
                    }
                }
            }
        }
        assert(way is None ==> target(index as int, step as int, width as int, rows as int) is None);
        step = step + 1;
    }
    proof {
        let w = width as int;
        let h = rows as int;
        let count = w * h;
        assert forall|c: int, b: int|
            0 <= c < count && 0 <= b < count && !seen@[c] && #[trigger] adjacent(
                b,
                c,
                w,
                h,
            ) && b != -1 implies time[b] == count by {
            if b == index {
                let s = choose|s: int| 0 <= s < 8 && #[trigger] target(b, s, w, h) == Some(c);
                assert(seen@[c]);
            }
        }
    }
    Ghost(from)
}

/// Reaching one more cell keeps the flood underway.
proof fn lemma_reach(
    ground: Seq<Single>,
    width: int,
    rows: int,
    filled: Seq<Single>,
    routing: Seq<Single>,
    seen: Seq<bool>,
    time: Seq<int>,
    from: Seq<int>,
    taken: int,
    busy: int,
    next: int,
)
    requires
        underway(ground, width, rows, filled, routing, seen, time, from, taken, busy),
        0 <= width,
        0 <= rows,
        0 <= busy < width * rows,
        time[busy] == taken - 1,
        0 <= next < width * rows,
        adjacent(busy, next, width, rows),
        !seen[next],
    ensures
        time[next] == width * rows,
        !on_border(next, width, rows),
        underway(
            ground,
            width,
            rows,
            filled.update(next, ground[next].larger(filled[busy])),
            routing.update(next, ground[next].larger(routing[busy].following())),
            seen.update(next, true),
            time,
            from.update(next, busy),
            taken,
            busy,
        ),
{
    let count = width * rows;
    let filled2 = filled.update(next, ground[next].larger(filled[busy]));
    let routing2 = routing.update(next, ground[next].larger(routing[busy].following()));
    let seen2 = seen.update(next, true);
    let from2 = from.update(next, busy);
    assert(seen[busy]);
    assert(busy != next);
    assert forall|c: int| 0 <= c < count && seen2[c] implies #[trigger] spread_to(
        ground,
        width,
        rows,
        filled2,
        routing2,
        from2,
        c,
    ) by {
        if c != next {
            assert(spread_to(ground, width, rows, filled, routing, from, c));
            if !on_border(c, width, rows) {
                let source = from[c];
                assert(time[source] < taken);
                assert(seen[source]);
            }
        }
    }
    assert forall|c: int| 0 <= c < count && seen2[c] implies #[trigger] reached_first(
        width,
        rows,
        time,
        from2,
        c,
    ) by {
        if c == next {
            assert forall|other: int|
                0 <= other < width * rows && #[trigger] adjacent(
                    other,
                    next,
                    width,
                    rows,
                ) implies time[busy] <= time[other] by {}
        } else {
            assert(reached_first(width, rows, time, from, c));
        }
    }
    assert forall|early: int, late: int|
        0 <= early < count && 0 <= late < count && time[early] < taken
            && seen2[late] implies #[trigger] in_turn(
        width,
        rows,
        filled2,
        time,
        from2,
        early,
        late,
    ) by {
        assert(seen[early]);
        if late != next {
            assert(in_turn(width, rows, filled, time, from, early, late));
        }
    }
}

/// Taking the first cell of the queue keeps the flood underway.
proof fn lemma_take(
    ground: Seq<Single>,
    width: int,
    rows: int,
    filled: Seq<Single>,
    routing: Seq<Single>,
    seen: Seq<bool>,
    time: Seq<int>,
    from: Seq<int>,
    taken: int,
    index: int,
)
    requires
        underway(ground, width, rows, filled, routing, seen, time, from, taken, -1),
        0 <= index < width * rows,
        seen[index],
        time[index] == width * rows,
        taken < width * rows,
        forall|c: int|
            0 <= c < width * rows && seen[c] && time[c] == width * rows && c != index
                ==> #[trigger] pending(filled, index).precedes(pending(filled, c)),
    ensures
        underway(
            ground,
            width,
            rows,
            filled,
            routing,
            seen,
            time.update(index, taken),
            from,
            taken + 1,
            index,
        ),
{
    let count = width * rows;
    let time2 = time.update(index, taken);
    assert forall|c: int| 0 <= c < count && seen[c] implies #[trigger] spread_to(
        ground,
        width,
        rows,
        filled,
        routing,
        from,
        c,
    ) by {}
    assert forall|c: int|
        0 <= c < count && seen[c] && !on_border(c, width, rows) implies time2[#[trigger] from[c]]
        < taken + 1 && time2[from[c]] < time2[c] by {
        assert(spread_to(ground, width, rows, filled, routing, from, c));
        assert(time[from[c]] < taken);
    }
    assert forall|c: int| 0 <= c < count && seen[c] implies #[trigger] reached_first(
        width,
        rows,
        time2,
        from,
        c,
    ) by {
        assert(reached_first(width, rows, time, from, c));
        if !on_border(c, width, rows) {
            assert(spread_to(ground, width, rows, filled, routing, from, c));
            assert(time[from[c]] < taken);
            assert forall|other: int|
                0 <= other < width * rows && #[trigger] adjacent(
                    other,
                    c,
                    width,
                    rows,
                ) implies time2[from[c]] <= time2[other] by {
                assert(time[from[c]] <= time[other]);
            }
        }
    }
    assert forall|early: int, late: int|
        0 <= early < count && 0 <= late < count && time2[early] < taken + 1
            && seen[late] implies #[trigger] in_turn(
        width,
        rows,
        filled,
        time2,
        from,
        early,
        late,
    ) by {
        if !on_border(late, width, rows) {
            assert(spread_to(ground, width, rows, filled, routing, from, late));
            assert(time[from[late]] < taken);
        }
        if early == index {
            if late != index && time[late] == count {
                assert(pending(filled, index).precedes(pending(filled, late)));
            }
        } else {
            assert(in_turn(width, rows, filled, time, from, early, late));
        }
    }
}

/// Once the queue is empty every cell has been spread from.
proof fn lemma_all_taken(
    ground: Seq<Single>,
    width: int,
    rows: int,
    filled: Seq<Single>,
    routing: Seq<Single>,
    seen: Seq<bool>,
    time: Seq<int>,
    from: Seq<int>,
    taken: int,
    x: int,
    y: int,
)
    requires
        underway(ground, width, rows, filled, routing, seen, time, from, taken, -1),
        forall|c: int| 0 <= c < width * rows && seen[c] ==> #[trigger] time[c] < taken,
        inside(x, y, width, rows),
    ensures
        seen[cell(x, y, width)],
        time[cell(x, y, width)] < taken,
    decreases x,
{
    let c = cell(x, y, width);
    lemma_cell(x, y, width, rows);
    if x == 0 {
        assert(on_border(c, width, rows));
        assert(seen[c]);
        assert(time[c] < taken);
    } else {
        let b = cell(x - 1, y, width);
        lemma_all_taken(
            ground,
            width,
            rows,
            filled,
            routing,
            seen,
            time,
            from,
            taken,
            x - 1,
            y,
        );
        lemma_cell(x - 1, y, width, rows);
        assert(target(b, 0, width, rows) == Some(c));
        assert(adjacent(b, c, width, rows));
        assert(time[b] < taken);
        assert(seen[c]);
        assert(time[c] < taken);
    }
}

/// Fills the hollows of a height field.
///
/// Border cells keep their height. Every other cell stands at its ground, or at the
/// level of the first neighbour the water reached it from where that is higher; the
/// lowest surface is always spread from next.
pub fn fill(height: &Raster<Single>) -> (flood: Flood)
    requires
        height.wf(),
    ensures
        flooded(
            height.data@,
            height.size.x as int,
            height.size.y as int,
            flood.filled@,
            flood.routing@,
        ),
{
    let width: usize = height.size.x as usize;
    let rows: usize = height.size.y as usize;
    let ground: &Vec<Single> = &height.data;
    let count: usize = ground.len();
    let ghost w = width as int;
    let ghost h = rows as int;
    let mut filled: Vec<Single> = Vec::new();
    let mut routing: Vec<Single> = Vec::new();
    let mut seen: Vec<bool> = Vec::new();
    let mut queue: Queue = Queue::new();
    let ghost mut time: Seq<int> = Seq::new(count as nat, |c: int| count as int);
    let ghost mut from: Seq<int> = Seq::new(count as nat, |c: int| 0int);

    let mut index: usize = 0;
    while index < count
        invariant
            index <= count,
            count == ground@.len(),
            count == w * h,
            w == width,
            h == rows,
            filled@.len() == index,
            routing@.len() == index,
            seen@.len() == index,
            time.len() == count,
            forall|c: int| 0 <= c < count ==> time[c] == count,
            forall|c: int| 0 <= c < index ==> #[trigger] seen@[c] == on_border(c, w, h),
            forall|c: int|
                0 <= c < index && on_border(c, w, h) ==> #[trigger] filled@[c] == ground@[c],
            forall|c: int|
                0 <= c < index && on_border(c, w, h) ==> #[trigger] routing@[c] == ground@[c],
            queue.wf(),
            forall|item: Pending| #[trigger]
                queue@.count(item) == (if item.index < index && on_border(item.index as int, w, h)
                    && item == pending(filled@, item.index as int) {
                    1nat
                } else {
                    0nat
                }),
        decreases count - index,
    {
        proof {
            lemma_split(index as int, w, h);
        }
        let x: usize = index % width;
        let y: usize = index / width;
        let ghost old_queue = queue@;
        let ghost old_filled = filled@;
        if x == 0 || y == 0 || x + 1 == width || y + 1 == rows {
            filled.push(ground[index]);
            routing.push(ground[index]);
            seen.push(true);
            queue.push(Pending { key: ground[index].order_key(), index });
        } else {
            filled.push(Single(0));
            routing.push(Single(0));
            seen.push(false);
        }
        proof {
            assert forall|item: Pending| #[trigger]
                queue@.count(item) == (if item.index < index + 1 && on_border(
                    item.index as int,
                    w,
                    h,
                ) && item == pending(filled@, item.index as int) {
                    1nat
                } else {
                    0nat
                }) by {
                assert(old_queue.count(item) <= 1);
                if item.index < index {
                    assert(filled@[item.index as int] == old_filled[item.index as int]);
                }
            }
        }
        index = index + 1;
    }

    let ghost mut taken: int = 0;
    let ghost mut order: Seq<int> = Seq::empty();
    proof {
        assert forall|c: int| 0 <= c < count && seen@[c] implies #[trigger] spread_to(
            ground@,
            w,
            h,
            filled@,
            routing@,
            from,
            c,
        ) by {
            assert(on_border(c, w, h));
        }
        assert(underway(ground@, w, h, filled@, routing@, seen@, time, from, taken, -1));
        assert(queued(queue@, filled@, seen@, time));
    }
    loop
        invariant
            count == ground@.len(),
            count == w * h,
            w == width,
            h == rows,
            underway(ground@, w, h, filled@, routing@, seen@, time, from, taken, -1),
            queue.wf(),
            queued(queue@, filled@, seen@, time),
            order.len() == taken,
            forall|k: int|
                0 <= k < taken ==> 0 <= #[trigger] order[k] < count && time[order[k]] == k,
        ensures
            underway(ground@, w, h, filled@, routing@, seen@, time, from, taken, -1),
            forall|c: int| 0 <= c < w * h && seen@[c] ==> #[trigger] time[c] < taken,
        decreases count - taken,
    {
        let ghost before = queue@;
        let next: Option<Pending> = queue.pop();
        match next {
            None => {
                proof {
                    assert forall|c: int| 0 <= c < w * h && seen@[c] implies #[trigger] time[c]
                        < taken by {
                        assert(before.count(pending(filled@, c)) == 0);
                    }
                }
                break;
            },
            Some(item) => {
                let index: usize = item.index;
                proof {
                    assert(before.count(item) == 1);
                    if order.contains(index as int) {
                        let k = choose|k: int| 0 <= k < order.len() && order[k] == index;
                        assert(time[order[k]] == k);
                    }
                    lemma_distinct_leave_room(order, count as int, index as int);
                    assert forall|c: int|
                        0 <= c < w * h && seen@[c] && time[c] == w * h && c
                            != index implies #[trigger] pending(filled@, index as int).precedes(
                        pending(filled@, c),
                    ) by {
                        assert(before.count(pending(filled@, c)) == 1);
                        assert(!pending(filled@, c).precedes(item));
                    }
                    lemma_take(
                        ground@,
                        w,
                        h,
                        filled@,
                        routing@,
                        seen@,
                        time,
                        from,
                        taken,
                        index as int,
                    );
                    let old_time = time;
                    time = time.update(index as int, taken);
                    order = order.push(index as int);
                    taken = taken + 1;
                    assert forall|other: Pending| #[trigger]
                        queue@.count(other) == (if other.index < seen@.len()
                            && seen@[other.index as int] && time[other.index as int] == seen@.len()
                            && other == pending(filled@, other.index as int) {
                            1nat
                        } else {
                            0nat
                        }) by {
                        assert(before.count(other) <= 1);
                    }
                    assert forall|k: int| 0 <= k < taken implies 0 <= #[trigger] order[k] < count
                        && time[order[k]] == k by {
                        if k < taken - 1 {
                            assert(old_time[order[k]] == k);
                        }
                    }
                }
                let reached = spread_from(
                    ground,
                    width,
                    rows,
                    index,
                    &mut filled,
                    &mut routing,
                    &mut seen,
                    &mut queue,
                    Ghost(time),
                    Ghost(from),
                    Ghost(taken),
                );
                proof {
                    from = reached@;
                }
            },
        }
    }
    proof {
        assert forall|c: int| 0 <= c < w * h implies 0 <= #[trigger] time[c] < taken by {
            lemma_split(c, w, h);
            lemma_all_taken(
                ground@,
                w,
                h,
                filled@,
                routing@,
                seen@,
                time,
                from,
                taken,
                c % w,
                c / w,
            );
        }
        assert forall|c: int| 0 <= c < w * h implies #[trigger] seen@[c] by {
            assert(time[c] < taken);
        }
        assert forall|c: int| 0 <= c < w * h implies #[trigger] spread_to(
            ground@,
            w,
            h,
            filled@,
            routing@,
            from,
            c,
        ) by {
            assert(seen@[c]);
        }
        assert forall|c: int| 0 <= c < w * h implies #[trigger] reached_first(
            w,
            h,
            time,
            from,
            c,
        ) by {
            assert(seen@[c]);
        }
        assert forall|early: int, late: int|
            0 <= early < w * h && 0 <= late < w * h implies #[trigger] in_turn(
            w,
            h,
            filled@,
            time,
            from,
            early,
            late,
        ) by {
            assert(seen@[late]);
            assert(time[early] < taken);
        }
        assert forall|c: int| 0 <= c < w * h && !on_border(c, w, h) implies time[from[c]]
            < #[trigger] time[c] by {
            assert(seen@[c]);
        }
        assert(is_flood(ground@, w, h, filled@, routing@, time, from));
    }
    Flood { filled, routing }
}

} // verus!
