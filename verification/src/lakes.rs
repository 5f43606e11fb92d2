//! The bodies of standing water on a filled height field.

use vstd::prelude::*;
use vstd::set_lib::*;
use crate::counting::lemma_distinct_fit;
use crate::grid::{
    lemma_cell, lemma_split, lemma_target, neighbour, opposite, step_x, step_y, target,
};
use crate::single::Single;

verus! {

/// Whether water stands on a cell: whether its surface is not at or below its ground.
pub open spec fn wet(filled: Seq<Single>, ground: Seq<Single>, index: int) -> bool {
    !filled[index].at_most(ground[index])
}

/// Whether `step` is one of the four that keep to a row or a column.
pub open spec fn straight(step: int) -> bool {
    step == 0 || step == 2 || step == 4 || step == 6
}

/// Whether one wet cell lies beside another, in its row or its column.
pub open spec fn touches(
    filled: Seq<Single>,
    ground: Seq<Single>,
    width: int,
    rows: int,
    a: int,
    b: int,
) -> bool {
    &&& 0 <= a < width * rows && 0 <= b < width * rows
    &&& wet(filled, ground, a) && wet(filled, ground, b)
    &&& exists|step: int| straight(step) && #[trigger] target(a, step, width, rows) == Some(b)
}

/// Whether `path` leads from one wet cell to another, each touching the next.
pub open spec fn wades(
    filled: Seq<Single>,
    ground: Seq<Single>,
    width: int,
    rows: int,
    path: Seq<int>,
    a: int,
    b: int,
) -> bool {
    &&& path.len() > 0 && path[0] == a && path.last() == b
    &&& 0 <= a < width * rows && wet(filled, ground, a)
    &&& forall|i: int|
        0 <= i < path.len() - 1 ==> touches(
            filled,
            ground,
            width,
            rows,
            #[trigger] path[i],
            path[i + 1],
        )
}

/// Whether two wet cells belong to one body of water.
pub open spec fn joined(
    filled: Seq<Single>,
    ground: Seq<Single>,
    width: int,
    rows: int,
    a: int,
    b: int,
) -> bool {
    exists|path: Seq<int>| #[trigger] wades(filled, ground, width, rows, path, a, b)
}

/// The body of water a cell belongs to.
pub open spec fn body(
    filled: Seq<Single>,
    ground: Seq<Single>,
    width: int,
    rows: int,
    index: int,
) -> Set<int> {
    Set::new(|other: int| joined(filled, ground, width, rows, index, other))
}

/// Whether a cell is the first of its body of water.
pub open spec fn heads(
    filled: Seq<Single>,
    ground: Seq<Single>,
    width: int,
    rows: int,
    index: int,
) -> bool {
    &&& 0 <= index < width * rows
    &&& wet(filled, ground, index)
    &&& forall|other: int| #[trigger]
        joined(filled, ground, width, rows, index, other) ==> index <= other
}

/// Whether a cell is the first of a body of at least `least` cells.
pub open spec fn heads_lake(
    filled: Seq<Single>,
    ground: Seq<Single>,
    width: int,
    rows: int,
    least: int,
    index: int,
) -> bool {
    heads(filled, ground, width, rows, index) && body(filled, ground, width, rows, index).len()
        >= least
}

/// How many of the first `upto` cells are the first of a body of at least `least` cells.
pub open spec fn lakes_before(
    filled: Seq<Single>,
    ground: Seq<Single>,
    width: int,
    rows: int,
    least: int,
    upto: int,
) -> nat
    decreases upto,
{
    if upto <= 0 {
        0
    } else {
        lakes_before(filled, ground, width, rows, least, upto - 1) + (if heads_lake(
            filled,
            ground,
            width,
            rows,
            least,
            upto - 1,
        ) {
            1nat
        } else {
            0nat
        })
    }
}

/// Whether `label` is a cell's lake id: zero on dry ground and in a body of fewer than
/// `least` cells, otherwise the number of its body among those of at least that many, in
/// order of their first cells.
pub open spec fn lake_of(
    filled: Seq<Single>,
    ground: Seq<Single>,
    width: int,
    rows: int,
    least: int,
    index: int,
    label: u32,
) -> bool {
    if !wet(filled, ground, index) || body(filled, ground, width, rows, index).len() < least {
        label == 0
    } else {
        exists|head: int| #[trigger]
            heads(filled, ground, width, rows, head) && joined(
                filled,
                ground,
                width,
                rows,
                head,
                index,
            ) && label == lakes_before(filled, ground, width, rows, least, head + 1)
    }
}

/// Touching goes both ways.
proof fn lemma_touches_symmetric(
    filled: Seq<Single>,
    ground: Seq<Single>,
    width: int,
    rows: int,
    a: int,
    b: int,
)
    requires
        0 <= width,
        0 <= rows,
        touches(filled, ground, width, rows, a, b),
    ensures
        touches(filled, ground, width, rows, b, a),
{
    let step = choose|step: int|
        straight(step) && #[trigger] target(a, step, width, rows) == Some(b);
    lemma_target(a, step, width, rows);
    assert(straight(opposite(step)) && target(b, opposite(step), width, rows) == Some(a));
}

/// A wet cell belongs to its own body.
pub proof fn lemma_joined_self(
    filled: Seq<Single>,
    ground: Seq<Single>,
    width: int,
    rows: int,
    a: int,
)
    requires
        0 <= a < width * rows,
        wet(filled, ground, a),
    ensures
        joined(filled, ground, width, rows, a, a),
{
    assert(wades(filled, ground, width, rows, seq![a], a, a));
}

/// What is joined is a wet cell.
proof fn lemma_joined_wet(
    filled: Seq<Single>,
    ground: Seq<Single>,
    width: int,
    rows: int,
    a: int,
    b: int,
)
    requires
        joined(filled, ground, width, rows, a, b),
    ensures
        0 <= a < width * rows,
        0 <= b < width * rows,
        wet(filled, ground, a),
        wet(filled, ground, b),
{
    let path = choose|path: Seq<int>| #[trigger]
        wades(filled, ground, width, rows, path, a, b);
    if path.len() > 1 {
        let i = path.len() - 2;
        assert(touches(filled, ground, width, rows, path[i], path[i + 1]));
    }
}

/// Belonging to one body goes both ways.
proof fn lemma_joined_symmetric(
    filled: Seq<Single>,
    ground: Seq<Single>,
    width: int,
    rows: int,
    a: int,
    b: int,
)
    requires
        0 <= width,
        0 <= rows,
        joined(filled, ground, width, rows, a, b),
    ensures
        joined(filled, ground, width, rows, b, a),
{
    lemma_joined_wet(filled, ground, width, rows, a, b);
    let path = choose|path: Seq<int>| #[trigger]
        wades(filled, ground, width, rows, path, a, b);
    let back = Seq::new(path.len(), |i: int| path[path.len() - 1 - i]);
    assert forall|i: int| 0 <= i < back.len() - 1 implies touches(
        filled,
        ground,
        width,
        rows,
        #[trigger] back[i],
        back[i + 1],
    ) by {
        let j = path.len() - 2 - i;
        assert(touches(filled, ground, width, rows, path[j], path[j + 1]));
        lemma_touches_symmetric(filled, ground, width, rows, path[j], path[j + 1]);
    }
    assert(wades(filled, ground, width, rows, back, b, a));
}

/// Cells joined to one cell are joined to each other.
proof fn lemma_joined_transitive(
    filled: Seq<Single>,
    ground: Seq<Single>,
    width: int,
    rows: int,
    a: int,
    b: int,
    c: int,
)
    requires
        joined(filled, ground, width, rows, a, b),
        joined(filled, ground, width, rows, b, c),
    ensures
        joined(filled, ground, width, rows, a, c),
{
    let first = choose|path: Seq<int>| #[trigger]
        wades(filled, ground, width, rows, path, a, b);
    let second = choose|path: Seq<int>| #[trigger]
        wades(filled, ground, width, rows, path, b, c);
    let path = first + second.drop_first();
    assert(path[0] == a);
    assert(path.last() == c) by {
        if second.len() > 1 {
            assert(second.drop_first().last() == second.last());
        }
    }
    assert forall|i: int| 0 <= i < path.len() - 1 implies touches(
        filled,
        ground,
        width,
        rows,
        #[trigger] path[i],
        path[i + 1],
    ) by {
        if i + 1 < first.len() {
            assert(touches(filled, ground, width, rows, first[i], first[i + 1]));
        } else {
            let j = i - (first.len() - 1);
            assert(path[i] == second[j]);
            assert(path[i + 1] == second[j + 1]);
            assert(touches(filled, ground, width, rows, second[j], second[j + 1]));
        }
    }
    assert(wades(filled, ground, width, rows, path, a, c));
}

/// Whether whatever touches a marked cell is marked.
spec fn closed_under_touch(
    filled: Seq<Single>,
    ground: Seq<Single>,
    width: int,
    rows: int,
    marked: Seq<bool>,
) -> bool {
    forall|a: int, b: int| #[trigger]
        touches(filled, ground, width, rows, a, b) && marked[a] ==> marked[b]
}

/// A mark that spreads to all that touches covers whole bodies.
proof fn lemma_closed_covers(
    filled: Seq<Single>,
    ground: Seq<Single>,
    width: int,
    rows: int,
    marked: Seq<bool>,
    path: Seq<int>,
    a: int,
    b: int,
)
    requires
        closed_under_touch(filled, ground, width, rows, marked),
        wades(filled, ground, width, rows, path, a, b),
        marked[a],
    ensures
        marked[b],
    decreases path.len(),
{
    if path.len() > 1 {
        let rest = path.drop_first();
        assert(touches(filled, ground, width, rows, path[0], path[0int + 1]));
        assert forall|i: int| 0 <= i < rest.len() - 1 implies touches(
            filled,
            ground,
            width,
            rows,
            #[trigger] rest[i],
            rest[i + 1],
        ) by {
            assert(touches(filled, ground, width, rows, path[i + 1], path[i + 1 + 1]));
        }
        lemma_closed_covers(filled, ground, width, rows, marked, rest, path[1], b);
    }
}

/// Gathers the body of water a cell belongs to, claiming its cells.
fn gather(
    filled: &Vec<Single>,
    ground: &Vec<Single>,
    width: usize,
    rows: usize,
    start: usize,
    claimed: &mut Vec<bool>,
) -> (found: Vec<usize>)
    requires
        width * rows <= usize::MAX,
        filled@.len() == width * rows,
        ground@.len() == width * rows,
        old(claimed)@.len() == width * rows,
        start < width * rows,
        wet(filled@, ground@, start as int),
        !old(claimed)@[start as int],
        closed_under_touch(filled@, ground@, width as int, rows as int, old(claimed)@),
    ensures
        final(claimed)@.len() == width * rows,
        forall|c: int|
            0 <= c < width * rows ==> (#[trigger] final(claimed)@[c] <==> old(claimed)@[c]
                || joined(filled@, ground@, width as int, rows as int, start as int, c)),
        closed_under_touch(filled@, ground@, width as int, rows as int, final(claimed)@),
        forall|k: int|
            0 <= k < found@.len() ==> #[trigger] found@[k] < width * rows && joined(
                filled@,
                ground@,
                width as int,
                rows as int,
                start as int,
                found@[k] as int,
            ),
        forall|c: int|
            joined(filled@, ground@, width as int, rows as int, start as int, c)
                ==> exists|k: int| 0 <= k < found@.len() && #[trigger] found@[k] == c,
        found@.len() == body(filled@, ground@, width as int, rows as int, start as int).len(),
{
    let ghost w = width as int;
    let ghost h = rows as int;
    let ghost count = w * h;
    let ghost before = claimed@;
    let mut found: Vec<usize> = Vec::new();
    claimed.set(start, true);
    found.push(start);
    let ghost mut place: Seq<int> = Seq::new(count as nat, |c: int| -1int).update(
        start as int,
        0,
    );
    proof {
        lemma_joined_self(filled@, ground@, w, h, start as int);
    }
    let mut head: usize = 0;
    while head < found.len()
        invariant
            w == width,
            h == rows,
            count == w * h,
            width * rows <= usize::MAX,
            filled@.len() == count,
            ground@.len() == count,
            claimed@.len() == count,
            before.len() == count,
            place.len() == count,
            head <= found@.len(),
            found@.len() > 0,
            found@[0] == start,
            forall|k: int|
                0 <= k < found@.len() ==> #[trigger] found@[k] < count && place[found@[k] as int]
                    == k,
            forall|k: int|
                0 <= k < found@.len() ==> joined(
                    filled@,
                    ground@,
                    w,
                    h,
                    start as int,
                    #[trigger] found@[k] as int,
                ),
            forall|c: int|
                0 <= c < count ==> #[trigger] place[c] == -1 || (0 <= place[c] < found@.len()
                    && found@[place[c]] == c && !before[c]),
            forall|c: int|
                0 <= c < count ==> (#[trigger] claimed@[c] <==> before[c] || place[c] >= 0),
            forall|a: int, b: int|
                #![trigger touches(filled@, ground@, w, h, a, b)]
                touches(filled@, ground@, w, h, a, b) && 0 <= place[a] < head ==> claimed@[b],
        decreases count - head,
    {
        proof {
            lemma_found_fits(found@, place, count);
        }
        let index: usize = found[head];
        proof {
            lemma_split(index as int, w, h);
            lemma_joined_wet(filled@, ground@, w, h, start as int, index as int);
        }
        let x: usize = index % width;
        let y: usize = index / width;
        let mut step: usize = 0;
        while step < 8
            invariant
                w == width,
                h == rows,
                width > 0,
                count == w * h,
                width * rows <= usize::MAX,
                filled@.len() == count,
                ground@.len() == count,
                claimed@.len() == count,
                before.len() == count,
                place.len() == count,
                head < found@.len(),
                found@[0] == start,
                found@[head as int] == index,
                index < count,
                wet(filled@, ground@, index as int),
                x == index % width,
                y == index / width,
                step <= 8,
                step % 2 == 0,
                forall|k: int|
                    0 <= k < found@.len() ==> #[trigger] found@[k] < count
                        && place[found@[k] as int] == k,
                forall|k: int|
                    0 <= k < found@.len() ==> joined(
                        filled@,
                        ground@,
                        w,
                        h,
                        start as int,
                        #[trigger] found@[k] as int,
                    ),
                forall|c: int|
                    0 <= c < count ==> #[trigger] place[c] == -1 || (0 <= place[c] < found@.len()
                        && found@[place[c]] == c && !before[c]),
                forall|c: int|
                    0 <= c < count ==> (#[trigger] claimed@[c] <==> before[c] || place[c] >= 0),
                forall|a: int, b: int|
                    #![trigger touches(filled@, ground@, w, h, a, b)]
                    touches(filled@, ground@, w, h, a, b) && 0 <= place[a] < head ==> claimed@[b],
                forall|s: int|
                    0 <= s < step && straight(s) ==> match #[trigger] target(index as int, s, w, h) {
                        Some(next) => 0 <= next < count && (wet(filled@, ground@, next)
                            ==> claimed@[next]),
                        None => true,
                    },
            decreases 8 - step,
        {
            let way: Option<usize> = neighbour(x, y, step, width, rows);
            if let Some(next) = way {
                assert(target(index as int, step as int, w, h) == Some(next as int));
                if !claimed[next] && !filled[next].le(ground[next]) {
                    proof {
                        assert(straight(step as int));
                        assert(touches(filled@, ground@, w, h, index as int, next as int));
                        assert(wades(
                            filled@,
                            ground@,
                            w,
                            h,
                            seq![index as int, next as int],
                            index as int,
                            next as int,
                        ));
                        lemma_joined_transitive(
                            filled@,
                            ground@,
                            w,
                            h,
                            start as int,
                            index as int,
                            next as int,
                        );
                        place = place.update(next as int, found@.len() as int);
                    }
                    claimed.set(next, true);
                    found.push(next);
                }
            }
            assert(way is None ==> target(index as int, step as int, w, h) is None);
            step = step + 2;
        }
        proof {
            assert forall|a: int, b: int|
                #![trigger touches(filled@, ground@, w, h, a, b)]
                touches(filled@, ground@, w, h, a, b) && 0 <= place[a] < head
                    + 1 implies claimed@[b] by {
                if place[a] == head {
                    assert(found@[place[a]] == a);
                    let s = choose|s: int| straight(s) && #[trigger] target(a, s, w, h) == Some(b);
                    assert(0 <= s < 8);
                }
            }
        }
        head = head + 1;
    }
    proof {
        let goal = Seq::new(count as nat, |c: int| 0 <= place[c]);
        assert forall|a: int, b: int| #[trigger]
            touches(filled@, ground@, w, h, a, b) && goal[a] implies goal[b] by {
            assert(place[a] >= 0);
            assert(claimed@[b]);
            if before[b] {
                lemma_touches_symmetric(filled@, ground@, w, h, a, b);
                assert(before[a]);
            }
        }
        assert(place[found@[0] as int] == 0);
        assert forall|c: int| joined(filled@, ground@, w, h, start as int, c) implies exists|k: int|
            0 <= k < found@.len() && #[trigger] found@[k] == c by {
            lemma_joined_wet(filled@, ground@, w, h, start as int, c);
            let path = choose|path: Seq<int>| #[trigger]
                wades(filled@, ground@, w, h, path, start as int, c);
            lemma_closed_covers(filled@, ground@, w, h, goal, path, start as int, c);
            assert(found@[place[c]] == c);
        }
        assert forall|c: int| 0 <= c < count implies (#[trigger] claimed@[c] <==> before[c]
            || joined(filled@, ground@, w, h, start as int, c)) by {
            if place[c] >= 0 {
                assert(joined(filled@, ground@, w, h, start as int, found@[place[c]] as int));
            }
            if joined(filled@, ground@, w, h, start as int, c) {
                let k = choose|k: int| 0 <= k < found@.len() && #[trigger] found@[k] == c;
                assert(place[found@[k] as int] == k);
            }
        }
        assert forall|a: int, b: int| #[trigger]
            touches(filled@, ground@, w, h, a, b) && claimed@[a] implies claimed@[b] by {
            if !before[a] {
                assert(goal[a]);
                assert(goal[b]);
            }
        }
        let cells = found@.map_values(|c: usize| c as int);
        let pool = body(filled@, ground@, w, h, start as int);
        assert forall|c: int| cells.to_set().contains(c) <==> pool.contains(c) by {
            if cells.to_set().contains(c) {
                let k = choose|k: int| 0 <= k < cells.len() && cells[k] == c;
                assert(found@[k] == c);
            }
            if pool.contains(c) {
                let k = choose|k: int| 0 <= k < found@.len() && #[trigger] found@[k] == c;
                assert(cells[k] == c);
            }
        }
        assert(cells.to_set() =~= pool);
        lemma_found_distinct(found@, place, count);
        cells.unique_seq_to_set();
    }
    found
}

proof fn lemma_found_distinct(found: Seq<usize>, place: Seq<int>, count: int)
    requires
        forall|k: int|
            0 <= k < found.len() ==> #[trigger] found[k] < count && place[found[k] as int] == k,
    ensures
        found.map_values(|c: usize| c as int).no_duplicates(),
{
    let cells = found.map_values(|c: usize| c as int);
    assert forall|i: int, j: int|
        0 <= i < cells.len() && 0 <= j < cells.len() && i != j implies cells[i] != cells[j] by {
        assert(place[found[i] as int] == i);
        assert(place[found[j] as int] == j);
    }
}

proof fn lemma_found_fits(found: Seq<usize>, place: Seq<int>, count: int)
    requires
        forall|k: int|
            0 <= k < found.len() ==> #[trigger] found[k] < count && place[found[k] as int] == k,
        count >= 0,
    ensures
        found.len() <= count,
{
    lemma_found_distinct(found, place, count);
    let cells = found.map_values(|c: usize| c as int);
    assert forall|i: int| 0 <= i < cells.len() implies 0 <= #[trigger] cells[i] < count by {
        assert(found[i] < count);
    }
    lemma_distinct_fit(cells, count);
}

/// The cells of one body of water share it.
proof fn lemma_one_body(
    filled: Seq<Single>,
    ground: Seq<Single>,
    width: int,
    rows: int,
    a: int,
    b: int,
)
    requires
        0 <= width,
        0 <= rows,
        joined(filled, ground, width, rows, a, b),
    ensures
        body(filled, ground, width, rows, a) == body(filled, ground, width, rows, b),
{
    lemma_joined_symmetric(filled, ground, width, rows, a, b);
    assert forall|c: int|
        joined(filled, ground, width, rows, a, c) <==> joined(
            filled,
            ground,
            width,
            rows,
            b,
            c,
        ) by {
        if joined(filled, ground, width, rows, a, c) {
            lemma_joined_transitive(filled, ground, width, rows, b, a, c);
        }
        if joined(filled, ground, width, rows, b, c) {
            lemma_joined_transitive(filled, ground, width, rows, a, b, c);
        }
    }
    assert(body(filled, ground, width, rows, a) =~= body(filled, ground, width, rows, b));
}

proof fn lemma_lakes_bound(
    filled: Seq<Single>,
    ground: Seq<Single>,
    width: int,
    rows: int,
    least: int,
    upto: int,
)
    requires
        0 <= upto,
    ensures
        lakes_before(filled, ground, width, rows, least, upto) <= upto,
    decreases upto,
{
    if upto > 0 {
        lemma_lakes_bound(filled, ground, width, rows, least, upto - 1);
    }
}

/// Labels the bodies of standing water.
///
/// Gives a lake id for each cell and the number of lakes. Water lies in one body where
/// it meets along a row or a column. A body of fewer than `lake_min_cells` cells gets no
/// id; the others are numbered from one in the order of their first cells.
pub fn label_lakes(
    filled: &Vec<Single>,
    ground: &Vec<Single>,
    width: usize,
    rows: usize,
    lake_min_cells: u32,
) -> (answer: (Vec<u32>, u32))
    requires
        width * rows <= usize::MAX,
        width * rows <= u32::MAX,
        filled@.len() == width * rows,
        ground@.len() == width * rows,
    ensures
        answer.0@.len() == width * rows,
        forall|c: int|
            0 <= c < width * rows ==> lake_of(
                filled@,
                ground@,
                width as int,
                rows as int,
                lake_min_cells as int,
                c,
                #[trigger] answer.0@[c],
            ),
        answer.1 == lakes_before(
            filled@,
            ground@,
            width as int,
            rows as int,
            lake_min_cells as int,
            width * rows,
        ),
{
    proof {
        assert(0 <= width * rows) by (nonlinear_arith);
    }
    let count: usize = width * rows;
    let ghost w = width as int;
    let ghost h = rows as int;
    let ghost least = lake_min_cells as int;
    let mut label: Vec<u32> = Vec::new();
    let mut claimed: Vec<bool> = Vec::new();
    let mut index: usize = 0;
    while index < count
        invariant
            index <= count,
            label@.len() == index,
            claimed@.len() == index,
            forall|c: int| 0 <= c < index ==> label@[c] == 0,
            forall|c: int| 0 <= c < index ==> !claimed@[c],
        decreases count - index,
    {
        label.push(0);
        claimed.push(false);
        index = index + 1;
    }
    let mut lakes: u32 = 0;
    let mut start: usize = 0;
    while start < count
        invariant
            start <= count,
            count == width * rows,
            width * rows <= usize::MAX,
            width * rows <= u32::MAX,
            w == width,
            h == rows,
            least == lake_min_cells,
            filled@.len() == count,
            ground@.len() == count,
            label@.len() == count,
            claimed@.len() == count,
            closed_under_touch(filled@, ground@, w, h, claimed@),
            lakes == lakes_before(filled@, ground@, w, h, least, start as int),
            forall|c: int|
                0 <= c < count ==> (#[trigger] claimed@[c] <==> exists|b: int|
                    0 <= b < start && #[trigger] joined(filled@, ground@, w, h, b, c)),
            forall|c: int|
                0 <= c < count ==> if claimed@[c] {
                    lake_of(filled@, ground@, w, h, least, c, #[trigger] label@[c])
                } else {
                    label@[c] == 0
                },
        decreases count - start,
    {
        proof {
            lemma_lakes_bound(filled@, ground@, w, h, least, start as int);
            lemma_split(start as int, w, h);
        }
        let ghost claimed_before = claimed@;
        let ghost label_before = label@;
        if claimed[start] || filled[start].le(ground[start]) {
            proof {
                if claimed@[start as int] {
                    let b = choose|b: int|
                        0 <= b < start && #[trigger] joined(filled@, ground@, w, h, b, start as int);
                    lemma_joined_symmetric(filled@, ground@, w, h, b, start as int);
                }
                assert forall|c: int| 0 <= c < count implies (#[trigger] claimed@[c]
                    <==> exists|b: int|
                    0 <= b < start + 1 && #[trigger] joined(filled@, ground@, w, h, b, c)) by {
                    if joined(filled@, ground@, w, h, start as int, c) {
                        lemma_joined_wet(filled@, ground@, w, h, start as int, c);
                        let b = choose|b: int|
                            0 <= b < start && #[trigger] joined(
                                filled@,
                                ground@,
                                w,
                                h,
                                b,
                                start as int,
                            );
                        lemma_joined_transitive(filled@, ground@, w, h, b, start as int, c);
                    }
                }
            }
        } else {
            let found: Vec<usize> = gather(filled, ground, width, rows, start, &mut claimed);
            proof {
                assert(heads(filled@, ground@, w, h, start as int)) by {
                    assert forall|other: int| #[trigger]
                        joined(filled@, ground@, w, h, start as int, other) implies start
                        <= other by {
                        lemma_joined_wet(filled@, ground@, w, h, start as int, other);
                        lemma_joined_symmetric(filled@, ground@, w, h, start as int, other);
                        if other < start {
                            assert(claimed_before[start as int]);
                        }
                    }
                }
                assert forall|c: int| 0 <= c < count implies (#[trigger] claimed@[c]
                    <==> exists|b: int|
                    0 <= b < start + 1 && #[trigger] joined(filled@, ground@, w, h, b, c)) by {
                    assert(claimed@[c] <==> claimed_before[c] || joined(
                        filled@,
                        ground@,
                        w,
                        h,
                        start as int,
                        c,
                    ));
                    if claimed_before[c] {
                        let b = choose|b: int|
                            0 <= b < start && #[trigger] joined(filled@, ground@, w, h, b, c);
                        assert(joined(filled@, ground@, w, h, b, c));
                    }
                }
            }
            if found.len() as u64 >= lake_min_cells as u64 {
                lakes = lakes + 1;
                let mut k: usize = 0;
                while k < found.len()
                    invariant
                        k <= found@.len(),
                        w == width,
                        h == rows,
                        count == w * h,
                        label@.len() == count,
                        forall|j: int| 0 <= j < found@.len() ==> #[trigger] found@[j] < count,
                        forall|c: int|
                            0 <= c < count ==> #[trigger] label@[c] == (if exists|j: int|
                                0 <= j < k && #[trigger] found@[j] == c {
                                lakes
                            } else {
                                label_before[c]
                            }),
                    decreases found@.len() - k,
                {
                    let ghost label_now = label@;
                    label.set(found[k], lakes);
                    proof {
                        assert forall|c: int| 0 <= c < count implies #[trigger] label@[c] == (
                        if exists|j: int| 0 <= j < k + 1 && #[trigger] found@[j] == c {
                            lakes
                        } else {
                            label_before[c]
                        }) by {
                            if c == found@[k as int] {
                                assert(found@[k as int] == c);
                            } else if exists|j: int| 0 <= j < k && #[trigger] found@[j] == c {
                                let j = choose|j: int| 0 <= j < k && #[trigger] found@[j] == c;
                                assert(found@[j] == c);
                                assert(label_now[c] == lakes);
                            } else {
                                assert(label_now[c] == label_before[c]);
                            }
                        }
                    }
                    k = k + 1;
                }
            }
            proof {
                assert forall|c: int| 0 <= c < count implies if claimed@[c] {
                    lake_of(filled@, ground@, w, h, least, c, #[trigger] label@[c])
                } else {
                    label@[c] == 0
                } by {
                    if joined(filled@, ground@, w, h, start as int, c) {
                        lemma_one_body(filled@, ground@, w, h, start as int, c);
                        lemma_joined_wet(filled@, ground@, w, h, start as int, c);
                        let j = choose|j: int| 0 <= j < found@.len() && #[trigger] found@[j] == c;
                        assert(found@[j] == c);
                        assert(!claimed_before[c]) by {
                            if claimed_before[c] {
                                let b = choose|b: int|
                                    0 <= b < start && #[trigger] joined(
                                        filled@,
                                        ground@,
                                        w,
                                        h,
                                        b,
                                        c,
                                    );
                                lemma_joined_symmetric(filled@, ground@, w, h, start as int, c);
                                lemma_joined_transitive(
                                    filled@,
                                    ground@,
                                    w,
                                    h,
                                    b,
                                    c,
                                    start as int,
                                );
                                assert(claimed_before[start as int]);
                            }
                        }
                        assert(label_before[c] == 0);
                    } else {
                        if exists|j: int| 0 <= j < found@.len() && #[trigger] found@[j] == c {
                            let j = choose|j: int|
                                0 <= j < found@.len() && #[trigger] found@[j] == c;
                            assert(joined(
                                filled@,
                                ground@,
                                w,
                                h,
                                start as int,
                                found@[j] as int,
                            ));
                        }
                        assert(label@[c] == label_before[c]);
                        assert(claimed@[c] <==> claimed_before[c]);
                    }
                }
            }
        }
        start = start + 1;
    }
    proof {
        assert forall|c: int| 0 <= c < count implies lake_of(
            filled@,
            ground@,
            w,
            h,
            least,
            c,
            #[trigger] label@[c],
        ) by {
            if wet(filled@, ground@, c) {
                lemma_joined_self(filled@, ground@, w, h, c);
                assert(claimed@[c]);
            } else if claimed@[c] {
                assert(lake_of(filled@, ground@, w, h, least, c, label@[c]));
            }
        }
    }
    (label, lakes)
}

proof fn lemma_lakes_grow(
    filled: Seq<Single>,
    ground: Seq<Single>,
    width: int,
    rows: int,
    least: int,
    low: int,
    high: int,
)
    requires
        low <= high,
    ensures
        lakes_before(filled, ground, width, rows, least, low) <= lakes_before(
            filled,
            ground,
            width,
            rows,
            least,
            high,
        ),
    decreases high - low,
{
    if low < high {
        lemma_lakes_grow(filled, ground, width, rows, least, low, high - 1);
    }
}

/// A lake id names one body of water: two cells with an id share it exactly where they
/// are joined, and no id is above the number of lakes.
pub proof fn law_a_lake_id_names_one_body(
    filled: Seq<Single>,
    ground: Seq<Single>,
    width: int,
    rows: int,
    least: int,
    a: int,
    b: int,
    label_a: u32,
    label_b: u32,
)
    requires
        0 <= width,
        0 <= rows,
        0 <= a < width * rows,
        0 <= b < width * rows,
        lake_of(filled, ground, width, rows, least, a, label_a),
        lake_of(filled, ground, width, rows, least, b, label_b),
    ensures
        label_a <= lakes_before(filled, ground, width, rows, least, width * rows),
        joined(filled, ground, width, rows, a, b) ==> label_a == label_b,
        label_a == label_b && label_a != 0 ==> joined(filled, ground, width, rows, a, b),
{
    if wet(filled, ground, a) && body(filled, ground, width, rows, a).len() >= least {
        let head_a = choose|head: int| #[trigger]
            heads(filled, ground, width, rows, head) && joined(
                filled,
                ground,
                width,
                rows,
                head,
                a,
            ) && label_a == lakes_before(filled, ground, width, rows, least, head + 1);
        lemma_lakes_grow(filled, ground, width, rows, least, head_a + 1, width * rows);
        lemma_one_body(filled, ground, width, rows, head_a, a);
        if wet(filled, ground, b) && body(filled, ground, width, rows, b).len() >= least {
            let head_b = choose|head: int| #[trigger]
                heads(filled, ground, width, rows, head) && joined(
                    filled,
                    ground,
                    width,
                    rows,
                    head,
                    b,
                ) && label_b == lakes_before(filled, ground, width, rows, least, head + 1);
            lemma_one_body(filled, ground, width, rows, head_b, b);
            lemma_joined_symmetric(filled, ground, width, rows, head_a, a);
            lemma_joined_symmetric(filled, ground, width, rows, head_b, b);
            if joined(filled, ground, width, rows, a, b) {
                lemma_joined_transitive(filled, ground, width, rows, head_a, a, b);
                lemma_joined_transitive(filled, ground, width, rows, head_a, b, head_b);
                lemma_joined_symmetric(filled, ground, width, rows, head_a, head_b);
            }
            if head_a < head_b {
                lemma_lakes_grow(filled, ground, width, rows, least, head_a + 1, head_b);
            } else if head_b < head_a {
                lemma_lakes_grow(filled, ground, width, rows, least, head_b + 1, head_a);
            } else {
                lemma_joined_transitive(filled, ground, width, rows, a, head_a, b);
            }
        } else if joined(filled, ground, width, rows, a, b) {
            lemma_joined_wet(filled, ground, width, rows, a, b);
            lemma_one_body(filled, ground, width, rows, a, b);
        }
    } else if joined(filled, ground, width, rows, a, b) {
        lemma_joined_wet(filled, ground, width, rows, a, b);
        lemma_one_body(filled, ground, width, rows, a, b);
    }
}

/// Ids run from one to the number of lakes without a gap: each is some cell's.
pub proof fn law_every_lake_id_is_used(
    filled: Seq<Single>,
    ground: Seq<Single>,
    width: int,
    rows: int,
    least: int,
    label: Seq<u32>,
    id: u32,
)
    requires
        0 <= width,
        0 <= rows,
        label.len() == width * rows,
        forall|c: int|
            0 <= c < width * rows ==> lake_of(
                filled,
                ground,
                width,
                rows,
                least,
                c,
                #[trigger] label[c],
            ),
        1 <= id <= lakes_before(filled, ground, width, rows, least, width * rows),
    ensures
        exists|c: int| 0 <= c < width * rows && #[trigger] label[c] == id,
{
    let c = lemma_lake_numbered(filled, ground, width, rows, least, width * rows, id as int);
    lemma_joined_self(filled, ground, width, rows, c);
    assert(lake_of(filled, ground, width, rows, least, c, label[c]));
    let head = choose|head: int| #[trigger]
        heads(filled, ground, width, rows, head) && joined(filled, ground, width, rows, head, c)
            && label[c] == lakes_before(filled, ground, width, rows, least, head + 1);
    lemma_joined_symmetric(filled, ground, width, rows, head, c);
}

proof fn lemma_lake_numbered(
    filled: Seq<Single>,
    ground: Seq<Single>,
    width: int,
    rows: int,
    least: int,
    upto: int,
    id: int,
) -> (head: int)
    requires
        1 <= id <= lakes_before(filled, ground, width, rows, least, upto),
    ensures
        heads_lake(filled, ground, width, rows, least, head),
        lakes_before(filled, ground, width, rows, least, head + 1) == id,
    decreases upto,
{
    if upto <= 0 {
        0
    } else if id <= lakes_before(filled, ground, width, rows, least, upto - 1) {
        lemma_lake_numbered(filled, ground, width, rows, least, upto - 1, id)
    } else {
        upto - 1
    }
}

/// Wet cells touch along a row or a column and not over a corner: one lies beside another
/// exactly where they are one column or one row apart and not both.
pub proof fn law_water_touches_along_rows_and_columns(
    filled: Seq<Single>,
    ground: Seq<Single>,
    width: int,
    rows: int,
    x: int,
    y: int,
    to_x: int,
    to_y: int,
)
    requires
        0 <= x < width,
        0 <= y < rows,
        0 <= to_x < width,
        0 <= to_y < rows,
        !filled[y * width + x].nan() && !ground[y * width + x].nan(),
        !filled[to_y * width + to_x].nan() && !ground[to_y * width + to_x].nan(),
    ensures
        touches(filled, ground, width, rows, y * width + x, to_y * width + to_x) <==> {
            &&& filled[y * width + x].rank() > ground[y * width + x].rank()
            &&& filled[to_y * width + to_x].rank() > ground[to_y * width + to_x].rank()
            &&& (x == to_x && (to_y - y == 1 || y - to_y == 1)) || (y == to_y && (to_x - x == 1
                || x - to_x == 1))
        },
{
    let a = y * width + x;
    let b = to_y * width + to_x;
    lemma_cell(x, y, width, rows);
    lemma_cell(to_x, to_y, width, rows);
    if touches(filled, ground, width, rows, a, b) {
        let step = choose|step: int|
            straight(step) && #[trigger] target(a, step, width, rows) == Some(b);
        lemma_cell(x + step_x(step), y + step_y(step), width, rows);
    }
    if x == to_x && to_y - y == 1 {
        assert(straight(2) && target(a, 2, width, rows) == Some(b));
    }
    if x == to_x && y - to_y == 1 {
        assert(straight(6) && target(a, 6, width, rows) == Some(b));
    }
    if y == to_y && to_x - x == 1 {
        assert(straight(0) && target(a, 0, width, rows) == Some(b));
    }
    if y == to_y && x - to_x == 1 {
        assert(straight(4) && target(a, 4, width, rows) == Some(b));
    }
}

/// Cells that touch one after another are one body of water, whichever of them it is seen
/// from, and a cell that touches none is a body of its own.
pub proof fn law_a_body_is_what_touches(
    filled: Seq<Single>,
    ground: Seq<Single>,
    width: int,
    rows: int,
    a: int,
    b: int,
    c: int,
)
    requires
        0 <= width,
        0 <= rows,
    ensures
        0 <= a < width * rows && wet(filled, ground, a) ==> joined(filled, ground, width, rows, a, a),
        joined(filled, ground, width, rows, a, b) && touches(filled, ground, width, rows, b, c)
            ==> joined(filled, ground, width, rows, a, c),
        joined(filled, ground, width, rows, a, b) ==> joined(filled, ground, width, rows, b, a),
        joined(filled, ground, width, rows, a, b) ==> a == b || exists|next: int| #[trigger]
            touches(filled, ground, width, rows, a, next),
{
    if 0 <= a < width * rows && wet(filled, ground, a) {
        lemma_joined_self(filled, ground, width, rows, a);
    }
    if joined(filled, ground, width, rows, a, b) {
        lemma_joined_symmetric(filled, ground, width, rows, a, b);
        if touches(filled, ground, width, rows, b, c) {
            assert(wades(filled, ground, width, rows, seq![b, c], b, c));
            lemma_joined_transitive(filled, ground, width, rows, a, b, c);
        }
        let path = choose|path: Seq<int>| #[trigger]
            wades(filled, ground, width, rows, path, a, b);
        if path.len() > 1 {
            assert(touches(filled, ground, width, rows, path[0], path[0int + 1]));
        }
    }
}

proof fn lemma_body_finite(
    filled: Seq<Single>,
    ground: Seq<Single>,
    width: int,
    rows: int,
    index: int,
)
    ensures
        body(filled, ground, width, rows, index).finite(),
{
    let count = if width * rows < 0 {
        0
    } else {
        width * rows
    };
    let water = body(filled, ground, width, rows, index);
    lemma_int_range(0, count);
    assert forall|c: int| #[trigger] water.contains(c) implies set_int_range(0, count).contains(
        c,
    ) by {
        lemma_joined_wet(filled, ground, width, rows, index, c);
    }
    assert(water.subset_of(set_int_range(0, count)));
}

/// A body of at least the least number of cells has an id, and a smaller one has none: a
/// cell joined to that many different cells is in a lake, and no cell in a lake is joined to
/// fewer.
pub proof fn law_a_lake_has_the_least_number_of_cells(
    filled: Seq<Single>,
    ground: Seq<Single>,
    width: int,
    rows: int,
    least: int,
    index: int,
    label: u32,
    cells: Seq<int>,
)
    requires
        0 <= width,
        0 <= rows,
        0 <= index < width * rows,
        lake_of(filled, ground, width, rows, least, index, label),
        cells.no_duplicates(),
        forall|i: int|
            0 <= i < cells.len() ==> joined(filled, ground, width, rows, index, #[trigger] cells[i]),
    ensures
        label != 0 ==> !filled[index].at_most(ground[index]),
        cells.len() > 0 && cells.len() >= least ==> label != 0,
        (forall|c: int| joined(filled, ground, width, rows, index, c) ==> cells.contains(c))
            && cells.len() < least ==> label == 0,
{
    let water = body(filled, ground, width, rows, index);
    lemma_body_finite(filled, ground, width, rows, index);
    cells.unique_seq_to_set();
    assert(cells.to_set().subset_of(water)) by {
        assert forall|c: int| #[trigger] cells.to_set().contains(c) implies water.contains(c) by {
            let k = choose|k: int| 0 <= k < cells.len() && cells[k] == c;
            assert(joined(filled, ground, width, rows, index, cells[k]));
        }
    }
    lemma_len_subset(cells.to_set(), water);
    if cells.len() > 0 && cells.len() >= least {
        lemma_joined_wet(filled, ground, width, rows, index, cells[0]);
        let head = choose|head: int| #[trigger]
            heads(filled, ground, width, rows, head) && joined(
                filled,
                ground,
                width,
                rows,
                head,
                index,
            ) && label == lakes_before(filled, ground, width, rows, least, head + 1);
        lemma_one_body(filled, ground, width, rows, head, index);
        assert(heads_lake(filled, ground, width, rows, least, head));
    }
    if (forall|c: int| joined(filled, ground, width, rows, index, c) ==> cells.contains(c))
        && cells.len() < least {
        assert(water.subset_of(cells.to_set())) by {
            assert forall|c: int| #[trigger] water.contains(c) implies cells.to_set().contains(
                c,
            ) by {
                assert(joined(filled, ground, width, rows, index, c));
            }
        }
        assert(water =~= cells.to_set());
    }
}

/// Lakes are numbered in the order of their first cells.
pub proof fn law_lakes_are_numbered_by_their_first_cells(
    filled: Seq<Single>,
    ground: Seq<Single>,
    width: int,
    rows: int,
    least: int,
    a: int,
    b: int,
    label_a: u32,
    label_b: u32,
)
    requires
        0 <= width,
        0 <= rows,
        0 <= a < b < width * rows,
        forall|c: int| joined(filled, ground, width, rows, a, c) ==> a <= c,
        forall|c: int| joined(filled, ground, width, rows, b, c) ==> b <= c,
        lake_of(filled, ground, width, rows, least, a, label_a),
        lake_of(filled, ground, width, rows, least, b, label_b),
        label_a != 0,
        label_b != 0,
    ensures
        label_a < label_b,
{
    let head_a = choose|head: int| #[trigger]
        heads(filled, ground, width, rows, head) && joined(filled, ground, width, rows, head, a)
            && label_a == lakes_before(filled, ground, width, rows, least, head + 1);
    let head_b = choose|head: int| #[trigger]
        heads(filled, ground, width, rows, head) && joined(filled, ground, width, rows, head, b)
            && label_b == lakes_before(filled, ground, width, rows, least, head + 1);
    lemma_joined_symmetric(filled, ground, width, rows, head_a, a);
    lemma_joined_symmetric(filled, ground, width, rows, head_b, b);
    lemma_one_body(filled, ground, width, rows, head_b, b);
    assert(head_a == a && head_b == b);
    assert(heads_lake(filled, ground, width, rows, least, b));
    lemma_lakes_grow(filled, ground, width, rows, least, a + 1, b);
}

} // verus!
