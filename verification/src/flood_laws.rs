//! What holds of every filled height field.

use vstd::prelude::*;
use crate::counting::lemma_distinct_cover;
use crate::flood::{flooded, in_turn, is_flood, pending, reached_first, spread_to};
use crate::grid::{adjacent, lemma_adjacent_symmetric, on_border};
use crate::single::{law_key_orders_values, Single, INFINITE_MAGNITUDE};

verus! {

/// Whether every height is a number.
pub open spec fn numbers(ground: Seq<Single>) -> bool {
    forall|c: int| 0 <= c < ground.len() ==> !(#[trigger] ground[c]).nan()
}

/// Whether `path` leads over neighbouring cells from `start` to the border, nowhere
/// crossing ground above `level`.
pub open spec fn runs_off(
    ground: Seq<Single>,
    width: int,
    rows: int,
    path: Seq<int>,
    start: int,
    level: int,
) -> bool {
    &&& path.len() > 0
    &&& path[0] == start
    &&& on_border(path.last(), width, rows)
    &&& forall|i: int|
        0 <= i < path.len() ==> 0 <= #[trigger] path[i] < width * rows && ground[path[i]].rank()
            <= level
    &&& forall|i: int|
        0 <= i < path.len() - 1 ==> adjacent(#[trigger] path[i], path[i + 1], width, rows)
}

/// Whether water standing at `level` on a cell could leave over the border.
pub open spec fn drains_at(
    ground: Seq<Single>,
    width: int,
    rows: int,
    start: int,
    level: int,
) -> bool {
    exists|path: Seq<int>| #[trigger] runs_off(ground, width, rows, path, start, level)
}

/// Water never stands below the ground, and on the border it stands at the ground.
pub proof fn law_surface_covers_ground(
    ground: Seq<Single>,
    width: int,
    rows: int,
    filled: Seq<Single>,
    routing: Seq<Single>,
    index: int,
)
    requires
        flooded(ground, width, rows, filled, routing),
        0 <= index < width * rows,
    ensures
        !ground[index].nan() ==> ground[index].at_most(filled[index]),
        on_border(index, width, rows) ==> filled[index] == ground[index],
{
    let (time, from) = choose|time: Seq<int>, from: Seq<int>| #[trigger]
        is_flood(ground, width, rows, filled, routing, time, from);
    assert(spread_to(ground, width, rows, filled, routing, from, index));
}

/// The level of a cell is the lowest at which water standing on it could run off over
/// the border: hollows are filled to their outlets and no higher.
pub proof fn law_level_is_the_outlet(
    ground: Seq<Single>,
    width: int,
    rows: int,
    filled: Seq<Single>,
    routing: Seq<Single>,
    index: int,
    level: int,
)
    requires
        flooded(ground, width, rows, filled, routing),
        ground.len() == width * rows,
        0 <= width,
        0 <= rows,
        numbers(ground),
        0 <= index < width * rows,
    ensures
        drains_at(ground, width, rows, index, level) <==> filled[index].rank() <= level,
{
    let (time, from) = choose|time: Seq<int>, from: Seq<int>| #[trigger]
        is_flood(ground, width, rows, filled, routing, time, from);
    if filled[index].rank() <= level {
        let path = lemma_way_out(ground, width, rows, filled, routing, time, from, index);
        assert(runs_off(ground, width, rows, path, index, level));
    }
    if drains_at(ground, width, rows, index, level) {
        let path = choose|path: Seq<int>| #[trigger]
            runs_off(ground, width, rows, path, index, level);
        lemma_no_lower_way(ground, width, rows, filled, routing, time, from, path, level);
    }
}

/// Away from the border some neighbour's surface is no higher and its routing surface
/// is lower, so the water of every cell has somewhere to go. A routing level that has
/// climbed to infinity has nothing above it and is left out.
pub proof fn law_inland_cells_fall(
    ground: Seq<Single>,
    width: int,
    rows: int,
    filled: Seq<Single>,
    routing: Seq<Single>,
    index: int,
)
    requires
        flooded(ground, width, rows, filled, routing),
        ground.len() == width * rows,
        0 <= width,
        0 <= rows,
        numbers(ground),
        0 <= index < width * rows,
        !on_border(index, width, rows),
        routing[index].0 != INFINITE_MAGNITUDE,
    ensures
        exists|next: int|
            0 <= next < width * rows && #[trigger] adjacent(index, next, width, rows)
                && filled[next].at_most(filled[index]) && routing[next].below(routing[index]),
{
    let (time, from) = choose|time: Seq<int>, from: Seq<int>| #[trigger]
        is_flood(ground, width, rows, filled, routing, time, from);
    assert(spread_to(ground, width, rows, filled, routing, from, index));
    let source = from[index];
    assert(spread_to(ground, width, rows, filled, routing, from, source));
    assert(!ground[source].nan() && !ground[index].nan());
    lemma_adjacent_symmetric(source, index, width, rows);
    assert(adjacent(index, source, width, rows));
}

/// Whether no height is so near the largest number that there are fewer numbers above it
/// than there are cells.
pub open spec fn has_headroom(ground: Seq<Single>) -> bool {
    forall|c: int|
        0 <= c < ground.len() ==> (#[trigger] ground[c]).rank() + ground.len()
            <= INFINITE_MAGNITUDE
}

/// The routing surface climbs by one number for each cell it spreads over, so where the
/// heights leave it room it stays below infinity.
pub proof fn law_routing_stays_finite(
    ground: Seq<Single>,
    width: int,
    rows: int,
    filled: Seq<Single>,
    routing: Seq<Single>,
    index: int,
)
    requires
        flooded(ground, width, rows, filled, routing),
        ground.len() == width * rows,
        numbers(ground),
        has_headroom(ground),
        0 <= index < width * rows,
    ensures
        !routing[index].nan(),
        routing[index].rank() < INFINITE_MAGNITUDE,
{
    let (time, from) = choose|time: Seq<int>, from: Seq<int>| #[trigger]
        is_flood(ground, width, rows, filled, routing, time, from);
    lemma_routing_climbs(
        ground,
        width,
        rows,
        filled,
        routing,
        time,
        from,
        INFINITE_MAGNITUDE - ground.len(),
        index,
    );
}

proof fn lemma_routing_climbs(
    ground: Seq<Single>,
    width: int,
    rows: int,
    filled: Seq<Single>,
    routing: Seq<Single>,
    time: Seq<int>,
    from: Seq<int>,
    top: int,
    index: int,
)
    requires
        is_flood(ground, width, rows, filled, routing, time, from),
        ground.len() == width * rows,
        numbers(ground),
        forall|c: int| 0 <= c < ground.len() ==> (#[trigger] ground[c]).rank() <= top,
        0 <= index < width * rows,
    ensures
        !routing[index].nan(),
        routing[index].rank() <= top + time[index],
    decreases time[index],
{
    assert(spread_to(ground, width, rows, filled, routing, from, index));
    assert(!ground[index].nan());
    assert(ground[index].rank() <= top);
    assert(0 <= time[index]);
    if !on_border(index, width, rows) {
        let source = from[index];
        assert(time[source] < time[index]);
        assert(0 <= time[source]);
        lemma_routing_climbs(
            ground,
            width,
            rows,
            filled,
            routing,
            time,
            from,
            top,
            source,
        );
    }
}

/// Flooding is a function of the ground: two floods of one height field agree on every
/// bit of both surfaces.
pub proof fn law_flood_is_determined(
    ground: Seq<Single>,
    width: int,
    rows: int,
    filled: Seq<Single>,
    routing: Seq<Single>,
    filled2: Seq<Single>,
    routing2: Seq<Single>,
)
    requires
        0 <= width,
        0 <= rows,
        width * rows <= usize::MAX,
        flooded(ground, width, rows, filled, routing),
        flooded(ground, width, rows, filled2, routing2),
    ensures
        filled == filled2,
        routing == routing2,
{
    let (time, from) = choose|time: Seq<int>, from: Seq<int>| #[trigger]
        is_flood(ground, width, rows, filled, routing, time, from);
    let (time2, from2) = choose|time: Seq<int>, from: Seq<int>| #[trigger]
        is_flood(ground, width, rows, filled2, routing2, time, from);
    let count = width * rows;
    lemma_floods_agree(
        ground,
        width,
        rows,
        filled,
        routing,
        time,
        from,
        filled2,
        routing2,
        time2,
        from2,
        count,
    );
    assert forall|c: int| 0 <= c < count implies filled[c] == filled2[c] && routing[c]
        == routing2[c] by {
        assert(time[c] < count);
    }
    assert(filled =~= filled2);
    assert(routing =~= routing2);
}

/// Cells are spread from in order of level.
proof fn lemma_levels_rise(
    ground: Seq<Single>,
    width: int,
    rows: int,
    filled: Seq<Single>,
    routing: Seq<Single>,
    time: Seq<int>,
    from: Seq<int>,
    early: int,
    late: int,
)
    requires
        is_flood(ground, width, rows, filled, routing, time, from),
        ground.len() == width * rows,
        numbers(ground),
        0 <= early < width * rows,
        0 <= late < width * rows,
        time[early] <= time[late],
    ensures
        filled[early].rank() <= filled[late].rank(),
        !filled[early].nan(),
        !filled[late].nan(),
    decreases time[late],
{
    assert(spread_to(ground, width, rows, filled, routing, from, late));
    assert(spread_to(ground, width, rows, filled, routing, from, early));
    assert(!ground[late].nan() && !ground[early].nan());
    if early != late {
        assert(time[early] != time[late]);
        assert(in_turn(width, rows, filled, time, from, early, late));
        if on_border(late, width, rows) || time[from[late]] < time[early] {
            law_key_orders_values(filled[late], filled[early]);
        } else {
            assert(time[from[late]] < time[late]);
            lemma_levels_rise(
                ground,
                width,
                rows,
                filled,
                routing,
                time,
                from,
                early,
                from[late],
            );
        }
    }
}

/// From each cell the way the water came leads out at the cell's level.
proof fn lemma_way_out(
    ground: Seq<Single>,
    width: int,
    rows: int,
    filled: Seq<Single>,
    routing: Seq<Single>,
    time: Seq<int>,
    from: Seq<int>,
    index: int,
) -> (path: Seq<int>)
    requires
        is_flood(ground, width, rows, filled, routing, time, from),
        ground.len() == width * rows,
        0 <= width,
        0 <= rows,
        numbers(ground),
        0 <= index < width * rows,
    ensures
        runs_off(ground, width, rows, path, index, filled[index].rank()),
    decreases time[index],
{
    assert(spread_to(ground, width, rows, filled, routing, from, index));
    assert(!ground[index].nan());
    if on_border(index, width, rows) {
        let path = seq![index];
        assert(runs_off(ground, width, rows, path, index, filled[index].rank()));
        path
    } else {
        let source = from[index];
        assert(time[source] < time[index]);
        assert(0 <= time[source]);
        let rest = lemma_way_out(ground, width, rows, filled, routing, time, from, source);
        let path = seq![index] + rest;
        lemma_adjacent_symmetric(source, index, width, rows);
        assert(spread_to(ground, width, rows, filled, routing, from, source));
        assert(!ground[source].nan());
        assert(path.last() == rest.last());
        assert forall|i: int| 0 <= i < path.len() implies 0 <= #[trigger] path[i] < width * rows
            && ground[path[i]].rank() <= filled[index].rank() by {
            if i > 0 {
                assert(path[i] == rest[i - 1]);
            }
        }
        assert forall|i: int| 0 <= i < path.len() - 1 implies adjacent(
            #[trigger] path[i],
            path[i + 1],
            width,
            rows,
        ) by {
            assert(path[i + 1] == rest[i]);
            if i > 0 {
                assert(path[i] == rest[i - 1]);
                assert(adjacent(rest[i - 1], rest[i - 1 + 1], width, rows));
            }
        }
        path
    }
}

/// A way out over ground no higher than `level` shows the cell's level is no higher.
proof fn lemma_no_lower_way(
    ground: Seq<Single>,
    width: int,
    rows: int,
    filled: Seq<Single>,
    routing: Seq<Single>,
    time: Seq<int>,
    from: Seq<int>,
    path: Seq<int>,
    level: int,
)
    requires
        is_flood(ground, width, rows, filled, routing, time, from),
        ground.len() == width * rows,
        0 <= width,
        0 <= rows,
        numbers(ground),
        path.len() > 0,
        runs_off(ground, width, rows, path, path[0], level),
    ensures
        filled[path[0]].rank() <= level,
    decreases path.len(),
{
    let c = path[0];
    assert(spread_to(ground, width, rows, filled, routing, from, c));
    assert(!ground[c].nan());
    if !on_border(c, width, rows) {
        let next = path[1];
        let rest = path.drop_first();
        assert(adjacent(path[0], path[0int + 1], width, rows));
        assert(rest[0] == next);
        assert(rest.last() == path.last());
        assert forall|i: int| 0 <= i < rest.len() implies 0 <= #[trigger] rest[i] < width * rows
            && ground[rest[i]].rank() <= level by {
            assert(rest[i] == path[i + 1]);
        }
        assert forall|i: int| 0 <= i < rest.len() - 1 implies adjacent(
            #[trigger] rest[i],
            rest[i + 1],
            width,
            rows,
        ) by {
            assert(rest[i] == path[i + 1]);
            assert(rest[i + 1] == path[i + 1 + 1]);
            assert(adjacent(path[i + 1], path[i + 1 + 1], width, rows));
        }
        lemma_no_lower_way(ground, width, rows, filled, routing, time, from, rest, level);
        lemma_adjacent_symmetric(c, next, width, rows);
        assert(reached_first(width, rows, time, from, c));
        let source = from[c];
        assert(time[source] <= time[next]);
        lemma_levels_rise(ground, width, rows, filled, routing, time, from, source, next);
    }
}

/// A cell reached from the same early neighbours in both floods stands at the same
/// levels in both.
proof fn lemma_same_levels(
    ground: Seq<Single>,
    width: int,
    rows: int,
    filled: Seq<Single>,
    routing: Seq<Single>,
    time: Seq<int>,
    from: Seq<int>,
    filled2: Seq<Single>,
    routing2: Seq<Single>,
    time2: Seq<int>,
    from2: Seq<int>,
    moment: int,
    index: int,
)
    requires
        is_flood(ground, width, rows, filled, routing, time, from),
        is_flood(ground, width, rows, filled2, routing2, time2, from2),
        forall|c: int|
            #![trigger time[c]]
            #![trigger time2[c]]
            0 <= c < width * rows && (time[c] < moment || time2[c] < moment) ==> time[c]
                == time2[c] && filled[c] == filled2[c] && routing[c] == routing2[c],
        0 <= index < width * rows,
        on_border(index, width, rows) || time[from[index]] < moment,
    ensures
        filled[index] == filled2[index],
        routing[index] == routing2[index],
        !on_border(index, width, rows) ==> time2[from2[index]] < moment,
{
    assert(spread_to(ground, width, rows, filled, routing, from, index));
    assert(spread_to(ground, width, rows, filled2, routing2, from2, index));
    if !on_border(index, width, rows) {
        let a = from[index];
        let b = from2[index];
        assert(reached_first(width, rows, time, from, index));
        assert(reached_first(width, rows, time2, from2, index));
        assert(time[a] == time2[a]);
        assert(time2[b] <= time2[a]);
        assert(time[b] == time2[b]);
        assert(time[a] <= time[b]);
        if a != b {
            assert(time[a] != time[b]);
        }
    }
}

proof fn lemma_floods_agree(
    ground: Seq<Single>,
    width: int,
    rows: int,
    filled: Seq<Single>,
    routing: Seq<Single>,
    time: Seq<int>,
    from: Seq<int>,
    filled2: Seq<Single>,
    routing2: Seq<Single>,
    time2: Seq<int>,
    from2: Seq<int>,
    moment: int,
)
    requires
        0 <= moment <= width * rows,
        width * rows <= usize::MAX,
        is_flood(ground, width, rows, filled, routing, time, from),
        is_flood(ground, width, rows, filled2, routing2, time2, from2),
    ensures
        forall|c: int|
            #![trigger time[c]]
            #![trigger time2[c]]
            0 <= c < width * rows && (time[c] < moment || time2[c] < moment) ==> time[c]
                == time2[c] && filled[c] == filled2[c] && routing[c] == routing2[c],
    decreases moment,
{
    let count = width * rows;
    if moment > 0 {
        let k = moment - 1;
        lemma_floods_agree(
            ground,
            width,
            rows,
            filled,
            routing,
            time,
            from,
            filled2,
            routing2,
            time2,
            from2,
            k,
        );
        assert(time.no_duplicates());
        assert(time2.no_duplicates());
        lemma_distinct_cover(time, count, k);
        lemma_distinct_cover(time2, count, k);
        let a = choose|a: int| 0 <= a < time.len() && time[a] == k;
        let b = choose|b: int| 0 <= b < time2.len() && time2[b] == k;
        assert(time[a] == k && time2[b] == k);
        if !on_border(a, width, rows) {
            assert(time[from[a]] < time[a]);
        }
        if !on_border(b, width, rows) {
            assert(time2[from2[b]] < time2[b]);
        }
        lemma_same_levels(
            ground,
            width,
            rows,
            filled,
            routing,
            time,
            from,
            filled2,
            routing2,
            time2,
            from2,
            k,
            a,
        );
        lemma_same_levels(
            ground,
            width,
            rows,
            filled2,
            routing2,
            time2,
            from2,
            filled,
            routing,
            time,
            from,
            k,
            b,
        );
        if a != b {
            assert(time2[a] != time2[b]);
            assert(time[a] != time[b]);
            assert(time2[a] > k);
            assert(time[b] > k);
            assert(in_turn(width, rows, filled, time, from, a, b));
            assert(in_turn(width, rows, filled2, time2, from2, b, a));
            assert(pending(filled, a) == pending(filled2, a));
            assert(pending(filled, b) == pending(filled2, b));
            assert(false);
        }
        assert forall|c: int|
            #![trigger time[c]]
            #![trigger time2[c]]
            0 <= c < width * rows && (time[c] < moment || time2[c] < moment) implies time[c]
            == time2[c] && filled[c] == filled2[c] && routing[c] == routing2[c] by {
            if time[c] == k && c != a {
                assert(time[c] != time[a]);
            }
            if time2[c] == k && c != b {
                assert(time2[c] != time2[b]);
            }
        }
    }
}

/// The cell that water spreads from next is the one with the lowest surface, and of those as
/// low the one of the lowest index: a cell spread from before another that had been reached by
/// then is no higher, and lower in index where it is as high.
pub proof fn law_the_lowest_surface_spreads_first(
    ground: Seq<Single>,
    width: int,
    rows: int,
    filled: Seq<Single>,
    routing: Seq<Single>,
    time: Seq<int>,
    from: Seq<int>,
    early: int,
    late: int,
)
    requires
        is_flood(ground, width, rows, filled, routing, time, from),
        0 <= early < width * rows,
        0 <= late < width * rows,
        width * rows <= usize::MAX,
        time[early] < time[late],
        on_border(late, width, rows) || time[from[late]] < time[early],
        !filled[early].nan(),
        !filled[late].nan(),
    ensures
        filled[early].rank() <= filled[late].rank(),
        filled[early] == filled[late] ==> early < late,
{
    assert(in_turn(width, rows, filled, time, from, early, late));
    if filled[late].rank() < filled[early].rank() {
        crate::single::law_key_orders_values(filled[late], filled[early]);
    }
}

/// The routing surface of an inland cell is the ground where that stands above the routing
/// surface of the cell the water came from, and otherwise the very next number above that.
pub proof fn law_the_routing_surface_climbs_by_one_number(
    ground: Seq<Single>,
    width: int,
    rows: int,
    filled: Seq<Single>,
    routing: Seq<Single>,
    time: Seq<int>,
    from: Seq<int>,
    index: int,
)
    requires
        is_flood(ground, width, rows, filled, routing, time, from),
        0 <= index < width * rows,
    ensures
        on_border(index, width, rows) ==> routing[index] == ground[index] && filled[index]
            == ground[index],
        !on_border(index, width, rows) ==> {
            let source = from[index];
            &&& adjacent(source, index, width, rows)
            &&& time[source] < time[index]
            &&& !ground[index].nan() && !routing[source].nan() && routing[source].rank()
                < INFINITE_MAGNITUDE ==> {
                &&& routing[index].rank() >= ground[index].rank()
                &&& routing[index].rank() > routing[source].rank()
                &&& routing[index] == ground[index] || forall|between: Single|
                    !between.nan() && between.rank() > routing[source].rank() ==> between.rank()
                        >= routing[index].rank()
            }
        },
{
    assert(spread_to(ground, width, rows, filled, routing, from, index));
    if !on_border(index, width, rows) {
        let source = from[index];
        assert(time[from[index]] < time[index]);
        if !ground[index].nan() && !routing[source].nan() && routing[source].rank()
            < INFINITE_MAGNITUDE {
            crate::single::law_next_up_is_next(routing[source], routing[source]);
            assert forall|between: Single|
                !between.nan() && between.rank() > routing[source].rank() implies between.rank()
                >= routing[source].following().rank() by {
                crate::single::law_next_up_is_next(routing[source], between);
            }
        }
    }
}

} // verus!
