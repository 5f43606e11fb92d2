//! The shortest way from a thing through what it reads back to itself.

use vstd::prelude::*;
use crate::counting::lemma_distinct_fit;
use crate::order::{is_chain, is_circle, reads_one, Reads};
use crate::topology::{places, reads_in, rows_fit, rows_of};

verus! {

/// Whether a thing leads to another in at least one and at most `steps` readings.
pub open spec fn within(rows: Seq<Seq<int>>, to: int, steps: nat, at: int) -> bool
    decreases steps, 0int,
{
    steps > 0 && first_towards(rows, to, (steps - 1) as nat, at, 0) < rows[at].len()
}

/// The first of what a thing reads, at or after `from`, that is another thing or leads to it in
/// at most `steps` readings.
pub open spec fn first_towards(
    rows: Seq<Seq<int>>,
    to: int,
    steps: nat,
    at: int,
    from: int,
) -> int
    decreases steps, rows[at].len() - from,
{
    if from < 0 || from >= rows[at].len() {
        rows[at].len() as int
    } else if rows[at][from] == to || within(rows, to, steps, rows[at][from]) {
        from
    } else {
        first_towards(rows, to, steps, at, from + 1)
    }
}

/// A way from a thing to another that it leads to in at most `steps` readings, the thing itself
/// left out: through the first that leads there, each time.
pub open spec fn way(rows: Seq<Seq<int>>, to: int, steps: nat, at: int) -> Seq<int>
    decreases steps,
{
    if steps == 0 {
        Seq::empty()
    } else {
        let next = rows[at][first_towards(rows, to, (steps - 1) as nat, at, 0)];
        if next == to {
            seq![to]
        } else {
            seq![next] + way(rows, to, (steps - 1) as nat, next)
        }
    }
}

/// The least number of readings, from `steps` up to as many as there are things, in which a
/// thing leads back to itself.
pub open spec fn fewest(rows: Seq<Seq<int>>, at: int, steps: nat) -> Option<nat>
    decreases rows.len() + 1 - steps,
{
    if steps > rows.len() {
        None
    } else if within(rows, at, steps, at) {
        Some(steps)
    } else {
        fewest(rows, at, steps + 1)
    }
}

/// The shortest circle through a thing, from the thing on, or `None` where it is on none.
pub open spec fn circle_at(rows: Seq<Seq<int>>, at: int) -> Option<Seq<int>> {
    match fewest(rows, at, 1) {
        Some(steps) => Some(seq![at] + way(rows, at, steps, at)),
        None => None,
    }
}

/// What [`first_towards`] finds.
proof fn lemma_towards(rows: Seq<Seq<int>>, to: int, steps: nat, at: int, from: int)
    requires
        0 <= from,
    ensures
        ({
            let j = first_towards(rows, to, steps, at, from);
            &&& from <= j || j == rows[at].len()
            &&& j < rows[at].len() ==> from <= j && (rows[at][j] == to || within(
                rows,
                to,
                steps,
                rows[at][j],
            ))
            &&& j >= rows[at].len() ==> forall|i: int|
                from <= i < rows[at].len() ==> #[trigger] rows[at][i] != to && !within(
                    rows,
                    to,
                    steps,
                    rows[at][i],
                )
            &&& j <= rows[at].len()
        }),
    decreases rows[at].len() - from,
{
    if from < rows[at].len() && !(rows[at][from] == to || within(rows, to, steps, rows[at][from])) {
        lemma_towards(rows, to, steps, at, from + 1);
    }
}

/// What leads somewhere in some readings does so in more.
proof fn lemma_within_more(rows: Seq<Seq<int>>, to: int, few: nat, many: nat, at: int)
    requires
        within(rows, to, few, at),
        few <= many,
    ensures
        within(rows, to, many, at),
    decreases many,
{
    lemma_towards(rows, to, (few - 1) as nat, at, 0);
    lemma_towards(rows, to, (many - 1) as nat, at, 0);
    let j = first_towards(rows, to, (few - 1) as nat, at, 0);
    let next = rows[at][j];
    if next != to {
        lemma_within_more(rows, to, (few - 1) as nat, (many - 1) as nat, next);
    }
    if first_towards(rows, to, (many - 1) as nat, at, 0) >= rows[at].len() {
        assert(rows[at][j] != to && !within(rows, to, (many - 1) as nat, rows[at][j]));
    }
}

/// A way is a chain of readings that ends where it is to lead.
proof fn lemma_way(rows: Seq<Seq<int>>, to: int, steps: nat, at: int)
    requires
        rows_fit(rows),
        0 <= at < rows.len(),
        within(rows, to, steps, at),
    ensures
        ({
            let path = seq![at] + way(rows, to, steps, at);
            &&& path.len() > 1
            &&& path.len() <= steps + 1
            &&& path.last() == to
            &&& is_chain(reads_in(rows), path)
            &&& forall|i: int| 0 <= i < path.len() ==> 0 <= #[trigger] path[i] < rows.len()
        }),
    decreases steps,
{
    let graph = reads_in(rows);
    lemma_towards(rows, to, (steps - 1) as nat, at, 0);
    let j = first_towards(rows, to, (steps - 1) as nat, at, 0);
    let next = rows[at][j];
    assert(0 <= rows[at][j] < rows.len());
    let path = seq![at] + way(rows, to, steps, at);
    assert(reads_one(graph, at, next));
    if next == to {
        assert(path =~= seq![at, to]);
    } else {
        lemma_way(rows, to, (steps - 1) as nat, next);
        let rest = seq![next] + way(rows, to, (steps - 1) as nat, next);
        assert(path =~= seq![at] + rest);
        assert forall|i: int| 0 <= i < path.len() - 1 implies reads_one(
            graph,
            #[trigger] path[i],
            path[i + 1],
        ) by {
            if i > 0 {
                assert(path[i] == rest[i - 1]);
                assert(path[i + 1] == rest[i - 1 + 1]);
            }
        }
        assert forall|i: int| 0 <= i < path.len() implies 0 <= #[trigger] path[i]
            < rows.len() by {
            if i > 0 {
                assert(path[i] == rest[i - 1]);
            }
        }
        assert(path.last() == rest.last());
    }
}

/// A chain leads along as many readings as it has.
proof fn lemma_chain_within(rows: Seq<Seq<int>>, chain: Seq<int>)
    requires
        chain.len() > 1,
        is_chain(reads_in(rows), chain),
    ensures
        within(rows, chain.last(), (chain.len() - 1) as nat, chain[0]),
    decreases chain.len(),
{
    let graph = reads_in(rows);
    let to = chain.last();
    let at = chain[0];
    assert(reads_one(graph, chain[0], chain[0int + 1]));
    let next = chain[1];
    let steps = (chain.len() - 2) as nat;
    if chain.len() > 2 {
        let rest = chain.skip(1);
        assert forall|i: int| 0 <= i < rest.len() - 1 implies reads_one(
            graph,
            #[trigger] rest[i],
            rest[i + 1],
        ) by {
            assert(reads_one(graph, chain[i + 1], chain[i + 1 + 1]));
        }
        lemma_chain_within(rows, rest);
        assert(rest.last() == to);
    }
    lemma_towards(rows, to, steps, at, 0);
    let k = choose|k: int| 0 <= k < rows[at].len() && rows[at][k] == next;
    if first_towards(rows, to, steps, at, 0) >= rows[at].len() {
        assert(rows[at][k] != to && !within(rows, to, steps, rows[at][k]));
    }
}

/// A chain from a thing to another can be cut down to no more readings than there are things.
proof fn lemma_chain_cut(rows: Seq<Seq<int>>, chain: Seq<int>) -> (short: Seq<int>)
    requires
        chain.len() > 1,
        is_chain(reads_in(rows), chain),
    ensures
        1 < short.len() <= rows.len() + 1,
        is_chain(reads_in(rows), short),
        short[0] == chain[0],
        short.last() == chain.last(),
    decreases chain.len(),
{
    let graph = reads_in(rows);
    let starts = chain.drop_last();
    assert forall|i: int| 0 <= i < starts.len() implies 0 <= #[trigger] starts[i] < rows.len() by {
        assert(reads_one(graph, chain[i], chain[i + 1]));
    }
    if starts.no_duplicates() {
        lemma_distinct_fit(starts, rows.len() as int);
        chain
    } else {
        let (p, q) = choose|p: int, q: int|
            0 <= p < q < starts.len() && #[trigger] starts[p] == #[trigger] starts[q];
        assert(exists|p: int, q: int|
            0 <= p < q < starts.len() && #[trigger] starts[p] == #[trigger] starts[q]) by {
            let (a, b) = choose|a: int, b: int|
                0 <= a < starts.len() && 0 <= b < starts.len() && a != b && #[trigger] starts[a]
                    == #[trigger] starts[b];
            if a < b {
                assert(starts[a] == starts[b]);
            } else {
                assert(starts[b] == starts[a]);
            }
        }
        let cut = chain.take(p) + chain.skip(q);
        assert(cut.len() == chain.len() - (q - p));
        assert forall|i: int| 0 <= i < cut.len() - 1 implies reads_one(
            graph,
            #[trigger] cut[i],
            cut[i + 1],
        ) by {
            if i + 1 < p {
                assert(reads_one(graph, chain[i], chain[i + 1]));
            } else if i + 1 == p {
                assert(cut[i] == chain[i]);
                assert(cut[i + 1] == chain[q]);
                assert(chain[q] == chain[p]);
                assert(reads_one(graph, chain[i], chain[i + 1]));
            } else {
                assert(cut[i] == chain[q + (i - p)]);
                assert(cut[i + 1] == chain[q + (i - p) + 1]);
                assert(reads_one(graph, chain[q + (i - p)], chain[q + (i - p) + 1]));
            }
        }
        if p == 0 {
            assert(cut[0] == chain[q]);
        } else {
            assert(cut[0] == chain[0]);
        }
        assert(cut.last() == chain.last());
        lemma_chain_cut(rows, cut)
    }
}

proof fn lemma_fewest(rows: Seq<Seq<int>>, at: int, steps: nat)
    ensures
        fewest(rows, at, steps) matches Some(n) ==> steps <= n <= rows.len() && within(
            rows,
            at,
            n,
            at,
        ),
        fewest(rows, at, steps) is None ==> forall|n: nat|
            steps <= n <= rows.len() ==> !#[trigger] within(rows, at, n, at),
    decreases rows.len() + 1 - steps,
{
    if steps <= rows.len() && !within(rows, at, steps, at) {
        lemma_fewest(rows, at, steps + 1);
    }
}

/// A circle through a thing is found exactly where there is one, and is one.
pub proof fn law_a_circle_is_found_where_there_is_one(rows: Seq<Seq<int>>, at: int)
    requires
        rows_fit(rows),
        0 <= at < rows.len(),
    ensures
        circle_at(rows, at) matches Some(circle) ==> is_circle(reads_in(rows), circle) && circle[0]
            == at && circle.len() <= rows.len() + 1 && forall|i: int|
            0 <= i < circle.len() ==> 0 <= #[trigger] circle[i] < rows.len(),
        circle_at(rows, at) is None ==> forall|circle: Seq<int>| #[trigger]
            is_circle(reads_in(rows), circle) ==> !circle.contains(at),
{
    lemma_fewest(rows, at, 1);
    if let Some(steps) = fewest(rows, at, 1) {
        lemma_way(rows, at, steps, at);
    } else {
        assert forall|circle: Seq<int>| #[trigger]
            is_circle(reads_in(rows), circle) implies !circle.contains(at) by {
            if circle.contains(at) {
                let k = choose|k: int| 0 <= k < circle.len() && circle[k] == at;
                let turned = lemma_turned(reads_in(rows), circle, k);
                let short = lemma_chain_cut(rows, turned);
                lemma_chain_within(rows, short);
                let steps = (short.len() - 1) as nat;
                assert(within(rows, at, steps, at));
            }
        }
    }
}

/// A circle can be walked from any thing on it.
proof fn lemma_turned(reads: Reads, circle: Seq<int>, k: int) -> (turned: Seq<int>)
    requires
        is_circle(reads, circle),
        0 <= k < circle.len(),
    ensures
        turned.len() > 1,
        is_chain(reads, turned),
        turned[0] == circle[k],
        turned.last() == circle[k],
{
    let last = circle.len() - 1;
    let at = if k == last {
        0
    } else {
        k
    };
    let turned = circle.subrange(at, last) + circle.subrange(0, at + 1);
    assert(turned.len() == circle.len());
    assert forall|i: int| 0 <= i < turned.len() - 1 implies reads_one(
        reads,
        #[trigger] turned[i],
        turned[i + 1],
    ) by {
        let split = last - at;
        if i + 1 < split {
            assert(reads_one(reads, circle[at + i], circle[at + i + 1]));
        } else if i + 1 == split {
            assert(turned[i] == circle[at + i]);
            assert(turned[i + 1] == circle[0]);
            assert(reads_one(reads, circle[at + i], circle[at + i + 1]));
            assert(circle[at + i + 1] == circle.last());
        } else {
            assert(turned[i] == circle[i - split]);
            assert(turned[i + 1] == circle[i - split + 1]);
            assert(reads_one(reads, circle[i - split], circle[i - split + 1]));
        }
    }
    turned
}

/// Whether a level of a table says of each thing whether it leads to another in at most `steps`
/// readings.
spec fn is_level(rows: Seq<Seq<int>>, to: int, steps: nat, level: Seq<bool>) -> bool {
    level.len() == rows.len() && forall|v: int|
        0 <= v < rows.len() ==> #[trigger] level[v] == within(rows, to, steps, v)
}

/// The first of what a thing reads that is another thing or leads to it, by the level below.
fn find_towards(reads: &Vec<Vec<usize>>, to: usize, at: usize, level: &Vec<bool>) -> (j: usize)
    requires
        rows_fit(rows_of(reads@)),
        at < reads@.len(),
        level@.len() == reads@.len(),
    ensures
        forall|steps: nat| #[trigger]
            is_level(rows_of(reads@), to as int, steps, level@) ==> j == first_towards(
                rows_of(reads@),
                to as int,
                steps,
                at as int,
                0,
            ),
        j <= reads@[at as int]@.len(),
{
    let ghost rows = rows_of(reads@);
    let mut j: usize = 0;
    assert(rows[at as int] == places(reads@[at as int]@));
    while j < reads[at].len()
        invariant
            rows == rows_of(reads@),
            rows_fit(rows),
            rows[at as int] == places(reads@[at as int]@),
            at < reads@.len(),
            level@.len() == reads@.len(),
            j <= reads@[at as int]@.len(),
            forall|steps: nat| #[trigger]
                is_level(rows, to as int, steps, level@) ==> first_towards(
                    rows,
                    to as int,
                    steps,
                    at as int,
                    0,
                ) == first_towards(rows, to as int, steps, at as int, j as int),
        decreases reads@[at as int]@.len() - j,
    {
        let next: usize = reads[at][j];
        proof {
            assert(rows[at as int][j as int] == next);
            assert(0 <= rows[at as int][j as int] < rows.len());
        }
        if next == to || level[next] {
            return j;
        }
        j = j + 1;
    }
    j
}

/// The shortest circle through a thing, from the thing on, or `None` where it is on none.
pub fn find_circle(reads: &Vec<Vec<usize>>, at: usize) -> (answer: Option<Vec<usize>>)
    requires
        rows_fit(rows_of(reads@)),
        at < reads@.len(),
    ensures
        match answer {
            Some(circle) => circle_at(rows_of(reads@), at as int) == Some(places(circle@))
                && forall|i: int| 0 <= i < circle@.len() ==> (#[trigger] circle@[i]) < reads@.len(),
            None => circle_at(rows_of(reads@), at as int) is None,
        },
{
    let ghost rows = rows_of(reads@);
    let count: usize = reads.len();
    let mut base: Vec<bool> = Vec::new();
    while base.len() < count
        invariant
            base@.len() <= count,
            forall|v: int| 0 <= v < base@.len() ==> !#[trigger] base@[v],
        decreases count - base@.len(),
    {
        base.push(false);
    }
    let mut levels: Vec<Vec<bool>> = Vec::new();
    proof {
        assert(is_level(rows, at as int, 0, base@));
    }
    levels.push(base);
    while !levels[levels.len() - 1][at] && levels.len() <= count
        invariant
            rows == rows_of(reads@),
            rows_fit(rows),
            count == reads@.len(),
            at < count,
            1 <= levels@.len() <= count + 1,
            forall|k: int|
                0 <= k < levels@.len() ==> is_level(
                    rows,
                    at as int,
                    k as nat,
                    (#[trigger] levels@[k])@,
                ),
            fewest(rows, at as int, 1) == fewest(
                rows,
                at as int,
                if levels@.len() == 1 {
                    1
                } else {
                    (levels@.len() - 1) as nat
                },
            ),
        decreases count + 1 - levels@.len(),
    {
        let top: usize = levels.len() - 1;
        let ghost below = levels@[top as int]@;
        proof {
            assert(is_level(rows, at as int, top as nat, levels@[top as int]@));
            assert(levels@.len() == levels.len());
        }
        let mut next: Vec<bool> = Vec::new();
        while next.len() < count
            invariant
                rows == rows_of(reads@),
                rows_fit(rows),
                count == reads@.len(),
                at < count,
                top == levels@.len() - 1,
                below == levels@[top as int]@,
                is_level(rows, at as int, top as nat, below),
                next@.len() <= count,
                forall|v: int|
                    0 <= v < next@.len() ==> #[trigger] next@[v] == within(
                        rows,
                        at as int,
                        (top + 1) as nat,
                        v,
                    ),
            decreases count - next@.len(),
        {
            let v: usize = next.len();
            let j: usize = find_towards(reads, at, v, &levels[top]);
            proof {
                assert(rows[v as int] == places(reads@[v as int]@));
                assert(j == first_towards(rows, at as int, top as nat, v as int, 0));
            }
            next.push(j < reads[v].len());
        }
        proof {
            assert(is_level(rows, at as int, (top + 1) as nat, next@));
            assert(below[at as int] == within(rows, at as int, top as nat, at as int));
        }
        levels.push(next);
    }
    let steps: usize = levels.len() - 1;
    proof {
        assert(is_level(rows, at as int, steps as nat, levels@[steps as int]@));
        assert(levels@[steps as int]@[at as int] == within(
            rows,
            at as int,
            steps as nat,
            at as int,
        ));
    }
    if !levels[steps][at] {
        proof {
            assert(rows.len() == count);
            assert(fewest(rows, at as int, (steps + 1) as nat) is None);
        }
        return None;
    }
    let mut circle: Vec<usize> = Vec::new();
    circle.push(at);
    let mut here: usize = at;
    let mut left: usize = steps;
    let ghost goal = seq![at as int] + way(rows, at as int, steps as nat, at as int);
    let ghost path = way(rows, at as int, steps as nat, at as int);
    proof {
        assert(places(circle@) =~= seq![at as int]);
    }
    let mut walking: bool = true;
    while walking
        invariant
            rows == rows_of(reads@),
            rows_fit(rows),
            count == reads@.len(),
            at < count,
            here < count,
            left < levels@.len(),
            forall|k: int|
                0 <= k < levels@.len() ==> is_level(
                    rows,
                    at as int,
                    k as nat,
                    (#[trigger] levels@[k])@,
                ),
            walking ==> within(rows, at as int, left as nat, here as int),
            walking ==> goal == places(circle@) + way(rows, at as int, left as nat, here as int),
            !walking ==> goal == places(circle@),
            forall|i: int| 0 <= i < circle@.len() ==> (#[trigger] circle@[i]) < count,
        decreases left, (if walking { 1int } else { 0int }),
    {
        left = left - 1;
        let j: usize = find_towards(reads, at, here, &levels[left]);
        proof {
            assert(rows[here as int] == places(reads@[here as int]@));
            assert(is_level(rows, at as int, left as nat, levels@[left as int]@));
            assert(j == first_towards(rows, at as int, left as nat, here as int, 0));
            lemma_towards(rows, at as int, left as nat, here as int, 0);
        }
        let next: usize = reads[here][j];
        let ghost before = circle@;
        proof {
            assert(rows[here as int][j as int] == next);
            assert(0 <= rows[here as int][j as int] < rows.len());
        }
        circle.push(next);
        proof {
            assert(places(circle@) =~= places(before).push(next as int));
            if next == at {
                assert(goal =~= places(circle@));
            } else {
                assert(goal =~= places(circle@) + way(rows, at as int, left as nat, next as int));
            }
        }
        if next == at {
            walking = false;
        }
        here = next;
    }
    Some(circle)
}

proof fn lemma_fewest_is_least(rows: Seq<Seq<int>>, at: int, steps: nat, other: nat)
    requires
        steps <= other <= rows.len(),
        within(rows, at, other, at),
    ensures
        fewest(rows, at, steps) matches Some(n) && n <= other,
    decreases rows.len() + 1 - steps,
{
    if !within(rows, at, steps, at) {
        lemma_fewest_is_least(rows, at, steps + 1, other);
    }
}

/// The circle found through a thing is no longer than any other through it.
pub proof fn law_the_circle_found_is_the_shortest(
    rows: Seq<Seq<int>>,
    at: int,
    other: Seq<int>,
)
    requires
        rows_fit(rows),
        0 <= at < rows.len(),
        is_circle(reads_in(rows), other),
        other[0] == at,
    ensures
        circle_at(rows, at) matches Some(circle) && circle.len() <= other.len(),
{
    law_a_circle_is_found_where_there_is_one(rows, at);
    assert(other.contains(at));
    lemma_fewest(rows, at, 1);
    let steps = fewest(rows, at, 1)->0;
    lemma_way(rows, at, steps, at);
    lemma_chain_within(rows, other);
    let long = (other.len() - 1) as nat;
    if long <= rows.len() {
        lemma_fewest_is_least(rows, at, 1, long);
    }
}

} // verus!
