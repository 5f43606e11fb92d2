//! Depth-first order: each thing after everything it reads.

use vstd::prelude::*;
use vstd::set_lib::*;

verus! {

/// What each thing reads, in order.
pub type Reads = spec_fn(int) -> Seq<int>;

/// The order after visiting one thing: `done` with everything new that it leads to, each
/// after what it reads and the thing itself last, or the circle that the visit ran into.
/// `open` holds the things that lead to it. No visit goes deeper than `limit`.
pub open spec fn visited(
    reads: Reads,
    limit: nat,
    thing: int,
    done: Seq<int>,
    open: Seq<int>,
) -> Result<Seq<int>, Seq<int>>
    decreases limit - open.len(), 0nat,
{
    if done.contains(thing) {
        Ok(done)
    } else if open.contains(thing) {
        Err(open.skip(open.index_of_first(thing)->0).push(thing))
    } else if open.len() >= limit {
        Ok(done)
    } else {
        match visited_all(reads, limit, reads(thing), done, open.push(thing)) {
            Ok(after) => Ok(after.push(thing)),
            Err(circle) => Err(circle),
        }
    }
}

/// The order after visiting each of a list of things in turn.
pub open spec fn visited_all(
    reads: Reads,
    limit: nat,
    list: Seq<int>,
    done: Seq<int>,
    open: Seq<int>,
) -> Result<Seq<int>, Seq<int>>
    decreases limit - open.len(), list.len() + 1,
{
    if list.len() == 0 {
        Ok(done)
    } else {
        match visited(reads, limit, list[0], done, open) {
            Ok(after) => visited_all(reads, limit, list.skip(1), after, open),
            Err(circle) => Err(circle),
        }
    }
}

/// Whether nothing that a thing of `all` reads is outside `all`.
pub open spec fn closed_under(reads: Reads, all: Set<int>) -> bool {
    forall|a: int, i: int|
        all.contains(a) && 0 <= i < reads(a).len() ==> all.contains(#[trigger] reads(a)[i])
}

/// Whether one thing reads another.
pub open spec fn reads_one(reads: Reads, a: int, b: int) -> bool {
    reads(a).contains(b)
}

/// Whether each thing in an order stands after everything it reads.
pub open spec fn follows_reads(reads: Reads, order: Seq<int>) -> bool {
    forall|k: int, b: int|
        0 <= k < order.len() && #[trigger] reads_one(reads, order[k], b) ==> order.take(k).contains(b)
}

/// Whether each thing of a chain reads the next.
pub open spec fn is_chain(reads: Reads, chain: Seq<int>) -> bool {
    forall|i: int|
        0 <= i < chain.len() - 1 ==> reads_one(reads, #[trigger] chain[i], chain[i + 1])
}

/// Whether a chain leads from a thing back to itself.
pub open spec fn is_circle(reads: Reads, circle: Seq<int>) -> bool {
    circle.len() > 1 && circle[0] == circle.last() && is_chain(reads, circle)
}

/// What a visit needs: the things are among `all`, of which there are `limit`, and those
/// open lead one to the next.
pub open spec fn visiting(
    reads: Reads,
    all: Set<int>,
    limit: nat,
    done: Seq<int>,
    open: Seq<int>,
) -> bool {
    &&& all.finite()
    &&& limit >= all.len()
    &&& closed_under(reads, all)
    &&& open.no_duplicates()
    &&& done.no_duplicates()
    &&& forall|i: int| 0 <= i < open.len() ==> all.contains(#[trigger] open[i])
    &&& forall|i: int| 0 <= i < done.len() ==> all.contains(#[trigger] done[i])
    &&& forall|i: int| 0 <= i < open.len() ==> !done.contains(#[trigger] open[i])
    &&& is_chain(reads, open)
    &&& follows_reads(reads, done)
}

/// What a visit leaves: the same order with more at its end, or a circle.
pub open spec fn left_by_visit(
    reads: Reads,
    all: Set<int>,
    limit: nat,
    done: Seq<int>,
    open: Seq<int>,
    result: Result<Seq<int>, Seq<int>>,
) -> bool {
    match result {
        Ok(after) => {
            &&& visiting(reads, all, limit, after, open)
            &&& done.len() <= after.len()
            &&& after.take(done.len() as int) == done
        },
        Err(circle) => {
            &&& is_circle(reads, circle)
            &&& forall|i: int| 0 <= i < circle.len() ==> all.contains(#[trigger] circle[i])
        },
    }
}

/// Fewer things are open than there are while one is not.
pub proof fn lemma_room(all: Set<int>, open: Seq<int>, thing: int)
    requires
        all.finite(),
        open.no_duplicates(),
        forall|i: int| 0 <= i < open.len() ==> all.contains(#[trigger] open[i]),
        all.contains(thing),
        !open.contains(thing),
    ensures
        open.len() < all.len(),
{
    open.unique_seq_to_set();
    assert forall|x: int| open.to_set().contains(x) implies all.remove(thing).contains(x) by {
        let i = choose|i: int| 0 <= i < open.len() && open[i] == x;
        assert(all.contains(open[i]));
    }
    assert(open.to_set().subset_of(all.remove(thing)));
    lemma_len_subset(open.to_set(), all.remove(thing));
}

/// A visit keeps every thing after what it reads, adds the thing, and fails only on a
/// circle.
pub proof fn lemma_visit(
    reads: Reads,
    all: Set<int>,
    limit: nat,
    thing: int,
    done: Seq<int>,
    open: Seq<int>,
)
    requires
        visiting(reads, all, limit, done, open),
        all.contains(thing),
        open.len() > 0 ==> reads_one(reads, open.last(), thing),
    ensures
        left_by_visit(reads, all, limit, done, open, visited(reads, limit, thing, done, open)),
        visited(reads, limit, thing, done, open) matches Ok(after) ==> after.contains(thing),
    decreases limit - open.len(), 0nat,
{
    if done.contains(thing) {
        assert(done.take(done.len() as int) =~= done);
    } else if open.contains(thing) {
        open.index_of_first_ensures(thing);
        let start = open.index_of_first(thing)->0;
        let tail = open.skip(start);
        let circle = tail.push(thing);
        assert forall|i: int| 0 <= i < circle.len() - 1 implies reads_one(
            reads,
            #[trigger] circle[i],
            circle[i + 1],
        ) by {
            assert(circle[i] == open[start + i]);
            if i + 1 < tail.len() {
                assert(circle[i + 1] == open[start + i + 1]);
                assert(reads_one(reads, open[start + i], open[start + i + 1]));
            }
        }
        assert forall|i: int| 0 <= i < circle.len() implies all.contains(#[trigger] circle[i]) by {
            if i < tail.len() {
                assert(circle[i] == open[start + i]);
            }
        }
    } else {
        lemma_room(all, open, thing);
        let deeper = open.push(thing);
        assert forall|i: int, j: int|
            0 <= i < deeper.len() && 0 <= j < deeper.len() && i != j implies deeper[i]
            != deeper[j] by {
            if i < open.len() && j < open.len() {
                assert(open[i] != open[j]);
            } else if i < open.len() {
                assert(open.contains(open[i]));
            } else {
                assert(open.contains(open[j]));
            }
        }
        assert forall|i: int| 0 <= i < deeper.len() implies all.contains(#[trigger] deeper[i]) by {
            if i < open.len() {
                assert(deeper[i] == open[i]);
            }
        }
        assert forall|i: int| 0 <= i < deeper.len() implies !done.contains(
            #[trigger] deeper[i],
        ) by {
            if i < open.len() {
                assert(deeper[i] == open[i]);
            }
        }
        assert forall|i: int| 0 <= i < deeper.len() - 1 implies reads_one(
            reads,
            #[trigger] deeper[i],
            deeper[i + 1],
        ) by {
            if i + 1 < open.len() {
                assert(reads_one(reads, open[i], open[i + 1]));
            }
        }
        assert forall|i: int| 0 <= i < reads(thing).len() implies all.contains(
            #[trigger] reads(thing)[i],
        ) && reads_one(reads, deeper.last(), reads(thing)[i]) by {
            assert(reads(thing).contains(reads(thing)[i]));
        }
        lemma_visit_all(reads, all, limit, reads(thing), done, deeper);
        match visited_all(reads, limit, reads(thing), done, deeper) {
            Ok(after) => {
                let order = after.push(thing);
                assert(deeper[deeper.len() - 1] == thing);
                assert(!after.contains(thing));
                assert forall|i: int, j: int|
                    0 <= i < order.len() && 0 <= j < order.len() && i != j implies order[i]
                    != order[j] by {
                    if i < after.len() && j < after.len() {
                        assert(after[i] != after[j]);
                    } else if i < after.len() {
                        assert(after.contains(after[i]));
                    } else {
                        assert(after.contains(after[j]));
                    }
                }
                assert forall|i: int| 0 <= i < order.len() implies all.contains(
                    #[trigger] order[i],
                ) by {
                    if i < after.len() {
                        assert(order[i] == after[i]);
                    }
                }
                assert forall|i: int| 0 <= i < open.len() implies !order.contains(
                    #[trigger] open[i],
                ) by {
                    assert(deeper[i] == open[i]);
                    assert(!after.contains(deeper[i]));
                    assert(deeper[i] != deeper[deeper.len() - 1]);
                    if order.contains(open[i]) {
                        let k = choose|k: int| 0 <= k < order.len() && order[k] == open[i];
                        if k < after.len() {
                            assert(after[k] == open[i]);
                        }
                    }
                }
                assert forall|k: int, b: int|
                    0 <= k < order.len() && #[trigger] reads_one(
                        reads,
                        order[k],
                        b,
                    ) implies order.take(k).contains(b) by {
                    if k < after.len() {
                        assert(order[k] == after[k]);
                        assert(reads_one(reads, after[k], b));
                        assert(after.take(k) =~= order.take(k));
                    } else {
                        assert(order.take(k) =~= after);
                        let list = reads(thing);
                        let i = choose|i: int| 0 <= i < list.len() && list[i] == b;
                        assert(after.contains(list[i]));
                    }
                }
                assert(order[after.len() as int] == thing);
                assert(order.take(done.len() as int) =~= done) by {
                    assert(after.take(done.len() as int) =~= done);
                    assert forall|i: int| 0 <= i < done.len() implies order[i] == done[i] by {
                        assert(after.take(done.len() as int)[i] == done[i]);
                    }
                }
            },
            Err(_) => {},
        }
    }
}

/// Visiting a list adds everything in it.
pub proof fn lemma_visit_all(
    reads: Reads,
    all: Set<int>,
    limit: nat,
    list: Seq<int>,
    done: Seq<int>,
    open: Seq<int>,
)
    requires
        visiting(reads, all, limit, done, open),
        forall|i: int|
            0 <= i < list.len() ==> all.contains(#[trigger] list[i]) && (open.len() > 0
                ==> reads_one(reads, open.last(), list[i])),
    ensures
        left_by_visit(reads, all, limit, done, open, visited_all(reads, limit, list, done, open)),
        visited_all(reads, limit, list, done, open) matches Ok(after) ==> forall|i: int|
            0 <= i < list.len() ==> after.contains(#[trigger] list[i]),
    decreases limit - open.len(), list.len() + 1,
{
    if list.len() == 0 {
        assert(done.take(done.len() as int) =~= done);
    } else {
        assert(all.contains(list[0]));
        lemma_visit(reads, all, limit, list[0], done, open);
        match visited(reads, limit, list[0], done, open) {
            Ok(after) => {
                let rest = list.skip(1);
                assert forall|i: int| 0 <= i < rest.len() implies all.contains(#[trigger] rest[i])
                    && (open.len() > 0 ==> reads_one(reads, open.last(), rest[i])) by {
                    assert(rest[i] == list[i + 1]);
                }
                lemma_visit_all(reads, all, limit, rest, after, open);
                match visited_all(reads, limit, rest, after, open) {
                    Ok(last) => {
                        assert forall|i: int| 0 <= i < done.len() implies last[i] == done[i] by {
                            assert(after.take(done.len() as int)[i] == done[i]);
                            assert(last.take(after.len() as int)[i] == after[i]);
                        }
                        assert(last.take(done.len() as int) =~= done);
                        assert forall|i: int| 0 <= i < list.len() implies last.contains(
                            #[trigger] list[i],
                        ) by {
                            if i == 0 {
                                let k = choose|k: int|
                                    0 <= k < after.len() && after[k] == list[0];
                                assert(last.take(after.len() as int)[k] == after[k]);
                                assert(last[k] == list[0]);
                            } else {
                                assert(list[i] == rest[i - 1]);
                            }
                        }
                    },
                    Err(_) => {},
                }
            },
            Err(_) => {},
        }
    }
}

/// Where each thing stands after what it reads, no chain leads back.
pub proof fn lemma_no_circle(reads: Reads, order: Seq<int>, circle: Seq<int>)
    requires
        follows_reads(reads, order),
        order.no_duplicates(),
    ensures
        is_circle(reads, circle) ==> !order.contains(circle[0]),
{
    if is_circle(reads, circle) && order.contains(circle[0]) {
        let place = lemma_chain_descends(reads, order, circle, circle.len() - 1);
        let first = lemma_chain_descends(reads, order, circle, 0);
        assert(order[place] == order[first]);
    }
}

proof fn lemma_chain_descends(reads: Reads, order: Seq<int>, chain: Seq<int>, step: int) -> (place:
    int)
    requires
        follows_reads(reads, order),
        is_chain(reads, chain),
        0 <= step < chain.len(),
        order.contains(chain[0]),
        order.no_duplicates(),
    ensures
        0 <= place < order.len(),
        order[place] == chain[step],
        forall|k: int|
            0 <= k < order.len() && order[k] == chain[0] ==> place <= k && (step > 0 ==> place < k),
    decreases step,
{
    if step == 0 {
        let place = choose|k: int| 0 <= k < order.len() && order[k] == chain[0];
        assert forall|k: int| 0 <= k < order.len() && order[k] == chain[0] implies place <= k by {
            if k != place {
                assert(order[k] != order[place]);
            }
        }
        place
    } else {
        let before = lemma_chain_descends(reads, order, chain, step - 1);
        assert(reads_one(reads, chain[step - 1], chain[step - 1 + 1]));
        assert(reads_one(reads, order[before], chain[step]));
        let earlier = order.take(before);
        let place = choose|k: int| 0 <= k < earlier.len() && earlier[k] == chain[step];
        assert(order[place] == chain[step]);
        place
    }
}

/// Whether a chain of readings leads from one thing to another, or they are the same.
pub open spec fn leads(reads: Reads, a: int, b: int) -> bool {
    exists|chain: Seq<int>| #[trigger] leads_by(reads, chain, a, b)
}

/// Whether a chain leads from one thing to another.
pub open spec fn leads_by(reads: Reads, chain: Seq<int>, a: int, b: int) -> bool {
    chain.len() > 0 && chain[0] == a && chain.last() == b && is_chain(reads, chain)
}

/// A chain goes on by one more reading.
pub proof fn lemma_leads_further(reads: Reads, a: int, b: int, c: int)
    requires
        leads(reads, a, b),
        reads_one(reads, b, c),
    ensures
        leads(reads, a, c),
{
    let chain = choose|chain: Seq<int>| #[trigger] leads_by(reads, chain, a, b);
    let more = chain.push(c);
    assert forall|i: int| 0 <= i < more.len() - 1 implies reads_one(
        reads,
        #[trigger] more[i],
        more[i + 1],
    ) by {
        if i + 1 < chain.len() {
            assert(reads_one(reads, chain[i], chain[i + 1]));
        }
    }
    assert(leads_by(reads, more, a, c));
}

/// A visit adds only what the thing leads to.
pub proof fn lemma_visit_reaches(
    reads: Reads,
    limit: nat,
    root: int,
    thing: int,
    done: Seq<int>,
    open: Seq<int>,
)
    requires
        leads(reads, root, thing),
        forall|i: int| 0 <= i < done.len() ==> leads(reads, root, #[trigger] done[i]),
    ensures
        visited(reads, limit, thing, done, open) matches Ok(after) ==> forall|i: int|
            0 <= i < after.len() ==> leads(reads, root, #[trigger] after[i]),
    decreases limit - open.len(), 0nat,
{
    if !done.contains(thing) && !open.contains(thing) && open.len() < limit {
        let list = reads(thing);
        assert forall|i: int| 0 <= i < list.len() implies leads(reads, root, #[trigger] list[i]) by {
            assert(reads(thing).contains(list[i]));
            assert(reads_one(reads, thing, list[i]));
            lemma_leads_further(reads, root, thing, list[i]);
        }
        lemma_visit_all_reaches(reads, limit, root, list, done, open.push(thing));
    }
}

proof fn lemma_visit_all_reaches(
    reads: Reads,
    limit: nat,
    root: int,
    list: Seq<int>,
    done: Seq<int>,
    open: Seq<int>,
)
    requires
        forall|i: int| 0 <= i < list.len() ==> leads(reads, root, #[trigger] list[i]),
        forall|i: int| 0 <= i < done.len() ==> leads(reads, root, #[trigger] done[i]),
    ensures
        visited_all(reads, limit, list, done, open) matches Ok(after) ==> forall|i: int|
            0 <= i < after.len() ==> leads(reads, root, #[trigger] after[i]),
    decreases limit - open.len(), list.len() + 1,
{
    if list.len() > 0 {
        assert(leads(reads, root, list[0]));
        lemma_visit_reaches(reads, limit, root, list[0], done, open);
        if let Ok(after) = visited(reads, limit, list[0], done, open) {
            let rest = list.skip(1);
            assert forall|i: int| 0 <= i < rest.len() implies leads(
                reads,
                root,
                #[trigger] rest[i],
            ) by {
                assert(rest[i] == list[i + 1]);
            }
            lemma_visit_all_reaches(reads, limit, root, rest, after, open);
        }
    }
}

} // verus!
