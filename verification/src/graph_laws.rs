//! What holds of every graph and every edit to one.

use vstd::prelude::*;
use vstd::set_lib::*;
use crate::graph::{
    all_ids, connected, contributing, evaluated, lemma_placed, placed, walked, wired, FieldGraph,
    GraphNode, NodeId,
};
use crate::graph_edit::{repinned, same_but_pins};
use crate::graph_remove::{other_than, removed, repointed, spliced};
use crate::order::{
    closed_under, follows_reads, is_chain, is_circle, leads, leads_by, lemma_no_circle,
    lemma_visit, reads_one, visiting, Reads,
};

verus! {

/// Whether no chain of readings leads from a thing back to itself.
pub open spec fn acyclic(reads: Reads) -> bool {
    forall|circle: Seq<int>| !#[trigger] is_circle(reads, circle)
}

/// Whether a chain of one or more readings leads from one thing to another.
pub open spec fn leads_on(reads: Reads, a: int, b: int) -> bool {
    exists|chain: Seq<int>| chain.len() > 1 && #[trigger] leads_by(reads, chain, a, b)
}

proof fn lemma_circle_leads_on(reads: Reads, a: int)
    requires
        acyclic(reads),
    ensures
        !leads_on(reads, a, a),
{
    if leads_on(reads, a, a) {
        let chain = choose|chain: Seq<int>|
            chain.len() > 1 && #[trigger] leads_by(reads, chain, a, a);
        assert(is_circle(reads, chain));
    }
}

pub proof fn lemma_one_reading(reads: Reads, a: int, b: int)
    requires
        reads_one(reads, a, b),
    ensures
        leads_on(reads, a, b),
        leads(reads, a, b),
{
    let chain = seq![a, b];
    assert(is_chain(reads, chain));
    assert(leads_by(reads, chain, a, b));
}

proof fn lemma_leads_self(reads: Reads, a: int)
    ensures
        leads(reads, a, a),
{
    assert(leads_by(reads, seq![a], a, a));
}

/// Chains join end to end.
proof fn lemma_join(reads: Reads, first: Seq<int>, second: Seq<int>, a: int, b: int, c: int)
    requires
        leads_by(reads, first, a, b),
        leads_by(reads, second, b, c),
    ensures
        leads_by(reads, first + second.skip(1), a, c),
        (first + second.skip(1)).len() == first.len() + second.len() - 1,
{
    let chain = first + second.skip(1);
    assert(chain.last() == c) by {
        if second.len() > 1 {
            assert(second.skip(1).last() == second.last());
        }
    }
    assert forall|i: int| 0 <= i < chain.len() - 1 implies reads_one(
        reads,
        #[trigger] chain[i],
        chain[i + 1],
    ) by {
        if i + 1 < first.len() {
            assert(reads_one(reads, first[i], first[i + 1]));
        } else {
            let j = i - (first.len() - 1);
            assert(chain[i] == second[j]);
            assert(chain[i + 1] == second[j + 1]);
            assert(reads_one(reads, second[j], second[j + 1]));
        }
    }
}

proof fn lemma_leads_transitive(reads: Reads, a: int, b: int, c: int)
    requires
        leads(reads, a, b),
        leads(reads, b, c),
    ensures
        leads(reads, a, c),
        leads_on(reads, a, b) || leads_on(reads, b, c) ==> leads_on(reads, a, c),
{
    let first = choose|chain: Seq<int>| #[trigger] leads_by(reads, chain, a, b);
    let second = choose|chain: Seq<int>| #[trigger] leads_by(reads, chain, b, c);
    lemma_join(reads, first, second, a, b, c);
    if leads_on(reads, a, b) {
        let long = choose|chain: Seq<int>|
            chain.len() > 1 && #[trigger] leads_by(reads, chain, a, b);
        lemma_join(reads, long, second, a, b, c);
        assert((long + second.skip(1)).len() > 1);
    }
    if leads_on(reads, b, c) {
        let long = choose|chain: Seq<int>|
            chain.len() > 1 && #[trigger] leads_by(reads, chain, b, c);
        lemma_join(reads, first, long, a, b, c);
        assert((first + long.skip(1)).len() > 1);
    }
}

/// Where each reading of one is a chain of the other, the first has no circle where the
/// second has none.
proof fn lemma_chains_carry(new: Reads, old: Reads, chain: Seq<int>)
    requires
        forall|x: int, y: int| #[trigger] reads_one(new, x, y) ==> leads_on(old, x, y),
        is_chain(new, chain),
        chain.len() > 1,
    ensures
        leads_on(old, chain[0], chain.last()),
    decreases chain.len(),
{
    let short = chain.drop_last();
    let k = chain.len() - 2;
    assert(reads_one(new, chain[k], chain[k + 1]));
    if short.len() > 1 {
        assert forall|i: int| 0 <= i < short.len() - 1 implies reads_one(
            new,
            #[trigger] short[i],
            short[i + 1],
        ) by {
            assert(reads_one(new, chain[i], chain[i + 1]));
        }
        lemma_chains_carry(new, old, short);
        lemma_on_is_leads(old, chain[0], chain[k]);
        lemma_on_is_leads(old, chain[k], chain[k + 1]);
        lemma_leads_transitive(old, chain[0], chain[k], chain[k + 1]);
    }
}

proof fn lemma_on_is_leads(reads: Reads, a: int, b: int)
    requires
        leads_on(reads, a, b),
    ensures
        leads(reads, a, b),
{
    let chain = choose|chain: Seq<int>| chain.len() > 1 && #[trigger] leads_by(reads, chain, a, b);
    assert(leads_by(reads, chain, a, b));
}

pub proof fn lemma_acyclic_carries(new: Reads, old: Reads)
    requires
        forall|x: int, y: int| #[trigger] reads_one(new, x, y) ==> leads_on(old, x, y),
        acyclic(old),
    ensures
        acyclic(new),
{
    assert forall|circle: Seq<int>| !#[trigger] is_circle(new, circle) by {
        if is_circle(new, circle) {
            lemma_chains_carry(new, old, circle);
            lemma_circle_leads_on(old, circle[0]);
        }
    }
}

/// A pin that is wired is one of the connected.
pub proof fn lemma_connected(inputs: Seq<Option<NodeId>>, x: int)
    ensures
        connected(inputs).contains(x) <==> exists|p: int|
            0 <= p < inputs.len() && is_wired_to(#[trigger] inputs[p], x),
    decreases inputs.len(),
{
    if inputs.len() > 0 {
        let rest = inputs.drop_last();
        lemma_connected(rest, x);
        let all = connected(inputs);
        let some = connected(rest);
        if all.contains(x) {
            let k = choose|k: int| 0 <= k < all.len() && all[k] == x;
            if k < some.len() {
                assert(some[k] == x);
                let p = choose|p: int| 0 <= p < rest.len() && is_wired_to(#[trigger] rest[p], x);
                assert(is_wired_to(inputs[p], x));
            } else {
                assert(is_wired_to(inputs[inputs.len() - 1], x));
            }
        }
        if exists|p: int| 0 <= p < inputs.len() && is_wired_to(#[trigger] inputs[p], x) {
            let p = choose|p: int| 0 <= p < inputs.len() && is_wired_to(#[trigger] inputs[p], x);
            if p < rest.len() {
                assert(is_wired_to(rest[p], x));
                let k = choose|k: int| 0 <= k < some.len() && some[k] == x;
                assert(all[k] == x);
            } else {
                assert(all.last() == x);
            }
        }
    }
}

/// Whether a pin is wired to a node.
pub open spec fn is_wired_to(pin: Option<NodeId>, x: int) -> bool {
    pin matches Some(id) && id.0 == x
}

/// A pin that is left empty makes no reading and takes one away at most.
proof fn lemma_update_pin(
    inputs: Seq<Option<NodeId>>,
    pin: int,
    to: Option<NodeId>,
    x: int,
)
    requires
        0 <= pin < inputs.len(),
        connected(inputs.update(pin, to)).contains(x),
    ensures
        connected(inputs).contains(x) || is_wired_to(to, x),
{
    let after = inputs.update(pin, to);
    lemma_connected(after, x);
    lemma_connected(inputs, x);
    let p = choose|p: int| 0 <= p < after.len() && is_wired_to(#[trigger] after[p], x);
    if p != pin {
        assert(is_wired_to(inputs[p], x));
    }
}

/// Replacing the pins of a node leaves every node where it was.
proof fn lemma_repinned_places(before: FieldGraph, after: FieldGraph, at: int, pins: Seq<
    Option<NodeId>,
>, id: int, from: int)
    requires
        repinned(before, after, at, pins),
        0 <= at < before.nodes@.len(),
        0 <= from,
    ensures
        crate::graph::placed_from(after.nodes@, id, from) == crate::graph::placed_from(
            before.nodes@,
            id,
            from,
        ),
    decreases before.nodes@.len() - from,
{
    if from < before.nodes@.len() {
        if from != at {
            assert(after.nodes@[from] == before.nodes@[from]);
        }
        lemma_repinned_places(before, after, at, pins, id, from + 1);
    }
}

/// Connecting two nodes of a graph without a circle makes none, whichever nodes are
/// bypassed: an edge is refused where the source already depends on the target.
pub proof fn law_connecting_makes_no_circle(
    before: FieldGraph,
    after: FieldGraph,
    from: NodeId,
    to: NodeId,
    pin: int,
)
    requires
        acyclic(wired(before.nodes@)),
        from != to,
        !leads(wired(before.nodes@), from.0 as int, to.0 as int),
        placed(before.nodes@, to.0 as int) is Some,
        0 <= pin < before.nodes@[placed(before.nodes@, to.0 as int)->0].inputs@.len(),
        repinned(
            before,
            after,
            placed(before.nodes@, to.0 as int)->0,
            before.nodes@[placed(before.nodes@, to.0 as int)->0].inputs@.update(pin, Some(from)),
        ),
    ensures
        acyclic(wired(after.nodes@)),
{
    let old = wired(before.nodes@);
    let new = wired(after.nodes@);
    let at = placed(before.nodes@, to.0 as int)->0;
    lemma_placed(before.nodes@, to.0 as int, 0);
    let pins = before.nodes@[at].inputs@.update(pin, Some(from));
    assert forall|x: int, y: int| #[trigger] reads_one(new, x, y) implies reads_one(old, x, y) || (x
        == to.0 && y == from.0) by {
        lemma_repinned_places(before, after, at, pins, x, 0);
        if placed(before.nodes@, x) is Some {
            let i = placed(before.nodes@, x)->0;
            lemma_placed(before.nodes@, x, 0);
            if i == at {
                lemma_update_pin(before.nodes@[at].inputs@, pin, Some(from), y);
            } else {
                assert(after.nodes@[i] == before.nodes@[i]);
            }
        }
    }
    assert forall|circle: Seq<int>| !#[trigger] is_circle(new, circle) by {
        if is_circle(new, circle) {
            lemma_new_chain(old, new, from.0 as int, to.0 as int, circle);
            let a = circle[0];
            lemma_circle_leads_on(old, a);
            lemma_leads_transitive(old, from.0 as int, a, to.0 as int);
        }
    }
}

/// A chain after an edge was added is one without it, or passes over the edge.
proof fn lemma_new_chain(old: Reads, new: Reads, from: int, to: int, chain: Seq<int>)
    requires
        forall|x: int, y: int| #[trigger]
            reads_one(new, x, y) ==> reads_one(old, x, y) || (x == to && y == from),
        !leads(old, from, to),
        is_chain(new, chain),
        chain.len() > 1,
    ensures
        leads_on(old, chain[0], chain.last()) || (leads(old, chain[0], to) && leads(
            old,
            from,
            chain.last(),
        )),
    decreases chain.len(),
{
    let a = chain[0];
    let k = chain.len() - 2;
    let x = chain[k];
    let b = chain[k + 1];
    assert(reads_one(new, chain[k], chain[k + 1]));
    if reads_one(old, x, b) {
        lemma_one_reading(old, x, b);
    }
    if k == 0 {
        lemma_leads_self(old, a);
        lemma_leads_self(old, b);
    } else {
        let short = chain.drop_last();
        assert forall|i: int| 0 <= i < short.len() - 1 implies reads_one(
            new,
            #[trigger] short[i],
            short[i + 1],
        ) by {
            assert(reads_one(new, chain[i], chain[i + 1]));
        }
        lemma_new_chain(old, new, from, to, short);
        if leads_on(old, a, x) {
            lemma_on_is_leads(old, a, x);
            if reads_one(old, x, b) {
                lemma_leads_transitive(old, a, x, b);
            } else {
                lemma_leads_self(old, from);
            }
        } else if reads_one(old, x, b) {
            lemma_leads_transitive(old, from, x, b);
        }
    }
}

/// Clearing a pin of a graph without a circle makes none.
pub proof fn law_disconnecting_makes_no_circle(
    before: FieldGraph,
    after: FieldGraph,
    to: NodeId,
    pin: int,
)
    requires
        acyclic(wired(before.nodes@)),
        placed(before.nodes@, to.0 as int) is Some,
        0 <= pin < before.nodes@[placed(before.nodes@, to.0 as int)->0].inputs@.len(),
        repinned(
            before,
            after,
            placed(before.nodes@, to.0 as int)->0,
            before.nodes@[placed(before.nodes@, to.0 as int)->0].inputs@.update(pin, None),
        ),
    ensures
        acyclic(wired(after.nodes@)),
{
    let old = wired(before.nodes@);
    let new = wired(after.nodes@);
    let at = placed(before.nodes@, to.0 as int)->0;
    lemma_placed(before.nodes@, to.0 as int, 0);
    let pins = before.nodes@[at].inputs@.update(pin, None);
    assert forall|x: int, y: int| #[trigger] reads_one(new, x, y) implies leads_on(old, x, y) by {
        lemma_repinned_places(before, after, at, pins, x, 0);
        if placed(before.nodes@, x) is Some {
            let i = placed(before.nodes@, x)->0;
            lemma_placed(before.nodes@, x, 0);
            if i == at {
                lemma_update_pin(before.nodes@[at].inputs@, pin, None, y);
            } else {
                assert(after.nodes@[i] == before.nodes@[i]);
            }
        }
        lemma_one_reading(old, x, y);
    }
    lemma_acyclic_carries(new, old);
}

/// Whichever nodes are bypassed, a graph without a circle has an evaluation order.
pub proof fn law_a_graph_without_a_circle_evaluates(nodes: Seq<GraphNode>, output: NodeId)
    requires
        acyclic(wired(nodes)),
    ensures
        evaluated(nodes, output) is Ok,
{
    let reads = walked(nodes);
    lemma_walk_reads_wires(nodes);
    lemma_acyclic_carries(reads, wired(nodes));
    lemma_evaluation(nodes, output);
}

/// What a walk reads is wired.
proof fn lemma_walk_reads_wires(nodes: Seq<GraphNode>)
    ensures
        forall|x: int, y: int| #[trigger]
            reads_one(walked(nodes), x, y) ==> reads_one(contributing(nodes), x, y),
        forall|x: int, y: int| #[trigger]
            reads_one(contributing(nodes), x, y) ==> reads_one(walked(nodes), x, y),
        forall|x: int, y: int| #[trigger]
            reads_one(walked(nodes), x, y) ==> leads_on(wired(nodes), x, y),
{
    assert forall|x: int, y: int| #[trigger] reads_one(walked(nodes), x, y) implies reads_one(
        contributing(nodes),
        x,
        y,
    ) && leads_on(wired(nodes), x, y) by {
        let list = contributing(nodes)(x);
        let k = choose|k: int| 0 <= k < list.reverse().len() && list.reverse()[k] == y;
        assert(list[list.len() - 1 - k] == y);
        assert(list.contains(y));
        let i = placed(nodes, x)->0;
        let pins = nodes[i].inputs@;
        if nodes[i].bypassed {
            let few = pins.take(if pins.len() > 0 {
                1
            } else {
                0
            });
            lemma_connected(few, y);
            lemma_connected(pins, y);
            let p = choose|p: int| 0 <= p < few.len() && is_wired_to(#[trigger] few[p], y);
            assert(is_wired_to(pins[p], y));
        }
        assert(reads_one(wired(nodes), x, y));
        lemma_one_reading(wired(nodes), x, y);
    }
    assert forall|x: int, y: int| #[trigger] reads_one(contributing(nodes), x, y) implies reads_one(
        walked(nodes),
        x,
        y,
    ) by {
        let list = contributing(nodes)(x);
        let k = choose|k: int| 0 <= k < list.len() && list[k] == y;
        assert(list.reverse()[list.len() - 1 - k] == y);
    }
}

/// Every number that a pin can hold.
spec fn id_range() -> Set<int> {
    set_int_range(0, all_ids() as int)
}

proof fn lemma_ids_closed(nodes: Seq<GraphNode>)
    ensures
        closed_under(walked(nodes), id_range()),
{
    let reads = walked(nodes);
    assert forall|a: int, i: int|
        id_range().contains(a) && 0 <= i < reads(a).len() implies id_range().contains(
        #[trigger] reads(a)[i],
    ) by {
        let y = reads(a)[i];
        assert(reads(a).contains(y));
        assert(reads_one(reads, a, y));
        lemma_walk_reads_wires(nodes);
        assert(reads_one(contributing(nodes), a, y));
        let at = placed(nodes, a)->0;
        let pins = nodes[at].inputs@;
        let few = if nodes[at].bypassed {
            pins.take(if pins.len() > 0 {
                1
            } else {
                0
            })
        } else {
            pins
        };
        assert(connected(few).contains(y));
        lemma_connected(few, y);
        let p = choose|p: int| 0 <= p < few.len() && is_wired_to(#[trigger] few[p], y);
    }
}

proof fn lemma_evaluation(nodes: Seq<GraphNode>, output: NodeId)
    ensures
        match evaluated(nodes, output) {
            Ok(order) => {
                &&& order.no_duplicates()
                &&& follows_reads(walked(nodes), order)
                &&& order.contains(output.0 as int)
            },
            Err(circle) => is_circle(walked(nodes), circle),
        },
{
    let reads = walked(nodes);
    lemma_ids_closed(nodes);
    lemma_int_range(0, all_ids() as int);
    assert(visiting(reads, id_range(), all_ids(), Seq::empty(), Seq::empty()));
    lemma_visit(reads, id_range(), all_ids(), output.0 as int, Seq::empty(), Seq::empty());
}

/// An evaluation order holds the output and no node twice, and puts each node after
/// everything it contributes to reading.
pub proof fn law_evaluation_order_follows_the_edges(
    nodes: Seq<GraphNode>,
    output: NodeId,
    place: int,
    source: int,
)
    requires
        evaluated(nodes, output) is Ok,
    ensures
        ({
            let order = evaluated(nodes, output)->Ok_0;
            &&& order.contains(output.0 as int)
            &&& order.no_duplicates()
            &&& 0 <= place < order.len() && reads_one(contributing(nodes), order[place], source)
                ==> order.take(place).contains(source)
        }),
{
    lemma_evaluation(nodes, output);
    lemma_walk_reads_wires(nodes);
    let order = evaluated(nodes, output)->Ok_0;
    if 0 <= place < order.len() && reads_one(contributing(nodes), order[place], source) {
        assert(reads_one(walked(nodes), order[place], source));
    }
}

/// A graph fails to evaluate only where some node's contributing inputs lead back to it.
pub proof fn law_evaluation_fails_only_on_a_circle(nodes: Seq<GraphNode>, output: NodeId)
    ensures
        evaluated(nodes, output) matches Err(circle) ==> is_circle(walked(nodes), circle),
        evaluated(nodes, output) is Ok ==> forall|circle: Seq<int>|
            circle.len() > 0 && (evaluated(nodes, output)->Ok_0).contains(circle[0])
                ==> !#[trigger] is_circle(walked(nodes), circle),
{
    lemma_evaluation(nodes, output);
    if evaluated(nodes, output) is Ok {
        let order = evaluated(nodes, output)->Ok_0;
        assert forall|circle: Seq<int>|
            circle.len() > 0 && order.contains(circle[0]) implies !#[trigger] is_circle(
            walked(nodes),
            circle,
        ) by {
            lemma_no_circle(walked(nodes), order, circle);
        }
    }
}


pub proof fn lemma_placed_push(nodes: Seq<GraphNode>, node: GraphNode, x: int)
    ensures
        placed(nodes.push(node), x) == (match placed(nodes, x) {
            Some(j) => Some(j),
            None => if node.id.0 == x {
                Some(nodes.len() as int)
            } else {
                None
            },
        }),
{
    let more = nodes.push(node);
    lemma_placed(nodes, x, 0);
    lemma_placed(more, x, 0);
    if let Some(j) = placed(nodes, x) {
        assert(more[j] == nodes[j]);
        if let Some(k) = placed(more, x) {
            if k < j {
                assert(more[k] == nodes[k]);
            }
        }
    } else {
        if let Some(k) = placed(more, x) {
            if k < nodes.len() {
                assert(more[k] == nodes[k]);
            }
        }
        assert(more[nodes.len() as int] == node);
    }
}

/// Keeping all nodes but one keeps every other where it is found.
proof fn lemma_kept_places(nodes: Seq<GraphNode>, id: NodeId, x: int)
    requires
        x != id.0,
    ensures
        placed(nodes.filter(other_than(id)), x) is Some <==> placed(nodes, x) is Some,
        placed(nodes, x) is Some ==> nodes.filter(other_than(id))[placed(
            nodes.filter(other_than(id)),
            x,
        )->0] == nodes[placed(nodes, x)->0],
    decreases nodes.len(),
{
    reveal(Seq::filter);
    if nodes.len() > 0 {
        let rest = nodes.drop_last();
        let last = nodes.last();
        let kept = rest.filter(other_than(id));
        lemma_kept_places(rest, id, x);
        assert(nodes =~= rest.push(last));
        lemma_placed_push(rest, last, x);
        lemma_placed_push(kept, last, x);
        lemma_placed(kept, x, 0);
        lemma_placed(rest, x, 0);
        lemma_placed(nodes, x, 0);
    }
}

proof fn lemma_kept_are_others(nodes: Seq<GraphNode>, id: NodeId, k: int)
    requires
        0 <= k < nodes.filter(other_than(id)).len(),
    ensures
        nodes.filter(other_than(id))[k].id != id,
        nodes.contains(nodes.filter(other_than(id))[k]),
    decreases nodes.len(),
{
    reveal(Seq::filter);
    if nodes.len() > 0 {
        let rest = nodes.drop_last();
        let kept = rest.filter(other_than(id));
        if k < kept.len() {
            lemma_kept_are_others(rest, id, k);
            let j = choose|j: int| 0 <= j < rest.len() && rest[j] == kept[k];
            assert(nodes[j] == kept[k]);
        } else {
            assert(nodes[nodes.len() - 1] == nodes.last());
        }
    }
}

/// Nodes that are the same but for their pins are found in the same places.
proof fn lemma_same_places(a: Seq<GraphNode>, b: Seq<GraphNode>, x: int, from: int)
    requires
        a.len() == b.len(),
        forall|k: int| 0 <= k < a.len() ==> same_but_pins(a[k], #[trigger] b[k]),
        0 <= from,
    ensures
        crate::graph::placed_from(a, x, from) == crate::graph::placed_from(b, x, from),
    decreases a.len() - from,
{
    if from < a.len() {
        assert(same_but_pins(a[from], b[from]));
        lemma_same_places(a, b, x, from + 1);
    }
}

/// Taking a node out of a graph without a circle makes none: a spliced reader reads what it
/// already led to.
pub proof fn law_removing_makes_no_circle(
    before: Seq<GraphNode>,
    after: Seq<GraphNode>,
    id: NodeId,
)
    requires
        acyclic(wired(before)),
        placed(before, id.0 as int) is Some,
        removed(before, after, id, spliced(before, placed(before, id.0 as int)->0)),
    ensures
        acyclic(wired(after)),
{
    let old = wired(before);
    let new = wired(after);
    let at = placed(before, id.0 as int)->0;
    lemma_placed(before, id.0 as int, 0);
    let splice = spliced(before, at);
    let kept = before.filter(other_than(id));
    assert forall|x: int, y: int| #[trigger] reads_one(new, x, y) implies leads_on(old, x, y) by {
        lemma_same_places(kept, after, x, 0);
        lemma_placed(after, x, 0);
        let k = placed(after, x)->0;
        assert(same_but_pins(kept[k], after[k]));
        lemma_kept_are_others(before, id, k);
        assert(x != id.0);
        lemma_kept_places(before, id, x);
        let j = placed(before, x)->0;
        assert(kept[k] == before[j]);
        let pins = before[j].inputs@;
        lemma_connected(after[k].inputs@, y);
        let p = choose|p: int|
            0 <= p < after[k].inputs@.len() && is_wired_to(#[trigger] after[k].inputs@[p], y);
        assert(after[k].inputs@[p] == repointed(pins[p], id, splice));
        if pins[p] == Some(id) {
            lemma_connected(pins, id.0 as int);
            assert(is_wired_to(pins[p], id.0 as int));
            assert(reads_one(old, x, id.0 as int));
            let sources = connected(before[at].inputs@);
            lemma_connected(before[at].inputs@, sources[0]);
            assert(sources.contains(sources[0]));
            let q = choose|q: int|
                0 <= q < before[at].inputs@.len() && is_wired_to(
                    #[trigger] before[at].inputs@[q],
                    sources[0],
                );
            assert(sources[0] == y);
            assert(reads_one(old, id.0 as int, y));
            lemma_one_reading(old, x, id.0 as int);
            lemma_one_reading(old, id.0 as int, y);
            lemma_leads_transitive(old, x, id.0 as int, y);
        } else {
            lemma_connected(pins, y);
            assert(is_wired_to(pins[p], y));
            assert(reads_one(old, x, y));
            lemma_one_reading(old, x, y);
        }
    }
    lemma_acyclic_carries(new, old);
}

/// Removing a node leaves none of its id and gives none back: the next node still takes an
/// id that no node or pin ever had.
pub proof fn law_ids_are_never_reused(before: FieldGraph, after: FieldGraph, id: NodeId)
    requires
        before.wf(),
        placed(before.nodes@, id.0 as int) is Some,
        after.next_id == before.next_id,
        removed(
            before.nodes@,
            after.nodes@,
            id,
            spliced(before.nodes@, placed(before.nodes@, id.0 as int)->0),
        ),
    ensures
        after.wf(),
        placed(after.nodes@, id.0 as int) is None,
        id.0 < after.next_id,
{
    let nodes = before.nodes@;
    let at = placed(nodes, id.0 as int)->0;
    lemma_placed(nodes, id.0 as int, 0);
    assert(nodes[at].id.0 < before.next_id);
    let splice = spliced(nodes, at);
    let kept = nodes.filter(other_than(id));
    assert forall|i: int| 0 <= i < after.nodes@.len() implies (#[trigger] after.nodes@[i]).id.0
        < after.next_id && after.nodes@[i].id != id by {
        assert(same_but_pins(kept[i], after.nodes@[i]));
        lemma_kept_are_others(nodes, id, i);
        let j = choose|j: int| 0 <= j < nodes.len() && nodes[j] == kept[i];
        assert(nodes[j].id.0 < before.next_id);
    }
    assert forall|i: int, p: int|
        0 <= i < after.nodes@.len() && 0 <= p < after.nodes@[i].inputs@.len() implies match (
    #[trigger] after.nodes@[i].inputs@[p]) {
        Some(source) => source.0 < after.next_id,
        None => true,
    } by {
        assert(same_but_pins(kept[i], after.nodes@[i]));
        lemma_kept_are_others(nodes, id, i);
        let j = choose|j: int| 0 <= j < nodes.len() && nodes[j] == kept[i];
        assert(after.nodes@[i].inputs@[p] == repointed(nodes[j].inputs@[p], id, splice));
        if splice is Some {
            let sources = connected(nodes[at].inputs@);
            lemma_connected(nodes[at].inputs@, sources[0]);
            assert(sources.contains(sources[0]));
            let q = choose|q: int|
                0 <= q < nodes[at].inputs@.len() && is_wired_to(
                    #[trigger] nodes[at].inputs@[q],
                    sources[0],
                );
            assert(match nodes[at].inputs@[q] {
                Some(source) => source.0 < before.next_id,
                None => true,
            });
        }
    }
    lemma_kept_distinct(nodes, id);
    assert forall|i: int, j: int| 0 <= i < j < after.nodes@.len() implies (
    #[trigger] after.nodes@[i]).id != (#[trigger] after.nodes@[j]).id by {
        assert(same_but_pins(kept[i], after.nodes@[i]));
        assert(same_but_pins(kept[j], after.nodes@[j]));
        assert(kept[i].id != kept[j].id);
    }
    lemma_placed(after.nodes@, id.0 as int, 0);
}

proof fn lemma_kept_distinct(nodes: Seq<GraphNode>, id: NodeId)
    requires
        forall|i: int, j: int|
            0 <= i < j < nodes.len() ==> (#[trigger] nodes[i]).id != (#[trigger] nodes[j]).id,
    ensures
        forall|i: int, j: int|
            0 <= i < j < nodes.filter(other_than(id)).len() ==> (#[trigger] nodes.filter(
                other_than(id),
            )[i]).id != (#[trigger] nodes.filter(other_than(id))[j]).id,
    decreases nodes.len(),
{
    reveal(Seq::filter);
    if nodes.len() > 0 {
        let rest = nodes.drop_last();
        let kept = rest.filter(other_than(id));
        assert forall|i: int, j: int| 0 <= i < j < rest.len() implies (#[trigger] rest[i]).id != (
        #[trigger] rest[j]).id by {
            assert(nodes[i].id != nodes[j].id);
        }
        lemma_kept_distinct(rest, id);
        let all = nodes.filter(other_than(id));
        assert forall|i: int, j: int| 0 <= i < j < all.len() implies (#[trigger] all[i]).id != (
        #[trigger] all[j]).id by {
            assert(all[i] == kept[i]);
            if j < kept.len() {
                assert(all[j] == kept[j]);
            } else {
                lemma_kept_are_others(rest, id, i);
                let k = choose|k: int| 0 <= k < rest.len() && rest[k] == kept[i];
                assert(nodes[k].id != nodes[nodes.len() - 1].id);
            }
        }
    }
}

/// An evaluation order holds only nodes that the output leads to.
pub proof fn law_evaluation_reaches_only_what_the_output_reads(
    nodes: Seq<GraphNode>,
    output: NodeId,
    place: int,
)
    requires
        evaluated(nodes, output) is Ok,
        0 <= place < (evaluated(nodes, output)->Ok_0).len(),
    ensures
        leads(walked(nodes), output.0 as int, (evaluated(nodes, output)->Ok_0)[place]),
{
    lemma_leads_self(walked(nodes), output.0 as int);
    crate::order::lemma_visit_reaches(
        walked(nodes),
        all_ids(),
        output.0 as int,
        output.0 as int,
        Seq::empty(),
        Seq::empty(),
    );
}

} // verus!
