//! What holds of the wires of every graph: what a node reads, what a bypassed one passes on,
//! and what is left of them once a node is gone.

use vstd::prelude::*;
use crate::field::{authored_node, chained_on, referenced};
use crate::graph::{
    all_ids, connected, contributing, evaluated, id_path, lemma_placed, passed_through, placed,
    walked, wired, FieldGraph, GraphNode, NodeId, NodeOp,
};
use crate::graph_edit::{name_taken, read_along};
use crate::graph_history::{edited, GraphEdit};
use crate::graph_remove::{
    held, inherits, other_than, reading, reads_id, removed, repointed_all, spliced, unread,
};
use crate::number::digit_char;
use crate::order::{leads, visited, visited_all};
use crate::single::Single;
use crate::text::decimal;
use crate::text_laws::law_a_number_in_decimal_reads_back;

verus! {

/// Some pins are wired to a node exactly where one of them is.
pub proof fn law_a_node_is_read_where_a_pin_is_wired_to_it(
    inputs: Seq<Option<NodeId>>,
    source: int,
)
    ensures
        connected(inputs).contains(source) <==> exists|pin: int|
            0 <= pin < inputs.len() && (#[trigger] inputs[pin] matches Some(id) && id.0 == source),
    decreases inputs.len(),
{
    if inputs.len() > 0 {
        let rest = inputs.drop_last();
        let all = connected(inputs);
        law_a_node_is_read_where_a_pin_is_wired_to_it(rest, source);
        if connected(rest).contains(source) {
            let pin = choose|pin: int|
                0 <= pin < rest.len() && (#[trigger] rest[pin] matches Some(id) && id.0 == source);
            assert(inputs[pin] == rest[pin]);
            let k = choose|k: int| 0 <= k < connected(rest).len() && connected(rest)[k] == source;
            assert(all[k] == source);
        }
        if let Some(id) = inputs.last() {
            if id.0 == source {
                assert(inputs[inputs.len() - 1] == inputs.last());
                assert(all[all.len() - 1] == source);
            }
        }
        if all.contains(source) && !connected(rest).contains(source) {
            let k = choose|k: int| 0 <= k < all.len() && all[k] == source;
            if k < connected(rest).len() {
                assert(connected(rest)[k] == source);
            }
            assert(inputs[inputs.len() - 1] == inputs.last());
        }
        if exists|pin: int|
            0 <= pin < inputs.len() && (#[trigger] inputs[pin] matches Some(id) && id.0
                == source) {
            let pin = choose|pin: int|
                0 <= pin < inputs.len() && (#[trigger] inputs[pin] matches Some(id) && id.0
                    == source);
            if pin < rest.len() {
                assert(rest[pin] == inputs[pin]);
            }
        }
    }
}

/// The nodes some pins are wired to stand in the order of the pins.
pub proof fn law_what_is_read_stands_in_pin_order(inputs: Seq<Option<NodeId>>, id: NodeId)
    ensures
        connected(inputs.push(Some(id))) == connected(inputs).push(id.0 as int),
        connected(inputs.push(None)) == connected(inputs),
        connected(Seq::<Option<NodeId>>::empty()).len() == 0,
{
    assert(inputs.push(Some(id)).drop_last() =~= inputs);
    assert(inputs.push(None).drop_last() =~= inputs);
}

/// A node reads what its pins are wired to, and a bypassed one what its first pin is wired to
/// and nothing else.
pub proof fn law_a_bypassed_node_reads_its_first_pin_alone(
    nodes: Seq<GraphNode>,
    at: int,
    source: int,
)
    requires
        0 <= at < nodes.len(),
        placed(nodes, nodes[at].id.0 as int) == Some(at),
    ensures
        ({
            let read = contributing(nodes)(nodes[at].id.0 as int).contains(source);
            let pins = nodes[at].inputs@;
            &&& !nodes[at].bypassed ==> (read <==> exists|pin: int|
                0 <= pin < pins.len() && (#[trigger] pins[pin] matches Some(id) && id.0 == source))
            &&& nodes[at].bypassed ==> (read <==> pins.len() > 0 && (pins[0] matches Some(id)
                && id.0 == source))
        }),
{
    let pins = nodes[at].inputs@;
    if nodes[at].bypassed {
        let first = pins.take(if pins.len() > 0 {
            1
        } else {
            0
        });
        law_a_node_is_read_where_a_pin_is_wired_to_it(first, source);
        if pins.len() > 0 {
            assert(first[0] == pins[0]);
        }
    } else {
        law_a_node_is_read_where_a_pin_is_wired_to_it(pins, source);
    }
}

/// Of two inputs that read nothing themselves the later pin's is evaluated first, then the
/// earlier pin's, and the node that reads them last.
pub proof fn law_inputs_are_evaluated_from_the_last_pin(
    nodes: Seq<GraphNode>,
    output: NodeId,
    first: NodeId,
    second: NodeId,
)
    requires
        placed(nodes, output.0 as int) is Some,
        !nodes[placed(nodes, output.0 as int)->0].bypassed,
        nodes[placed(nodes, output.0 as int)->0].inputs@ == seq![Some(first), Some(second)],
        contributing(nodes)(first.0 as int).len() == 0,
        contributing(nodes)(second.0 as int).len() == 0,
        output != first,
        output != second,
        first != second,
    ensures
        evaluated(nodes, output) == Ok::<Seq<int>, Seq<int>>(
            seq![second.0 as int, first.0 as int, output.0 as int],
        ),
{
    let reads = walked(nodes);
    let top = output.0 as int;
    let a = first.0 as int;
    let b = second.0 as int;
    let pins = seq![Some(first), Some(second)];
    assert(pins.drop_last() =~= seq![Some(first)]);
    assert(seq![Some(first)].drop_last() =~= Seq::<Option<NodeId>>::empty());
    assert(connected(Seq::<Option<NodeId>>::empty()) =~= Seq::<int>::empty());
    assert(connected(seq![Some(first)]) =~= seq![a]);
    assert(connected(pins) =~= seq![a, b]);
    assert(contributing(nodes)(top) == seq![a, b]);
    assert(reads(top) =~= seq![b, a]);
    assert(reads(a) =~= Seq::<int>::empty());
    assert(reads(b) =~= Seq::<int>::empty());
    let none = Seq::<int>::empty();
    let open = none.push(top);
    let limit = all_ids();
    assert(open.len() == 1 && open[0] == top);
    assert(!open.contains(a) && !open.contains(b));
    assert(visited_all(reads, limit, none, none, open.push(b)) == Ok::<Seq<int>, Seq<int>>(none));
    assert(visited(reads, limit, b, none, open) == Ok::<Seq<int>, Seq<int>>(none.push(b)));
    let one = none.push(b);
    assert(one.len() == 1 && one[0] == b);
    assert(!one.contains(a));
    assert(visited_all(reads, limit, none, one, open.push(a)) == Ok::<Seq<int>, Seq<int>>(one));
    assert(visited(reads, limit, a, one, open) == Ok::<Seq<int>, Seq<int>>(one.push(a)));
    let two = one.push(a);
    let list = seq![b, a];
    assert(list.skip(1) =~= seq![a]);
    assert(seq![a].skip(1) =~= none);
    assert(visited_all(reads, limit, none, two, open) == Ok::<Seq<int>, Seq<int>>(two));
    assert(visited_all(reads, limit, seq![a], one, open) == Ok::<Seq<int>, Seq<int>>(two));
    assert(visited_all(reads, limit, list, none, open) == Ok::<Seq<int>, Seq<int>>(two));
    assert(two.push(top) =~= seq![b, a, top]);
}

/// Whether each node of a chain but the last is bypassed and passes the next on through its
/// first pin, and the last is not bypassed.
pub open spec fn passes_on(nodes: Seq<GraphNode>, chain: Seq<int>) -> bool {
    &&& chain.len() > 0
    &&& forall|i: int|
        0 <= i < chain.len() ==> (#[trigger] placed(nodes, chain[i]) matches Some(at)
            && nodes[at].bypassed == (i < chain.len() - 1))
    &&& forall|i: int|
        0 <= i < chain.len() - 1 ==> {
            let pins = nodes[(#[trigger] placed(nodes, chain[i]))->0].inputs@;
            pins.len() > 0 && (pins[0] matches Some(next) && next.0 == chain[i + 1])
        }
}

/// What a node passes on is itself where it is not bypassed, and otherwise the node that
/// following first pins through bypassed ones leads to.
pub proof fn law_a_bypassed_node_passes_its_first_pin_on(nodes: Seq<GraphNode>, id: int)
    ensures
        passed_through(nodes, id, Seq::empty()) matches Some(source) ==> exists|chain: Seq<int>|
            #[trigger]
            passes_on(nodes, chain) && chain[0] == id && chain.last() == source,
        placed(nodes, id) matches Some(at) && !nodes[at].bypassed ==> passed_through(
            nodes,
            id,
            Seq::empty(),
        ) == Some(id),
        placed(nodes, id) is None ==> passed_through(nodes, id, Seq::empty()) is None,
        placed(nodes, id) matches Some(at) && nodes[at].bypassed && (nodes[at].inputs@.len() == 0
            || nodes[at].inputs@[0] is None) ==> passed_through(nodes, id, Seq::empty()) is None,
{
    if passed_through(nodes, id, Seq::empty()) is Some {
        lemma_passes_on(nodes, id, Seq::empty());
    }
}

proof fn lemma_passes_on(nodes: Seq<GraphNode>, id: int, seen: Seq<int>) -> (chain: Seq<int>)
    requires
        passed_through(nodes, id, seen) is Some,
    ensures
        passes_on(nodes, chain),
        chain[0] == id,
        chain.last() == passed_through(nodes, id, seen)->0,
    decreases all_ids() - seen.len(),
{
    let at = placed(nodes, id)->0;
    if !nodes[at].bypassed {
        let chain = seq![id];
        assert(passes_on(nodes, chain));
        chain
    } else {
        let first = nodes[at].inputs@[0]->0;
        let rest = lemma_passes_on(nodes, first.0 as int, seen.push(id));
        let chain = seq![id] + rest;
        assert forall|i: int| 0 <= i < chain.len() implies (#[trigger] placed(nodes, chain[i])
            matches Some(at) && nodes[at].bypassed == (i < chain.len() - 1)) by {
            if i > 0 {
                assert(chain[i] == rest[i - 1]);
                assert(placed(nodes, rest[i - 1]) is Some);
            }
        }
        assert forall|i: int| 0 <= i < chain.len() - 1 implies {
            let pins = nodes[(#[trigger] placed(nodes, chain[i]))->0].inputs@;
            pins.len() > 0 && (pins[0] matches Some(next) && next.0 == chain[i + 1])
        } by {
            if i > 0 {
                assert(chain[i] == rest[i - 1]);
                assert(chain[i + 1] == rest[i]);
                let pins = nodes[placed(nodes, rest[i - 1])->0].inputs@;
            } else {
                assert(chain[1] == rest[0]);
            }
        }
        assert(chain.last() == rest.last());
        chain
    }
}

/// The fields that an order of nodes reads are those that its nodes read that are not
/// bypassed.
pub proof fn law_a_field_is_read_by_a_node_in_force(
    nodes: Seq<GraphNode>,
    order: Seq<int>,
    name: Seq<char>,
)
    ensures
        read_along(nodes, order).contains(name) <==> exists|k: int|
            0 <= k < order.len() && (placed(nodes, #[trigger] order[k]) matches Some(at)
                && !nodes[at].bypassed && nodes[at].op.fields_read().contains(name)),
    decreases order.len(),
{
    if order.len() > 0 {
        let rest = order.drop_last();
        law_a_field_is_read_by_a_node_in_force(nodes, rest, name);
        let before = read_along(nodes, rest);
        let more: Seq<Seq<char>> = match placed(nodes, order.last()) {
            Some(i) => if nodes[i].bypassed {
                Seq::empty()
            } else {
                nodes[i].op.fields_read()
            },
            None => Seq::empty(),
        };
        let all = before + more;
        assert(read_along(nodes, order) == all);
        assert(all.contains(name) <==> before.contains(name) || more.contains(name)) by {
            if all.contains(name) {
                let k = choose|k: int| 0 <= k < all.len() && all[k] == name;
                if k < before.len() {
                    assert(before[k] == name);
                } else {
                    assert(more[k - before.len()] == name);
                }
            }
            if before.contains(name) {
                let k = choose|k: int| 0 <= k < before.len() && before[k] == name;
                assert(all[k] == name);
            }
            if more.contains(name) {
                let k = choose|k: int| 0 <= k < more.len() && more[k] == name;
                assert(all[before.len() + k] == name);
            }
        }
        if before.contains(name) {
            let k = choose|k: int|
                0 <= k < rest.len() && (placed(nodes, #[trigger] rest[k]) matches Some(at)
                    && !nodes[at].bypassed && nodes[at].op.fields_read().contains(name));
            assert(order[k] == rest[k]);
        }
        if more.contains(name) {
            assert(order[order.len() - 1] == order.last());
        }
        if exists|k: int|
            0 <= k < order.len() && (placed(nodes, #[trigger] order[k]) matches Some(at)
                && !nodes[at].bypassed && nodes[at].op.fields_read().contains(name)) {
            let k = choose|k: int|
                0 <= k < order.len() && (placed(nodes, #[trigger] order[k]) matches Some(at)
                    && !nodes[at].bypassed && nodes[at].op.fields_read().contains(name));
            if k < rest.len() {
                assert(rest[k] == order[k]);
            }
        }
    }
}

/// A node that references a field reads that field and has no pins; one that runs a shader
/// reads the fields its file names and has a pin for each input its file declares.
pub proof fn law_an_op_reads_what_it_names(op: NodeOp, i: int)
    ensures
        op matches NodeOp::FieldRef(id) ==> op.pins() == 0 && op.fields_read().len() == 1
            && op.fields_read()[0] == id@,
        op matches NodeOp::Shader(shader) ==> {
            &&& op.pins() == shader.inputs@.len()
            &&& op.fields_read().len() == shader.layers@.len()
            &&& 0 <= i < shader.layers@.len() ==> op.fields_read()[i] == shader.layers@[i]@
        },
{
}

/// A graph references the fields that its nodes reference that are not bypassed, and no
/// others.
pub proof fn law_a_graph_references_what_is_in_force(nodes: Seq<GraphNode>, name: Seq<char>)
    ensures
        referenced(nodes).contains(name) <==> exists|i: int|
            0 <= i < nodes.len() && !(#[trigger] nodes[i]).bypassed && (nodes[i].op matches
                NodeOp::FieldRef(id) && id@ == name),
    decreases nodes.len(),
{
    if nodes.len() > 0 {
        let rest = nodes.drop_last();
        let all = referenced(nodes);
        let before = referenced(rest);
        law_a_graph_references_what_is_in_force(rest, name);
        assert(nodes[nodes.len() - 1] == nodes.last());
        if before.contains(name) {
            let i = choose|i: int|
                0 <= i < rest.len() && !(#[trigger] rest[i]).bypassed && (rest[i].op matches
                    NodeOp::FieldRef(id) && id@ == name);
            assert(nodes[i] == rest[i]);
            let k = choose|k: int| 0 <= k < before.len() && before[k] == name;
            assert(all[k] == name);
        }
        if all.contains(name) && !before.contains(name) {
            let k = choose|k: int| 0 <= k < all.len() && all[k] == name;
            if k < before.len() {
                assert(before[k] == name);
            }
        }
        if exists|i: int|
            0 <= i < nodes.len() && !(#[trigger] nodes[i]).bypassed && (nodes[i].op matches
                NodeOp::FieldRef(id) && id@ == name) {
            let i = choose|i: int|
                0 <= i < nodes.len() && !(#[trigger] nodes[i]).bypassed && (nodes[i].op matches
                    NodeOp::FieldRef(id) && id@ == name);
            if i < rest.len() {
                assert(rest[i] == nodes[i]);
            } else {
                assert(all[all.len() - 1] == name);
            }
        }
    }
}

/// Whether one pin of a row is wired and no other.
pub open spec fn one_wire(pins: Seq<Option<NodeId>>, pin: int) -> bool {
    &&& 0 <= pin < pins.len()
    &&& pins[pin] is Some
    &&& forall|other: int|
        0 <= other < pins.len() && other != pin ==> (#[trigger] pins[other]) is None
}

proof fn lemma_no_wire(pins: Seq<Option<NodeId>>)
    requires
        forall|pin: int| 0 <= pin < pins.len() ==> (#[trigger] pins[pin]) is None,
    ensures
        connected(pins).len() == 0,
    decreases pins.len(),
{
    if pins.len() > 0 {
        let rest = pins.drop_last();
        assert forall|pin: int| 0 <= pin < rest.len() implies (#[trigger] rest[pin]) is None by {
            assert(rest[pin] == pins[pin]);
        }
        lemma_no_wire(rest);
        assert(pins[pins.len() - 1] == pins.last());
    }
}

proof fn lemma_one_wire(pins: Seq<Option<NodeId>>, pin: int)
    requires
        one_wire(pins, pin),
    ensures
        connected(pins) == seq![pins[pin].unwrap().0 as int],
    decreases pins.len(),
{
    let rest = pins.drop_last();
    assert(pins[pins.len() - 1] == pins.last());
    if pin == pins.len() - 1 {
        assert forall|p: int| 0 <= p < rest.len() implies (#[trigger] rest[p]) is None by {
            assert(rest[p] == pins[p]);
        }
        lemma_no_wire(rest);
        assert(connected(pins) =~= seq![pins[pin].unwrap().0 as int]);
    } else {
        assert(rest[pin] == pins[pin]);
        assert forall|p: int| 0 <= p < rest.len() && p != pin implies (#[trigger] rest[p])
            is None by {
            assert(rest[p] == pins[p]);
        }
        lemma_one_wire(rest, pin);
    }
}

proof fn lemma_two_wires(pins: Seq<Option<NodeId>>, pin: int, other: int)
    requires
        0 <= pin < other < pins.len(),
        pins[pin] is Some,
        pins[other] is Some,
    ensures
        connected(pins).len() >= 2,
    decreases pins.len(),
{
    let rest = pins.drop_last();
    if other < rest.len() {
        assert(rest[pin] == pins[pin] && rest[other] == pins[other]);
        lemma_two_wires(rest, pin, other);
    } else {
        assert(rest[pin] == pins[pin]);
        let id = pins[pin].unwrap().0 as int;
        law_a_node_is_read_where_a_pin_is_wired_to_it(rest, id);
        assert(rest[pin] matches Some(source) && source.0 == id);
        assert(connected(rest).contains(id));
        assert(pins.last() == pins[other]);
    }
}

/// A node with one wired pin and one reader is spliced out: what its pin is wired to takes
/// its place. One with no reader or several, or with no wired pin or several, is not.
pub proof fn law_a_node_in_a_chain_is_spliced_out(
    nodes: Seq<GraphNode>,
    at: int,
    pin: int,
    other: int,
)
    requires
        0 <= at < nodes.len(),
    ensures
        one_wire(nodes[at].inputs@, pin) && reading(nodes, nodes[at].id).len() == 1 ==> spliced(
            nodes,
            at,
        ) == nodes[at].inputs@[pin],
        reading(nodes, nodes[at].id).len() != 1 ==> spliced(nodes, at) is None,
        (forall|p: int| 0 <= p < nodes[at].inputs@.len() ==> (#[trigger] nodes[at].inputs@[p])
            is None) ==> spliced(nodes, at) is None,
        0 <= pin < other < nodes[at].inputs@.len() && nodes[at].inputs@[pin] is Some
            && nodes[at].inputs@[other] is Some ==> spliced(nodes, at) is None,
{
    let pins = nodes[at].inputs@;
    if 0 <= pin < other < pins.len() && pins[pin] is Some && pins[other] is Some {
        lemma_two_wires(pins, pin, other);
    }
    if one_wire(pins, pin) {
        lemma_one_wire(pins, pin);
    }
    if forall|p: int| 0 <= p < pins.len() ==> (#[trigger] pins[p]) is None {
        lemma_no_wire(pins);
    }
}

/// The readers of a node are the nodes with a pin wired to it, each once and in order.
pub proof fn law_a_reader_has_a_pin_wired_to_the_node(
    nodes: Seq<GraphNode>,
    node: GraphNode,
    id: NodeId,
)
    ensures
        (exists|pin: int| 0 <= pin < node.inputs@.len() && #[trigger] node.inputs@[pin] == Some(id))
            ==> reading(nodes.push(node), id) == reading(nodes, id).push(node.id.0 as int),
        (forall|pin: int| 0 <= pin < node.inputs@.len() ==> #[trigger] node.inputs@[pin] != Some(id))
            ==> reading(nodes.push(node), id) == reading(nodes, id),
        reading(Seq::<GraphNode>::empty(), id).len() == 0,
{
    let all = nodes.push(node);
    assert(all.drop_last() =~= nodes);
    law_a_node_is_read_where_a_pin_is_wired_to_it(node.inputs@, id.0 as int);
    if exists|pin: int|
        0 <= pin < node.inputs@.len() && #[trigger] node.inputs@[pin] == Some(id) {
        let pin = choose|pin: int|
            0 <= pin < node.inputs@.len() && #[trigger] node.inputs@[pin] == Some(id);
        assert(node.inputs@[pin] matches Some(other) && other.0 == id.0);
    }
    if reads_id(node, id) {
        let pin = choose|pin: int|
            0 <= pin < node.inputs@.len() && (#[trigger] node.inputs@[pin] matches Some(other)
                && other.0 == id.0);
        assert(node.inputs@[pin] == Some(id));
    }
}

proof fn lemma_kept(nodes: Seq<GraphNode>, id: NodeId, i: int) -> (k: int)
    requires
        0 <= i < nodes.len(),
        nodes[i].id != id,
    ensures
        0 <= k < nodes.filter(other_than(id)).len(),
        nodes.filter(other_than(id))[k] == nodes[i],
    decreases nodes.len(),
{
    reveal(Seq::filter);
    let rest = nodes.drop_last();
    let kept = nodes.filter(other_than(id));
    if i == nodes.len() - 1 {
        kept.len() - 1
    } else {
        assert(rest[i] == nodes[i]);
        lemma_kept(rest, id, i)
    }
}

/// Once a node is gone every other one is still there as it was, but that a pin that was wired
/// to it is wired to what was spliced in, or to nothing.
pub proof fn law_the_others_are_rewired_past_a_removed_node(
    before: Seq<GraphNode>,
    after: Seq<GraphNode>,
    id: NodeId,
    splice: Option<NodeId>,
    i: int,
)
    requires
        removed(before, after, id, splice),
        0 <= i < before.len(),
        before[i].id != id,
    ensures
        exists|k: int|
            0 <= k < after.len() && {
                let node = #[trigger] after[k];
                &&& node.id == before[i].id
                &&& node.name == before[i].name
                &&& node.op == before[i].op
                &&& node.bypassed == before[i].bypassed
                &&& node.position == before[i].position
                &&& node.inputs@.len() == before[i].inputs@.len()
                &&& forall|pin: int|
                    0 <= pin < node.inputs@.len() ==> {
                        &&& before[i].inputs@[pin] == Some(id) ==> #[trigger] node.inputs@[pin]
                            == splice
                        &&& before[i].inputs@[pin] != Some(id) ==> node.inputs@[pin]
                            == before[i].inputs@[pin]
                    }
            },
{
    let k = lemma_kept(before, id, i);
    let node = after[k];
    assert(node.inputs@ == repointed_all(before[i].inputs@, id, splice));
}

/// A name is the path of a node where it is an `n` and digits after it, as every node's path
/// is, and not where anything else stands in it or nothing follows the `n`.
pub proof fn law_the_path_of_a_node_is_no_name(id: nat, name: Seq<char>, i: int)
    ensures
        id_path(seq!['n'] + decimal(id)),
        1 <= i < name.len() && !('0' <= name[i] <= '9') ==> !id_path(name),
        name.len() > 0 && name[0] != 'n' ==> !id_path(name),
        name.len() < 2 ==> !id_path(name),
{
    law_a_number_in_decimal_reads_back(id);
    let path = seq!['n'] + decimal(id);
    assert forall|k: int| 1 <= k < path.len() implies digit_char(#[trigger] path[k]) by {
        assert(path[k] == decimal(id)[k - 1]);
    }
    if 1 <= i < name.len() && id_path(name) {
        assert(digit_char(name[i]));
    }
}

/// A chain of sums added to a graph holds each op once, in order, and adds each after the
/// first to what came before it; the graph is read from the last sum, and what it had stays.
pub proof fn law_a_chain_sums_its_ops_in_order(
    before: FieldGraph,
    after: FieldGraph,
    ops: Seq<NodeOp>,
    add: NodeOp,
    i: int,
)
    requires
        chained_on(before, after, ops, add),
        1 <= i < ops.len(),
        before.next_id + 2 * ops.len() <= u32::MAX,
    ensures
        ({
            let count = before.nodes@.len() as int;
            let first = before.next_id as int;
            let op = after.nodes@[count + 2 * i - 1];
            let sum = after.nodes@[count + 2 * i];
            &&& after.nodes@.take(count) == before.nodes@
            &&& after.nodes@[count].op == ops[0]
            &&& after.nodes@[count].id.0 == first
            &&& op.op == ops[i]
            &&& op.id.0 == first + 2 * i - 1
            &&& sum.id.0 == first + 2 * i
            &&& sum.inputs@.len() == 2
            &&& sum.inputs@[0] matches Some(earlier) && earlier.0 == first + 2 * i - 2
            &&& sum.inputs@[1] matches Some(added) && added.0 == op.id.0
            &&& after.output matches Some(output) && output.0 == first + 2 * (ops.len() - 1)
        }),
{
    let count = before.nodes@.len() as int;
    let first = before.next_id as int;
    assert(crate::field::chain_node(after.nodes@[count + 0], 0, first, ops, add));
    assert(crate::field::chain_node(after.nodes@[count + (2 * i - 1)], 2 * i - 1, first, ops, add));
    assert(crate::field::chain_node(after.nodes@[count + 2 * i], 2 * i, first, ops, add));
    assert((2 * i - 1) % 2 == 1);
    assert((2 * i) % 2 == 0);
    assert((2 * i - 1 + 1) / 2 == i);
}

/// A copy of what was authored of a node has its id, its name, its wires, its place and
/// whether it is bypassed, and what its op was authored with, without the values.
pub proof fn law_a_copy_keeps_what_was_authored(from: GraphNode, to: GraphNode)
    requires
        authored_node(from, to),
    ensures
        to.id == from.id,
        to.inputs@ == from.inputs@,
        to.bypassed == from.bypassed,
        to.position == from.position,
        from.name is Some <==> to.name is Some,
        from.name is Some ==> to.name->0@ == from.name->0@,
        from.op is Shader <==> to.op is Shader,
        from.op matches NodeOp::Shader(old) ==> {
            let new = to.op->Shader_0;
            &&& new.file@ == old.file@
            &&& new.params@ == old.params@
            &&& new.inputs@.len() == old.inputs@.len()
            &&& new.layers@ == old.layers@
            &&& new.stamp is None
            &&& new.values.data@.len() == 0
        },
        from.op matches NodeOp::FieldRef(old) ==> to.op->FieldRef_0@ == old@,
{
    if let NodeOp::Shader(old) = from.op {
        let new = to.op->Shader_0;
        assert(crate::layer::texts_view(new.inputs@).len() == crate::layer::texts_view(
            old.inputs@,
        ).len());
    }
}

/// A wire that is drawn goes from the node it starts at to the pin it ends at, and every other
/// pin and every other node stays as it was; one that is refused changes nothing.
pub proof fn law_a_wire_goes_to_the_pin_it_names(
    before: FieldGraph,
    after: FieldGraph,
    from: NodeId,
    to: NodeId,
    pin: usize,
    at: int,
)
    requires
        edited(before, after, GraphEdit::Connect { from, to, pin }),
        placed(before.nodes@, to.0 as int) == Some(at),
    ensures
        after.nodes@.len() == before.nodes@.len(),
        after.output == before.output,
        forall|i: int|
            0 <= i < before.nodes@.len() && i != at ==> #[trigger] after.nodes@[i]
                == before.nodes@[i],
        after == before || (pin < before.nodes@[at].inputs@.len() && after.nodes@[at].inputs@[
            pin as int
        ] == Some(from) && after.nodes@[at].inputs@.len() == before.nodes@[at].inputs@.len()
            && forall|p: int|
            0 <= p < before.nodes@[at].inputs@.len() && p != pin ==> #[trigger] after.nodes@[
                at
            ].inputs@[p] == before.nodes@[at].inputs@[p]),
        after == before ==> placed(before.nodes@, from.0 as int) is None || pin
            >= before.nodes@[at].inputs@.len() || from == to || leads(
            wired(before.nodes@),
            from.0 as int,
            to.0 as int,
        ) || before.nodes@[at].inputs@[pin as int] == Some(from),
{
    lemma_placed(before.nodes@, to.0 as int, 0);
}

/// A pin that is cleared is wired to nothing, and every other pin and every other node stays
/// as it was.
pub proof fn law_a_cleared_pin_is_wired_to_nothing(
    before: FieldGraph,
    after: FieldGraph,
    to: NodeId,
    pin: usize,
    at: int,
)
    requires
        edited(before, after, GraphEdit::Disconnect { to, pin }),
        placed(before.nodes@, to.0 as int) == Some(at),
        pin < before.nodes@[at].inputs@.len(),
    ensures
        after.nodes@.len() == before.nodes@.len(),
        after.nodes@[at].inputs@[pin as int] is None,
        forall|p: int|
            0 <= p < before.nodes@[at].inputs@.len() && p != pin ==> #[trigger] after.nodes@[
                at
            ].inputs@[p] == before.nodes@[at].inputs@[p],
        forall|i: int|
            0 <= i < before.nodes@.len() && i != at ==> #[trigger] after.nodes@[i]
                == before.nodes@[i],
        after.output == before.output,
{
    lemma_placed(before.nodes@, to.0 as int, 0);
}

/// A node that is added comes last with an id of its own and no wires, and is read from where
/// nothing was; a node that is bypassed or no longer bypassed changes in that alone.
pub proof fn law_an_edit_does_what_it_names(
    before: FieldGraph,
    added: FieldGraph,
    op: NodeOp,
    position: (Single, Single),
    bypassing: FieldGraph,
    id: NodeId,
    bypassed: bool,
    at: int,
)
    requires
        edited(before, added, GraphEdit::Add { op, position }),
        edited(before, bypassing, GraphEdit::Bypass { id, bypassed }),
        placed(before.nodes@, id.0 as int) == Some(at),
    ensures
        added.nodes@.len() == before.nodes@.len() + 1,
        forall|i: int|
            0 <= i < before.nodes@.len() ==> #[trigger] added.nodes@[i] == before.nodes@[i],
        added.nodes@[before.nodes@.len() as int].op == op,
        added.nodes@[before.nodes@.len() as int].position == position,
        added.nodes@[before.nodes@.len() as int].id.0 == before.next_id,
        !added.nodes@[before.nodes@.len() as int].bypassed,
        forall|p: int|
            0 <= p < added.nodes@[before.nodes@.len() as int].inputs@.len() ==> (
            #[trigger] added.nodes@[before.nodes@.len() as int].inputs@[p]) is None,
        before.output is Some ==> added.output == before.output,
        before.output is None ==> (added.output matches Some(output) && output.0
            == before.next_id),
        bypassing.nodes@[at].bypassed == bypassed,
        bypassing.nodes@[at].inputs@ == before.nodes@[at].inputs@,
        forall|i: int|
            0 <= i < before.nodes@.len() && i != at ==> #[trigger] bypassing.nodes@[i]
                == before.nodes@[i],
        bypassing.output == before.output,
{
    lemma_placed(before.nodes@, id.0 as int, 0);
    let nodes = before.nodes@;
    assert(added.nodes@ == nodes.push(added.nodes@.last()));
    assert forall|i: int| 0 <= i < nodes.len() implies #[trigger] added.nodes@[i] == nodes[i] by {
        assert(nodes.push(added.nodes@.last())[i] == nodes[i]);
    }
}

/// The output of a graph whose output is gone passes to what was spliced in, else to what the
/// gone node read first where nothing else reads that, else to the newest node that nothing
/// reads.
pub proof fn law_the_output_passes_to_the_nearest_heir(
    nodes: Seq<GraphNode>,
    splice: Option<NodeId>,
    first: Option<NodeId>,
    heir: Option<NodeId>,
    i: int,
)
    requires
        inherits(nodes, splice, first, heir),
        0 <= i < nodes.len(),
    ensures
        heir is Some,
        splice == Some(nodes[i].id) ==> heir == splice,
        splice is None && first == Some(nodes[i].id) && unread(nodes, nodes[i].id) ==> heir
            == first,
        splice is None && first is None && unread(nodes, nodes[i].id) ==> heir.unwrap().0
            >= nodes[i].id.0 && unread(nodes, heir->0),
        splice is None && first is None && (forall|k: int|
            0 <= k < nodes.len() ==> !unread(nodes, (#[trigger] nodes[k]).id))
            ==> heir.unwrap().0 >= nodes[i].id.0,
{
    lemma_placed(nodes, nodes[i].id.0 as int, 0);
    assert(held(nodes, nodes[i].id));
}

/// Nothing reads a node exactly where no pin is wired to it.
pub proof fn law_a_node_is_unread_where_no_pin_is_wired_to_it(nodes: Seq<GraphNode>, id: NodeId)
    ensures
        no_reader(nodes, id) == unread(nodes, id),
{
    if no_reader(nodes, id) {
        assert forall|k: int| 0 <= k < nodes.len() implies !reads_id(#[trigger] nodes[k], id) by {
            law_a_node_is_read_where_a_pin_is_wired_to_it(nodes[k].inputs@, id.0 as int);
            if reads_id(nodes[k], id) {
                let pin = choose|pin: int|
                    0 <= pin < nodes[k].inputs@.len() && (#[trigger] nodes[k].inputs@[pin]
                        matches Some(other) && other.0 == id.0);
                assert(nodes[k].inputs@[pin] == Some(id));
            }
        }
    }
    if unread(nodes, id) {
        assert forall|k: int, pin: int|
            0 <= k < nodes.len() && 0 <= pin < nodes[k].inputs@.len() implies (
        #[trigger] nodes[k].inputs@[pin]) != Some(id) by {
            law_a_node_is_read_where_a_pin_is_wired_to_it(nodes[k].inputs@, id.0 as int);
            assert(!reads_id(nodes[k], id));
            if nodes[k].inputs@[pin] == Some(id) {
                assert(nodes[k].inputs@[pin] matches Some(other) && other.0 == id.0);
            }
        }
    }
}

/// Whether no pin of any node is wired to an id.
pub open spec fn no_reader(nodes: Seq<GraphNode>, id: NodeId) -> bool {
    forall|k: int, pin: int|
        0 <= k < nodes.len() && 0 <= pin < nodes[k].inputs@.len() ==> (
        #[trigger] nodes[k].inputs@[pin]) != Some(id)
}

/// A name is taken exactly where another node carries it.
pub proof fn law_a_name_is_taken_by_another_node(
    nodes: Seq<GraphNode>,
    id: NodeId,
    name: Seq<char>,
    i: int,
)
    requires
        0 <= i < nodes.len(),
    ensures
        nodes[i].id != id && (nodes[i].name matches Some(called) && called@ == name) ==> name_taken(
            nodes,
            id,
            name,
        ),
        (forall|k: int|
            0 <= k < nodes.len() && (#[trigger] nodes[k]).id != id ==> !(nodes[k].name matches Some(
                called,
            ) && called@ == name)) ==> !name_taken(nodes, id, name),
{
    if nodes[i].id != id && (nodes[i].name matches Some(called) && called@ == name) {
        assert(crate::graph_edit::carries(nodes[i], id, name));
    }
}

} // verus!
