//! What holds of a graph after any sequence of edits.

use vstd::prelude::*;
use crate::graph::{
    connected, evaluated, lemma_placed, placed, wired, FieldGraph, GraphNode, NodeId, NodeOp,
};
use crate::graph_edit::repinned;
use crate::graph_laws::{
    acyclic, law_a_graph_without_a_circle_evaluates, law_connecting_makes_no_circle,
    law_disconnecting_makes_no_circle, law_ids_are_never_reused, law_removing_makes_no_circle,
    lemma_acyclic_carries, lemma_connected, lemma_one_reading, lemma_placed_push, is_wired_to,
    leads_on,
};
use crate::graph_remove::{inherits, removed, spliced};
use crate::order::{leads, reads_one};
use crate::single::Single;

verus! {

/// One edit to a graph, with what it was asked for.
pub enum GraphEdit {
    /// [`FieldGraph::add_node`].
    Add { op: NodeOp, position: (Single, Single) },
    /// [`FieldGraph::connect`].
    Connect { from: NodeId, to: NodeId, pin: usize },
    /// [`FieldGraph::disconnect`].
    Disconnect { to: NodeId, pin: usize },
    /// [`FieldGraph::set_bypassed`].
    Bypass { id: NodeId, bypassed: bool },
    /// [`FieldGraph::set_output`].
    Output { output: Option<NodeId> },
    /// [`FieldGraph::remove_node`].
    Remove { id: NodeId },
}

/// Whether a node is what an op is added as: with every pin empty, and neither named nor
/// bypassed.
pub open spec fn is_fresh(
    node: GraphNode,
    id: NodeId,
    op: NodeOp,
    position: (Single, Single),
) -> bool {
    &&& node.id == id
    &&& node.name is None
    &&& node.op == op
    &&& node.inputs@ == Seq::new(op.pins(), |i: int| None::<NodeId>)
    &&& !node.bypassed
    &&& node.position == position
}

/// Whether `after` is what an edit leaves of `before`, whether it was refused or not.
pub open spec fn edited(before: FieldGraph, after: FieldGraph, edit: GraphEdit) -> bool {
    let nodes = before.nodes@;
    match edit {
        GraphEdit::Add { op, position } => {
            &&& after.next_id == before.next_id + 1
            &&& after.output == (match before.output {
                Some(output) => Some(output),
                None => Some(NodeId(before.next_id)),
            })
            &&& after.nodes@ == nodes.push(after.nodes@.last())
            &&& is_fresh(after.nodes@.last(), NodeId(before.next_id), op, position)
        },
        GraphEdit::Connect { from, to, pin } => {
            let target = placed(nodes, to.0 as int);
            if placed(nodes, from.0 as int) is None || target is None || pin
                >= nodes[target->0].inputs@.len() || from == to || leads(
                wired(nodes),
                from.0 as int,
                to.0 as int,
            ) {
                after == before
            } else {
                repinned(
                    before,
                    after,
                    target->0,
                    nodes[target->0].inputs@.update(pin as int, Some(from)),
                )
            }
        },
        GraphEdit::Disconnect { to, pin } => {
            let target = placed(nodes, to.0 as int);
            if target is None || pin >= nodes[target->0].inputs@.len() {
                after == before
            } else {
                repinned(
                    before,
                    after,
                    target->0,
                    nodes[target->0].inputs@.update(pin as int, None),
                )
            }
        },
        GraphEdit::Bypass { id, bypassed } => match placed(nodes, id.0 as int) {
            None => after == before,
            Some(at) => {
                &&& after.output == before.output
                &&& after.next_id == before.next_id
                &&& after.nodes@ == nodes.update(at, GraphNode { bypassed, ..nodes[at] })
            },
        },
        GraphEdit::Output { output } => match output {
            Some(node) if placed(nodes, node.0 as int) is None => after == before,
            _ => after == (FieldGraph { output, ..before }),
        },
        GraphEdit::Remove { id } => match placed(nodes, id.0 as int) {
            None => after == before,
            Some(at) => {
                let pins = nodes[at].inputs@;
                &&& after.next_id == before.next_id
                &&& removed(nodes, after.nodes@, id, spliced(nodes, at))
                &&& if before.output == Some(id) {
                    inherits(
                        after.nodes@,
                        spliced(nodes, at),
                        if pins.len() > 0 {
                            pins[0]
                        } else {
                            None
                        },
                        after.output,
                    )
                } else {
                    after.output == before.output
                }
            },
        },
    }
}

/// Whether a graph is what [`FieldGraph::new`] gives.
pub open spec fn is_new(graph: FieldGraph) -> bool {
    graph.nodes@.len() == 0 && graph.output is None && graph.next_id == 0
}

/// Whether graphs are those that edits made one after another, starting from a new graph,
/// leave behind.
pub open spec fn is_history(graphs: Seq<FieldGraph>, edits: Seq<GraphEdit>) -> bool {
    &&& graphs.len() == edits.len() + 1
    &&& is_new(graphs[0])
    &&& forall|i: int|
        0 <= i < edits.len() ==> edited(graphs[i], graphs[i + 1], #[trigger] edits[i])
}

/// Whether nodes are the same but for which of them are bypassed.
pub open spec fn same_but_bypass(a: Seq<GraphNode>, b: Seq<GraphNode>) -> bool {
    &&& a.len() == b.len()
    &&& forall|i: int|
        0 <= i < a.len() ==> (#[trigger] b[i]).id == a[i].id && b[i].inputs@ == a[i].inputs@
}

proof fn lemma_bypass_places(a: Seq<GraphNode>, b: Seq<GraphNode>, x: int, from: int)
    requires
        same_but_bypass(a, b),
        0 <= from,
    ensures
        crate::graph::placed_from(a, x, from) == crate::graph::placed_from(b, x, from),
    decreases a.len() - from,
{
    if from < a.len() {
        assert(b[from].id == a[from].id);
        lemma_bypass_places(a, b, x, from + 1);
    }
}

/// Bypassing changes nothing that is wired.
proof fn lemma_bypass_keeps_wires(a: Seq<GraphNode>, b: Seq<GraphNode>)
    requires
        same_but_bypass(a, b),
        acyclic(wired(a)),
    ensures
        acyclic(wired(b)),
{
    assert forall|x: int, y: int| #[trigger] reads_one(wired(b), x, y) implies leads_on(
        wired(a),
        x,
        y,
    ) by {
        lemma_bypass_places(a, b, x, 0);
        lemma_placed(a, x, 0);
        let i = placed(a, x)->0;
        assert(b[i].inputs@ == a[i].inputs@);
        assert(reads_one(wired(a), x, y));
        lemma_one_reading(wired(a), x, y);
    }
    lemma_acyclic_carries(wired(b), wired(a));
}

/// A fresh node reads nothing.
proof fn lemma_adding_keeps_wires(nodes: Seq<GraphNode>, node: GraphNode)
    requires
        forall|p: int| 0 <= p < node.inputs@.len() ==> (#[trigger] node.inputs@[p]) is None,
        acyclic(wired(nodes)),
    ensures
        acyclic(wired(nodes.push(node))),
{
    let more = nodes.push(node);
    assert forall|x: int, y: int| #[trigger] reads_one(wired(more), x, y) implies leads_on(
        wired(nodes),
        x,
        y,
    ) by {
        lemma_placed_push(nodes, node, x);
        lemma_placed(nodes, x, 0);
        if placed(nodes, x) is None {
            lemma_connected(node.inputs@, y);
            assert(connected(node.inputs@).contains(y));
            let p = choose|p: int|
                0 <= p < node.inputs@.len() && is_wired_to(#[trigger] node.inputs@[p], y);
            assert(node.inputs@[p] is None);
        }
        assert(reads_one(wired(nodes), x, y));
        lemma_one_reading(wired(nodes), x, y);
    }
    lemma_acyclic_carries(wired(more), wired(nodes));
}

/// No edit to a graph without a circle makes one, whether it is refused or not.
pub proof fn law_an_edit_makes_no_circle(before: FieldGraph, after: FieldGraph, edit: GraphEdit)
    requires
        acyclic(wired(before.nodes@)),
        edited(before, after, edit),
    ensures
        acyclic(wired(after.nodes@)),
{
    let nodes = before.nodes@;
    match edit {
        GraphEdit::Add { op, position } => {
            lemma_adding_keeps_wires(nodes, after.nodes@.last());
        },
        GraphEdit::Connect { from, to, pin } => {
            if after != before {
                law_connecting_makes_no_circle(before, after, from, to, pin as int);
            }
        },
        GraphEdit::Disconnect { to, pin } => {
            if after != before {
                law_disconnecting_makes_no_circle(before, after, to, pin as int);
            }
        },
        GraphEdit::Bypass { id, bypassed } => {
            lemma_placed(nodes, id.0 as int, 0);
            lemma_bypass_keeps_wires(nodes, after.nodes@);
        },
        GraphEdit::Output { output } => {},
        GraphEdit::Remove { id } => {
            if placed(nodes, id.0 as int) is Some {
                law_removing_makes_no_circle(nodes, after.nodes@, id);
            }
        },
    }
}

/// Every edit to a well-formed graph leaves it well formed.
pub proof fn law_an_edit_keeps_a_graph_well_formed(
    before: FieldGraph,
    after: FieldGraph,
    edit: GraphEdit,
)
    requires
        before.wf(),
        edited(before, after, edit),
    ensures
        after.wf(),
{
    let nodes = before.nodes@;
    match edit {
        GraphEdit::Remove { id } => {
            if placed(nodes, id.0 as int) is Some {
                law_ids_are_never_reused(before, after, id);
            }
        },
        GraphEdit::Output { output } => {},
        GraphEdit::Add { op, position } => {
            assert forall|i: int| 0 <= i < after.nodes@.len() implies (
            #[trigger] after.nodes@[i]).id.0 < after.next_id by {
                if i < nodes.len() {
                    assert(after.nodes@[i] == nodes[i]);
                }
            }
            assert forall|i: int, p: int|
                0 <= i < after.nodes@.len() && 0 <= p
                    < after.nodes@[i].inputs@.len() implies match (
            #[trigger] after.nodes@[i].inputs@[p]) {
                Some(source) => source.0 < after.next_id,
                None => true,
            } by {
                if i < nodes.len() {
                    assert(after.nodes@[i] == nodes[i]);
                }
            }
            assert forall|i: int, j: int| 0 <= i < j < after.nodes@.len() implies (
            #[trigger] after.nodes@[i]).id != (#[trigger] after.nodes@[j]).id by {
                assert(after.nodes@[i] == nodes[i]);
                if j < nodes.len() {
                    assert(after.nodes@[j] == nodes[j]);
                }
            }
        },
        _ => {
            let (named, source): (NodeId, Option<NodeId>) = match edit {
                GraphEdit::Connect { from, to, pin } => (to, Some(from)),
                GraphEdit::Disconnect { to, pin } => (to, None),
                GraphEdit::Bypass { id, bypassed } => (id, None),
                _ => (NodeId(0), None),
            };
            if after != before {
                lemma_placed(nodes, named.0 as int, 0);
                let at = placed(nodes, named.0 as int)->0;
                if let Some(from) = source {
                    lemma_placed(nodes, from.0 as int, 0);
                    assert(nodes[placed(nodes, from.0 as int)->0].id.0 < before.next_id);
                }
                assert forall|i: int| 0 <= i < nodes.len() implies (
                #[trigger] after.nodes@[i]).id == nodes[i].id by {
                    if i != at {
                        assert(after.nodes@[i] == nodes[i]);
                    }
                }
                assert forall|i: int, p: int|
                    0 <= i < after.nodes@.len() && 0 <= p
                        < after.nodes@[i].inputs@.len() implies match (
                #[trigger] after.nodes@[i].inputs@[p]) {
                    Some(source) => source.0 < after.next_id,
                    None => true,
                } by {
                    if i != at {
                        assert(after.nodes@[i] == nodes[i]);
                    }
                    assert(after.nodes@[i].inputs@.len() == nodes[i].inputs@.len());
                    assert(match nodes[i].inputs@[p] {
                        Some(source) => source.0 < before.next_id,
                        None => true,
                    });
                }
                assert forall|i: int, j: int| 0 <= i < j < after.nodes@.len() implies (
                #[trigger] after.nodes@[i]).id != (#[trigger] after.nodes@[j]).id by {
                    assert(nodes[i].id != nodes[j].id);
                }
            }
        },
    }
}

/// However a graph was made out of a new one by adding, connecting, disconnecting,
/// bypassing, choosing an output and removing, it is well formed, no chain of its wires leads
/// from a node back to itself, bypassed or not, and it has an evaluation order from any
/// output, whichever of its nodes are bypassed.
pub proof fn law_no_sequence_of_edits_makes_a_circle(
    graphs: Seq<FieldGraph>,
    edits: Seq<GraphEdit>,
    at: int,
)
    requires
        is_history(graphs, edits),
        0 <= at < graphs.len(),
    ensures
        graphs[at].wf(),
        acyclic(wired(graphs[at].nodes@)),
        forall|nodes: Seq<GraphNode>, output: NodeId|
            same_but_bypass(graphs[at].nodes@, nodes) ==> #[trigger] evaluated(nodes, output) is Ok,
    decreases at,
{
    if at == 0 {
        let reads = wired(graphs[0].nodes@);
        assert forall|circle: Seq<int>| !#[trigger] crate::order::is_circle(reads, circle) by {
            if crate::order::is_circle(reads, circle) {
                assert(reads_one(reads, circle[0], circle[1]));
                lemma_placed(graphs[0].nodes@, circle[0], 0);
            }
        }
    } else {
        law_no_sequence_of_edits_makes_a_circle(graphs, edits, at - 1);
        let edit = edits[at - 1];
        assert(edited(graphs[at - 1], graphs[at - 1 + 1], edit));
        law_an_edit_makes_no_circle(graphs[at - 1], graphs[at], edit);
        law_an_edit_keeps_a_graph_well_formed(graphs[at - 1], graphs[at], edit);
    }
    assert forall|nodes: Seq<GraphNode>, output: NodeId|
        same_but_bypass(graphs[at].nodes@, nodes) implies #[trigger] evaluated(
        nodes,
        output,
    ) is Ok by {
        lemma_bypass_keeps_wires(graphs[at].nodes@, nodes);
        law_a_graph_without_a_circle_evaluates(nodes, output);
    }
}

} // verus!
