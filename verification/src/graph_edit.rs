//! Edits to a field's graph.

use vstd::prelude::*;
use crate::graph::{
    connected, evaluated, id_path, ids_view, is_id_path, lemma_placed, numbers_of, placed, wired,
    FieldGraph, GraphError, GraphNode, NodeId, NodeOp,
};
use crate::graph_history::{edited, law_an_edit_keeps_a_graph_well_formed, GraphEdit};
use crate::layout::same_text;
use crate::names::FieldId;
use crate::order::{leads, leads_by, reads_one};
use crate::single::Single;

verus! {

/// Whether two nodes are the same but for their pins.
pub open spec fn same_but_pins(a: GraphNode, b: GraphNode) -> bool {
    a.id == b.id && a.name == b.name && a.op == b.op && a.bypassed == b.bypassed && a.position
        == b.position
}

/// Whether `after` is `before` with the pins of one node replaced.
pub open spec fn repinned(
    before: FieldGraph,
    after: FieldGraph,
    at: int,
    pins: Seq<Option<NodeId>>,
) -> bool {
    &&& after.output == before.output
    &&& after.next_id == before.next_id
    &&& after.nodes@ == before.nodes@.update(at, after.nodes@[at])
    &&& same_but_pins(before.nodes@[at], after.nodes@[at])
    &&& after.nodes@[at].inputs@ == pins
}

impl FieldGraph {
    /// Writes one input pin, replacing whatever was on it.
    ///
    /// Refused, leaving the graph unchanged, if either node is unknown, if the pin is past
    /// the target's arity, or if the edge would close a cycle. The cycle check reads every
    /// edge, bypassed or not, so un-bypassing a node can never produce a graph that will
    /// not plan.
    pub fn connect(&mut self, from: NodeId, to: NodeId, pin: usize) -> (answer: Result<
        (),
        GraphError,
    >)
        ensures
            ({
                let nodes = old(self).nodes@;
                let target = placed(nodes, to.0 as int);
                if placed(nodes, from.0 as int) is None {
                    answer == Err::<(), GraphError>(GraphError::UnknownNode(from)) && *final(self)
                        == *old(self)
                } else if target is None {
                    answer == Err::<(), GraphError>(GraphError::UnknownNode(to)) && *final(self)
                        == *old(self)
                } else if pin >= nodes[target->0].inputs@.len() {
                    answer == Err::<(), GraphError>(
                        GraphError::PinOutOfRange {
                            node: to,
                            pin,
                            arity: nodes[target->0].inputs@.len() as usize,
                        },
                    ) && *final(self) == *old(self)
                } else if from == to || leads(wired(nodes), from.0 as int, to.0 as int) {
                    answer == Err::<(), GraphError>(GraphError::WouldCycle { from, to })
                        && *final(self) == *old(self)
                } else {
                    answer is Ok && repinned(
                        *old(self),
                        *final(self),
                        target->0,
                        nodes[target->0].inputs@.update(pin as int, Some(from)),
                    )
                }
            }),
            edited(*old(self), *final(self), GraphEdit::Connect { from, to, pin }),
    {
        if self.index_of(from).is_none() {
            return Err(GraphError::UnknownNode(from));
        }
        let at: usize = match self.index_of(to) {
            Some(at) => at,
            None => {
                return Err(GraphError::UnknownNode(to));
            },
        };
        let arity: usize = self.nodes[at].inputs.len();
        if pin >= arity {
            return Err(GraphError::PinOutOfRange { node: to, pin, arity });
        }
        if from == to || self.reaches(from, to) {
            return Err(GraphError::WouldCycle { from, to });
        }
        self.nodes[at].inputs.set(pin, Some(from));
        Ok(())
    }

    /// Clears one input pin, which then reads zero.
    pub fn disconnect(&mut self, to: NodeId, pin: usize) -> (answer: Result<(), GraphError>)
        ensures
            ({
                let nodes = old(self).nodes@;
                let target = placed(nodes, to.0 as int);
                if target is None {
                    answer == Err::<(), GraphError>(GraphError::UnknownNode(to)) && *final(self)
                        == *old(self)
                } else if pin >= nodes[target->0].inputs@.len() {
                    answer == Err::<(), GraphError>(
                        GraphError::PinOutOfRange {
                            node: to,
                            pin,
                            arity: nodes[target->0].inputs@.len() as usize,
                        },
                    ) && *final(self) == *old(self)
                } else {
                    answer is Ok && repinned(
                        *old(self),
                        *final(self),
                        target->0,
                        nodes[target->0].inputs@.update(pin as int, None),
                    )
                }
            }),
            edited(*old(self), *final(self), GraphEdit::Disconnect { to, pin }),
    {
        let at: usize = match self.index_of(to) {
            Some(at) => at,
            None => {
                return Err(GraphError::UnknownNode(to));
            },
        };
        let arity: usize = self.nodes[at].inputs.len();
        if pin >= arity {
            return Err(GraphError::PinOutOfRange { node: to, pin, arity });
        }
        self.nodes[at].inputs.set(pin, None);
        Ok(())
    }

    /// Sets whether a node is bypassed.
    pub fn set_bypassed(&mut self, id: NodeId, bypassed: bool) -> (answer: Result<(), GraphError>)
        ensures
            match placed(old(self).nodes@, id.0 as int) {
                None => answer == Err::<(), GraphError>(GraphError::UnknownNode(id))
                    && *final(self) == *old(self),
                Some(at) => answer is Ok && final(self).output == old(self).output && final(self).next_id == old(self).next_id && final(self).nodes@ == old(self).nodes@.update(
                    at,
                    GraphNode { bypassed, ..old(self).nodes@[at] },
                ),
            },
            edited(*old(self), *final(self), GraphEdit::Bypass { id, bypassed }),
    {
        match self.index_of(id) {
            Some(at) => {
                self.nodes[at].bypassed = bypassed;
                Ok(())
            },
            None => Err(GraphError::UnknownNode(id)),
        }
    }

    /// Writes a node's canvas position and nothing else.
    pub fn place(&mut self, id: NodeId, position: (Single, Single)) -> (answer: Result<
        (),
        GraphError,
    >)
        ensures
            match placed(old(self).nodes@, id.0 as int) {
                None => answer == Err::<(), GraphError>(GraphError::UnknownNode(id))
                    && *final(self) == *old(self),
                Some(at) => answer is Ok && final(self).output == old(self).output && final(self).next_id == old(self).next_id && final(self).nodes@ == old(self).nodes@.update(
                    at,
                    GraphNode { position, ..old(self).nodes@[at] },
                ),
            },
    {
        match self.index_of(id) {
            Some(at) => {
                self.nodes[at].position = position;
                Ok(())
            },
            None => Err(GraphError::UnknownNode(id)),
        }
    }
}


impl FieldGraph {
    /// Whether no two nodes share an id, and no node or pin names an id that has not been
    /// given out.
    pub open spec fn wf(&self) -> bool {
        &&& forall|i: int|
            0 <= i < self.nodes@.len() ==> (#[trigger] self.nodes@[i]).id.0 < self.next_id
        &&& forall|i: int, p: int|
            0 <= i < self.nodes@.len() && 0 <= p < self.nodes@[i].inputs@.len() ==> match (
            #[trigger] self.nodes@[i].inputs@[p]) {
                Some(source) => source.0 < self.next_id,
                None => true,
            }
        &&& forall|i: int, j: int|
            0 <= i < j < self.nodes@.len() ==> (#[trigger] self.nodes@[i]).id != (
            #[trigger] self.nodes@[j]).id
    }

    /// Adds an unconnected node of `op` and returns the id it was given.
    ///
    /// If the graph had no output node, the new node becomes it: the first node added to an
    /// empty graph is what that field is, and leaving it outputless would make the field
    /// bake zero until it was wired by hand.
    pub fn add_node(&mut self, op: NodeOp, position: (Single, Single)) -> (id: NodeId)
        requires
            old(self).next_id < u32::MAX,
        ensures
            id.0 == old(self).next_id,
            final(self).next_id == old(self).next_id + 1,
            final(self).output == (match old(self).output {
                Some(output) => Some(output),
                None => Some(id),
            }),
            final(self).nodes@ == old(self).nodes@.push(final(self).nodes@.last()),
            final(self).nodes@.last().id == id,
            final(self).nodes@.last().name is None,
            final(self).nodes@.last().op == op,
            final(self).nodes@.last().inputs@ == Seq::new(op.pins(), |i: int| None::<NodeId>),
            !final(self).nodes@.last().bypassed,
            final(self).nodes@.last().position == position,
            old(self).wf() ==> final(self).wf(),
            edited(*old(self), *final(self), GraphEdit::Add { op, position }),
    {
        let id: NodeId = NodeId(self.next_id);
        self.next_id = self.next_id + 1;
        self.nodes.push(GraphNode::new(id, op, position));
        if self.output.is_none() {
            self.output = Some(id);
        }
        proof {
            if old(self).wf() {
                assert forall|i: int, p: int|
                    0 <= i < self.nodes@.len() && 0 <= p
                        < self.nodes@[i].inputs@.len() implies match (
                #[trigger] self.nodes@[i].inputs@[p]) {
                    Some(source) => source.0 < self.next_id,
                    None => true,
                } by {
                    if i < old(self).nodes@.len() {
                        assert(self.nodes@[i] == old(self).nodes@[i]);
                    }
                }
                assert forall|i: int, j: int| 0 <= i < j < self.nodes@.len() implies (
                #[trigger] self.nodes@[i]).id != (#[trigger] self.nodes@[j]).id by {
                    assert(self.nodes@[i] == old(self).nodes@[i]);
                    if j < old(self).nodes@.len() {
                        assert(self.nodes@[j] == old(self).nodes@[j]);
                    }
                }
            }
        }
        id
    }

    /// Names a node, or clears its name with `None`.
    ///
    /// Refused if another node in this graph carries the name, or if the name is the
    /// `n<digits>` form a control path uses for an id, which would otherwise let a name
    /// shadow a different node.
    pub fn rename(&mut self, id: NodeId, name: Option<String>) -> (answer: Result<(), GraphError>)
        ensures
            match placed(old(self).nodes@, id.0 as int) {
                None => answer == Err::<(), GraphError>(GraphError::UnknownNode(id))
                    && *final(self) == *old(self),
                Some(at) => if name is Some && id_path(name->0@) {
                    answer == Err::<(), GraphError>(GraphError::ReservedName(name->0))
                        && *final(self) == *old(self)
                } else if name is Some && name_taken(old(self).nodes@, id, name->0@) {
                    answer == Err::<(), GraphError>(GraphError::DuplicateName(name->0))
                        && *final(self) == *old(self)
                } else {
                    answer is Ok && final(self).output == old(self).output && final(self).next_id
                        == old(self).next_id && final(self).nodes@ == old(self).nodes@.update(
                        at,
                        GraphNode { name, ..old(self).nodes@[at] },
                    )
                },
            },
    {
        let at: usize = match self.index_of(id) {
            Some(at) => at,
            None => {
                return Err(GraphError::UnknownNode(id));
            },
        };
        if let Some(text) = &name {
            if is_id_path(text.as_str()) {
                return Err(GraphError::ReservedName(text.clone()));
            }
            let mut i: usize = 0;
            while i < self.nodes.len()
                invariant
                    *self == *old(self),
                    name == Some(*text),
                    placed(self.nodes@, id.0 as int) is Some,
                    !id_path(text@),
                    i <= self.nodes@.len(),
                    forall|j: int| 0 <= j < i ==> !carries(#[trigger] self.nodes@[j], id, text@),
                decreases self.nodes@.len() - i,
            {
                if self.nodes[i].id != id {
                    if let Some(other) = &self.nodes[i].name {
                        if same_text(other.as_str(), text.as_str()) {
                            assert(carries(self.nodes@[i as int], id, text@));
                            return Err(GraphError::DuplicateName(text.clone()));
                        }
                    }
                }
                i = i + 1;
            }
        }
        self.nodes[at].name = name;
        Ok(())
    }

    /// Names the node the field's value is read from.
    pub fn set_output(&mut self, id: Option<NodeId>) -> (answer: Result<(), GraphError>)
        ensures
            match id {
                Some(node) if placed(old(self).nodes@, node.0 as int) is None => answer == Err::<
                    (),
                    GraphError,
                >(GraphError::UnknownNode(node)) && *final(self) == *old(self),
                _ => answer is Ok && *final(self) == (FieldGraph { output: id, ..*old(self) }),
            },
            edited(*old(self), *final(self), GraphEdit::Output { output: id }),
    {
        if let Some(id) = id {
            if self.index_of(id).is_none() {
                return Err(GraphError::UnknownNode(id));
            }
        }
        self.output = id;
        Ok(())
    }

    /// The fields this graph reads, in evaluation order and with duplicates kept.
    ///
    /// Only what [`NodeOp::reads`] reports for the nodes the walk actually reached, so an
    /// unreachable or bypassed node contributes no bake-order dependency and cannot make a
    /// cycle between fields.
    pub fn dependencies(&self) -> (list: Vec<&FieldId>)
        ensures
            ids_view(list@) == (match self.output {
                Some(output) => if placed(self.nodes@, output.0 as int) is None {
                    Seq::empty()
                } else {
                    match evaluated(self.nodes@, output) {
                        Ok(order) => read_along(self.nodes@, order),
                        Err(_) => Seq::empty(),
                    }
                },
                None => Seq::empty(),
            }),
    {
        let mut list: Vec<&FieldId> = Vec::new();
        proof {
            assert(ids_view(list@) =~= Seq::<Seq<char>>::empty());
        }
        match self.evaluation_order() {
            Ok(order) => {
                let ghost ids = numbers_of(order@);
                proof {
                    assert(ids.take(0) =~= Seq::<int>::empty());
                    assert(self.output is None ==> ids =~= Seq::<int>::empty());
                }
                let mut k: usize = 0;
                while k < order.len()
                    invariant
                        k <= order@.len(),
                        ids == numbers_of(order@),
                        ids_view(list@) == read_along(self.nodes@, ids.take(k as int)),
                    decreases order@.len() - k,
                {
                    let ghost before = list@;
                    proof {
                        assert(ids.take(k + 1).drop_last() =~= ids.take(k as int));
                    }
                    proof {
                        assert(ids_view(before) =~= ids_view(before) + Seq::<Seq<char>>::empty());
                    }
                    if let Some(node) = self.node(order[k]) {
                        if !node.bypassed {
                            let mut more: Vec<&FieldId> = node.op.reads();
                            let ghost added = more@;
                            list.append(&mut more);
                            proof {
                                assert(ids_view(list@) =~= ids_view(before) + ids_view(added));
                            }
                        }
                    }
                    k = k + 1;
                }
                proof {
                    assert(ids.take(k as int) =~= ids);
                }
            },
            Err(_) => {},
        }
        list
    }
}

/// The fields that the nodes of an order read, in turn, leaving out bypassed nodes.
pub open spec fn read_along(nodes: Seq<GraphNode>, order: Seq<int>) -> Seq<Seq<char>>
    decreases order.len(),
{
    if order.len() == 0 {
        Seq::empty()
    } else {
        read_along(nodes, order.drop_last()) + (match placed(nodes, order.last()) {
            Some(i) => if nodes[i].bypassed {
                Seq::empty()
            } else {
                nodes[i].op.fields_read()
            },
            None => Seq::empty(),
        })
    }
}

/// Whether a node other than `id` carries a name.
pub open spec fn carries(node: GraphNode, id: NodeId, name: Seq<char>) -> bool {
    node.id != id && node.name is Some && node.name->0@ == name
}

/// Whether a node other than `id` carries a name.
pub open spec fn name_taken(nodes: Seq<GraphNode>, id: NodeId, name: Seq<char>) -> bool {
    exists|i: int| 0 <= i < nodes.len() && carries(#[trigger] nodes[i], id, name)
}


/// Whether no pin of any node is wired to an id.
pub open spec fn unwired(nodes: Seq<GraphNode>, id: NodeId) -> bool {
    forall|i: int, p: int|
        0 <= i < nodes.len() && 0 <= p < nodes[i].inputs@.len() ==> (
        #[trigger] nodes[i].inputs@[p]) != Some(id)
}

proof fn lemma_connected_is_wired(inputs: Seq<Option<NodeId>>, x: int)
    requires
        connected(inputs).contains(x),
    ensures
        exists|p: int| 0 <= p < inputs.len() && (#[trigger] inputs[p]) is Some && inputs[p].unwrap().0 == x,
    decreases inputs.len(),
{
    let all = connected(inputs);
    let rest = inputs.drop_last();
    let k = choose|k: int| 0 <= k < all.len() && all[k] == x;
    if k < connected(rest).len() {
        assert(connected(rest)[k] == x);
        lemma_connected_is_wired(rest, x);
        let p = choose|p: int|
            0 <= p < rest.len() && (#[trigger] rest[p]) is Some && rest[p].unwrap().0 == x;
        assert(inputs[p] == rest[p]);
    } else {
        assert(inputs[inputs.len() - 1].unwrap().0 == x);
    }
}

/// Nothing leads to a node that no pin is wired to.
proof fn lemma_nothing_leads_to_unwired(nodes: Seq<GraphNode>, a: int, id: NodeId)
    requires
        unwired(nodes, id),
        a != id.0,
    ensures
        !leads(wired(nodes), a, id.0 as int),
{
    let reads = wired(nodes);
    if leads(reads, a, id.0 as int) {
        let chain = choose|chain: Seq<int>| #[trigger] leads_by(reads, chain, a, id.0 as int);
        let k = chain.len() - 2;
        assert(reads_one(reads, chain[k], chain[k + 1]));
        let x = chain[k];
        lemma_placed(nodes, x, 0);
        let i = placed(nodes, x)->0;
        lemma_connected_is_wired(nodes[i].inputs@, id.0 as int);
        let p = choose|p: int|
            0 <= p < nodes[i].inputs@.len() && (#[trigger] nodes[i].inputs@[p]) is Some
                && nodes[i].inputs@[p].unwrap().0 == id.0;
        assert(nodes[i].inputs@[p] == Some(id));
    }
}

impl FieldGraph {
    /// The node with that id, to be modified.
    pub fn node_mut(&mut self, id: NodeId) -> (answer: Option<&mut GraphNode>)
        ensures
            match answer {
                Some(node) => placed(old(self).nodes@, id.0 as int) is Some && *node
                    == old(self).nodes@[placed(old(self).nodes@, id.0 as int)->0]
                    && final(self).nodes@ == old(self).nodes@.update(
                    placed(old(self).nodes@, id.0 as int)->0,
                    *final(node),
                ) && final(self).output == old(self).output && final(self).next_id == old(self).next_id,
                None => placed(old(self).nodes@, id.0 as int) is None && *final(self) == *old(self),
            },
    {
        match self.index_of(id) {
            Some(at) => Some(&mut self.nodes[at]),
            None => None,
        }
    }

    /// Adds a node of `op` with `sources` wired into its pins in order.
    ///
    /// The shorthand a graph is built with in one expression. Every edge it makes is one
    /// [`FieldGraph::connect`], so each source has to be a node of the graph and the op has
    /// to carry a pin for it, and the id the node takes has to be one that nothing holds.
    pub fn node_with(&mut self, op: NodeOp, sources: &Vec<NodeId>) -> (id: NodeId)
        requires
            old(self).next_id < u32::MAX,
            placed(old(self).nodes@, old(self).next_id as int) is None,
            unwired(old(self).nodes@, NodeId(old(self).next_id)),
            sources@.len() <= op.pins(),
            forall|i: int|
                0 <= i < sources@.len() ==> placed(
                    old(self).nodes@,
                    (#[trigger] sources@[i]).0 as int,
                ) is Some,
        ensures
            old(self).wf() ==> final(self).wf(),
            id.0 == old(self).next_id,
            final(self).next_id == old(self).next_id + 1,
            final(self).output == (match old(self).output {
                Some(output) => Some(output),
                None => Some(id),
            }),
            final(self).nodes@ == old(self).nodes@.push(final(self).nodes@.last()),
            final(self).nodes@.last().id == id,
            final(self).nodes@.last().name is None,
            final(self).nodes@.last().op == op,
            final(self).nodes@.last().inputs@ == Seq::new(
                op.pins(),
                |i: int|
                    if i < sources@.len() {
                        Some(sources@[i])
                    } else {
                        None
                    },
            ),
            !final(self).nodes@.last().bypassed,
            final(self).nodes@.last().position == (Single(0), Single(0)),
    {
        let ghost before = self.nodes@;
        let id: NodeId = self.add_node(op, (Single(0), Single(0)));
        let ghost at = before.len() as int;
        proof {
            lemma_placed(before, id.0 as int, 0);
            lemma_placed(self.nodes@, id.0 as int, 0);
            assert(self.nodes@[at].id == id);
            assert forall|j: int| 0 <= j < at implies (#[trigger] self.nodes@[j]).id != id by {
                assert(self.nodes@[j] == before[j]);
            }
            assert(placed(self.nodes@, id.0 as int) == Some(at));
        }
        let mut pin: usize = 0;
        while pin < sources.len()
            invariant
                pin <= sources@.len() <= op.pins(),
                old(self).wf() ==> self.wf(),
                before == old(self).nodes@,
                placed(before, id.0 as int) is None,
                unwired(before, id),
                id.0 == old(self).next_id,
                self.next_id == old(self).next_id + 1,
                self.output == (match old(self).output {
                    Some(output) => Some(output),
                    None => Some(id),
                }),
                at == before.len(),
                self.nodes@ == before.push(self.nodes@[at]),
                placed(self.nodes@, id.0 as int) == Some(at),
                self.nodes@[at].id == id,
                self.nodes@[at].name is None,
                self.nodes@[at].op == op,
                !self.nodes@[at].bypassed,
                self.nodes@[at].position == (Single(0), Single(0)),
                self.nodes@[at].inputs@ == Seq::new(
                    op.pins(),
                    |i: int|
                        if i < pin {
                            Some(sources@[i])
                        } else {
                            None
                        },
                ),
                forall|i: int|
                    0 <= i < sources@.len() ==> placed(before, (#[trigger] sources@[i]).0 as int)
                        is Some,
            decreases sources@.len() - pin,
        {
            let source: NodeId = sources[pin];
            let ghost now = *self;
            proof {
                lemma_placed(before, id.0 as int, 0);
                lemma_placed(before, source.0 as int, 0);
                let k = placed(before, source.0 as int)->0;
                assert(now.nodes@[k] == before[k]);
                lemma_placed(now.nodes@, source.0 as int, 0);
                assert(placed(now.nodes@, source.0 as int) is Some);
                assert forall|i: int, p: int|
                    0 <= i < now.nodes@.len() && 0 <= p < now.nodes@[i].inputs@.len() implies (
                #[trigger] now.nodes@[i].inputs@[p]) != Some(id) by {
                    if i < at {
                        assert(now.nodes@[i] == before[i]);
                        assert(before[i].inputs@[p] != Some(id));
                    } else if p < pin {
                        lemma_placed(before, sources@[p].0 as int, 0);
                    }
                }
                lemma_nothing_leads_to_unwired(now.nodes@, source.0 as int, id);
            }
            let _ = self.connect(source, id, pin);
            proof {
                let pins = now.nodes@[at].inputs@.update(pin as int, Some(source));
                assert(self.nodes@[at].inputs@ == pins);
                assert(pins =~= Seq::new(
                    op.pins(),
                    |i: int|
                        if i < pin + 1 {
                            Some(sources@[i])
                        } else {
                            None
                        },
                ));
                assert(self.nodes@ =~= before.push(self.nodes@[at]));
                lemma_placed(self.nodes@, id.0 as int, 0);
                assert forall|j: int| 0 <= j < at implies (#[trigger] self.nodes@[j]).id != id by {
                    assert(self.nodes@[j] == before[j]);
                }
                assert(self.nodes@[at].id == id);
                if old(self).wf() {
                    law_an_edit_keeps_a_graph_well_formed(
                        now,
                        *self,
                        GraphEdit::Connect { from: source, to: id, pin },
                    );
                }
            }
            pin = pin + 1;
        }
        id
    }
}

} // verus!
