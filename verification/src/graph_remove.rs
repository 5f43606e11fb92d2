//! Taking a node out of a field's graph.

use vstd::prelude::*;
use crate::graph::{
    connected, lemma_placed, numbers_of, placed, FieldGraph, GraphError, GraphNode, NodeId,
};
use crate::graph_edit::same_but_pins;
use crate::graph_history::{edited, GraphEdit};

verus! {

/// Whether a node reads `id` on any pin.
pub open spec fn reads_id(node: GraphNode, id: NodeId) -> bool {
    connected(node.inputs@).contains(id.0 as int)
}

/// The nodes that read `id` on any pin.
pub open spec fn reading(nodes: Seq<GraphNode>, id: NodeId) -> Seq<int>
    decreases nodes.len(),
{
    if nodes.len() == 0 {
        Seq::empty()
    } else if reads_id(nodes.last(), id) {
        reading(nodes.drop_last(), id).push(nodes.last().id.0 as int)
    } else {
        reading(nodes.drop_last(), id)
    }
}

/// What a removed node's reader is reconnected to: the node's one connected input, where it
/// has one and exactly one node reads it.
pub open spec fn spliced(nodes: Seq<GraphNode>, at: int) -> Option<NodeId> {
    let sources = connected(nodes[at].inputs@);
    if sources.len() == 1 && reading(nodes, nodes[at].id).len() == 1 {
        Some(NodeId(sources[0] as u32))
    } else {
        None
    }
}

/// A pin after `id` was removed.
pub open spec fn repointed(pin: Option<NodeId>, id: NodeId, splice: Option<NodeId>) -> Option<
    NodeId,
> {
    if pin == Some(id) {
        splice
    } else {
        pin
    }
}

/// A row of pins after `id` was removed.
pub open spec fn repointed_all(
    pins: Seq<Option<NodeId>>,
    id: NodeId,
    splice: Option<NodeId>,
) -> Seq<Option<NodeId>> {
    pins.map_values(|pin: Option<NodeId>| repointed(pin, id, splice))
}

/// Whether a node is not the one of that id.
pub open spec fn other_than(id: NodeId) -> spec_fn(GraphNode) -> bool {
    |node: GraphNode| node.id != id
}

/// Whether `after` holds the nodes of `before` but that of `id`, with every pin that was
/// wired to it repointed.
pub open spec fn removed(
    before: Seq<GraphNode>,
    after: Seq<GraphNode>,
    id: NodeId,
    splice: Option<NodeId>,
) -> bool {
    let kept = before.filter(other_than(id));
    &&& after.len() == kept.len()
    &&& forall|k: int|
        0 <= k < kept.len() ==> same_but_pins(kept[k], #[trigger] after[k]) && after[k].inputs@
            == repointed_all(kept[k].inputs@, id, splice)
}

/// Whether no node reads an id.
pub open spec fn unread(nodes: Seq<GraphNode>, id: NodeId) -> bool {
    forall|j: int| 0 <= j < nodes.len() ==> !reads_id(#[trigger] nodes[j], id)
}

/// Whether a graph holds a node of that id.
pub open spec fn held(nodes: Seq<GraphNode>, id: NodeId) -> bool {
    placed(nodes, id.0 as int) is Some
}

/// Whether `heir` is the node the output passes to: the input spliced in, if the graph
/// holds it; the removed node's first input, if the graph holds it and nothing reads it;
/// the highest-id node nothing reads; the highest-id node.
pub open spec fn inherits(
    nodes: Seq<GraphNode>,
    splice: Option<NodeId>,
    first: Option<NodeId>,
    heir: Option<NodeId>,
) -> bool {
    if splice is Some && held(nodes, splice->0) {
        heir == splice
    } else if first is Some && held(nodes, first->0) && unread(nodes, first->0) {
        heir == first
    } else if exists|j: int|
        0 <= j < nodes.len() && unread(nodes, (#[trigger] nodes[j]).id) {
        &&& heir is Some
        &&& held(nodes, heir->0)
        &&& unread(nodes, heir->0)
        &&& forall|j: int|
            0 <= j < nodes.len() && unread(nodes, (#[trigger] nodes[j]).id)
                ==> nodes[j].id.0 <= heir.unwrap().0
    } else if nodes.len() > 0 {
        &&& heir is Some
        &&& held(nodes, heir->0)
        &&& forall|j: int| 0 <= j < nodes.len() ==> (#[trigger] nodes[j]).id.0 <= heir.unwrap().0
    } else {
        heir is None
    }
}

/// Whether a row of pins is wired to an id.
fn pins_have(node: &GraphNode, id: NodeId) -> (answer: bool)
    ensures
        answer == reads_id(*node, id),
{
    let sources: Vec<NodeId> = node.sources();
    let mut i: usize = 0;
    while i < sources.len()
        invariant
            i <= sources@.len(),
            numbers_of(sources@) == connected(node.inputs@),
            forall|j: int| 0 <= j < i ==> numbers_of(sources@)[j] != id.0,
        decreases sources@.len() - i,
    {
        if sources[i] == id {
            assert(numbers_of(sources@)[i as int] == id.0);
            return true;
        }
        i = i + 1;
    }
    false
}

proof fn lemma_held(nodes: Seq<GraphNode>, j: int)
    requires
        0 <= j < nodes.len(),
    ensures
        held(nodes, nodes[j].id),
{
    lemma_placed(nodes, nodes[j].id.0 as int, 0);
}

impl FieldGraph {
    /// The nodes that read `id` on any pin, bypassed or not.
    pub fn readers(&self, id: NodeId) -> (list: Vec<NodeId>)
        ensures
            numbers_of(list@) == reading(self.nodes@, id),
    {
        let mut list: Vec<NodeId> = Vec::new();
        let mut i: usize = 0;
        proof {
            assert(self.nodes@.take(0) =~= Seq::<GraphNode>::empty());
            assert(numbers_of(list@) =~= Seq::<int>::empty());
        }
        while i < self.nodes.len()
            invariant
                i <= self.nodes@.len(),
                numbers_of(list@) == reading(self.nodes@.take(i as int), id),
            decreases self.nodes@.len() - i,
        {
            proof {
                assert(self.nodes@.take(i + 1).drop_last() =~= self.nodes@.take(i as int));
            }
            if pins_have(&self.nodes[i], id) {
                let ghost before = list@;
                list.push(self.nodes[i].id);
                proof {
                    assert(numbers_of(list@) =~= numbers_of(before).push(
                        self.nodes@[i as int].id.0 as int,
                    ));
                }
            }
            i = i + 1;
        }
        proof {
            assert(self.nodes@.take(i as int) =~= self.nodes@);
        }
        list
    }

    fn is_unread(&self, id: NodeId) -> (answer: bool)
        ensures
            answer == unread(self.nodes@, id),
    {
        let mut i: usize = 0;
        while i < self.nodes.len()
            invariant
                i <= self.nodes@.len(),
                forall|j: int| 0 <= j < i ==> !reads_id(#[trigger] self.nodes@[j], id),
            decreases self.nodes@.len() - i,
        {
            if pins_have(&self.nodes[i], id) {
                return false;
            }
            i = i + 1;
        }
        true
    }

    /// The highest id among the nodes, of those nothing reads where `only_unread` asks for
    /// that.
    fn highest(&self, only_unread: bool) -> (answer: Option<NodeId>)
        ensures
            match answer {
                Some(id) => held(self.nodes@, id) && (only_unread ==> unread(self.nodes@, id))
                    && (exists|j: int|
                    0 <= j < self.nodes@.len() && (#[trigger] self.nodes@[j]).id == id)
                    && forall|j: int|
                    0 <= j < self.nodes@.len() && (only_unread ==> unread(
                        self.nodes@,
                        (#[trigger] self.nodes@[j]).id,
                    )) ==> self.nodes@[j].id.0 <= id.0,
                None => forall|j: int|
                    0 <= j < self.nodes@.len() ==> only_unread && !unread(
                        self.nodes@,
                        (#[trigger] self.nodes@[j]).id,
                    ),
            },
    {
        let mut best: Option<NodeId> = None;
        let mut i: usize = 0;
        while i < self.nodes.len()
            invariant
                i <= self.nodes@.len(),
                match best {
                    Some(id) => held(self.nodes@, id) && (only_unread ==> unread(self.nodes@, id))
                        && (exists|j: int|
                        0 <= j < self.nodes@.len() && (#[trigger] self.nodes@[j]).id == id)
                        && forall|j: int|
                        0 <= j < i && (only_unread ==> unread(
                            self.nodes@,
                            (#[trigger] self.nodes@[j]).id,
                        )) ==> self.nodes@[j].id.0 <= id.0,
                    None => forall|j: int|
                        0 <= j < i ==> only_unread && !unread(
                            self.nodes@,
                            (#[trigger] self.nodes@[j]).id,
                        ),
                },
            decreases self.nodes@.len() - i,
        {
            let id: NodeId = self.nodes[i].id;
            if !only_unread || self.is_unread(id) {
                let better: bool = match best {
                    Some(other) => other.0 < id.0,
                    None => true,
                };
                if better {
                    proof {
                        lemma_held(self.nodes@, i as int);
                        assert(self.nodes@[i as int].id == id);
                    }
                    best = Some(id);
                }
            }
            i = i + 1;
        }
        best
    }

    fn successor(&self, splice: Option<NodeId>, first_input: Option<NodeId>) -> (heir: Option<
        NodeId,
    >)
        ensures
            inherits(self.nodes@, splice, first_input, heir),
    {
        if let Some(id) = splice {
            if self.index_of(id).is_some() {
                return splice;
            }
        }
        if let Some(id) = first_input {
            if self.index_of(id).is_some() && self.is_unread(id) {
                return first_input;
            }
        }
        let free: Option<NodeId> = self.highest(true);
        if let Some(id) = free {
            proof {
                let j = choose|j: int|
                    0 <= j < self.nodes@.len() && (#[trigger] self.nodes@[j]).id == id;
                assert(unread(self.nodes@, self.nodes@[j].id));
            }
            return free;
        }
        self.highest(false)
    }

    /// Takes a node out along with every edge touching it.
    ///
    /// A node with exactly one connected input and exactly one reader is spliced out: the
    /// reader is reconnected to that input, so pulling a node out of a chain does not break
    /// the chain. In every other case each reader's pin is left unconnected.
    ///
    /// If the node was the output, the output passes to the first of these the graph still
    /// holds once the node is gone: the input spliced in; the node on the removed node's
    /// first pin, if nothing reads it any more; the highest-id node nothing reads; the
    /// highest-id node. Only a graph left with no nodes has no output.
    pub fn remove_node(&mut self, id: NodeId) -> (answer: Result<(), GraphError>)
        ensures
            match placed(old(self).nodes@, id.0 as int) {
                None => answer == Err::<(), GraphError>(GraphError::UnknownNode(id))
                    && *final(self) == *old(self),
                Some(at) => {
                    let splice = spliced(old(self).nodes@, at);
                    let pins = old(self).nodes@[at].inputs@;
                    &&& answer is Ok
                    &&& final(self).next_id == old(self).next_id
                    &&& removed(old(self).nodes@, final(self).nodes@, id, splice)
                    &&& if old(self).output == Some(id) {
                        inherits(
                            final(self).nodes@,
                            splice,
                            if pins.len() > 0 {
                                pins[0]
                            } else {
                                None
                            },
                            final(self).output,
                        )
                    } else {
                        final(self).output == old(self).output
                    }
                },
            },
            edited(*old(self), *final(self), GraphEdit::Remove { id }),
    {
        let at: usize = match self.index_of(id) {
            Some(at) => at,
            None => {
                return Err(GraphError::UnknownNode(id));
            },
        };
        let ghost start = self.nodes@;
        let first_input: Option<NodeId> = if self.nodes[at].inputs.len() > 0 {
            self.nodes[at].inputs[0]
        } else {
            None
        };
        let sources: Vec<NodeId> = self.nodes[at].sources();
        let readers: Vec<NodeId> = self.readers(id);
        let splice: Option<NodeId> = if sources.len() == 1 && readers.len() == 1 {
            Some(sources[0])
        } else {
            None
        };
        proof {
            assert(numbers_of(sources@).len() == sources@.len());
            assert(numbers_of(readers@).len() == readers@.len());
            if sources@.len() == 1 {
                assert(numbers_of(sources@)[0] == sources@[0].0);
            }
            assert(splice == spliced(start, at as int));
        }

        let mut i: usize = 0;
        while i < self.nodes.len()
            invariant
                i <= self.nodes@.len(),
                self.nodes@.len() == start.len(),
                self.output == old(self).output,
                self.next_id == old(self).next_id,
                forall|j: int|
                    0 <= j < i ==> same_but_pins(start[j], #[trigger] self.nodes@[j])
                        && self.nodes@[j].inputs@ == repointed_all(start[j].inputs@, id, splice),
                forall|j: int| i <= j < start.len() ==> #[trigger] self.nodes@[j] == start[j],
            decreases start.len() - i,
        {
            let mut p: usize = 0;
            while p < self.nodes[i].inputs.len()
                invariant
                    i < self.nodes@.len(),
                    self.nodes@.len() == start.len(),
                    self.output == old(self).output,
                    self.next_id == old(self).next_id,
                    p <= self.nodes@[i as int].inputs@.len(),
                    same_but_pins(start[i as int], self.nodes@[i as int]),
                    self.nodes@[i as int].inputs@.len() == start[i as int].inputs@.len(),
                    forall|q: int|
                        0 <= q < p ==> #[trigger] self.nodes@[i as int].inputs@[q] == repointed(
                            start[i as int].inputs@[q],
                            id,
                            splice,
                        ),
                    forall|q: int|
                        p <= q < start[i as int].inputs@.len()
                            ==> #[trigger] self.nodes@[i as int].inputs@[q]
                            == start[i as int].inputs@[q],
                    forall|j: int|
                        0 <= j < i ==> same_but_pins(start[j], #[trigger] self.nodes@[j])
                            && self.nodes@[j].inputs@ == repointed_all(
                            start[j].inputs@,
                            id,
                            splice,
                        ),
                    forall|j: int| i < j < start.len() ==> #[trigger] self.nodes@[j] == start[j],
                decreases self.nodes@[i as int].inputs@.len() - p,
            {
                let pin: Option<NodeId> = self.nodes[i].inputs[p];
                if let Some(wired) = pin {
                    if wired == id {
                        self.nodes[i].inputs.set(p, splice);
                    }
                }
                p = p + 1;
            }
            proof {
                assert(self.nodes@[i as int].inputs@ =~= repointed_all(
                    start[i as int].inputs@,
                    id,
                    splice,
                ));
            }
            i = i + 1;
        }

        let ghost repinned = self.nodes@;
        let mut k: usize = self.nodes.len();
        proof {
            assert(repinned.skip(k as int) =~= Seq::<GraphNode>::empty());
            assert(repinned.take(k as int) + repinned.skip(k as int).filter(other_than(id))
                =~= repinned);
        }
        while k > 0
            invariant
                k <= repinned.len(),
                self.output == old(self).output,
                self.next_id == old(self).next_id,
                self.nodes@ == repinned.take(k as int) + repinned.skip(k as int).filter(
                    other_than(id),
                ),
            decreases k,
        {
            let ghost before = self.nodes@;
            let ghost tail = repinned.skip(k as int);
            k = k - 1;
            proof {
                let node = repinned[k as int];
                assert(before[k as int] == node);
                assert(repinned.skip(k as int) =~= seq![node] + tail);
                Seq::filter_distributes_over_add(seq![node], tail, other_than(id));
                lemma_filter_one(node, other_than(id));
            }
            if self.nodes[k].id == id {
                let _ = self.nodes.remove(k);
                proof {
                    assert(self.nodes@ =~= repinned.take(k as int) + repinned.skip(
                        k as int,
                    ).filter(other_than(id)));
                }
            } else {
                proof {
                    assert(self.nodes@ =~= repinned.take(k as int) + repinned.skip(
                        k as int,
                    ).filter(other_than(id)));
                }
            }
        }
        proof {
            assert(repinned.skip(0) =~= repinned);
            assert(self.nodes@ =~= repinned.filter(other_than(id)));
            lemma_filter_matches(start, repinned, id, splice);
        }
        if let Some(output) = self.output {
            if output == id {
                self.output = self.successor(splice, first_input);
            }
        }
        Ok(())
    }
}

proof fn lemma_filter_one(node: GraphNode, keep: spec_fn(GraphNode) -> bool)
    ensures
        seq![node].filter(keep) == (if keep(node) {
            seq![node]
        } else {
            Seq::empty()
        }),
{
    reveal(Seq::filter);
    let one = seq![node];
    assert(one.drop_last() =~= Seq::<GraphNode>::empty());
    assert(one.drop_last().filter(keep) =~= Seq::<GraphNode>::empty());
    assert(one.filter(keep) =~= (if keep(node) {
        seq![node]
    } else {
        Seq::empty()
    }));
}

/// Repointing pins and then keeping nodes is keeping nodes and then repointing pins.
proof fn lemma_filter_matches(
    before: Seq<GraphNode>,
    after: Seq<GraphNode>,
    id: NodeId,
    splice: Option<NodeId>,
)
    requires
        after.len() == before.len(),
        forall|j: int|
            0 <= j < before.len() ==> same_but_pins(before[j], #[trigger] after[j])
                && after[j].inputs@ == repointed_all(before[j].inputs@, id, splice),
    ensures
        removed(before, after.filter(other_than(id)), id, splice),
    decreases before.len(),
{
    reveal(Seq::filter);
    if before.len() > 0 {
        let b = before.drop_last();
        let a = after.drop_last();
        assert forall|j: int| 0 <= j < b.len() implies same_but_pins(b[j], #[trigger] a[j])
            && a[j].inputs@ == repointed_all(b[j].inputs@, id, splice) by {
            assert(a[j] == after[j]);
        }
        lemma_filter_matches(b, a, id, splice);
        assert(same_but_pins(before[before.len() - 1], after[after.len() - 1]));
        let kept = before.filter(other_than(id));
        let left = after.filter(other_than(id));
        assert forall|k: int| 0 <= k < kept.len() implies same_but_pins(
            kept[k],
            #[trigger] left[k],
        ) && left[k].inputs@ == repointed_all(kept[k].inputs@, id, splice) by {
            if k < b.filter(other_than(id)).len() {
                assert(left[k] == a.filter(other_than(id))[k]);
            }
        }
    }
}

} // verus!
