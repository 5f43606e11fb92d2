//! What a field's value is built out of: the nodes, the edges between them, and the one
//! node the field is read from.

use vstd::prelude::*;
use vstd::set_lib::*;
use crate::counting::lemma_distinct_leave_room;
use crate::names::FieldId;
use crate::number::digit_char;
use crate::order::{
    leads, leads_by, lemma_leads_further, reads_one, visited, visited_all, Reads,
};
use crate::shader::ShaderLayer;
use crate::single::Single;
use crate::text::{chars_of, decimal, decimal_of};

verus! {

/// Names one node for the life of a document.
///
/// Assigned from [`FieldGraph::next_id`] and never reused, so an edge, a control path and
/// the canvas all name the same node across every edit: nothing is renumbered when a node
/// is removed.
#[derive(Clone, Copy, Debug, PartialEq, Eq, Hash, PartialOrd, Ord, Structural)]
pub struct NodeId(pub u32);

impl NodeId {
    /// The identifier form of a control path.
    pub fn path(self) -> (text: String)
        ensures
            text@ == "n"@ + decimal(self.0 as nat),
    {
        let mut text: String = String::from_str("n");
        text.append(decimal_of(self.0 as u128).as_str());
        text
    }
}

/// How many node ids there are.
pub open spec fn all_ids() -> nat {
    0x1_0000_0000
}

/// What a node produces, given whatever is wired into it.
#[derive(Debug)]
pub enum NodeOp {
    /// A raster a shader produced, at the field's own resolution: one input pin per input
    /// the file declares, and every field the file reads by name a dependency.
    Shader(ShaderLayer),
    /// Another field's value at the position.
    FieldRef(FieldId),
}

impl NodeOp {
    /// How many inputs the op reads.
    pub open spec fn pins(&self) -> nat {
        match self {
            NodeOp::Shader(shader) => shader.inputs@.len(),
            NodeOp::FieldRef(_) => 0,
        }
    }

    /// The fields the op reads.
    pub open spec fn fields_read(&self) -> Seq<Seq<char>> {
        match self {
            NodeOp::Shader(shader) => shader.layers@.map_values(|id: FieldId| id@),
            NodeOp::FieldRef(id) => seq![id@],
        }
    }

    /// How many inputs this op reads. An op is always stored with exactly this many input
    /// pins, connected or not.
    pub fn arity(&self) -> (count: usize)
        ensures
            count == self.pins(),
    {
        match self {
            NodeOp::Shader(shader) => shader.inputs.len(),
            NodeOp::FieldRef(_) => 0,
        }
    }

    /// The field a [`NodeOp::FieldRef`] names, and `None` for every other op, including a
    /// shader that reads fields by name, which [`NodeOp::reads`] reports.
    pub fn dependency(&self) -> (answer: Option<&FieldId>)
        ensures
            match self {
                NodeOp::FieldRef(id) => answer == Some(id),
                NodeOp::Shader(_) => answer is None,
            },
    {
        match self {
            NodeOp::FieldRef(id) => Some(id),
            NodeOp::Shader(_) => None,
        }
    }

    /// Every field this op reads: a reference's one field, or the fields a shader's file
    /// names, in declaration order and with duplicates kept. Feeds bake ordering and cycle
    /// detection.
    pub fn reads(&self) -> (list: Vec<&FieldId>)
        ensures
            ids_view(list@) == self.fields_read(),
    {
        let mut list: Vec<&FieldId> = Vec::new();
        match self {
            NodeOp::FieldRef(id) => {
                list.push(id);
            },
            NodeOp::Shader(shader) => {
                let mut i: usize = 0;
                while i < shader.layers.len()
                    invariant
                        i <= shader.layers@.len(),
                        list@.len() == i,
                        forall|j: int| 0 <= j < i ==> (#[trigger] list@[j])@ == shader.layers@[j]@,
                    decreases shader.layers@.len() - i,
                {
                    list.push(&shader.layers[i]);
                    i = i + 1;
                }
            },
        }
        proof {
            assert(ids_view(list@) =~= self.fields_read());
        }
        list
    }
}

/// What a list of names says.
pub open spec fn ids_view(list: Seq<&FieldId>) -> Seq<Seq<char>> {
    list.map_values(|id: &FieldId| id@)
}

/// One node of a field's graph.
#[derive(Debug)]
pub struct GraphNode {
    /// Names this node for the life of the document.
    pub id: NodeId,
    /// What a person called it, if anything. Never `n<digits>`, which would shadow the
    /// identifier form of a control path.
    pub name: Option<String>,
    /// What the node produces.
    pub op: NodeOp,
    /// One entry per [`NodeOp::arity`], in pin order. `None` is an unconnected pin, which
    /// reads zero.
    pub inputs: Vec<Option<NodeId>>,
    /// A bypassed node passes its first input through instead of evaluating, and
    /// contributes no dependency.
    pub bypassed: bool,
    /// Where the node's card sits on the canvas. Authoring data: it is written to the
    /// document but reaches no bake.
    pub position: (Single, Single),
}

/// The nodes some pins are wired to, in pin order, skipping unconnected ones.
pub open spec fn connected(inputs: Seq<Option<NodeId>>) -> Seq<int>
    decreases inputs.len(),
{
    if inputs.len() == 0 {
        Seq::empty()
    } else {
        match inputs.last() {
            Some(id) => connected(inputs.drop_last()).push(id.0 as int),
            None => connected(inputs.drop_last()),
        }
    }
}

/// The numbers of some ids.
pub open spec fn numbers_of(ids: Seq<NodeId>) -> Seq<int> {
    ids.map_values(|id: NodeId| id.0 as int)
}

impl GraphNode {
    /// A node of `op` at `position`, with every pin unconnected.
    pub fn new(id: NodeId, op: NodeOp, position: (Single, Single)) -> (node: GraphNode)
        ensures
            node.id == id,
            node.name is None,
            node.op == op,
            node.inputs@ == Seq::new(op.pins(), |i: int| None::<NodeId>),
            !node.bypassed,
            node.position == position,
    {
        let count: usize = op.arity();
        let mut inputs: Vec<Option<NodeId>> = Vec::new();
        while inputs.len() < count
            invariant
                inputs@.len() <= count,
                forall|i: int| 0 <= i < inputs@.len() ==> inputs@[i] is None,
            decreases count - inputs@.len(),
        {
            inputs.push(None);
        }
        proof {
            assert(inputs@ =~= Seq::new(op.pins(), |i: int| None::<NodeId>));
        }
        GraphNode { id, name: None, op, inputs, bypassed: false, position }
    }

    /// The nodes wired into this one, in pin order, skipping unconnected pins.
    pub fn sources(&self) -> (list: Vec<NodeId>)
        ensures
            numbers_of(list@) == connected(self.inputs@),
    {
        let mut list: Vec<NodeId> = Vec::new();
        let mut i: usize = 0;
        proof {
            assert(self.inputs@.take(0) =~= Seq::<Option<NodeId>>::empty());
            assert(numbers_of(list@) =~= Seq::<int>::empty());
        }
        while i < self.inputs.len()
            invariant
                i <= self.inputs@.len(),
                numbers_of(list@) == connected(self.inputs@.take(i as int)),
            decreases self.inputs@.len() - i,
        {
            proof {
                assert(self.inputs@.take(i + 1).drop_last() =~= self.inputs@.take(i as int));
            }
            if let Some(id) = self.inputs[i] {
                let ghost before = list@;
                list.push(id);
                proof {
                    assert(numbers_of(list@) =~= numbers_of(before).push(id.0 as int));
                }
            }
            i = i + 1;
        }
        proof {
            assert(self.inputs@.take(i as int) =~= self.inputs@);
        }
        list
    }
}

/// Why an edit to a graph was refused. The graph is left exactly as it was.
#[derive(Debug)]
pub enum GraphError {
    /// No node in this graph carries that id.
    UnknownNode(NodeId),
    /// The pin index is past what the target op reads.
    PinOutOfRange {
        /// The node written to.
        node: NodeId,
        /// The pin asked for.
        pin: usize,
        /// How many the node actually has.
        arity: usize,
    },
    /// The edge would make the graph feed itself.
    WouldCycle {
        /// The node the edge comes from.
        from: NodeId,
        /// The node it would be written into.
        to: NodeId,
    },
    /// Another node in this graph already carries that name.
    DuplicateName(String),
    /// The name is the identifier form of a control path and would shadow a node id.
    ReservedName(String),
}

/// A node's id as a message names it.
pub open spec fn id_shown(id: NodeId) -> Seq<char> {
    "NodeId("@ + decimal(id.0 as nat) + ")"@
}

fn append_id(text: &mut String, id: NodeId)
    ensures
        final(text)@ == old(text)@ + id_shown(id),
{
    text.append("NodeId(");
    text.append(decimal_of(id.0 as u128).as_str());
    text.append(")");
    proof {
        assert(text@ =~= old(text)@ + id_shown(id));
    }
}

impl GraphError {
    /// The refusal in words.
    pub open spec fn shown(&self) -> Seq<char> {
        match self {
            GraphError::UnknownNode(id) => "this field has no node "@ + id_shown(*id),
            GraphError::PinOutOfRange { node, pin, arity } => "node "@ + id_shown(*node) + " has "@
                + decimal(*arity as nat) + " inputs, so there is no pin "@ + decimal(*pin as nat),
            GraphError::WouldCycle { from, to } => "connecting "@ + id_shown(*from) + " to "@
                + id_shown(*to) + " would close a cycle"@,
            GraphError::DuplicateName(name) => "this field already has a node named `"@ + name@
                + "`"@,
            GraphError::ReservedName(name) => "`"@ + name@
                + "` is the path form of a node id and cannot be a name"@,
        }
    }

    /// The refusal in words.
    pub fn message(&self) -> (text: String)
        ensures
            text@ == self.shown(),
    {
        match self {
            GraphError::UnknownNode(id) => {
                let mut text: String = String::from_str("this field has no node ");
                append_id(&mut text, *id);
                text
            },
            GraphError::PinOutOfRange { node, pin, arity } => {
                let mut text: String = String::from_str("node ");
                append_id(&mut text, *node);
                text.append(" has ");
                text.append(decimal_of(*arity as u128).as_str());
                text.append(" inputs, so there is no pin ");
                text.append(decimal_of(*pin as u128).as_str());
                text
            },
            GraphError::WouldCycle { from, to } => {
                let mut text: String = String::from_str("connecting ");
                append_id(&mut text, *from);
                text.append(" to ");
                append_id(&mut text, *to);
                text.append(" would close a cycle");
                text
            },
            GraphError::DuplicateName(name) => {
                let mut text: String = String::from_str("this field already has a node named `");
                text.append(name.as_str());
                text.append("`");
                text
            },
            GraphError::ReservedName(name) => {
                let mut text: String = String::from_str("`");
                text.append(name.as_str());
                text.append("` is the path form of a node id and cannot be a name");
                text
            },
        }
    }
}

/// The nodes of one field, the edges between them, and the node the field's value is read
/// from.
#[derive(Debug)]
pub struct FieldGraph {
    /// Every node, in no meaningful order: evaluation order is derived, not stored.
    pub nodes: Vec<GraphNode>,
    /// The node the field's value is read from. A graph with none bakes zero.
    pub output: Option<NodeId>,
    /// The id the next node created will take. Only ever increases.
    pub next_id: u32,
}

/// The place of the first node of an id at or after `from`.
pub open spec fn placed_from(nodes: Seq<GraphNode>, id: int, from: int) -> Option<int>
    decreases nodes.len() - from,
{
    if from < 0 || from >= nodes.len() {
        None
    } else if nodes[from].id.0 == id {
        Some(from)
    } else {
        placed_from(nodes, id, from + 1)
    }
}

/// The place of the node of an id.
pub open spec fn placed(nodes: Seq<GraphNode>, id: int) -> Option<int> {
    placed_from(nodes, id, 0)
}

/// What stands where an id was found.
pub proof fn lemma_placed(nodes: Seq<GraphNode>, id: int, from: int)
    requires
        0 <= from,
    ensures
        placed_from(nodes, id, from) matches Some(i) ==> from <= i < nodes.len() && nodes[i].id.0
            == id && forall|j: int| from <= j < i ==> (#[trigger] nodes[j]).id.0 != id,
        placed_from(nodes, id, from) is None ==> forall|j: int|
            from <= j < nodes.len() ==> (#[trigger] nodes[j]).id.0 != id,
    decreases nodes.len() - from,
{
    if from < nodes.len() && nodes[from].id.0 != id {
        lemma_placed(nodes, id, from + 1);
    }
}

/// What each node is wired to, bypassed or not.
pub open spec fn wired(nodes: Seq<GraphNode>) -> Reads {
    |id: int|
        match placed(nodes, id) {
            Some(i) => connected(nodes[i].inputs@),
            None => Seq::empty(),
        }
}

/// What each node actually reads: a bypassed node only the first pin it passes through.
pub open spec fn contributing(nodes: Seq<GraphNode>) -> Reads {
    |id: int|
        match placed(nodes, id) {
            Some(i) => if nodes[i].bypassed {
                connected(nodes[i].inputs@.take(if nodes[i].inputs@.len() > 0 {
                    1
                } else {
                    0
                }))
            } else {
                connected(nodes[i].inputs@)
            },
            None => Seq::empty(),
        }
}

/// What each node reads, the last first.
pub open spec fn walked(nodes: Seq<GraphNode>) -> Reads {
    |id: int| contributing(nodes)(id).reverse()
}

/// Whether a name is the identifier form of a control path.
pub open spec fn id_path(name: Seq<char>) -> bool {
    &&& name.len() > 1
    &&& name[0] == 'n'
    &&& forall|i: int| 1 <= i < name.len() ==> digit_char(#[trigger] name[i])
}

/// Whether a name is the identifier form of a control path: an `n` and decimal digits.
pub fn is_id_path(name: &str) -> (answer: bool)
    ensures
        answer == id_path(name@),
{
    let chars: Vec<char> = chars_of(name);
    if chars.len() < 2 || chars[0] != 'n' {
        return false;
    }
    let mut i: usize = 1;
    while i < chars.len()
        invariant
            1 <= i <= chars@.len(),
            chars@ == name@,
            forall|j: int| 1 <= j < i ==> digit_char(#[trigger] name@[j]),
        decreases chars@.len() - i,
    {
        let c: char = chars[i];
        if !('0' <= c && c <= '9') {
            return false;
        }
        i = i + 1;
    }
    true
}

/// Whether a list holds an id.
fn has_id(list: &Vec<NodeId>, id: NodeId) -> (answer: bool)
    ensures
        answer == numbers_of(list@).contains(id.0 as int),
{
    let mut i: usize = 0;
    while i < list.len()
        invariant
            i <= list@.len(),
            forall|j: int| 0 <= j < i ==> numbers_of(list@)[j] != id.0,
        decreases list@.len() - i,
    {
        if list[i] == id {
            assert(numbers_of(list@)[i as int] == id.0);
            return true;
        }
        i = i + 1;
    }
    false
}

/// A chain from a marked thing stays on marked things where the marks take in all that
/// they read.
proof fn lemma_marks_cover(reads: Reads, marked: Seq<int>, chain: Seq<int>, a: int, b: int)
    requires
        leads_by(reads, chain, a, b),
        marked.contains(a),
        forall|x: int, y: int|
            marked.contains(x) && #[trigger] reads_one(reads, x, y) ==> marked.contains(y),
    ensures
        marked.contains(b),
    decreases chain.len(),
{
    if chain.len() > 1 {
        let rest = chain.skip(1);
        assert(reads_one(reads, chain[0], chain[0int + 1]));
        assert forall|i: int| 0 <= i < rest.len() - 1 implies reads_one(
            reads,
            #[trigger] rest[i],
            rest[i + 1],
        ) by {
            assert(reads_one(reads, chain[i + 1], chain[i + 1 + 1]));
        }
        assert(rest.last() == chain.last());
        lemma_marks_cover(reads, marked, rest, chain[1], b);
    }
}

impl FieldGraph {
    /// An empty graph: no nodes, no output.
    pub fn new() -> (graph: FieldGraph)
        ensures
            graph.nodes@.len() == 0,
            graph.output is None,
            graph.next_id == 0,
    {
        FieldGraph { nodes: Vec::new(), output: None, next_id: 0 }
    }

    pub(crate) fn index_of(&self, id: NodeId) -> (answer: Option<usize>)
        ensures
            match answer {
                Some(i) => placed(self.nodes@, id.0 as int) == Some(i as int) && i
                    < self.nodes@.len() && self.nodes@[i as int].id == id,
                None => placed(self.nodes@, id.0 as int) is None,
            },
    {
        let mut i: usize = 0;
        while i < self.nodes.len()
            invariant
                i <= self.nodes@.len(),
                placed(self.nodes@, id.0 as int) == placed_from(
                    self.nodes@,
                    id.0 as int,
                    i as int,
                ),
            decreases self.nodes@.len() - i,
        {
            if self.nodes[i].id == id {
                return Some(i);
            }
            i = i + 1;
        }
        None
    }

    /// The node with that id.
    pub fn node(&self, id: NodeId) -> (answer: Option<&GraphNode>)
        ensures
            match answer {
                Some(node) => placed(self.nodes@, id.0 as int) is Some && *node
                    == self.nodes@[placed(self.nodes@, id.0 as int)->0] && node.id == id,
                None => placed(self.nodes@, id.0 as int) is None,
            },
    {
        match self.index_of(id) {
            Some(i) => Some(&self.nodes[i]),
            None => None,
        }
    }

    /// The inputs a node actually contributes, which for a bypassed node is only the first
    /// pin it passes through.
    pub fn effective_sources(&self, id: NodeId) -> (list: Vec<NodeId>)
        ensures
            numbers_of(list@) == contributing(self.nodes@)(id.0 as int),
    {
        match self.index_of(id) {
            Some(i) => {
                let node: &GraphNode = &self.nodes[i];
                if node.bypassed {
                    let mut list: Vec<NodeId> = Vec::new();
                    let ghost pins = node.inputs@;
                    if node.inputs.len() > 0 {
                        proof {
                            assert(pins.take(1).drop_last() =~= Seq::<Option<NodeId>>::empty());
                            assert(connected(Seq::<Option<NodeId>>::empty()) =~= Seq::empty());
                        }
                        if let Some(first) = node.inputs[0] {
                            list.push(first);
                            proof {
                                assert(numbers_of(list@) =~= connected(pins.take(1)));
                            }
                        } else {
                            proof {
                                assert(numbers_of(list@) =~= connected(pins.take(1)));
                            }
                        }
                    } else {
                        proof {
                            assert(pins.take(0) =~= Seq::<Option<NodeId>>::empty());
                            assert(numbers_of(list@) =~= connected(pins.take(0)));
                        }
                    }
                    list
                } else {
                    node.sources()
                }
            },
            None => {
                let list: Vec<NodeId> = Vec::new();
                proof {
                    assert(numbers_of(list@) =~= Seq::<int>::empty());
                }
                list
            },
        }
    }

    /// Whether `target` can be reached from `start` by walking inputs, that is, whether
    /// `start` already depends on `target`.
    ///
    /// Reads every edge regardless of bypass, because bypass is not a property of the
    /// graph's shape.
    pub fn reaches(&self, start: NodeId, target: NodeId) -> (answer: bool)
        ensures
            answer == leads(wired(self.nodes@), start.0 as int, target.0 as int),
    {
        let ghost reads = wired(self.nodes@);
        let mut stack: Vec<NodeId> = Vec::new();
        stack.push(start);
        let mut seen: Vec<NodeId> = Vec::new();
        proof {
            assert(leads_by(reads, seq![start.0 as int], start.0 as int, start.0 as int));
            assert(numbers_of(stack@)[0] == start.0);
        }
        while stack.len() > 0
            invariant
                reads == wired(self.nodes@),
                forall|i: int|
                    0 <= i < stack@.len() ==> leads(
                        reads,
                        start.0 as int,
                        (#[trigger] stack@[i]).0 as int,
                    ),
                forall|i: int|
                    0 <= i < seen@.len() ==> leads(
                        reads,
                        start.0 as int,
                        (#[trigger] seen@[i]).0 as int,
                    ) && seen@[i] != target,
                numbers_of(seen@).no_duplicates(),
                numbers_of(seen@).contains(start.0 as int) || numbers_of(stack@).contains(
                    start.0 as int,
                ),
                forall|x: int, y: int|
                    numbers_of(seen@).contains(x) && #[trigger] reads_one(reads, x, y)
                        ==> numbers_of(seen@).contains(y) || numbers_of(stack@).contains(y),
            decreases all_ids() - seen@.len(), stack@.len(),
        {
            let ghost before = stack@;
            let id: NodeId = match stack.pop() {
                Some(id) => id,
                None => {
                    return false;
                },
            };
            proof {
                assert(before[before.len() - 1] == id);
                assert(before =~= stack@.push(id));
                assert forall|y: int| numbers_of(before).contains(y) implies y == id.0
                    || numbers_of(stack@).contains(y) by {
                    let k = choose|k: int| 0 <= k < before.len() && numbers_of(before)[k] == y;
                    if k < stack@.len() {
                        assert(numbers_of(stack@)[k] == y);
                    }
                }
            }
            if id == target {
                return true;
            }
            if has_id(&seen, id) {
                continue ;
            }
            proof {
                let done = numbers_of(seen@);
                assert forall|i: int| 0 <= i < done.len() implies 0 <= #[trigger] done[i]
                    < all_ids() by {}
                lemma_distinct_leave_room(done, all_ids() as int, id.0 as int);
            }
            let ghost seen_before = seen@;
            seen.push(id);
            proof {
                assert(numbers_of(seen@) =~= numbers_of(seen_before).push(id.0 as int));
                assert forall|i: int, j: int|
                    0 <= i < seen@.len() && 0 <= j < seen@.len() && i != j implies numbers_of(
                    seen@,
                )[i] != numbers_of(seen@)[j] by {
                    if i < seen_before.len() && j < seen_before.len() {
                        assert(numbers_of(seen_before)[i] != numbers_of(seen_before)[j]);
                    } else if i < seen_before.len() {
                        assert(numbers_of(seen_before).contains(numbers_of(seen_before)[i]));
                    } else {
                        assert(numbers_of(seen_before).contains(numbers_of(seen_before)[j]));
                    }
                }
                assert(numbers_of(seen@)[seen_before.len() as int] == id.0);
                assert forall|y: int| numbers_of(seen_before).contains(y) implies numbers_of(
                    seen@,
                ).contains(y) by {
                    let k = choose|k: int|
                        0 <= k < seen_before.len() && numbers_of(seen_before)[k] == y;
                    assert(numbers_of(seen@)[k] == y);
                }
            }
            let ghost stack_before = stack@;
            if let Some(node) = self.node(id) {
                let mut sources: Vec<NodeId> = node.sources();
                proof {
                    assert(reads(id.0 as int) == connected(node.inputs@));
                }
                let ghost added = sources@;
                stack.append(&mut sources);
                proof {
                    assert forall|i: int| 0 <= i < stack@.len() implies leads(
                        reads,
                        start.0 as int,
                        (#[trigger] stack@[i]).0 as int,
                    ) by {
                        if i < stack_before.len() {
                            assert(stack@[i] == stack_before[i]);
                            assert(before[i] == stack_before[i]);
                        } else {
                            let y = added[i - stack_before.len()];
                            assert(numbers_of(added)[i - stack_before.len()] == y.0);
                            assert(reads(id.0 as int).contains(y.0 as int));
                            assert(reads_one(reads, id.0 as int, y.0 as int));
                            lemma_leads_further(
                                reads,
                                start.0 as int,
                                id.0 as int,
                                y.0 as int,
                            );
                        }
                    }
                    assert forall|y: int| #[trigger] reads_one(
                        reads,
                        id.0 as int,
                        y,
                    ) implies numbers_of(stack@).contains(y) by {
                        let k = choose|k: int| 0 <= k < added.len() && numbers_of(added)[k] == y;
                        assert(numbers_of(stack@)[stack_before.len() + k] == y);
                    }
                    assert forall|y: int| numbers_of(stack_before).contains(y) implies numbers_of(
                        stack@,
                    ).contains(y) by {
                        let k = choose|k: int|
                            0 <= k < stack_before.len() && numbers_of(stack_before)[k] == y;
                        assert(numbers_of(stack@)[k] == y);
                    }
                }
            } else {
                proof {
                    assert(reads(id.0 as int).len() == 0);
                }
            }
            proof {
                assert forall|x: int, y: int|
                    numbers_of(seen@).contains(x) && #[trigger] reads_one(
                        reads,
                        x,
                        y,
                    ) implies numbers_of(seen@).contains(y) || numbers_of(stack@).contains(y) by {
                    if x != id.0 {
                        let k = choose|k: int| 0 <= k < seen@.len() && numbers_of(seen@)[k] == x;
                        assert(numbers_of(seen_before)[k] == x);
                    }
                }
            }
        }
        proof {
            let marked = numbers_of(seen@);
            assert(!numbers_of(stack@).contains(start.0 as int));
            if leads(reads, start.0 as int, target.0 as int) {
                let chain = choose|chain: Seq<int>| #[trigger]
                    leads_by(reads, chain, start.0 as int, target.0 as int);
                assert forall|x: int, y: int|
                    marked.contains(x) && #[trigger] reads_one(
                        reads,
                        x,
                        y,
                    ) implies marked.contains(y) by {
                    assert(!numbers_of(stack@).contains(y));
                }
                lemma_marks_cover(reads, marked, chain, start.0 as int, target.0 as int);
                let k = choose|k: int| 0 <= k < seen@.len() && numbers_of(seen@)[k] == target.0;
                assert(seen@[k] == target);
            }
        }
        false
    }
}


/// A walk: the nodes still to visit or to leave, the last one next.
pub type Walk = Seq<(int, bool)>;

/// What a walk comes to from where it stands.
spec fn resumed(reads: Reads, limit: nat, walk: Walk, done: Seq<int>, open: Seq<int>) -> Result<
    Seq<int>,
    Seq<int>,
>
    decreases walk.len(),
{
    if walk.len() == 0 {
        Ok(done)
    } else {
        let (id, leaving) = walk.last();
        let rest = walk.drop_last();
        if leaving {
            resumed(reads, limit, rest, done.push(id), open.drop_last())
        } else {
            match visited(reads, limit, id, done, open) {
                Ok(after) => resumed(reads, limit, rest, after, open),
                Err(circle) => Err(circle),
            }
        }
    }
}

/// The nodes a walk has still to leave.
spec fn to_leave(walk: Walk) -> Seq<int>
    decreases walk.len(),
{
    if walk.len() == 0 {
        Seq::empty()
    } else if walk.last().1 {
        to_leave(walk.drop_last()).push(walk.last().0)
    } else {
        to_leave(walk.drop_last())
    }
}

spec fn to_visit(list: Seq<int>) -> Walk {
    list.map_values(|id: int| (id, false))
}

/// Visiting what was put on the walk comes to visiting it in turn, the last first.
proof fn lemma_resume_list(
    reads: Reads,
    limit: nat,
    base: Walk,
    list: Seq<int>,
    done: Seq<int>,
    open: Seq<int>,
)
    ensures
        resumed(reads, limit, base + to_visit(list), done, open) == (match visited_all(
            reads,
            limit,
            list.reverse(),
            done,
            open,
        ) {
            Ok(after) => resumed(reads, limit, base, after, open),
            Err(circle) => Err(circle),
        }),
        to_leave(base + to_visit(list)) == to_leave(base),
    decreases list.len(),
{
    if list.len() == 0 {
        assert(base + to_visit(list) =~= base);
        assert(list.reverse() =~= Seq::<int>::empty());
    } else {
        let walk = base + to_visit(list);
        let shorter = list.drop_last();
        assert(walk.drop_last() =~= base + to_visit(shorter));
        assert(walk.last() == (list.last(), false));
        assert(list.reverse()[0] == list.last());
        assert(list.reverse().skip(1) =~= shorter.reverse());
        match visited(reads, limit, list.last(), done, open) {
            Ok(after) => {
                lemma_resume_list(reads, limit, base, shorter, after, open);
            },
            Err(_) => {
                lemma_resume_list(reads, limit, base, shorter, done, open);
            },
        }
    }
}

/// What a walk holds as pairs of numbers.
spec fn walk_view(stack: Seq<(NodeId, bool)>) -> Walk {
    stack.map_values(|entry: (NodeId, bool)| (entry.0.0 as int, entry.1))
}

/// What the evaluation order of a graph comes to: the nodes in order, or the circle that
/// the walk ran into.
pub open spec fn evaluated(nodes: Seq<GraphNode>, output: NodeId) -> Result<Seq<int>, Seq<int>> {
    visited(walked(nodes), all_ids(), output.0 as int, Seq::empty(), Seq::empty())
}

/// Where a bypassed node's value comes from, following bypassed nodes to what they pass
/// through. `seen` holds the nodes followed so far.
pub open spec fn passed_through(nodes: Seq<GraphNode>, id: int, seen: Seq<int>) -> Option<int>
    decreases all_ids() - seen.len(),
{
    if seen.contains(id) || seen.len() >= all_ids() {
        None
    } else {
        match placed(nodes, id) {
            None => None,
            Some(i) => if !nodes[i].bypassed {
                Some(id)
            } else if nodes[i].inputs@.len() > 0 {
                match nodes[i].inputs@[0] {
                    Some(first) => passed_through(nodes, first.0 as int, seen.push(id)),
                    None => None,
                }
            } else {
                None
            },
        }
    }
}

impl FieldGraph {
    /// Every node reachable from the output, in an order that puts each node after
    /// everything it reads.
    ///
    /// A bypassed node is walked through to the input it passes on, so a node only that
    /// node reached is not in the order and is evaluated never. A graph with no output
    /// yields an empty order rather than an error: it bakes zero.
    ///
    /// Fails with [`GraphError::WouldCycle`] naming the node the walk re-entered. An edit
    /// made through [`FieldGraph::connect`] cannot produce one; a loaded or hand-edited
    /// document can.
    pub fn evaluation_order(&self) -> (answer: Result<Vec<NodeId>, GraphError>)
        ensures
            match self.output {
                None => answer matches Ok(order) && order@.len() == 0,
                Some(output) => if placed(self.nodes@, output.0 as int) is None {
                    answer == Err::<Vec<NodeId>, GraphError>(GraphError::UnknownNode(output))
                } else {
                    match evaluated(self.nodes@, output) {
                        Ok(order) => answer matches Ok(list) && numbers_of(list@) == order,
                        Err(circle) => answer matches Err(GraphError::WouldCycle { from, to })
                            && from == to && from.0 == circle.last(),
                    }
                },
            },
    {
        let output: NodeId = match self.output {
            Some(output) => output,
            None => {
                return Ok(Vec::new());
            },
        };
        if self.node(output).is_none() {
            return Err(GraphError::UnknownNode(output));
        }
        let ghost reads = walked(self.nodes@);
        let ghost limit = all_ids();
        let ghost goal = evaluated(self.nodes@, output);
        let mut done: Vec<NodeId> = Vec::new();
        let mut open: Vec<NodeId> = Vec::new();
        let mut stack: Vec<(NodeId, bool)> = Vec::new();
        stack.push((output, false));
        proof {
            let walk = walk_view(stack@);
            reveal_with_fuel(resumed, 3);
            assert(walk =~= seq![(output.0 as int, false)]);
            assert(walk.drop_last() =~= Seq::<(int, bool)>::empty());
            assert(numbers_of(done@) =~= Seq::<int>::empty());
            assert(numbers_of(open@) =~= Seq::<int>::empty());
            assert(to_leave(walk.drop_last()) =~= Seq::<int>::empty());
            assert(to_leave(walk) =~= Seq::<int>::empty());
        }
        while stack.len() > 0
            invariant
                reads == walked(self.nodes@),
                limit == all_ids(),
                goal == evaluated(self.nodes@, output),
                self.output == Some(output),
                placed(self.nodes@, output.0 as int) is Some,
                goal == resumed(
                    reads,
                    limit,
                    walk_view(stack@),
                    numbers_of(done@),
                    numbers_of(open@),
                ),
                to_leave(walk_view(stack@)) == numbers_of(open@),
                (numbers_of(done@) + numbers_of(open@)).no_duplicates(),
            decreases all_ids() - done@.len() - open@.len(), stack@.len(),
        {
            let ghost before = stack@;
            let ghost walk = walk_view(stack@);
            let ghost done_ids = numbers_of(done@);
            let ghost open_ids = numbers_of(open@);
            let (id, leaving): (NodeId, bool) = match stack.pop() {
                Some(entry) => entry,
                None => {
                    return Ok(done);
                },
            };
            proof {
                assert(walk.last() == (id.0 as int, leaving));
                assert(walk_view(stack@) =~= walk.drop_last());
            }
            if leaving {
                let _ = open.pop();
                done.push(id);
                proof {
                    assert(open_ids == to_leave(walk.drop_last()).push(id.0 as int));
                    assert(numbers_of(open@) =~= open_ids.drop_last());
                    assert(numbers_of(done@) =~= done_ids.push(id.0 as int));
                    assert(to_leave(walk.drop_last()) =~= numbers_of(open@));
                    let both = done_ids + open_ids;
                    let now = numbers_of(done@) + numbers_of(open@);
                    assert forall|i: int, j: int|
                        0 <= i < now.len() && 0 <= j < now.len() && i != j implies now[i]
                        != now[j] by {
                        let n = done_ids.len() as int;
                        let m = both.len() - 1;
                        let a = if i < n {
                            i
                        } else if i == n {
                            m
                        } else {
                            i - 1
                        };
                        let b = if j < n {
                            j
                        } else if j == n {
                            m
                        } else {
                            j - 1
                        };
                        assert(now[i] == both[a]);
                        assert(now[j] == both[b]);
                        assert(a != b);
                    }
                }
                continue ;
            }
            if has_id(&done, id) {
                continue ;
            }
            if has_id(&open, id) {
                proof {
                    let circle = open_ids.skip(
                        open_ids.index_of_first(id.0 as int)->0,
                    ).push(id.0 as int);
                    assert(goal == Err::<Seq<int>, Seq<int>>(circle));
                    assert(circle.last() == id.0);
                }
                return Err(GraphError::WouldCycle { from: id, to: id });
            }
            proof {
                let both = done_ids + open_ids;
                assert forall|i: int| 0 <= i < both.len() implies 0 <= #[trigger] both[i]
                    < all_ids() by {}
                if both.contains(id.0 as int) {
                    let k = choose|k: int| 0 <= k < both.len() && both[k] == id.0;
                    if k < done_ids.len() {
                        assert(done_ids[k] == id.0);
                    } else {
                        assert(open_ids[k - done_ids.len()] == id.0);
                    }
                }
                lemma_distinct_leave_room(both, all_ids() as int, id.0 as int);
            }
            let ghost rest = walk.drop_last();
            let mut sources: Vec<NodeId> = self.effective_sources(id);
            let ghost list = numbers_of(sources@);
            open.push(id);
            stack.push((id, true));
            let ghost base = walk_view(stack@);
            proof {
                assert(base =~= rest.push((id.0 as int, true)));
                assert(numbers_of(open@) =~= open_ids.push(id.0 as int));
                assert(base.drop_last() =~= rest);
                assert(to_leave(base) =~= open_ids.push(id.0 as int));
                assert(list.take(0) =~= Seq::<int>::empty());
                assert(base + to_visit(list.take(0)) =~= base);
            }
            let mut k: usize = 0;
            while k < sources.len()
                invariant
                    k <= sources@.len(),
                    list == numbers_of(sources@),
                    walk_view(stack@) == base + to_visit(list.take(k as int)),
                decreases sources@.len() - k,
            {
                let ghost so_far = stack@;
                stack.push((sources[k], false));
                proof {
                    assert(walk_view(stack@) =~= walk_view(so_far).push(
                        (sources@[k as int].0 as int, false),
                    ));
                    assert(list.take(k + 1) =~= list.take(k as int).push(list[k as int]));
                    assert(to_visit(list.take(k + 1)) =~= to_visit(list.take(k as int)).push(
                        (list[k as int], false),
                    ));
                    assert(walk_view(stack@) =~= base + to_visit(list.take(k + 1)));
                }
                k = k + 1;
            }
            proof {
                assert(list.take(k as int) =~= list);
                assert(reads(id.0 as int) == list.reverse());
                let open2 = open_ids.push(id.0 as int);
                lemma_resume_list(reads, limit, base, list, done_ids, open2);
                assert(open2.drop_last() =~= open_ids);
                assert(open_ids.len() < limit);
                let both = done_ids + open_ids;
                let now = done_ids + open2;
                assert forall|i: int, j: int|
                    0 <= i < now.len() && 0 <= j < now.len() && i != j implies now[i] != now[j] by {
                    if i < both.len() {
                        assert(now[i] == both[i]);
                        assert(both.contains(both[i]));
                    }
                    if j < both.len() {
                        assert(now[j] == both[j]);
                        assert(both.contains(both[j]));
                    }
                }
            }
        }
        Ok(done)
    }

    /// The node the field's value actually comes from, following bypassed nodes to what
    /// they pass through.
    ///
    /// This, not [`FieldGraph::output`], is the node whose values the field bakes: a
    /// bypassed node at the output emits its input's values, not its own.
    pub fn effective_output(&self) -> (answer: Option<NodeId>)
        ensures
            match self.output {
                None => answer is None,
                Some(output) => match passed_through(
                    self.nodes@,
                    output.0 as int,
                    Seq::empty(),
                ) {
                    Some(id) => answer matches Some(found) && found.0 == id,
                    None => answer is None,
                },
            },
    {
        let output: NodeId = match self.output {
            Some(output) => output,
            None => {
                return None;
            },
        };
        let mut seen: Vec<NodeId> = Vec::new();
        let mut current: NodeId = output;
        proof {
            assert(numbers_of(seen@) =~= Seq::<int>::empty());
        }
        loop
            invariant
                self.output == Some(output),
                passed_through(self.nodes@, output.0 as int, Seq::empty()) == passed_through(
                    self.nodes@,
                    current.0 as int,
                    numbers_of(seen@),
                ),
                numbers_of(seen@).no_duplicates(),
            decreases all_ids() - seen@.len(),
        {
            if has_id(&seen, current) {
                return None;
            }
            let ghost ids = numbers_of(seen@);
            proof {
                assert forall|i: int| 0 <= i < ids.len() implies 0 <= #[trigger] ids[i]
                    < all_ids() by {}
                lemma_distinct_leave_room(ids, all_ids() as int, current.0 as int);
            }
            seen.push(current);
            proof {
                assert(numbers_of(seen@) =~= ids.push(current.0 as int));
                let now = numbers_of(seen@);
                assert forall|i: int, j: int|
                    0 <= i < now.len() && 0 <= j < now.len() && i != j implies now[i] != now[j] by {
                    if i < ids.len() {
                        assert(ids.contains(ids[i]));
                    }
                    if j < ids.len() {
                        assert(ids.contains(ids[j]));
                    }
                }
            }
            match self.node(current) {
                None => {
                    return None;
                },
                Some(node) => {
                    if !node.bypassed {
                        return Some(current);
                    }
                    if node.inputs.len() == 0 {
                        return None;
                    }
                    match node.inputs[0] {
                        Some(first) => {
                            current = first;
                        },
                        None => {
                            return None;
                        },
                    }
                },
            }
        }
    }
}

} // verus!
