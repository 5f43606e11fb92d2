//! A named graph of nodes, and the raster the graph bakes onto.

use vstd::prelude::*;
use crate::graph::{evaluated, ids_view, lemma_placed, placed, FieldGraph, GraphNode, NodeId, NodeOp};
use crate::graph_edit::{read_along, unwired};
use crate::layer::{
    copy_ids, copy_texts, copy_values, ordered_range, resolution, texels_of, texts_view,
    DEFAULT_CONTOUR_INTERVAL, DEFAULT_LIGHT_AZIMUTH, UNIT,
};
use crate::names::{FieldId, FieldRole};
use crate::raster::{Raster, UVec2};
use crate::shader::ShaderLayer;
use crate::single::Single;

verus! {

/// A named graph of nodes together with everything needed to evaluate it onto its own raster,
/// plus that raster once it has been baked.
///
/// The baked raster is derived from the graph and is re-obtained by baking, so a loaded
/// document starts with every field empty and sampling as zero.
#[derive(Debug)]
pub struct Field {
    /// The name this field is referenced by.
    pub id: FieldId,
    /// What the bake may do with the field.
    pub role: FieldRole,
    /// Resolution: one texel per cell at zero, per two to the power of `shift` cells above
    /// that.
    pub shift: u8,
    /// The interval baked values are clamped into. Accepted in either order; read it through
    /// [`Field::bounds`] rather than directly.
    pub range: (Single, Single),
    /// For whatever consumes a baked terrain to decide what an exported field means.
    pub export: bool,
    /// Whether the map lights this field's colour ramp by the field's own normal.
    pub hillshade: bool,
    /// The compass bearing the hillshade light comes from, in degrees.
    pub light_azimuth: Single,
    /// Whether the map draws an iso-line at every multiple of the interval.
    pub contours: bool,
    /// The spacing between iso-lines, in the field's own units.
    pub contour_interval: Single,
    /// What the field's value is built out of. Evaluation order is derived from the edges,
    /// not stored.
    pub graph: FieldGraph,
    /// The values from the last bake.
    pub baked: Raster<Single>,
}

/// The fields that the nodes of a graph reference, in order, leaving out bypassed nodes.
pub open spec fn referenced(nodes: Seq<GraphNode>) -> Seq<Seq<char>>
    decreases nodes.len(),
{
    if nodes.len() == 0 {
        Seq::empty()
    } else {
        let rest = referenced(nodes.drop_last());
        let node = nodes.last();
        match node.op {
            NodeOp::FieldRef(id) => if node.bypassed {
                rest
            } else {
                rest.push(id@)
            },
            NodeOp::Shader(_) => rest,
        }
    }
}

/// Whether a shader layer is a copy of what a person authored of another: the file, the
/// parameter values and what the file declares, with no values.
pub open spec fn authored_shader(from: ShaderLayer, to: ShaderLayer) -> bool {
    &&& to.file@ == from.file@
    &&& to.params@ == from.params@
    &&& to.params.wf()
    &&& texts_view(to.inputs@) == texts_view(from.inputs@)
    &&& to.layers@ == from.layers@
    &&& to.values.wf()
    &&& to.values.size == (UVec2 { x: 0, y: 0 })
    &&& to.stamp is None
}

/// Whether an op is a copy of what a person authored of another.
pub open spec fn authored_op(from: NodeOp, to: NodeOp) -> bool {
    match (from, to) {
        (NodeOp::Shader(a), NodeOp::Shader(b)) => authored_shader(a, b),
        (NodeOp::FieldRef(a), NodeOp::FieldRef(b)) => a@ == b@,
        _ => false,
    }
}

/// Whether a node is a copy of what a person authored of another.
pub open spec fn authored_node(from: GraphNode, to: GraphNode) -> bool {
    &&& to.id == from.id
    &&& match (from.name, to.name) {
        (Some(a), Some(b)) => a@ == b@,
        (None, None) => true,
        _ => false,
    }
    &&& authored_op(from.op, to.op)
    &&& to.inputs@ == from.inputs@
    &&& to.bypassed == from.bypassed
    &&& to.position == from.position
}

/// Whether the parameter values of every shader node are well formed.
pub open spec fn params_fit(nodes: Seq<GraphNode>) -> bool {
    forall|i: int|
        0 <= i < nodes.len() ==> match (#[trigger] nodes[i]).op {
            NodeOp::Shader(shader) => shader.params.wf(),
            NodeOp::FieldRef(_) => true,
        }
}

/// What the node at a place of a chain of sums is, the chain starting at the id `first`: the
/// first op and then, for each op after it, the op and the node that adds it to what came
/// before.
pub open spec fn chain_node(
    node: GraphNode,
    at: int,
    first: int,
    ops: Seq<NodeOp>,
    add: NodeOp,
) -> bool {
    &&& node.id.0 == first + at
    &&& node.name is None
    &&& !node.bypassed
    &&& node.position == (Single(0), Single(0))
    &&& if at == 0 || at % 2 == 1 {
        &&& node.op == ops[(at + 1) / 2]
        &&& node.inputs@ == Seq::new(node.op.pins(), |i: int| None::<NodeId>)
    } else {
        &&& authored_op(add, node.op)
        &&& node.inputs@ == seq![
            Some(NodeId((first + at - 2) as u32)),
            Some(NodeId((first + at - 1) as u32)),
        ]
    }
}

/// Whether a graph is another with a chain of sums added and read from its last node.
pub open spec fn chained_on(
    before: FieldGraph,
    after: FieldGraph,
    ops: Seq<NodeOp>,
    add: NodeOp,
) -> bool {
    let count = before.nodes@.len();
    if ops.len() == 0 {
        after == before
    } else {
        &&& after.next_id == before.next_id + 2 * ops.len() - 1
        &&& after.output == Some(NodeId((before.next_id + 2 * ops.len() - 2) as u32))
        &&& after.nodes@.len() == count + 2 * ops.len() - 1
        &&& after.nodes@.take(count as int) == before.nodes@
        &&& forall|k: int|
            0 <= k < 2 * ops.len() - 1 ==> chain_node(
                #[trigger] after.nodes@[count + k],
                k,
                before.next_id as int,
                ops,
                add,
            )
    }
}

/// Whether no node has an id and no pin is wired to it.
pub open spec fn is_free(nodes: Seq<GraphNode>, id: int) -> bool {
    &&& forall|i: int| 0 <= i < nodes.len() ==> (#[trigger] nodes[i]).id.0 != id
    &&& unwired(nodes, NodeId(id as u32))
}

fn copy_op(op: &NodeOp) -> (copy: NodeOp)
    requires
        match op {
            NodeOp::Shader(shader) => shader.params.wf(),
            NodeOp::FieldRef(_) => true,
        },
    ensures
        authored_op(*op, copy),
{
    match op {
        NodeOp::Shader(shader) => NodeOp::Shader(
            ShaderLayer {
                file: shader.file.clone(),
                params: copy_values(&shader.params),
                inputs: copy_texts(&shader.inputs),
                layers: copy_ids(&shader.layers),
                values: Raster::empty(),
                stamp: None,
            },
        ),
        NodeOp::FieldRef(id) => NodeOp::FieldRef(id.clone()),
    }
}

/// A node of another id that is not wired to one leaves it free.
proof fn lemma_push_keeps_free(nodes: Seq<GraphNode>, node: GraphNode, id: int)
    requires
        is_free(nodes, id),
        node.id.0 != id,
        forall|p: int|
            0 <= p < node.inputs@.len() ==> (#[trigger] node.inputs@[p]) != Some(
                NodeId(id as u32),
            ),
    ensures
        is_free(nodes.push(node), id),
{
    let more = nodes.push(node);
    assert forall|i: int| 0 <= i < more.len() implies (#[trigger] more[i]).id.0 != id by {
        if i < nodes.len() {
            assert(more[i] == nodes[i]);
        }
    }
    assert forall|i: int, p: int|
        0 <= i < more.len() && 0 <= p < more[i].inputs@.len() implies (
    #[trigger] more[i].inputs@[p]) != Some(NodeId(id as u32)) by {
        if i < nodes.len() {
            assert(more[i] == nodes[i]);
            assert(nodes[i].inputs@[p] != Some(NodeId(id as u32)));
        }
    }
}

/// A copy of an op carries as many pins as the op.
proof fn lemma_copy_keeps_pins(from: NodeOp, to: NodeOp)
    requires
        authored_op(from, to),
    ensures
        to.pins() == from.pins(),
{
    match (from, to) {
        (NodeOp::Shader(a), NodeOp::Shader(b)) => {
            assert(texts_view(a.inputs@).len() == a.inputs@.len());
            assert(texts_view(b.inputs@).len() == b.inputs@.len());
        },
        _ => {},
    }
}

fn copy_inputs(inputs: &Vec<Option<NodeId>>) -> (copy: Vec<Option<NodeId>>)
    ensures
        copy@ == inputs@,
{
    let mut copy: Vec<Option<NodeId>> = Vec::new();
    let mut i: usize = 0;
    while i < inputs.len()
        invariant
            i <= inputs@.len(),
            copy@ == inputs@.take(i as int),
        decreases inputs@.len() - i,
    {
        proof {
            assert(inputs@.take(i + 1) =~= inputs@.take(i as int).push(inputs@[i as int]));
        }
        copy.push(inputs[i]);
        i = i + 1;
    }
    proof {
        assert(inputs@.take(i as int) =~= inputs@);
    }
    copy
}

impl Field {
    /// A field named `id` with an empty graph: role `Custom`, shift zero, range zero to one,
    /// not exported, not hillshaded, lit from the northwest, without contours at a tenth-unit
    /// interval, and unbaked, so it samples as zero until it is baked.
    pub fn new(id: &str) -> (field: Field)
        ensures
            field.id@ == id@,
            field.role == FieldRole::Custom,
            field.shift == 0,
            field.range == (Single(0), Single(UNIT)),
            !field.export,
            !field.hillshade,
            field.light_azimuth == Single(DEFAULT_LIGHT_AZIMUTH),
            !field.contours,
            field.contour_interval == Single(DEFAULT_CONTOUR_INTERVAL),
            field.graph.nodes@.len() == 0,
            field.graph.output is None,
            field.graph.next_id == 0,
            field.baked.wf(),
            field.baked.size == (UVec2 { x: 0, y: 0 }),
    {
        Field {
            id: FieldId::new(id),
            role: FieldRole::Custom,
            shift: 0,
            range: (Single(0), Single(UNIT)),
            export: false,
            hillshade: false,
            light_azimuth: Single(DEFAULT_LIGHT_AZIMUTH),
            contours: false,
            contour_interval: Single(DEFAULT_CONTOUR_INTERVAL),
            graph: FieldGraph::new(),
            baked: Raster::empty(),
        }
    }

    /// Sets the role. Does not check what a document asks of roles; a conflict surfaces at
    /// plan time.
    pub fn with_role(self, role: FieldRole) -> (field: Field)
        ensures
            field == (Field { role, ..self }),
    {
        Field { role, ..self }
    }

    /// Sets [`Field::export`].
    pub fn with_export(self, export: bool) -> (field: Field)
        ensures
            field == (Field { export, ..self }),
    {
        Field { export, ..self }
    }

    /// Sets the resolution shift.
    pub fn with_shift(self, shift: u8) -> (field: Field)
        ensures
            field == (Field { shift, ..self }),
    {
        Field { shift, ..self }
    }

    /// Sets the clamp interval. Either order is accepted.
    pub fn with_range(self, range: (Single, Single)) -> (field: Field)
        ensures
            field == (Field { range, ..self }),
    {
        Field { range, ..self }
    }

    /// Adds one node of `op` and reads the field from it.
    ///
    /// The one-node graph a field starts as: a field that is exactly one op.
    pub fn with_op(self, op: NodeOp) -> (field: Field)
        requires
            self.graph.next_id < u32::MAX,
        ensures
            field == (Field { graph: field.graph, ..self }),
            field.graph.next_id == self.graph.next_id + 1,
            field.graph.output == Some(NodeId(self.graph.next_id)),
            field.graph.nodes@ == self.graph.nodes@.push(field.graph.nodes@.last()),
            field.graph.nodes@.last().id == NodeId(self.graph.next_id),
            field.graph.nodes@.last().op == op,
            field.graph.nodes@.last().name is None,
            !field.graph.nodes@.last().bypassed,
            field.graph.nodes@.last().inputs@ == Seq::new(op.pins(), |i: int| None::<NodeId>),
            field.graph.nodes@.last().position == (Single(0), Single(0)),
            self.graph.wf() ==> field.graph.wf(),
    {
        let mut field: Field = self;
        let id: NodeId = field.graph.add_node(op, (Single(0), Single(0)));
        field.graph.output = Some(id);
        field
    }

    /// A field whose value is the sum of `ops`, in the order given.
    ///
    /// The ops are added left to right by nodes of `add`, the op of two pins that adds what is
    /// wired into them, and the field reads the total. With no ops nothing is added.
    pub fn with_sum(self, ops: Vec<NodeOp>, add: &NodeOp) -> (field: Field)
        requires
            self.graph.next_id + 2 * ops@.len() <= u32::MAX + 1,
            forall|id: int|
                self.graph.next_id <= id < self.graph.next_id + 2 * ops@.len() - 1
                    ==> #[trigger] is_free(self.graph.nodes@, id),
            add.pins() == 2,
            match add {
                NodeOp::Shader(shader) => shader.params.wf(),
                NodeOp::FieldRef(_) => true,
            },
        ensures
            field == (Field { graph: field.graph, ..self }),
            self.graph.wf() ==> field.graph.wf(),
            chained_on(self.graph, field.graph, ops@, *add),
    {
        let mut field: Field = self;
        let mut rest: Vec<NodeOp> = ops;
        let ghost all = rest@;
        let ghost before = field.graph;
        let ghost first = before.next_id as int;
        let ghost count = before.nodes@.len() as int;
        let none: Vec<NodeId> = Vec::new();
        let mut under: Option<NodeId> = None;
        let ghost mut done: int = 0;
        proof {
            assert(all.skip(0) =~= all);
            assert(before.nodes@.take(count) =~= before.nodes@);
        }
        while rest.len() > 0
            invariant
                0 <= done <= all.len(),
                rest@ == all.skip(done),
                none@.len() == 0,
                first == before.next_id,
                count == before.nodes@.len(),
                first + 2 * all.len() <= u32::MAX + 1,
                add.pins() == 2,
                match add {
                    NodeOp::Shader(shader) => shader.params.wf(),
                    NodeOp::FieldRef(_) => true,
                },
                field == (Field { graph: field.graph, ..self }),
                before == self.graph,
                self.graph.wf() ==> field.graph.wf(),
                forall|id: int|
                    field.graph.next_id <= id < first + 2 * all.len() - 1 ==> #[trigger] is_free(
                        field.graph.nodes@,
                        id,
                    ),
                done == 0 ==> field.graph == before && under is None,
                done > 0 ==> {
                    &&& field.graph.next_id == first + 2 * done - 1
                    &&& under == Some(NodeId((first + 2 * done - 2) as u32))
                    &&& field.graph.nodes@.len() == count + 2 * done - 1
                    &&& field.graph.nodes@.take(count) == before.nodes@
                    &&& forall|k: int|
                        0 <= k < 2 * done - 1 ==> chain_node(
                            #[trigger] field.graph.nodes@[count + k],
                            k,
                            first,
                            all,
                            *add,
                        )
                },
            decreases rest@.len(),
        {
            let op: NodeOp = rest.remove(0);
            proof {
                assert(op == all[done]);
                assert(rest@ =~= all.skip(done + 1));
            }
            let ghost held = field.graph.nodes@;
            let ghost next = field.graph.next_id as int;
            proof {
                assert(is_free(held, next));
                lemma_placed(held, next, 0);
            }
            let id: NodeId = field.graph.node_with(op, &none);
            let ghost grown = field.graph.nodes@;
            proof {
                assert forall|k: int|
                    next < k < first + 2 * all.len() - 1 implies #[trigger] is_free(grown, k) by {
                    assert(is_free(held, k));
                    lemma_push_keeps_free(held, grown.last(), k);
                }
            }
            under = match under {
                None => Some(id),
                Some(total) => {
                    let mut pair: Vec<NodeId> = Vec::new();
                    pair.push(total);
                    pair.push(id);
                    proof {
                        lemma_placed(grown, total.0 as int, 0);
                        lemma_placed(grown, id.0 as int, 0);
                        assert(held[count + 2 * done - 2] == grown[count + 2 * done - 2]);
                        assert(chain_node(held[count + (2 * done - 2)], 2 * done - 2, first, all, *add));
                        assert(grown[count + 2 * done - 2].id == total);
                        assert(grown.last().id == id);
                        assert(is_free(grown, next + 1));
                        lemma_placed(grown, next + 1, 0);
                    }
                    let join: NodeOp = copy_op(add);
                    proof {
                        lemma_copy_keeps_pins(*add, join);
                    }
                    Some(field.graph.node_with(join, &pair))
                },
            };
            proof {
                let now = field.graph.nodes@;
                if done > 0 {
                    assert forall|k: int|
                        next + 1 < k < first + 2 * all.len() - 1 implies #[trigger] is_free(
                        now,
                        k,
                    ) by {
                        assert(is_free(grown, k));
                        lemma_push_keeps_free(grown, now.last(), k);
                    }
                }
                assert(now.take(count) =~= before.nodes@) by {
                    assert forall|j: int| 0 <= j < count implies now[j] == before.nodes@[j] by {
                        assert(now[j] == grown[j] && grown[j] == held[j]);
                        assert(held.take(count)[j] == held[j]);
                    }
                }
                assert forall|k: int| 0 <= k < 2 * done + 1 implies chain_node(
                    #[trigger] now[count + k],
                    k,
                    first,
                    all,
                    *add,
                ) by {
                    if k < 2 * done - 1 {
                        assert(now[count + k] == held[count + k]);
                    } else if done == 0 || k == 2 * done - 1 {
                        assert(now[count + k] == grown.last());
                        assert((k + 1) / 2 == done);
                        assert(now[count + k].inputs@ =~= Seq::new(
                            op.pins(),
                            |i: int| None::<NodeId>,
                        ));
                    } else {
                        assert(k % 2 == 0);
                        assert(now[count + k].inputs@ =~= seq![
                            Some(NodeId((first + k - 2) as u32)),
                            Some(NodeId((first + k - 1) as u32)),
                        ]);
                    }
                }
                done = done + 1;
            }
        }
        if let Some(output) = under {
            proof {
                let nodes = field.graph.nodes@;
                lemma_placed(nodes, output.0 as int, 0);
                assert(chain_node(nodes[count + (2 * done - 2)], 2 * done - 2, first, all, *add));
            }
            let _ = field.graph.set_output(Some(output));
        }
        field
    }

    /// Replaces the whole graph.
    pub fn with_graph(self, graph: FieldGraph) -> (field: Field)
        ensures
            field == (Field { graph, ..self }),
    {
        Field { graph, ..self }
    }

    /// A copy of everything a person authored and nothing that was derived from it: the graph
    /// with every shader node's values dropped, and no bake.
    ///
    /// What a history snapshot is made of: the bake and the shader values are re-obtained by
    /// baking and dispatching, so a copy that carried them would cost the size of the document
    /// per edit.
    pub fn authored(&self) -> (copy: Field)
        requires
            params_fit(self.graph.nodes@),
        ensures
            copy.id@ == self.id@,
            copy.role == self.role,
            copy.shift == self.shift,
            copy.range == self.range,
            copy.export == self.export,
            copy.hillshade == self.hillshade,
            copy.light_azimuth == self.light_azimuth,
            copy.contours == self.contours,
            copy.contour_interval == self.contour_interval,
            copy.graph.output == self.graph.output,
            copy.graph.next_id == self.graph.next_id,
            copy.graph.nodes@.len() == self.graph.nodes@.len(),
            forall|i: int|
                0 <= i < self.graph.nodes@.len() ==> authored_node(
                    self.graph.nodes@[i],
                    #[trigger] copy.graph.nodes@[i],
                ),
            copy.baked.wf(),
            copy.baked.size == (UVec2 { x: 0, y: 0 }),
    {
        let mut nodes: Vec<GraphNode> = Vec::new();
        let mut i: usize = 0;
        while i < self.graph.nodes.len()
            invariant
                i <= self.graph.nodes@.len(),
                params_fit(self.graph.nodes@),
                nodes@.len() == i,
                forall|j: int|
                    0 <= j < i ==> authored_node(self.graph.nodes@[j], #[trigger] nodes@[j]),
            decreases self.graph.nodes@.len() - i,
        {
            let node: &GraphNode = &self.graph.nodes[i];
            nodes.push(
                GraphNode {
                    id: node.id,
                    name: match &node.name {
                        Some(name) => Some(name.clone()),
                        None => None,
                    },
                    op: copy_op(&node.op),
                    inputs: copy_inputs(&node.inputs),
                    bypassed: node.bypassed,
                    position: node.position,
                },
            );
            i = i + 1;
        }
        Field {
            id: self.id.clone(),
            role: self.role,
            shift: self.shift,
            range: self.range,
            export: self.export,
            hillshade: self.hillshade,
            light_azimuth: self.light_azimuth,
            contours: self.contours,
            contour_interval: self.contour_interval,
            graph: FieldGraph {
                nodes,
                output: self.graph.output,
                next_id: self.graph.next_id,
            },
            baked: Raster::empty(),
        }
    }

    /// [`Field::range`] as its low end and its high end, swapped if it was stored backwards.
    pub fn bounds(&self) -> (range: (Single, Single))
        ensures
            range == ordered_range(self.range),
    {
        if self.range.0.le(self.range.1) {
            self.range
        } else {
            (self.range.1, self.range.0)
        }
    }

    /// Texel dimensions this field bakes to in a `size`-cell document. Never zero on either
    /// axis.
    pub fn resolution(&self, size: UVec2) -> (texels: UVec2)
        ensures
            texels == texels_of(size, self.shift),
            texels.x >= 1,
            texels.y >= 1,
    {
        resolution(size, self.shift)
    }

    /// The values from the last bake.
    pub fn baked(&self) -> (raster: &Raster<Single>)
        ensures
            *raster == self.baked,
    {
        &self.baked
    }

    /// The fields this one reads, through the nodes reachable from its output only; bypassing
    /// or unwiring a node removes its dependencies.
    ///
    /// Duplicates are not removed and the order is evaluation order.
    pub fn dependencies(&self) -> (list: Vec<&FieldId>)
        ensures
            ids_view(list@) == (match self.graph.output {
                Some(output) => if placed(self.graph.nodes@, output.0 as int) is None {
                    Seq::empty()
                } else {
                    match evaluated(self.graph.nodes@, output) {
                        Ok(order) => read_along(self.graph.nodes@, order),
                        Err(_) => Seq::empty(),
                    }
                },
                None => Seq::empty(),
            }),
    {
        self.graph.dependencies()
    }

    /// Every field this one's graph names in a reference, whether or not the node is wired to
    /// anything, with duplicates kept.
    ///
    /// Wider than [`Field::dependencies`], which reports only what the output reaches: an
    /// unconnected reference reads nothing yet, but it is a declared read. A bypassed node is
    /// left out of both, because bypass is how a reference is turned off.
    pub fn declared_reads(&self) -> (list: Vec<&FieldId>)
        ensures
            ids_view(list@) == referenced(self.graph.nodes@),
    {
        let mut list: Vec<&FieldId> = Vec::new();
        let ghost nodes = self.graph.nodes@;
        let mut i: usize = 0;
        proof {
            assert(nodes.take(0) =~= Seq::<GraphNode>::empty());
            assert(ids_view(list@) =~= Seq::<Seq<char>>::empty());
        }
        while i < self.graph.nodes.len()
            invariant
                i <= nodes.len(),
                nodes == self.graph.nodes@,
                ids_view(list@) == referenced(nodes.take(i as int)),
            decreases nodes.len() - i,
        {
            let node: &GraphNode = &self.graph.nodes[i];
            let ghost before = list@;
            proof {
                assert(nodes.take(i + 1).drop_last() =~= nodes.take(i as int));
                assert(nodes.take(i + 1).last() == nodes[i as int]);
            }
            if !node.bypassed {
                if let Some(id) = node.op.dependency() {
                    list.push(id);
                    proof {
                        assert(ids_view(list@) =~= ids_view(before).push(id@));
                    }
                }
            }
            i = i + 1;
        }
        proof {
            assert(nodes.take(i as int) =~= nodes);
        }
        list
    }
}

} // verus!
