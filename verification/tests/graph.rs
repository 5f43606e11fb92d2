//! Editing the graph of a field.

use watershed_editor::graph::{FieldGraph, GraphError, GraphNode, NodeId, NodeOp};
use watershed_editor::names::FieldId;
use watershed_editor::raster::{Raster, UVec2};
use watershed_editor::shader::ShaderLayer;
use watershed_editor::single::Single;

fn single(value: f32) -> Single {
    Single(value.to_bits())
}

const ORIGIN: (Single, Single) = (Single(0), Single(0));

/// A shader node that reads `value` everywhere while no shader runtime is installed.
fn held(value: f32) -> NodeOp {
    let mut layer = ShaderLayer::new("held.wgsl");
    layer.params.insert("value".to_owned(), vec![single(value)]);
    layer.put_values(Raster::new(UVec2::splat(1), single(value)));
    NodeOp::Shader(layer)
}

/// A shader node with `pins` input pins and no values.
fn piped(pins: usize) -> NodeOp {
    let mut layer = ShaderLayer::new("piped.wgsl");
    layer.inputs = (0..pins).map(|pin| format!("in{pin}")).collect();
    NodeOp::Shader(layer)
}

fn graph() -> FieldGraph {
    FieldGraph::new()
}

// An id names a node for the life of the document, so removing one must not free
// its id for the next node: an edge or a control path would silently retarget.
#[test]
fn an_id_is_never_reused_after_the_node_is_removed() {
    let mut graph = graph();
    let first = graph.add_node(held(1.0), ORIGIN);
    graph.remove_node(first).unwrap();
    let second = graph.add_node(held(2.0), ORIGIN);
    assert_ne!(first, second);
}

// A field is what its output node reads, and a graph whose first node is not the
// output would bake zero until wired by hand.
#[test]
fn the_first_node_added_becomes_the_output() {
    let mut graph = graph();
    let id = graph.add_node(held(1.0), ORIGIN);
    assert_eq!(graph.output, Some(id));
}

// A node feeding itself is the shortest cycle and the easiest to draw on a canvas.
#[test]
fn a_node_cannot_be_connected_to_itself() {
    let mut graph = graph();
    let id = graph.add_node(piped(1), ORIGIN);
    assert!(matches!(
        graph.connect(id, id, 0),
        Err(GraphError::WouldCycle { from, to }) if from == id && to == id
    ));
}

// The graph must be acyclic at all times, so the edge that would close a cycle is
// refused rather than left for the plan to reject.
#[test]
fn an_edge_closing_a_cycle_is_refused_and_changes_nothing() {
    let mut graph = graph();
    let a = graph.add_node(piped(1), ORIGIN);
    let b = graph.add_node(piped(1), ORIGIN);
    graph.connect(a, b, 0).unwrap();
    let before = format!("{graph:?}");
    assert!(matches!(
        graph.connect(b, a, 0),
        Err(GraphError::WouldCycle { from, to }) if from == b && to == a
    ));
    assert_eq!(format!("{graph:?}"), before);
}

// Bypass is not part of the graph's shape: if the cycle check read the
// bypass-reduced graph, un-bypassing a node would produce a graph that cannot
// plan, with no verb left to refuse it.
#[test]
fn the_cycle_check_reads_bypassed_edges_too() {
    let mut graph = graph();
    let a = graph.add_node(piped(1), ORIGIN);
    let b = graph.add_node(piped(1), ORIGIN);
    graph.connect(a, b, 0).unwrap();
    graph.set_bypassed(b, true).unwrap();
    assert!(matches!(
        graph.connect(b, a, 0),
        Err(GraphError::WouldCycle { from, to }) if from == b && to == a
    ));
}

// Pulling one node out of a chain should not break the chain.
#[test]
fn removing_a_node_with_one_input_and_one_reader_splices_it_out() {
    let mut graph = graph();
    let source = graph.add_node(held(1.0), ORIGIN);
    let middle = graph.add_node(piped(1), ORIGIN);
    let reader = graph.add_node(piped(1), ORIGIN);
    graph.connect(source, middle, 0).unwrap();
    graph.connect(middle, reader, 0).unwrap();
    graph.remove_node(middle).unwrap();
    assert_eq!(graph.node(reader).unwrap().inputs, vec![Some(source)]);
}

// The splice is only defined for one input and one reader; with two readers there
// is no single chain to preserve, so every pin is cleared instead.
#[test]
fn removing_a_node_with_two_readers_clears_both_pins() {
    let mut graph = graph();
    let source = graph.add_node(held(1.0), ORIGIN);
    let middle = graph.add_node(piped(1), ORIGIN);
    let first = graph.add_node(piped(1), ORIGIN);
    let second = graph.add_node(piped(1), ORIGIN);
    graph.connect(source, middle, 0).unwrap();
    graph.connect(middle, first, 0).unwrap();
    graph.connect(middle, second, 0).unwrap();
    graph.remove_node(middle).unwrap();
    assert_eq!(graph.node(first).unwrap().inputs, vec![None]);
    assert_eq!(graph.node(second).unwrap().inputs, vec![None]);
}

// A source node has nothing to splice in, so its reader is left unconnected.
#[test]
fn removing_a_node_with_no_input_clears_its_readers_pin() {
    let mut graph = graph();
    let source = graph.add_node(held(1.0), ORIGIN);
    let reader = graph.add_node(piped(1), ORIGIN);
    graph.connect(source, reader, 0).unwrap();
    graph.remove_node(source).unwrap();
    assert_eq!(graph.node(reader).unwrap().inputs, vec![None]);
}

// Removing the output node must not leave the graph naming a node that is gone.
#[test]
fn removing_the_output_node_leaves_no_dangling_output() {
    let mut graph = graph();
    let only = graph.add_node(held(1.0), ORIGIN);
    graph.remove_node(only).unwrap();
    assert_eq!(graph.output, None);
    assert!(graph.effective_output().is_none());
}

// Deleting the end of a chain auto-chooses the node now at the end of the graph as
// the output, rather than leaving the field baking zero.
#[test]
fn removing_the_output_at_the_end_of_a_chain_hands_it_to_the_node_before() {
    let mut graph = graph();
    let first = graph.add_node(held(1.0), ORIGIN);
    let middle = graph.node_with(piped(1), &vec![first]);
    let last = graph.node_with(piped(1), &vec![middle]);
    graph.set_output(Some(last)).unwrap();
    graph.remove_node(last).unwrap();
    assert_eq!(graph.output, Some(middle));
}

// An output something reads is spliced out of its chain, and the input spliced in
// outranks every other successor.
#[test]
fn removing_an_output_that_is_read_hands_it_to_the_spliced_input() {
    let mut graph = graph();
    let source = graph.add_node(held(1.0), ORIGIN);
    let middle = graph.node_with(piped(1), &vec![source]);
    graph.node_with(piped(1), &vec![middle]);
    graph.set_output(Some(middle)).unwrap();
    graph.remove_node(middle).unwrap();
    assert_eq!(graph.output, Some(source));
}

// With the first pin empty there is no chain to step back along, so the output goes
// to the newest node nothing reads.
#[test]
fn removing_an_output_with_an_empty_first_pin_hands_it_to_the_newest_unread_node() {
    let mut graph = graph();
    let second_pin = graph.add_node(held(1.0), ORIGIN);
    let output = graph.add_node(piped(2), ORIGIN);
    graph.connect(second_pin, output, 1).unwrap();
    let newest = graph.add_node(held(2.0), ORIGIN);
    graph.set_output(Some(output)).unwrap();
    graph.remove_node(output).unwrap();
    assert_eq!(graph.output, Some(newest));
}

// A first-pin node that still feeds another reader is not the end of the graph, so
// the output passes over it.
#[test]
fn removing_an_output_whose_input_is_read_elsewhere_skips_that_input() {
    let mut graph = graph();
    let source = graph.add_node(held(1.0), ORIGIN);
    let output = graph.node_with(piped(1), &vec![source]);
    let other = graph.node_with(piped(1), &vec![source]);
    graph.set_output(Some(output)).unwrap();
    graph.remove_node(output).unwrap();
    assert_eq!(graph.output, Some(other));
}

// A loaded graph can hold a cycle, in which every node is read; one with nodes left
// must still come out with an output.
#[test]
fn removing_the_output_beside_a_cycle_still_leaves_an_output() {
    let mut graph = graph();
    let a = graph.add_node(piped(1), ORIGIN);
    let b = graph.add_node(piped(1), ORIGIN);
    graph.node_mut(a).unwrap().inputs[0] = Some(b);
    graph.node_mut(b).unwrap().inputs[0] = Some(a);
    let output = graph.add_node(held(1.0), ORIGIN);
    graph.set_output(Some(output)).unwrap();
    graph.remove_node(output).unwrap();
    assert_eq!(graph.output, Some(b));
}

// A loaded node can read itself, which makes its own id the splice source; the output
// must never be left naming the node that was removed.
#[test]
fn removing_a_self_reading_output_never_leaves_the_removed_id() {
    let mut graph = graph();
    let looped = graph.add_node(piped(1), ORIGIN);
    graph.node_mut(looped).unwrap().inputs[0] = Some(looped);
    let other = graph.add_node(held(1.0), ORIGIN);
    graph.set_output(Some(looped)).unwrap();
    graph.remove_node(looped).unwrap();
    assert_eq!(graph.output, Some(other));
}

// A name is an address in a control path, so two nodes sharing one would make a
// path ambiguous.
#[test]
fn a_name_already_taken_is_refused() {
    let mut graph = graph();
    let first = graph.add_node(held(1.0), ORIGIN);
    let second = graph.add_node(held(2.0), ORIGIN);
    graph.rename(first, Some("ridge".to_owned())).unwrap();
    assert!(matches!(
        graph.rename(second, Some("ridge".to_owned())),
        Err(GraphError::DuplicateName(name)) if name == "ridge"
    ));
}

// A control path names a node as `n<id>` or by name, so a node named `n7` would
// shadow node 7.
#[test]
fn a_name_in_the_id_path_form_is_refused() {
    let mut graph = graph();
    let id = graph.add_node(held(1.0), ORIGIN);
    assert!(matches!(
        graph.rename(id, Some("n7".to_owned())),
        Err(GraphError::ReservedName(name)) if name == "n7"
    ));
    graph.rename(id, Some("north".to_owned())).unwrap();
}

// A field bakes the values of the node its value actually comes from, and a
// bypassed node emits its input's values rather than its own.
#[test]
fn the_effective_output_follows_a_bypassed_node_to_its_input() {
    let mut graph = graph();
    let source = graph.add_node(held(1.0), ORIGIN);
    let piped = graph.add_node(piped(1), ORIGIN);
    graph.connect(source, piped, 0).unwrap();
    graph.set_output(Some(piped)).unwrap();
    graph.set_bypassed(piped, true).unwrap();
    assert_eq!(graph.effective_output(), Some(source));
}

// A bypassed node with nothing wired in passes zero through, so there is no node
// the field's value comes from.
#[test]
fn a_bypassed_output_with_no_input_has_no_effective_output() {
    let mut graph = graph();
    let piped = graph.add_node(piped(1), ORIGIN);
    graph.set_bypassed(piped, true).unwrap();
    assert_eq!(graph.effective_output(), None);
}

// Writing past a node's pins is a canvas or control-path mistake, not a silent
// no-op.
#[test]
fn a_pin_past_the_arity_is_refused() {
    let mut graph = graph();
    let source = graph.add_node(held(1.0), ORIGIN);
    let piped = graph.add_node(piped(1), ORIGIN);
    assert!(matches!(
        graph.connect(source, piped, 1),
        Err(GraphError::PinOutOfRange { node, pin: 1, arity: 1 }) if node == piped
    ));
}

// Every op is stored with exactly as many pins as it reads, so the canvas can draw
// them without consulting a table of its own.
#[test]
fn a_node_carries_one_pin_per_input_the_op_reads() {
    assert_eq!(NodeOp::FieldRef(FieldId::new("base")).arity(), 0);
    let mut layer = ShaderLayer::new("blur.wgsl");
    layer.inputs = vec!["a".to_owned(), "b".to_owned()];
    let op = NodeOp::Shader(layer);
    assert_eq!(op.arity(), 2);
    assert_eq!(GraphNode::new(NodeId(0), op, ORIGIN).inputs.len(), 2);
}

// Every refusal has its own words, and leaves the graph as it was.
#[test]
fn every_refusal_of_an_edit_says_what_was_wrong() {
    let mut graph = graph();
    let a = graph.add_node(piped(1), ORIGIN);
    let gone = NodeId(9);
    let before = format!("{graph:?}");
    let unknown = graph.connect(gone, a, 0).unwrap_err();
    assert!(unknown.message().contains('9'), "{}", unknown.message());
    let unknown = graph.set_bypassed(gone, true).unwrap_err();
    assert!(unknown.message().contains('9'));
    assert!(graph.place(gone, ORIGIN).is_err());
    assert!(graph.disconnect(gone, 0).is_err());
    assert!(graph.set_output(Some(gone)).is_err());
    assert!(graph.remove_node(gone).is_err());
    assert!(graph.rename(gone, None).is_err());
    let pin = graph.disconnect(a, 4).unwrap_err();
    assert!(pin.message().contains('4') && pin.message().contains('1'), "{}", pin.message());
    let cycle = graph.connect(a, a, 0).unwrap_err();
    assert!(!cycle.message().is_empty());
    let reserved = graph.rename(a, Some("n12".to_owned())).unwrap_err();
    assert!(reserved.message().contains("n12"), "{}", reserved.message());
    assert_eq!(format!("{graph:?}"), before);
}

// Wiring, moving and unwiring each change what they name and nothing else.
#[test]
fn an_edge_made_is_undone_by_clearing_its_pin() {
    let mut graph = graph();
    let source = graph.add_node(held(1.0), ORIGIN);
    let reader = graph.add_node(piped(2), ORIGIN);
    let before = format!("{graph:?}");
    graph.connect(source, reader, 1).unwrap();
    assert_eq!(graph.readers(source), vec![reader]);
    assert_eq!(graph.node(reader).unwrap().sources(), vec![source]);
    assert!(graph.reaches(reader, source) && !graph.reaches(source, reader));
    graph.disconnect(reader, 1).unwrap();
    assert_eq!(format!("{graph:?}"), before);
    graph.place(reader, (single(4.0), single(-2.0))).unwrap();
    assert_eq!(graph.node(reader).unwrap().position, (single(4.0), single(-2.0)));
}

// An evaluation order puts every node after what it reads.
#[test]
fn an_evaluation_order_puts_a_node_after_its_sources() {
    let mut graph = graph();
    let last = graph.add_node(piped(1), ORIGIN);
    let first = graph.add_node(held(1.0), ORIGIN);
    graph.connect(first, last, 0).unwrap();
    assert_eq!(graph.evaluation_order().unwrap(), vec![first, last]);
    assert_eq!(first.path(), "n1");
    assert_eq!(graph.effective_sources(last), vec![first]);
}

// A loaded graph that holds a cycle has no order.
#[test]
fn a_cycle_in_a_loaded_graph_has_no_order() {
    let mut graph = graph();
    let a = graph.add_node(piped(1), ORIGIN);
    let b = graph.node_with(piped(1), &vec![a]);
    graph.node_mut(a).unwrap().inputs[0] = Some(b);
    graph.set_output(Some(b)).unwrap();
    assert!(graph.evaluation_order().is_err());
}

// A reference reads its one field; a shader reads the fields its file names.
#[test]
fn an_op_reads_the_fields_it_names() {
    let reference = NodeOp::FieldRef(FieldId::new("base"));
    assert_eq!(reference.dependency().unwrap().as_str(), "base");
    assert_eq!(reference.reads()[0].as_str(), "base");
    let mut layer = ShaderLayer::new("blur.wgsl");
    layer.layers = vec![FieldId::new("a"), FieldId::new("b"), FieldId::new("a")];
    let op = NodeOp::Shader(layer);
    assert!(op.dependency().is_none());
    let names: Vec<&str> = op.reads().into_iter().map(|id| id.as_str()).collect();
    assert_eq!(names, ["a", "b", "a"]);
}

// Bypass is how a reference is turned off, and the output is no exception.
#[test]
fn a_bypassed_node_reads_no_field() {
    let mut graph = graph();
    let id = graph.add_node(NodeOp::FieldRef(FieldId::new("relief")), ORIGIN);
    assert_eq!(graph.dependencies().len(), 1);
    graph.set_bypassed(id, true).unwrap();
    assert!(graph.dependencies().is_empty());
    graph.set_bypassed(id, false).unwrap();
    assert_eq!(graph.dependencies()[0].as_str(), "relief");
}

// Whatever is done to a graph, and whatever of it is refused, it can be evaluated.
#[test]
fn no_sequence_of_edits_makes_a_circle() {
    let mut graph = graph();
    let ids: Vec<NodeId> = (0..4).map(|_| graph.add_node(piped(2), ORIGIN)).collect();
    for step in 0..64usize {
        let (from, to) = (ids[step * 7 % 4], ids[(step * 5 + 1) % 4]);
        let _ = graph.connect(from, to, step % 2);
        if step % 5 == 0 {
            graph.set_bypassed(ids[step % 4], step % 2 == 0).unwrap();
        }
        if step % 11 == 0 {
            graph.disconnect(ids[step % 4], 0).unwrap();
        }
        graph.set_output(Some(ids[step % 4])).unwrap();
        assert!(graph.evaluation_order().is_ok());
    }
    graph.remove_node(ids[1]).unwrap();
    for id in [ids[0], ids[2], ids[3]] {
        graph.set_output(Some(id)).unwrap();
        assert!(graph.evaluation_order().is_ok());
    }
}
