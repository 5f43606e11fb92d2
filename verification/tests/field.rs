//! Fields and layers as a person makes them.

use watershed_editor::field::Field;
use watershed_editor::graph::{FieldGraph, NodeOp};
use watershed_editor::layer::Layer;
use watershed_editor::names::{FieldId, FieldRole};
use watershed_editor::raster::{Raster, UVec2};
use watershed_editor::shader::ShaderLayer;
use watershed_editor::single::Single;

fn single(value: f32) -> Single {
    Single(value.to_bits())
}

fn held(value: f32) -> NodeOp {
    let mut layer = ShaderLayer::new("held.wgsl");
    layer.params.insert("value".to_owned(), vec![single(value)]);
    layer.put_values(Raster::new(UVec2::splat(1), single(value)));
    NodeOp::Shader(layer)
}

fn piped(pins: usize) -> NodeOp {
    let mut layer = ShaderLayer::new("piped.wgsl");
    layer.inputs = (0..pins).map(|pin| format!("in{pin}")).collect();
    NodeOp::Shader(layer)
}

/// A raster read between its texel centres, its edge repeated; an empty one reads as zero.
fn sample(raster: &Raster<Single>, x: f32, y: f32) -> f32 {
    if raster.is_empty() {
        return 0.0;
    }
    let at = |x: f32, y: f32| {
        let column = x.clamp(0.0, (raster.size.x - 1) as f32) as u32;
        let row = y.clamp(0.0, (raster.size.y - 1) as f32) as u32;
        f32::from_bits(raster.get(column, row).unwrap().0)
    };
    let (left, top) = ((x - 0.5).floor(), (y - 0.5).floor());
    let (across, down) = (x - 0.5 - left, y - 0.5 - top);
    let upper = at(left, top) * (1.0 - across) + at(left + 1.0, top) * across;
    let lower = at(left, top + 1.0) * (1.0 - across) + at(left + 1.0, top + 1.0) * across;
    upper * (1.0 - down) + lower * down
}

// Shift 0 is what the `Height` field is pinned to, so a document's cell grid and
// its height raster have to be the same grid.
#[test]
fn a_field_at_shift_zero_holds_one_texel_per_cell() {
    let field = Field::new("height");
    assert_eq!(field.resolution(UVec2::new(64, 32)), UVec2::new(64, 32));
}

// The point of a shift is the allocation it saves; this pins that the saving is
// quadratic in the shift and not linear.
#[test]
fn a_coarse_field_holds_one_texel_per_block() {
    let field = Field::new("moisture").with_shift(4);
    assert_eq!(field.resolution(UVec2::new(4096, 4096)), UVec2::new(256, 256));
}

// Nothing rejects a backwards range, so `bounds` is the only thing standing
// between one and a clamp that empties the field.
#[test]
fn field_a_backwards_range_is_read_in_the_order_a_clamp_needs() {
    let field = Field::new("height").with_range((single(1.0), single(-1.0)));
    assert_eq!(field.bounds(), (single(-1.0), single(1.0)));
}

// Pins both halves of what bake ordering is computed from: every reference the
// output reaches counts, and one it cannot reach counts for nothing.
#[test]
fn a_field_reports_the_dependencies_its_output_reaches_and_no_others() {
    let mut graph = FieldGraph::new();
    let base = graph.node_with(held(0.5), &vec![]);
    let relief = graph.node_with(NodeOp::FieldRef(FieldId::new("relief")), &vec![]);
    let ridge = graph.node_with(NodeOp::FieldRef(FieldId::new("ridge")), &vec![]);
    let weight = graph.node_with(piped(1), &vec![ridge]);
    let mixed = graph.node_with(piped(3), &vec![base, relief, weight]);
    graph.node_with(NodeOp::FieldRef(FieldId::new("hidden")), &vec![]);
    graph.set_output(Some(mixed)).unwrap();

    let field = Field::new("height").with_graph(graph);
    let deps: Vec<_> = field.dependencies().into_iter().map(|id| id.as_str()).collect();
    assert_eq!(deps.len(), 2);
    assert!(deps.contains(&"relief") && deps.contains(&"ridge"));
    assert!(!deps.contains(&"hidden"));
}

// A history snapshot is `authored()`, so a display property missing from it is a
// property undo silently skips.
#[test]
fn a_new_field_is_unlit_from_the_northwest_and_carries_both_into_a_snapshot() {
    let mut field = Field::new("height");
    assert!(!field.hillshade);
    assert_eq!(field.light_azimuth, single(315.0));

    field.hillshade = true;
    field.light_azimuth = single(90.0);
    let authored = field.authored();
    assert!(authored.hillshade);
    assert_eq!(authored.light_azimuth, single(90.0));
}

// Same reason as the hillshade pair above: a contour property dropped by
// `authored()` is one undo would silently skip.
#[test]
fn a_new_field_has_no_contours_at_a_tenth_and_carries_both_into_a_snapshot() {
    let mut field = Field::new("height");
    assert!(!field.contours);
    assert_eq!(field.contour_interval, single(0.1));

    field.contours = true;
    field.contour_interval = single(0.25);
    let authored = field.authored();
    assert!(authored.contours);
    assert_eq!(authored.contour_interval, single(0.25));
}

// Every loaded document is in this state until it is baked, so sampling one has
// to be a defined read rather than a panic on an empty raster.
#[test]
fn an_unbaked_field_samples_as_zero() {
    let field = Field::new("height");
    assert_eq!(sample(field.baked(), 12.5, 3.5), 0.0);
}

#[test]
fn a_layer_at_shift_zero_holds_one_texel_per_cell() {
    let layer = Layer::new("height");
    assert_eq!(layer.resolution(UVec2::new(64, 32)), UVec2::new(64, 32));
}

#[test]
fn a_coarse_layer_holds_one_texel_per_block() {
    let layer = Layer::new("moisture").with_shift(4);
    assert_eq!(layer.resolution(UVec2::new(4096, 4096)), UVec2::new(256, 256));
}

#[test]
fn layer_a_backwards_range_is_read_in_the_order_a_clamp_needs() {
    let layer = Layer::new("height").with_range((single(1.0), single(-1.0)));
    assert_eq!(layer.bounds(), (single(-1.0), single(1.0)));
}

// A shader's `@layer` names are the file's dependency on another layer, so bake
// order and the editor's read checks have to see them.
#[test]
fn a_layers_layers_are_its_dependencies() {
    let mut layer = Layer::new("height");
    layer.shader.layers = vec![FieldId::new("base"), FieldId::new("relief")];
    let deps: Vec<_> = layer.dependencies().iter().map(|id| id.as_str()).collect();
    assert_eq!(deps, ["base", "relief"]);
}

#[test]
fn a_new_layer_is_unlit_from_the_northwest_and_carries_both_into_a_snapshot() {
    let mut layer = Layer::new("height");
    assert!(!layer.hillshade);
    assert_eq!(layer.light_azimuth, single(315.0));

    layer.hillshade = true;
    layer.light_azimuth = single(90.0);
    let authored = layer.authored();
    assert!(authored.hillshade);
    assert_eq!(authored.light_azimuth, single(90.0));
}

#[test]
fn a_new_layer_has_no_contours_at_a_tenth_and_carries_both_into_a_snapshot() {
    let mut layer = Layer::new("height");
    assert!(!layer.contours);
    assert_eq!(layer.contour_interval, single(0.1));

    layer.contours = true;
    layer.contour_interval = single(0.25);
    let authored = layer.authored();
    assert!(authored.contours);
    assert_eq!(authored.contour_interval, single(0.25));
}

#[test]
fn an_unbaked_layer_samples_as_zero() {
    let layer = Layer::new("height");
    assert_eq!(sample(layer.baked(), 12.5, 3.5), 0.0);
}

// A layer's file is named after it.
#[test]
fn a_layer_is_computed_by_the_file_of_its_name() {
    assert_eq!(Layer::new("height").file(), "height.wesl");
}

// The builders set what they name.
#[test]
fn what_a_builder_names_is_what_it_sets() {
    let layer = Layer::new("height").with_role(FieldRole::Height).with_export(true);
    assert_eq!(layer.role, FieldRole::Height);
    assert!(layer.export);
    let field = Field::new("wet").with_role(FieldRole::Moisture).with_op(held(0.5));
    assert_eq!(field.role, FieldRole::Moisture);
    assert_eq!(field.graph.nodes.len(), 1);
    assert_eq!(FieldRole::Custom.as_str(), "custom");
}

// An extent that is not a multiple of the shift is rounded up, so its last block has a
// texel too.
#[test]
fn a_part_of_a_block_has_a_texel_of_its_own() {
    let layer = Layer::new("a").with_shift(3);
    assert_eq!(layer.resolution(UVec2::new(17, 16)), UVec2::new(3, 2));
    assert_eq!(Layer::new("a").with_shift(31).resolution(UVec2::new(5, 0)), UVec2::new(1, 1));
}

// A snapshot of a layer carries everything but what was computed.
#[test]
fn a_snapshot_drops_what_was_computed() {
    let mut layer = Layer::new("height").with_shift(1);
    layer.shader.params.insert("value".to_owned(), vec![single(2.0)]);
    layer.shader.put_values(Raster::new(UVec2::splat(2), single(0.5)));
    layer.baked = Raster::new(UVec2::splat(2), single(0.5));
    let authored = layer.authored();
    assert!(authored.baked().is_empty());
    assert_eq!(authored.shift, 1);
    assert_eq!(authored.shader.params.get("value"), Some(&vec![single(2.0)]));
}

// A reference that nothing is wired to reads nothing yet, but it is a declared read; a
// bypassed one is turned off and counts for neither.
#[test]
fn a_declared_read_counts_whether_or_not_it_is_wired() {
    let mut graph = FieldGraph::new();
    let relief = graph.node_with(NodeOp::FieldRef(FieldId::new("relief")), &vec![]);
    graph.node_with(NodeOp::FieldRef(FieldId::new("ridge")), &vec![]);
    let off = graph.node_with(NodeOp::FieldRef(FieldId::new("off")), &vec![]);
    graph.node_with(NodeOp::FieldRef(FieldId::new("relief")), &vec![]);
    graph.node_with(held(0.5), &vec![]);
    graph.set_bypassed(off, true).unwrap();
    graph.set_output(Some(relief)).unwrap();

    let field = Field::new("height").with_graph(graph);
    let declared: Vec<_> = field.declared_reads().into_iter().map(|id| id.as_str()).collect();
    assert_eq!(declared, vec!["relief", "ridge", "relief"]);
    let deps: Vec<_> = field.dependencies().into_iter().map(|id| id.as_str()).collect();
    assert_eq!(deps, vec!["relief"]);
}

#[test]
fn a_sum_is_wired_from_left_to_right_and_read_from_its_end() {
    let names = ["base", "relief", "ridge"];
    let ops = names.iter().map(|name| NodeOp::FieldRef(FieldId::new(name))).collect();
    let field = Field::new("height").with_sum(ops, &piped(2));

    assert_eq!(field.graph.nodes.len(), 5);
    assert_eq!(field.graph.next_id, 5);
    assert_eq!(field.graph.output.unwrap().0, 4);
    let wired: Vec<Vec<Option<u32>>> = field
        .graph
        .nodes
        .iter()
        .map(|node| node.inputs.iter().map(|input| input.map(|id| id.0)).collect())
        .collect();
    assert_eq!(
        wired,
        vec![
            vec![],
            vec![],
            vec![Some(0), Some(1)],
            vec![],
            vec![Some(2), Some(3)],
        ],
    );
    let deps: Vec<_> = field.dependencies().into_iter().map(|id| id.as_str()).collect();
    assert_eq!(deps, vec!["ridge", "relief", "base"]);
}

#[test]
fn a_sum_of_one_op_is_the_op_and_a_sum_of_none_is_nothing() {
    let one = Field::new("height").with_sum(vec![held(0.5)], &piped(2));
    assert_eq!(one.graph.nodes.len(), 1);
    assert_eq!(one.graph.output.unwrap().0, 0);

    let none = Field::new("height").with_sum(vec![], &piped(2));
    assert!(none.graph.nodes.is_empty());
    assert!(none.graph.output.is_none());
}

// Each op is added and read in turn: the field is the last one.
#[test]
fn a_field_is_read_from_the_op_added_last() {
    let field = Field::new("h").with_op(NodeOp::FieldRef(FieldId::new("a")));
    assert_eq!(field.graph.output.unwrap().0, 0);
    let field = field.with_op(NodeOp::FieldRef(FieldId::new("b")));
    assert_eq!(field.graph.output.unwrap().0, 1);
    assert_eq!(field.graph.nodes.len(), 2);
    let deps: Vec<_> = field.dependencies().into_iter().map(|id| id.as_str()).collect();
    assert_eq!(deps, vec!["b"]);
}

#[test]
fn a_layer_of_classes_says_so_and_carries_it_into_a_snapshot() {
    let layer = Layer::new("biome");
    assert!(!layer.categorical);
    let layer = layer.with_categorical(true);
    assert!(layer.categorical);
    assert!(layer.authored().categorical);
}
