//! What the panels show, and when they are built again.

use watershed_editor::bind::{Goes, NewDialog, NumberBinding, Shown, Slot};
use watershed_editor::brush::Brush;
use watershed_editor::edit::{ask, property_edit, settle, Control, Edit, Outcome, Stack};
use watershed_editor::field::Field;
use watershed_editor::form::{
    brush_target, choose_field, choose_mask, default_op, first_field, moves, region_outputs,
    shift_is_settled, write_brush, Amount, BrushNumber, LayerOp, Mask, MaskKind, OpNumber, Region,
    RegionOutput, RegionSpec,
};
use watershed_editor::graph::{NodeId, NodeOp};
use watershed_editor::layer::Layer;
use watershed_editor::log::{caption_for, lines_for, row_text, LogLine, LogPanel, LogView};
use watershed_editor::names::{FieldId, FieldRole};
use watershed_editor::noise::{NoiseKind, NoiseSpec, WarpSpec};
use watershed_editor::panel::{fingerprint, param_rows, Open, PanelRow, Shape};
use watershed_editor::params::{ParamField, ParamType, ParamsLayout, Widget};
use watershed_editor::raster::{Raster, UVec2};
use watershed_editor::scroll::takes_turn;
use watershed_editor::shader::ShaderLayer;
use watershed_editor::single::Single;
use watershed_editor::terrain::TerrainSpec;
use watershed_editor::toolbar::{menu_is_stale, status_line, Action, Button, Described, Standing};

const ROWS: usize = 12;

fn single(value: f32) -> Single {
    Single(value.to_bits())
}

fn view(messages: &[&str]) -> LogView {
    LogView {
        held: messages.len() as u64,
        errors: 0,
        older: 0,
        lines: messages
            .iter()
            .rev()
            .map(|message| LogLine { level: "WARN".to_owned(), message: (*message).to_owned() })
            .collect(),
    }
}

// A compile failure is listed with the file and line the log gave it, unaltered.
#[test]
fn a_compile_failure_is_listed_with_its_file_and_line() {
    let view = view(&["ridged.wgsl: line 9: parameter has no annotation"]);
    let lines = lines_for(&view, ROWS);
    assert_eq!(
        lines,
        vec!["WARN  ridged.wgsl: line 9: parameter has no annotation"]
    );
}

// The panel exists to be read right after something went wrong, so the thing that just
// happened has to be at the top.
#[test]
fn the_newest_record_is_the_first_row() {
    let view = view(&["oldest", "middle", "newest"]);
    let lines = lines_for(&view, ROWS);
    assert_eq!(lines[0], "WARN  newest");
    assert_eq!(lines[2], "WARN  oldest");
}

// A list that silently ends is worse than a short one: what does not fit is counted,
// and the count includes the record the counter displaced.
#[test]
fn what_does_not_fit_is_counted_including_the_row_the_counter_displaced() {
    let mut view = view(&["c", "b", "a"]);
    view.older = 4;
    let lines = lines_for(&view, 3);
    assert_eq!(lines.len(), 3);
    assert_eq!(lines[0], "WARN  a");
    assert_eq!(lines[2], "… 5 earlier");
}

// The header is what a closed panel says, so it has to distinguish nothing-happened
// from something-did without being opened.
#[test]
fn the_header_says_what_is_held_and_how_much_of_it_failed() {
    assert_eq!(caption_for(&view(&[])), "log");

    let mut view = view(&["a", "b"]);
    assert_eq!(caption_for(&view), "log — 2 held");

    view.errors = 1;
    assert_eq!(caption_for(&view), "log — 2 held, 1 error");
}

// No record goes unmentioned: each is a row or is counted.
#[test]
fn a_record_is_a_row_or_is_counted() {
    let view = view(&["e", "d", "c", "b", "a"]);
    assert_eq!(lines_for(&view, 2), vec!["WARN  a", "… 4 earlier"]);
    assert!(lines_for(&view, 0).is_empty());
}

fn held(layer: Layer, value: f32) -> Layer {
    let mut layer = layer;
    layer.shader.params.insert("value".to_owned(), vec![single(value)]);
    layer.shader.put_values(Raster::new(UVec2::splat(1), single(value)));
    layer
}

fn document_with(value: f32) -> TerrainSpec {
    TerrainSpec::new(UVec2::splat(64)).with_field(held(Layer::new("height"), value))
}

fn names_of(document: &TerrainSpec) -> Vec<String> {
    document.fields.iter().map(|layer| layer.id.to_text()).collect()
}

fn readers_of(document: &TerrainSpec, id: &str) -> Vec<String> {
    document
        .fields
        .iter()
        .filter(|layer| layer.dependencies().iter().any(|read| read.is(id)))
        .map(|layer| layer.id.to_text())
        .collect()
}

fn key_at(document: &TerrainSpec, reference: bool, path: &str) -> String {
    let layer = document.field("height").unwrap();
    let (low, high) = layer.bounds();
    let printed = |end: Single| f32::from_bits(end.0).to_string();
    let open = Open {
        layer,
        low: &printed(low),
        high: &printed(high),
        layout: None,
        broken: false,
    };
    fingerprint(
        "height",
        &names_of(document),
        reference,
        path,
        &readers_of(document, "height"),
        Some(open),
    )
}

fn key(document: &TerrainSpec) -> String {
    key_at(document, false, "")
}

// The `read by` row is derived from every other layer's shader, so retargeting a
// reader elsewhere changes neither the layer names nor the layer on screen. Without
// the readers in the key the row would keep naming the old reader.
#[test]
fn retargeting_another_layers_read_rebuilds_the_panel() {
    let mut reader = held(Layer::new("reader"), 0.0);
    reader.shader.layers = vec![FieldId::new("height")];
    let mut document = TerrainSpec::new(UVec2::splat(64))
        .with_field(held(Layer::new("height"), 0.5))
        .with_field(held(Layer::new("other"), 0.25))
        .with_field(reader);
    let before = key(&document);

    document.field_mut("reader").unwrap().shader.layers = vec![FieldId::new("other")];
    assert_ne!(key(&document), before, "`read by` went stale");
}

// The path is a caption, so a save that moves the shader directory has to
// rebuild the panel: nothing else about the document would ever redraw it.
#[test]
fn saving_the_document_elsewhere_rebuilds_the_panel() {
    let document = document_with(0.5);
    let before = key(&document);
    let moved = key_at(&document, false, "/tmp/watershed-test");
    assert_ne!(moved, before, "the path went stale");
}

// A choice that did not change the shape would leave the menu showing the option it
// used to be on, with the document already changed underneath it.
#[test]
fn a_choice_changes_the_shape_the_panel_is_built_from() {
    let mut document = document_with(0.5);
    let before = key(&document);

    document.field_mut("height").unwrap().role = FieldRole::Height;
    assert_ne!(key(&document), before, "the role is a choice");

    let after_role = key(&document);
    let layer = document.field_mut("height").unwrap();
    layer.hillshade = !layer.hillshade;
    assert_ne!(key(&document), after_role, "so is hillshading");
}

// And from the other side: a number in the shape would rebuild the panel on the
// frame it was typed into, which throws away the layer the keyboard is in.
#[test]
fn a_number_does_not_change_the_shape() {
    let mut document = document_with(0.5);
    let before = key(&document);

    let layer = document.field_mut("height").unwrap();
    layer.shader.params.insert("value".to_owned(), vec![single(0.9)]);
    assert_eq!(key(&document), before);
}

// The four the file declares are drawn as text, so a file edited under the panel
// has to rebuild it: nothing else would ever redraw the label.
#[test]
fn the_properties_the_file_declares_are_part_of_the_shape() {
    let mut document = document_with(0.5);
    let before = key(&document);

    document.field_mut("height").unwrap().shift = 2;
    let after_shift = key(&document);
    assert_ne!(after_shift, before, "the shift is a label");

    document.field_mut("height").unwrap().range = (single(0.0), single(2.0));
    let after_range = key(&document);
    assert_ne!(after_range, after_shift, "so is the range");

    document.field_mut("height").unwrap().categorical = true;
    assert_ne!(key(&document), after_range, "so is the class");
}

// The toggle is a choice, and a choice is shape: a Reference flag outside the key
// would leave the panel showing what it showed before the toggle was pressed.
#[test]
fn opening_the_reference_changes_the_shape() {
    let document = document_with(0.5);
    let shut = key(&document);
    let open = key_at(&document, true, "");
    assert_ne!(shut, open);
}

#[test]
fn a_key_says_what_the_captions_say() {
    let mut document = document_with(0.5);
    let layer = document.field_mut("height").unwrap();
    layer.range = (single(2.5), single(-1.0));
    layer.shift = 3;
    assert_eq!(
        key_at(&document, true, "/tmp/t"),
        "height|height|ref|/tmp/t||custom|shift:3|range:-1..2.5|categorical:false\
         |hillshade:false|contours:false|:missing"
    );
}

// A panel with no layer open has a key of its own.
#[test]
fn a_panel_with_no_layer_has_a_key_of_its_own() {
    let none = fingerprint("height", &vec![], false, "", &vec![], None);
    assert!(none.ends_with("empty"), "{none}");
}

// A shape is rebuilt when its key changes, and what an earlier one left is told apart.
#[test]
fn a_shape_is_rebuilt_when_its_key_changes() {
    let mut shape = Shape::new();
    assert!(shape.rebuild("a".to_owned()));
    let first = shape.generation;
    assert!(!shape.rebuild("a".to_owned()));
    assert_eq!(shape.generation, first);
    assert!(shape.rebuild("b".to_owned()));
    assert!(shape.is_left_over(first));
    assert!(!shape.is_left_over(shape.generation));
}

fn param(name: &str, group: &str, ty: ParamType, widget: Widget<Single>) -> ParamField<Single> {
    ParamField {
        name: name.to_owned(),
        label: name.to_owned(),
        group: group.to_owned(),
        ty,
        widget,
        default: vec![single(0.0); ty.components()],
        offset: 0,
    }
}

// The rows of a shader come in declaration order under their groups, one number per
// component, and nothing for what is hidden.
#[test]
fn the_rows_of_a_shader_come_under_their_groups() {
    let slider = || Widget::Slider { min: single(0.0), max: single(1.0), step: None };
    let layout = ParamsLayout {
        fields: vec![
            param("scale", "", ParamType::F32, slider()),
            param("secret", "", ParamType::F32, Widget::Hidden),
            param("tilt", "Shape", ParamType::Vec2, slider()),
        ],
        byte_size: 16,
    };
    let mut shader = ShaderLayer::new("a.wgsl");
    shader.reconcile(&layout);
    let rows = param_rows(&shader, &layout);
    let groups: Vec<&PanelRow> =
        rows.iter().filter(|row| matches!(row, PanelRow::Group(_))).collect();
    let numbers: Vec<(usize, usize)> = rows
        .iter()
        .filter_map(|row| match row {
            PanelRow::Number { param, component, .. } => Some((*param, *component)),
            _ => None,
        })
        .collect();
    assert_eq!(groups.len(), 1);
    assert!(matches!(groups[0], PanelRow::Group(name) if name == "Shape"));
    assert_eq!(numbers, vec![(0, 0), (2, 0), (2, 1)]);
}

// The job that runs is said first, then what was refused, then what there is.
#[test]
fn the_status_line_says_the_job_before_anything_else() {
    let document = Described { size: UVec2::new(64, 32), layers: 2, has_water: true, whole: false };
    assert_eq!(status_line(Some("baking"), Some("no"), Some(document)), "baking…");
    assert_eq!(status_line(None, Some("no"), Some(document)), "no");
    assert_eq!(status_line(None, None, Some(document)), "64x32  2 layer(s)  water  preview");
    let plain = Described { has_water: false, whole: true, ..document };
    assert_eq!(status_line(None, None, Some(plain)), "64x32  2 layer(s)");
    assert_eq!(status_line(None, None, None), "no document");
}

// A busy document takes nothing, and a whole one is not baked again.
#[test]
fn a_busy_document_takes_no_button() {
    let idle = Standing {
        busy: false,
        has_document: true,
        has_water: true,
        baked_whole: true,
        dirty: false,
    };
    let buttons = idle.buttons();
    assert!(buttons.new && buttons.save && buttons.solve && buttons.reset_water);
    assert!(!buttons.bake_all);
    assert!(Standing { dirty: true, ..idle }.buttons().bake_all);
    let busy = Standing { busy: true, ..idle }.buttons();
    assert!(!(busy.new || busy.save || busy.bake_all || busy.solve || busy.reset_water));
    assert!(!Standing { has_document: false, ..idle }.buttons().save);
    assert!(!Standing { has_water: false, ..idle }.buttons().reset_water);
}

#[test]
fn a_menu_is_stale_where_its_names_are() {
    let names = vec!["a".to_owned(), "b".to_owned()];
    assert!(!menu_is_stale(&names, &names));
    assert!(menu_is_stale(&names, &vec!["b".to_owned(), "a".to_owned()]));
    assert!(menu_is_stale(&names, &vec!["a".to_owned()]));
}

// A node at the end a turn is towards passes it on.
#[test]
fn a_turn_is_passed_on_at_the_end_it_is_towards() {
    let (top, middle, limit) = (single(0.0), single(5.0), single(10.0));
    assert!(takes_turn(true, middle, limit, single(1.0)));
    assert!(!takes_turn(true, limit, limit, single(1.0)));
    assert!(takes_turn(true, limit, limit, single(-1.0)));
    assert!(!takes_turn(true, top, limit, single(-1.0)));
    assert!(!takes_turn(true, middle, limit, single(0.0)));
    assert!(!takes_turn(false, middle, limit, single(1.0)));
}

// A number written is the number shown.
#[test]
fn a_number_written_is_the_number_shown() {
    let mut dialog = NewDialog::default();
    assert_eq!((dialog.width, dialog.height, dialog.seed), (1024, 1024, 1));
    let least = single(0.001);
    assert!(NumberBinding::DialogWidth.write(single(64.0), least, None, &mut dialog).is_none());
    assert!(NumberBinding::DialogSeed.write(single(9.75), least, None, &mut dialog).is_none());
    assert_eq!(NumberBinding::DialogWidth.read(None, &dialog), Some(Shown::Whole(64)));
    assert_eq!(NumberBinding::DialogHeight.read(None, &dialog), Some(Shown::Whole(1024)));
    assert_eq!(NumberBinding::DialogSeed.read(None, &dialog), Some(Shown::Whole(9)));
    for seed in [0, 0xff_ffff, 0x100_0001, 0x100_0003, 0x7fff_ffbf, 0x7fff_ffc0, u32::MAX] {
        dialog.seed = seed;
        let shown = NumberBinding::DialogSeed.read(None, &dialog);
        assert_eq!(shown, Some(Shown::Whole((seed as f32) as i32)));
    }

    let mut shader = ShaderLayer::new("a.wgsl");
    shader.params.insert("value".to_owned(), vec![single(0.5)]);
    let mut field = Field::new("height").with_op(NodeOp::Shader(shader));
    let id = field.graph.nodes[0].id;
    let value = NumberBinding::ShaderParam(id, 0, 0);
    assert_eq!(value.read(Some(&field), &dialog), Some(Shown::Real(single(0.5))));
    assert!(value.write(single(0.75), least, Some(&mut field), &mut dialog).is_none());
    assert_eq!(value.read(Some(&field), &dialog), Some(Shown::Real(single(0.75))));
    assert_eq!(NumberBinding::ShaderParam(id, 0, 1).read(Some(&field), &dialog), None);
    NumberBinding::RangeHigh.write(single(3.0), least, Some(&mut field), &mut dialog);
    assert_eq!(
        NumberBinding::RangeHigh.read(Some(&field), &dialog),
        Some(Shown::Real(single(3.0)))
    );
    assert_eq!(NumberBinding::Shift.read(Some(&field), &dialog), Some(Shown::Whole(0)));
    assert_eq!(NumberBinding::Shift.read(None, &dialog), None);
    assert_eq!(NumberBinding::Unbound.read(Some(&field), &dialog), None);
}

// What is written is the number as the binding takes it, whatever was typed.
#[test]
fn a_number_is_held_before_it_is_written() {
    let least = single(0.001);
    let mut dialog = NewDialog::default();
    let mut field = Field::new("height");
    let mut write = |binding: NumberBinding, value: f32| {
        binding.write(single(value), least, Some(&mut field), &mut dialog)
    };
    assert!(write(NumberBinding::DialogWidth, 1.0).is_none());
    assert!(write(NumberBinding::DialogHeight, 9000.0).is_none());
    assert!(write(NumberBinding::DialogSeed, -4.0).is_none());
    assert!(write(NumberBinding::RangeLow, -9.5).is_none());
    assert!(write(NumberBinding::Unbound, 3.0).is_none());
    let shift = write(NumberBinding::Shift, 99.0).unwrap();
    assert_eq!((shift.property, shift.value), ("shift", Shown::Whole(8)));
    let light = write(NumberBinding::LightAzimuth, 400.0).unwrap();
    assert_eq!((light.property, light.value), ("light_azimuth", Shown::Real(single(360.0))));
    let interval = write(NumberBinding::ContourInterval, 0.0).unwrap();
    assert_eq!((interval.property, interval.value), ("contour_interval", Shown::Real(least)));
    assert_eq!((dialog.width, dialog.height, dialog.seed), (16, 8192, 0));
    assert_eq!(field.range, (single(-9.5), single(1.0)));
    assert_eq!(field.shift, 0);
}

// A number is held in the range of what it is bound to, and goes where that is kept.
#[test]
fn a_number_is_held_in_its_range_and_goes_where_it_is_kept() {
    let least = single(0.001);
    assert_eq!(NumberBinding::Shift.clamp(single(99.0), least), single(8.0));
    assert_eq!(NumberBinding::LightAzimuth.clamp(single(-1.0), least), single(0.0));
    assert_eq!(NumberBinding::ContourInterval.clamp(single(0.0), least), least);
    assert_eq!(NumberBinding::DialogWidth.clamp(single(1.0), least), single(16.0));
    assert_eq!(NumberBinding::DialogHeight.clamp(single(9000.0), least), single(8192.0));
    assert_eq!(NumberBinding::RangeLow.clamp(single(-9.5), least), single(-9.5));
    assert!(NumberBinding::Shift.is_integer() && !NumberBinding::RangeLow.is_integer());
    assert!(matches!(NumberBinding::Shift.goes(), Goes::Edit("shift")));
    assert!(matches!(NumberBinding::DialogSeed.goes(), Goes::Dialog));
    assert!(matches!(NumberBinding::Unbound.goes(), Goes::Document(Slot::Once)));
    let bound = NumberBinding::ShaderParam(NodeId(3), 1, 2);
    assert_eq!(bound.node(), Some(NodeId(3)));
    assert!(matches!(
        bound.goes(),
        Goes::Document(Slot::Control { property: "shader.param", index: (1, 2), .. })
    ));
    assert_eq!(NumberBinding::Shift.node(), None);
}

fn names() -> Vec<String> {
    vec!["base".to_owned(), "wet".to_owned()]
}

// What the add button makes bakes on its own.
#[test]
fn a_new_op_refers_to_a_field_there_is() {
    assert_eq!(first_field(&names()).as_str(), "base");
    assert_eq!(first_field(&vec![]).as_str(), "height");
    assert!(matches!(
        default_op("constant", &names()),
        LayerOp::Constant(value) if value == single(0.5)
    ));
    assert!(matches!(default_op("fieldref", &names()), LayerOp::FieldRef(id) if id.is("base")));
    assert!(matches!(
        default_op("slope", &names()),
        LayerOp::Slope { of, sample_tiles, .. } if of.is("base") && sample_tiles == single(4.0)
    ));
    assert!(matches!(default_op("paint", &names()), LayerOp::Paint(raster) if raster.is_empty()));
    assert!(matches!(
        default_op("noise", &names()),
        LayerOp::Noise(spec) if spec == NoiseSpec::new(1, NoiseKind::Fbm, single(0.02))
    ));
}

// A number of an op is read back as it was written, and one it has not is refused.
#[test]
fn a_number_of_an_op_is_read_back() {
    let mut op = LayerOp::Constant(single(0.5));
    assert_eq!(op.read(OpNumber::Constant), Some(Amount::Real(single(0.5))));
    assert!(op.write(OpNumber::Constant, Amount::Real(single(0.25))));
    assert_eq!(op.read(OpNumber::Constant), Some(Amount::Real(single(0.25))));
    assert_eq!(op.read(OpNumber::NoiseSeed), None);
    assert!(!op.write(OpNumber::NoiseSeed, Amount::Whole(3)));

    let spec = NoiseSpec::new(1, NoiseKind::Fbm, single(0.02)).with_warp(WarpSpec {
        seed: 2,
        amplitude: single(40.0),
        scale: single(0.01),
        octaves: 2,
        salts: None,
    });
    let mut op = LayerOp::Noise(spec);
    assert!(op.write(OpNumber::NoiseSeed, Amount::Whole(77)));
    assert_eq!(op.read(OpNumber::NoiseSeed), Some(Amount::Whole(77)));
    assert_eq!(op.read(OpNumber::WarpOctaves), Some(Amount::Whole(2)));

    let mut op = LayerOp::Regions {
        spec: RegionSpec {
            seed: 1,
            cell_tiles: 64,
            blend_tiles: 8,
            columns: vec!["lift".to_owned()],
            regions: vec![Region { weight: single(1.0), values: vec![single(0.5)] }],
        },
        output: RegionOutput::RegionId,
    };
    assert_eq!(op.read(OpNumber::RegionValue(0, 0)), Some(Amount::Real(single(0.5))));
    assert_eq!(op.read(OpNumber::RegionValue(0, 1)), None);
    assert_eq!(op.read(OpNumber::RegionWeight(1)), None);
    assert!(op.write(OpNumber::RegionValue(0, 0), Amount::Real(single(0.75))));
    assert_eq!(op.read(OpNumber::RegionValue(0, 0)), Some(Amount::Real(single(0.75))));
}

#[test]
fn the_outputs_of_a_table_are_its_columns_and_two_more() {
    let spec = RegionSpec {
        seed: 1,
        cell_tiles: 64,
        blend_tiles: 8,
        columns: vec!["lift".to_owned()],
        regions: vec![],
    };
    assert_eq!(region_outputs(&spec), vec!["lift", "region_id", "cover_class"]);
    assert!(matches!(RegionOutput::named("region_id"), RegionOutput::RegionId));
    assert!(matches!(RegionOutput::named("cover_class"), RegionOutput::CoverClass));
    assert!(matches!(RegionOutput::named("lift"), RegionOutput::Column(name) if name == "lift"));
}

// Choosing what is chosen already changes nothing.
#[test]
fn choosing_what_is_chosen_changes_nothing() {
    let mut id = FieldId::new("base");
    assert!(!choose_field(&mut id, "base"));
    assert!(choose_field(&mut id, "wet"));
    assert_eq!(id.as_str(), "wet");

    let mut mask = Mask::Constant(single(0.5));
    assert!(!choose_mask(&mut mask, MaskKind::Constant, &names()));
    assert!(matches!(mask, Mask::Constant(value) if value == single(0.5)));
    assert!(choose_mask(&mut mask, MaskKind::Field, &names()));
    assert!(matches!(&mask, Mask::Field(id, _) if id.is("base")));
    assert!(!choose_mask(&mut mask, MaskKind::Field, &names()));
    assert!(choose_mask(&mut mask, MaskKind::Constant, &names()));
    assert!(matches!(mask, Mask::Constant(value) if value == single(1.0)));
}

#[test]
fn a_layer_moves_one_place_at_a_time() {
    assert_eq!(moves(0, 3), (None, Some(1)));
    assert_eq!(moves(1, 3), (Some(0), Some(2)));
    assert_eq!(moves(2, 3), (Some(1), None));
    assert_eq!(moves(0, 1), (None, None));
    assert!(shift_is_settled(true, 0));
    assert!(!shift_is_settled(true, 2) && !shift_is_settled(false, 0));
}

#[test]
fn the_brush_says_where_a_drag_would_land() {
    assert_eq!(brush_target("height", Some(("relief", 2))), "drag paints relief layer 2");
    assert_eq!(brush_target("height", None), "height has no paint layer");
}

// A row without a line is blank, and the rows are written again only for a new record.
#[test]
fn a_row_without_a_line_is_blank() {
    let lines = vec!["a".to_owned()];
    assert_eq!(row_text(&lines, 0), "a");
    assert_eq!(row_text(&lines, 1), "");
    let mut panel = LogPanel::new();
    assert!(panel.is_stale(3));
    assert!(!panel.is_stale(3));
    assert!(panel.is_stale(4));
}

// A press starts what its button says, where the button is enabled.
#[test]
fn a_press_starts_what_its_button_says() {
    let idle = Standing {
        busy: false,
        has_document: true,
        has_water: false,
        baked_whole: true,
        dirty: false,
    };
    assert_eq!(idle.press(Button::New), Some(Action::ShowDialog));
    assert_eq!(idle.press(Button::Open), Some(Action::Load));
    assert_eq!(idle.press(Button::Save), Some(Action::Store));
    assert_eq!(idle.press(Button::BakeAll), None);
    assert_eq!(idle.press(Button::Solve), Some(Action::SolveBaked));
    assert_eq!(idle.press(Button::ResetWater), None);
    assert_eq!(idle.press(Button::Fit), Some(Action::Frame));
    assert_eq!(idle.solve_hint(), "solve the water");
    let dirty = Standing { dirty: true, has_water: true, ..idle };
    assert_eq!(dirty.press(Button::BakeAll), Some(Action::Bake));
    assert_eq!(dirty.press(Button::Solve), Some(Action::BakeAndSolve));
    assert_eq!(dirty.press(Button::ResetWater), Some(Action::DropWater));
    assert_eq!(dirty.solve_hint(), "bake the whole document, then solve");
    let busy = Standing { busy: true, ..dirty };
    for button in [Button::New, Button::Open, Button::Save, Button::BakeAll, Button::Solve] {
        assert_eq!(busy.press(button), None);
    }
}

// Creating takes what the dialog is set to and closes it; cancelling keeps what was typed.
#[test]
fn creating_takes_what_the_dialog_is_set_to() {
    let mut dialog = NewDialog::default();
    assert_eq!(dialog.create(false), None);
    dialog.show();
    dialog.pick(2);
    NumberBinding::DialogHeight.write(single(32.0), single(0.001), None, &mut dialog);
    assert_eq!(dialog.create(true), None);
    assert!(dialog.open);
    dialog.cancel();
    assert!(!dialog.open);
    dialog.show();
    assert_eq!(dialog.create(false), Some((UVec2::new(1024, 32), 1, 2)));
    assert!(!dialog.open);
    assert_eq!(dialog.height, 32);
}

// A control asks for one edit, where it can be used at all.
#[test]
fn a_control_asks_for_one_edit() {
    let stack = Stack { count: 3, settled: false, painted: false };
    let used = |control| ask("height", &names(), stack, control);
    assert!(matches!(
        used(Control::Shift(11)),
        Some(Edit::Write { path, words }) if path == "height.shift" && words == ["8"]
    ));
    assert!(matches!(
        used(Control::Hillshade(true)),
        Some(Edit::Write { path, words }) if path == "height.hillshade" && words == ["on"]
    ));
    assert!(matches!(
        used(Control::Contours(false)),
        Some(Edit::Write { path, words }) if path == "height.contours" && words == ["off"]
    ));
    assert!(used(Control::Up(0)).is_none());
    assert!(matches!(
        used(Control::Up(2)),
        Some(Edit::Move { field, index: 2, to: 1 }) if field == "height"
    ));
    assert!(matches!(used(Control::Down(1)), Some(Edit::Move { index: 1, to: 2, .. })));
    assert!(used(Control::Down(2)).is_none());
    assert!(matches!(used(Control::Remove(2)), Some(Edit::Remove { index: 2, .. })));
    assert!(used(Control::Remove(3)).is_none());
    assert!(matches!(
        used(Control::AddOp("constant".to_owned())),
        Some(Edit::Add { op: LayerOp::Constant(_), .. })
    ));
    assert!(matches!(
        used(Control::AddPaint),
        Some(Edit::Add { op: LayerOp::Paint(raster), .. }) if raster.is_empty()
    ));
    assert!(matches!(
        used(Control::AddLayer("wet".to_owned())),
        Some(Edit::AddLayer { name }) if name == "wet"
    ));
    assert!(matches!(
        used(Control::RemoveLayer),
        Some(Edit::RemoveLayer { name }) if name == "height"
    ));
    let shut = Stack { settled: true, painted: true, ..stack };
    assert!(ask("height", &names(), shut, Control::Shift(1)).is_none());
    assert!(ask("height", &names(), shut, Control::AddPaint).is_none());
}

// A structural change outranks a number changed in place.
#[test]
fn a_structural_change_outranks_a_number() {
    let edit = property_edit("height", "light_azimuth", "90".to_owned());
    assert!(matches!(settle(Some(edit), true), Outcome::Apply(Edit::Write { .. })));
    assert!(matches!(settle(None, true), Outcome::Note));
    assert!(matches!(settle(None, false), Outcome::Nothing));
}

// The radius and the falloff of a brush are held, its strength and value are not.
#[test]
fn a_number_of_the_brush_is_held_in_its_range() {
    let mut brush = Brush::default();
    write_brush(&mut brush, BrushNumber::Radius, single(9000.0));
    write_brush(&mut brush, BrushNumber::Falloff, single(-1.0));
    write_brush(&mut brush, BrushNumber::Strength, single(-3.0));
    write_brush(&mut brush, BrushNumber::Value, single(7.5));
    assert_eq!(brush.radius_cells, single(512.0));
    assert_eq!(brush.falloff, single(0.0));
    assert_eq!(brush.strength, single(-3.0));
    assert_eq!(brush.value, single(7.5));
}

#[test]
fn a_mask_says_what_it_is() {
    let mut mask = Mask::Constant(single(0.5));
    assert_eq!(mask.name(), "constant");
    assert!(mask.write_amount(single(2.0)));
    assert!(matches!(mask, Mask::Constant(value) if value == single(1.0)));
    assert_eq!(mask.painted_label(), None);
    let mut painted = Mask::Painted(Raster::new(UVec2::new(4, 2), 0u8));
    assert_eq!(painted.name(), "painted");
    assert_eq!(painted.painted_label(), Some("4x2 painted".to_owned()));
    assert!(!painted.write_amount(single(0.5)));
}

#[test]
fn an_op_that_is_a_raster_says_how_large_it_is() {
    let size = UVec2::new(4, 2);
    assert_eq!(LayerOp::Paint(Raster::empty()).raster_label(), Some("unpainted".to_owned()));
    assert_eq!(
        LayerOp::Paint(Raster::new(size, 0u8)).raster_label(),
        Some("4x2 painted".to_owned())
    );
    assert_eq!(
        LayerOp::External(Raster::new(size, single(0.5))).raster_label(),
        Some("4x2 raster".to_owned())
    );
    assert_eq!(LayerOp::Constant(single(0.5)).raster_label(), None);
}

#[test]
fn a_pick_from_a_list_changes_the_op_it_is_of() {
    let mut noise = LayerOp::Noise(NoiseSpec::new(1, NoiseKind::Fbm, single(0.02)));
    assert!(!noise.choose_kind(NoiseKind::Fbm));
    assert!(noise.choose_kind(NoiseKind::Ridged));
    assert!(matches!(&noise, LayerOp::Noise(spec) if spec.kind == NoiseKind::Ridged));
    assert!(!noise.choose_reading(1));
    let mut slope =
        LayerOp::Slope { of: FieldId::new("height"), sample_tiles: single(4.0), mode: 0 };
    assert!(slope.choose_reading(2));
    assert!(!slope.choose_reading(2));
    assert!(!slope.choose_kind(NoiseKind::Signed));
    assert!(matches!(slope, LayerOp::Slope { mode: 2, .. }));
}
