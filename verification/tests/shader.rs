//! What a shader file declares and what is packed for it.

use watershed_editor::declaration::parse_params;
use watershed_editor::layout::same_text;
use watershed_editor::params::{Literal, ParamError, ParamField, ParamType, ParamsLayout, Widget};
use watershed_editor::raster::{Raster, UVec2};
use watershed_editor::shader::ShaderLayer;
use watershed_editor::single::Single;
use watershed_editor::values::Values;

fn single(value: f32) -> Single {
    Single(value.to_bits())
}

fn srgb_to_linear(value: f32) -> f32 {
    if value <= 0.04045 {
        value / 12.92
    } else {
        ((value + 0.055) / 1.055).powf(2.4)
    }
}

fn number(literal: &Literal) -> Single {
    single(match literal {
        Literal::Number(text) => text.parse().unwrap(),
        Literal::Srgb(text) => srgb_to_linear(text.parse().unwrap()),
        Literal::Zero => 0.0,
        Literal::One => 1.0,
    })
}

fn layout_of(source: &str) -> Result<ParamsLayout<Single>, ParamError> {
    let declared = parse_params(source)?;
    let numbers = declared
        .fields
        .iter()
        .map(|field| field.literals().into_iter().map(number).collect())
        .collect();
    Ok(declared.resolve(&numbers).unwrap())
}

fn default_of(field: &ParamField<Single>) -> Vec<f32> {
    field.default.iter().map(|value| f32::from_bits(value.0)).collect()
}

// The common case, and the one every stock shader is written in: a scalar with a
// default and a range, read into a slider.
#[test]
fn a_scalar_declares_a_slider_over_its_range() {
    let layout = layout_of("struct Params {\n  scale: f32, // @ui 8.0 [0.1, 64.0]\n}\n").unwrap();
    let field = layout.field("scale").unwrap();
    assert_eq!(field.ty, ParamType::F32);
    assert_eq!(default_of(field), vec![8.0]);
    assert_eq!(
        field.widget,
        Widget::Slider { min: single(0.1), max: single(64.0), step: None }
    );
}

// A step is what makes an integer parameter usable, and it is the one part of the
// slider form that is optional, so its absence must not be read as a zero step.
#[test]
fn a_step_is_optional_and_read_when_it_is_there() {
    let layout = layout_of(
        "struct Params {\n  octaves: u32, // @ui 4 [1, 8] step 1\n  gain: f32, // @ui 0.5 [0.0, 1.0]\n}\n",
    )
    .unwrap();
    assert_eq!(
        layout.field("octaves").unwrap().widget,
        Widget::Slider { min: single(1.0), max: single(8.0), step: Some(single(1.0)) }
    );
    assert!(matches!(
        layout.field("gain").unwrap().widget,
        Widget::Slider { step: None, .. }
    ));
}

// A colour is written in sRGB and stored linear, and the conversion happens once.
#[test]
fn a_colour_default_is_written_in_srgb_and_stored_linear() {
    let source = "struct Params {\n  tint: vec3<f32>, // @ui color srgb(0.5, 0.5, 0.5)\n}\n";
    let declared = parse_params(source).unwrap();
    for literal in declared.fields[0].literals() {
        assert!(matches!(literal, Literal::Srgb(text) if text == "0.5"));
    }
    let layout = layout_of(source).unwrap();
    let default = default_of(layout.field("tint").unwrap());
    assert_eq!(default.len(), 3);
    assert!((default[0] - srgb_to_linear(0.5)).abs() < 1e-6);
    assert!(default[0] < 0.5, "the value was not converted");
}

// A field with no annotation is a fault rather than a parameter with a guessed
// widget: a guessed uniform is one the editor and the GPU disagree about.
#[test]
fn a_parameter_without_an_annotation_is_a_fault() {
    let error = parse_params("struct Params {\n  scale: f32,\n}\n").unwrap_err();
    assert_eq!(error.line, 2);
}

// The line number is what the status bar prints, so it has to be the line the
// fault is on rather than the line the struct opened on.
#[test]
fn a_fault_reports_the_line_it_is_on() {
    let error = parse_params(
        "struct Params {\n  a: f32, // @ui 1.0 [0.0, 2.0]\n  b: mat4x4<f32>, // @ui 1.0 [0.0, 2.0]\n}\n",
    )
    .unwrap_err();
    assert_eq!(error.line, 3);
}

// A shader may take no parameters at all, and that is not the same as one whose
// parameters could not be read.
#[test]
fn a_source_with_no_params_struct_declares_no_parameters() {
    let layout = parse_params("fn value(p: vec2<f32>) -> f32 { return 0.0; }\n").unwrap();
    assert!(layout.fields.is_empty());
    assert_eq!(layout.byte_size, 0);
}

// WGSL aligns a vec2 to eight bytes and a vec3 to sixteen, and the uniform is
// rounded to sixteen. A layout that packed tightly would feed every field after
// the first vector the wrong bytes.
#[test]
fn a_struct_whose_name_only_begins_like_it_is_not_the_params_struct() {
    for name in ["ParamsOther", "Params2", "Params_", "Params\u{e9}"] {
        let layout = parse_params(&format!("struct {name} {{\n  x: f32,\n}}\n")).unwrap();
        assert!(layout.fields.is_empty());
        assert_eq!(layout.byte_size, 0);
    }
    let both = "struct ParamsOther {\n  x: f32,\n}\nstruct Params{\n  y: f32, // @ui 1 [0, 2]\n}\n";
    assert_eq!(parse_params(both).unwrap().fields[0].name, "y");
    assert!(parse_params("struct Params\n").is_err());
}

#[test]
fn the_uniform_is_laid_out_the_way_wgsl_aligns_it() {
    let layout = parse_params(
        "struct Params {\n  a: f32, // @ui 1.0 [0.0, 2.0]\n  b: vec2<f32>, // @ui (1.0, 2.0) [0.0, 4.0]\n  c: vec3<f32>, // @ui color srgb(1.0, 1.0, 1.0)\n  d: f32, // @ui 1.0 [0.0, 2.0]\n}\n",
    )
    .unwrap();
    assert_eq!(layout.field("a").unwrap().offset, 0);
    assert_eq!(layout.field("b").unwrap().offset, 8);
    assert_eq!(layout.field("c").unwrap().offset, 16);
    assert_eq!(layout.field("d").unwrap().offset, 28);
    assert_eq!(layout.byte_size, 32);
}

// The packed bytes are what the GPU reads, so an integer parameter has to arrive
// as an integer rather than as the bit pattern of a float.
#[test]
fn an_integer_parameter_packs_as_an_integer() {
    let layout =
        layout_of("struct Params {\n  octaves: u32, // @ui 4 [1, 8] step 1\n}\n").unwrap();
    let mut layer = ShaderLayer::new("octaves.wgsl");
    layer.reconcile(&layout);
    let bytes = layout.pack(&layer.params);
    assert_eq!(bytes[..4], 4u32.to_le_bytes());
    assert_eq!(bytes.len(), 16);
}

// A document is edited while its shader is, so a value for a parameter that no
// longer exists must not reach the uniform and a new parameter must not be zero.
#[test]
fn packing_falls_back_to_the_default_for_a_value_the_document_lacks() {
    let layout = layout_of(
        "struct Params {\n  a: f32, // @ui 3.0 [0.0, 8.0]\n  b: f32, // @ui 5.0 [0.0, 8.0]\n}\n",
    )
    .unwrap();
    let mut values = Values::new();
    values.insert("a".to_owned(), vec![single(1.5)]);
    values.insert("gone".to_owned(), vec![single(9.0)]);
    let bytes = layout.pack(&values);
    assert_eq!(f32::from_le_bytes(bytes[0..4].try_into().unwrap()), 1.5);
    assert_eq!(f32::from_le_bytes(bytes[4..8].try_into().unwrap()), 5.0);
}

// What the editor does to a document when the file under it changed: the value
// for a dropped parameter goes, and a new one arrives at its default.
#[test]
fn reconciling_drops_what_the_shader_no_longer_declares() {
    let layout = layout_of(
        "struct Params {\n  kept: f32, // @ui 1.0 [0.0, 2.0]\n  added: f32, // @ui 7.0 [0.0, 8.0]\n}\n",
    )
    .unwrap();
    let mut layer = ShaderLayer::new("ridged.wgsl");
    layer.params.insert("kept".to_owned(), vec![single(0.5)]);
    layer.params.insert("gone".to_owned(), vec![single(9.0)]);
    layer.reconcile(&layout);

    assert_eq!(layer.params.get("kept"), Some(&vec![single(0.5)]));
    assert_eq!(layer.params.get("added"), Some(&vec![single(7.0)]));
    assert!(!layer.params.contains_key("gone"));
}

// A label is what the panel prints and the name is what the uniform is keyed by,
// so an annotation that overrides one must not touch the other.
#[test]
fn a_label_overrides_what_is_printed_and_not_what_is_addressed() {
    let layout = parse_params(
        "struct Params {\n  ridge_gain: f32, // @ui \"Sharpness\" 0.6 [0.0, 1.0]\n}\n",
    )
    .unwrap();
    let field = layout.field("ridge_gain").unwrap();
    assert_eq!(field.label, "Sharpness");
    assert_eq!(field.name, "ridge_gain");
}

// A group is a section heading, and it applies to every parameter after it rather
// than to the one line it is on.
#[test]
fn a_group_applies_to_every_parameter_under_it() {
    let layout = parse_params(
        "struct Params {\n  loose: f32, // @ui 1.0 [0.0, 2.0]\n  // @group Shape\n  a: f32, // @ui 1.0 [0.0, 2.0]\n  b: f32, // @ui 1.0 [0.0, 2.0]\n}\n",
    )
    .unwrap();
    assert_eq!(layout.field("loose").unwrap().group, "");
    assert_eq!(layout.field("a").unwrap().group, "Shape");
    assert_eq!(layout.field("b").unwrap().group, "Shape");
}

// Two parameters of one name would give the document one key for two uniform
// slots, so the second is refused rather than silently shadowing the first.
#[test]
fn a_parameter_declared_twice_is_a_fault() {
    let error = parse_params(
        "struct Params {\n  a: f32, // @ui 1.0 [0.0, 2.0]\n  a: f32, // @ui 2.0 [0.0, 2.0]\n}\n",
    )
    .unwrap_err();
    assert_eq!(error.line, 3);
}

// A hidden parameter still occupies its slot in the uniform, so leaving it out of
// the layout would shift every field after it.
#[test]
fn a_hidden_parameter_still_takes_its_place_in_the_uniform() {
    let layout = parse_params(
        "struct Params {\n  secret: f32, // @ui hidden\n  shown: f32, // @ui 1.0 [0.0, 2.0]\n}\n",
    )
    .unwrap();
    assert_eq!(layout.field("secret").unwrap().offset, 0);
    assert_eq!(layout.field("shown").unwrap().offset, 4);
}

fn fault_in(source: &str) -> String {
    parse_params(source).unwrap_err().message()
}

fn fault_of(line: &str) -> String {
    fault_in(&format!("struct Params {{\n{line}\n}}\n"))
}

// Each way a declaration can be wrong has its own words, and names the line it is on.
#[test]
fn every_fault_of_a_declaration_says_what_was_wrong() {
    for (line, words) in [
        ("  scale f32, // @ui 1.0 [0.0, 2.0]", "not a `name: type` declaration"),
        (
            "  scale: mat4x4<f32>, // @ui 1.0 [0.0, 2.0]",
            "`mat4x4<f32>` is not a parameter type",
        ),
        ("  scale: f32,", "no `@ui` annotation"),
        ("  scale: f32, // @ui one [0.0, 2.0]", "`one` is not a number"),
        ("  scale: f32, // @ui 1.0 0.0, 2.0", "no `[min, max]` range"),
        ("  scale: f32, // @ui 1.0 [0.0]", "a range is written as `[min, max]`"),
        (
            "  scale: f32, // @ui (1.0, 2.0) [0.0, 2.0]",
            "the default has 2 components, where `f32` has 1",
        ),
        ("  scale: vec2<f32>, // @ui (1.0, 2.0 [0.0, 2.0]", "the default is never closed"),
        ("  tint: f32, // @ui color srgb(0.5, 0.5, 0.5)", "a colour needs three components or four"),
        ("  tint: vec3<f32>, // @ui color srgb(0.5, 0.5)", "a colour is written as `srgb(r, g, b)`"),
        ("  on: u32, // @ui toggle maybe", "`maybe` is not `true` or `false`"),
        ("  scale: f32, // @ui 1.0 [0.0, 2.0] step big", "`big` is not a step"),
    ] {
        assert_eq!(fault_of(line), format!("line 2: {words}"));
    }
}

// A toggle is one number, zero or one, and a colour of four parts is opaque.
#[test]
fn a_toggle_and_a_colour_have_the_defaults_they_are_written_with() {
    let layout = layout_of(
        "struct Params {\n  on: u32, // @ui toggle true\n  off: u32, // @ui toggle false\n  tint: vec4<f32>, // @ui color srgb(0.0, 1.0, 0.0)\n}\n",
    )
    .unwrap();
    assert_eq!(default_of(layout.field("on").unwrap()), vec![1.0]);
    assert_eq!(default_of(layout.field("off").unwrap()), vec![0.0]);
    assert_eq!(default_of(layout.field("tint").unwrap()), vec![0.0, 1.0, 0.0, 1.0]);
    assert!(matches!(layout.field("on").unwrap().widget, Widget::Toggle));
    assert!(matches!(layout.field("tint").unwrap().widget, Widget::Color));
}

// A struct that is opened must be closed, or everything after it would be a parameter.
#[test]
fn a_struct_that_is_never_closed_is_a_fault() {
    let message = fault_in("struct Params {\n  a: f32, // @ui 1.0 [0.0, 2.0]\n");
    assert!(message.ends_with("`Params` is never closed"), "{message}");
}

// The uniform has a size the editor refuses to go beyond.
#[test]
fn a_uniform_past_the_limit_is_a_fault() {
    let mut source = String::from("struct Params {\n");
    for index in 0..65 {
        source.push_str(&format!("  v{index}: vec4<f32>, // @ui hidden\n"));
    }
    source.push_str("}\n");
    let message = fault_in(&source);
    assert!(
        message.ends_with("the parameters pack into 1040 bytes, over the 1024 limit"),
        "{message}"
    );
}

// Reading a type back from its own spelling is the identity, and white space inside the
// brackets is the only slack there is.
#[test]
fn a_type_is_read_back_from_its_spelling() {
    for ty in [
        ParamType::F32,
        ParamType::I32,
        ParamType::U32,
        ParamType::Vec2,
        ParamType::Vec3,
        ParamType::Vec4,
    ] {
        assert_eq!(ParamType::parse(ty.as_str()), Some(ty));
    }
    assert_eq!(ParamType::parse("vec3< f32 >"), Some(ParamType::Vec3));
    assert_eq!(ParamType::parse("f64"), None);
    assert_eq!(ParamType::parse(""), None);
}

#[test]
fn a_type_has_the_size_and_alignment_of_its_components() {
    assert_eq!(ParamType::F32.components(), 1);
    assert_eq!(ParamType::Vec3.components(), 3);
    assert_eq!(ParamType::Vec3.size(), 12);
    assert_eq!(ParamType::Vec3.alignment(), 16);
    assert_eq!(ParamType::Vec2.alignment(), 8);
    assert_eq!(ParamType::Vec4.size(), 16);
    assert!(ParamType::I32.is_integer() && ParamType::U32.is_integer());
    assert!(!ParamType::F32.is_integer());
}

// A signed integer packs as the nearest whole number.
#[test]
fn a_signed_parameter_packs_rounded() {
    let layout =
        layout_of("struct Params {\n  turns: i32, // @ui -3 [-8, 8] step 1\n}\n").unwrap();
    assert_eq!(layout.pack(&Values::new())[..4], (-3i32).to_le_bytes());
    let mut values = Values::new();
    values.insert("turns".to_owned(), vec![single(-2.5)]);
    assert_eq!(layout.pack(&values)[..4], (-3i32).to_le_bytes());
}

// Reconciling twice is reconciling once, and what is declared keeps its value.
#[test]
fn reconciling_again_changes_nothing() {
    let layout = layout_of(
        "struct Params {\n  a: f32, // @ui 1.0 [0.0, 2.0]\n  b: f32, // @ui 7.0 [0.0, 8.0]\n}\n",
    )
    .unwrap();
    let mut layer = ShaderLayer::new("ridged.wgsl");
    layer.params.insert("b".to_owned(), vec![single(2.0)]);
    layer.reconcile(&layout);
    let once = format!("{:?}", layer.params);
    layer.reconcile(&layout);
    assert_eq!(format!("{:?}", layer.params), once);
    assert_eq!(layer.params.get("b"), Some(&vec![single(2.0)]));
    assert_eq!(layer.params.len(), 2);
    assert_eq!(layer.params.name_at(0), Some("a"));
    assert_eq!(layer.params.name_at(2), None);
}

// The values of a dispatch are kept with the key it was made under, and clearing drops
// both.
#[test]
fn a_dispatch_is_kept_until_it_is_cleared() {
    let mut layer = ShaderLayer::new("a.wgsl");
    assert!(layer.values().is_empty());
    layer.put_dispatch(Raster::new(UVec2::splat(2), single(0.5)), 7);
    assert_eq!(layer.stamp(), Some(7));
    assert_eq!(layer.values().data.len(), 4);
    layer.put_values(Raster::new(UVec2::splat(3), single(0.5)));
    assert_eq!(layer.values().data.len(), 9);
    layer.clear();
    assert!(layer.values().is_empty());
    assert_eq!(layer.stamp(), None);
}

#[test]
fn texts_are_the_same_letter_for_letter() {
    assert!(same_text("ridge", "ridge"));
    assert!(!same_text("ridge", "ridges"));
    assert!(!same_text("ridge", "Ridge"));
}
