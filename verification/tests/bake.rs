//! Baking a document, whole and a step at a time.

use watershed_editor::bake::{BakeError, BakeProgress, StepKind};
use watershed_editor::circles::find_circle;
use watershed_editor::evaluate::DispatchGlobals;
use watershed_editor::layer::Layer;
use watershed_editor::names::{FieldId, FieldRole};
use watershed_editor::pack::{quantize, Placement, Tables, WaterBytes, WaterInfo};
use watershed_editor::plan_error::PlanError;
use watershed_editor::quantize::ChannelMeta;
use watershed_editor::raster::{Raster, UVec2};
use watershed_editor::single::Single;
use watershed_editor::terrain::{Dispatch, TerrainSpec};
use watershed_editor::topology::topological_order;
use watershed_editor::water::{WaterParts, WaterSpec};

fn single(value: f32) -> Single {
    Single(value.to_bits())
}

fn number(value: Single) -> f32 {
    f32::from_bits(value.0)
}

fn holding(layer: Layer, raster: Raster<Single>) -> Layer {
    let mut layer = layer;
    layer.shader.put_values(raster);
    layer
}

fn held(layer: Layer, value: f32) -> Layer {
    let mut layer = layer;
    layer.shader.params.insert("value".to_owned(), vec![single(value)]);
    holding(layer, Raster::new(UVec2::splat(1), single(value)))
}

fn reading(layer: Layer, names: &[&str]) -> Layer {
    let mut layer = layer;
    layer.shader.layers = names.iter().map(|name| FieldId::new(name)).collect();
    layer
}

fn ramp(size: UVec2) -> Raster<Single> {
    let span = (size.x + size.y) as f32;
    Raster::from_vec(
        size,
        (0..size.x * size.y)
            .map(|n| single(((n % size.x) + (n / size.x)) as f32 / span))
            .collect(),
    )
    .unwrap()
}

/// A field read between its texel centres, its edge repeated; an empty one reads as zero.
fn sample(terrain: &TerrainSpec, id: &str, x: f32, y: f32) -> Option<f32> {
    let field = terrain.field(id)?;
    let raster = field.baked();
    if raster.is_empty() {
        return Some(0.0);
    }
    let block = (1u32 << field.shift) as f32;
    let (x, y) = (x / block - 0.5, y / block - 0.5);
    let at = |x: f32, y: f32| {
        let column = x.clamp(0.0, (raster.size.x - 1) as f32) as u32;
        let row = y.clamp(0.0, (raster.size.y - 1) as f32) as u32;
        number(*raster.get(column, row).unwrap())
    };
    let (left, top) = (x.floor(), y.floor());
    let (across, down) = (x - left, y - top);
    let upper = at(left, top) * (1.0 - across) + at(left + 1.0, top) * across;
    let lower = at(left, top + 1.0) * (1.0 - across) + at(left + 1.0, top + 1.0) * across;
    Some(upper * (1.0 - down) + lower * down)
}

fn two_field_document() -> TerrainSpec {
    TerrainSpec::new(UVec2::new(96, 80))
        .with_field(holding(
            Layer::new("moisture").with_shift(3),
            ramp(UVec2::new(12, 10)),
        ))
        .with_field(reading(
            holding(Layer::new("height").with_shift(0), ramp(UVec2::new(96, 80))),
            &["moisture"],
        ))
}

fn with_relief(terrain: TerrainSpec) -> TerrainSpec {
    terrain.with_field(reading(
        holding(
            Layer::new("relief").with_range((single(-1.0), single(1.0))),
            ramp(UVec2::new(96, 80)),
        ),
        &["height"],
    ))
}

// The whole point of the staged bake: a caller that walks the order one field at a
// time has to end up with exactly the document a single bake would have written,
// or the intermediate results it showed were of a different world.
#[test]
fn baking_a_stage_at_a_time_writes_what_one_bake_would_have() {
    let mut whole = with_relief(two_field_document());
    let mut staged = with_relief(two_field_document());

    whole.bake_in_place().unwrap();
    for id in staged.bake_order().unwrap() {
        staged.bake_field(id.as_str(), Dispatch::Held).unwrap();
    }

    for field in &whole.fields {
        let one = field.baked();
        let other = staged.field(field.id.as_str()).unwrap().baked();
        assert_eq!(one.size, other.size, "{:?} changed size", field.id);
        assert!(
            one.data.iter().zip(&other.data).all(|(a, b)| a == b),
            "{:?} differs between a staged bake and a whole one",
            field.id
        );
    }
}

// Releasing is what keeps a staged bake's peak below the sum of its fields, and it
// has to leave the document able to rebuild what it dropped.
#[test]
fn a_released_field_reads_as_zero_and_bakes_back() {
    let mut terrain = two_field_document();
    terrain.bake_in_place().unwrap();

    let before = terrain.baked_bytes();
    let sampled = sample(&terrain, "height", 12.5, 9.5).unwrap();
    assert!(sampled != 0.0, "the sample to compare against is already zero");

    assert!(terrain.release("height"));
    assert!(terrain.baked_bytes() < before);
    assert_eq!(sample(&terrain, "height", 12.5, 9.5), Some(0.0));

    terrain.bake_field("height", Dispatch::Held).unwrap();
    assert_eq!(terrain.baked_bytes(), before);
    assert_eq!(sample(&terrain, "height", 12.5, 9.5), Some(sampled));
}

// The guard on the whole point of releasing: a staged bake that drops what it no
// longer needs must actually hold less, not hand the raster straight back on the
// next stage.
#[test]
fn a_staged_bake_does_not_re_allocate_what_the_caller_released() {
    let mut terrain = two_field_document();
    let order = terrain.bake_order().unwrap();
    terrain.bake_field(order[0].as_str(), Dispatch::Held).unwrap();

    let with_first = terrain.baked_bytes();
    terrain.release(order[0].as_str());
    let released = terrain.baked_bytes();
    assert!(released < with_first);

    terrain.bake_field(order[1].as_str(), Dispatch::Held).unwrap();
    assert_eq!(
        terrain.field(order[0].as_str()).unwrap().baked().size,
        UVec2::splat(0),
        "a released field came back when the next stage baked"
    );
}

// A staged bake releases by name, and the names come from a document the caller
// may have edited since; a typo has to be a `false` it can notice, not a crash.
#[test]
fn releasing_a_field_that_is_not_there_says_so_rather_than_panicking() {
    let mut terrain = two_field_document();
    assert!(!terrain.release("nowhere"));
}

// A stage list has to be an order rather than a listing: a field that reads another
// cannot come first, or the caller walking it would bake against zeros.
#[test]
fn the_stage_order_puts_a_field_after_everything_it_reads() {
    let terrain = two_field_document();
    let order = terrain.bake_order().unwrap();
    let position = |id: &str| order.iter().position(|got| got.as_str() == id).unwrap();
    assert!(position("moisture") < position("height"));
    assert_eq!(order.len(), terrain.fields.len());
}

// The failures a bake can only discover late are the ones a caller most wants early,
// because a staged bake has already drawn half a world by the time it hits one.
#[test]
fn a_stage_list_refuses_a_document_a_bake_would_refuse() {
    let cyclic = TerrainSpec::new(UVec2::splat(16))
        .with_field(reading(Layer::new("a"), &["b"]))
        .with_field(reading(Layer::new("b"), &["a"]));
    assert!(matches!(cyclic.bake_order(), Err(PlanError::Cycle(_))));

    let dangling =
        TerrainSpec::new(UVec2::splat(16)).with_field(reading(Layer::new("a"), &["gone"]));
    assert!(matches!(
        dangling.bake_order(),
        Err(PlanError::UnknownField { .. })
    ));
}

// Baking a field the document does not carry is the caller's mistake and has to say
// so, rather than quietly doing nothing.
#[test]
fn baking_a_field_that_is_not_there_says_which_one() {
    let mut terrain = two_field_document();
    assert!(matches!(
        terrain.bake_field("nowhere", Dispatch::Held),
        Err(PlanError::UnknownField { .. })
    ));
}

// The baseline the staging tests compare against: two fields at different shifts, one
// reading the other, each allocated at its own resolution and filled with finite values
// that actually vary.
#[test]
fn a_two_field_document_bakes_each_field_at_its_own_resolution() {
    let mut terrain = two_field_document();
    terrain.bake_in_place().unwrap();

    let moisture = terrain.field("moisture").unwrap();
    assert_eq!(moisture.baked().size, UVec2::new(12, 10));
    let height = terrain.field("height").unwrap();
    assert_eq!(height.baked().size, UVec2::new(96, 80));

    let values: Vec<f32> = height.baked().data.iter().map(|value| number(*value)).collect();
    assert!(values.iter().all(|value| value.is_finite()));
    let lowest = values.iter().copied().fold(f32::INFINITY, f32::min);
    let highest = values.iter().copied().fold(f32::NEG_INFINITY, f32::max);
    assert!(highest - lowest > 0.05, "{lowest} to {highest}");
}

// A field whose shader has produced nothing has to read as zero rather than failing the
// bake.
#[test]
fn a_shader_with_no_runtime_bakes_as_zero_rather_than_failing() {
    let mut terrain = TerrainSpec::new(UVec2::splat(8)).with_field(Layer::new("height"));
    terrain.bake_in_place().expect("the bake was refused");
    assert!(terrain
        .field("height")
        .unwrap()
        .baked()
        .data
        .iter()
        .all(|value| number(*value) == 0.0));
}

// The failure mode a naive walk has here is non-termination, which is far worse
// than a wrong answer; the error also names the cycle, because a document with
// several fields gives no other clue which reference to remove.
#[test]
fn a_dependency_cycle_is_an_error_rather_than_a_hang() {
    let mut terrain = TerrainSpec::new(UVec2::new(8, 8))
        .with_field(reading(Layer::new("a"), &["b"]))
        .with_field(reading(Layer::new("b"), &["a"]));
    let error = terrain.bake_in_place().unwrap_err();
    assert!(matches!(error, PlanError::Cycle(_)), "{error:?}");
}

// Caught at plan time and named on both sides: the dangling reference lives in the
// reader, so an error naming only the missing field would not say where to look.
#[test]
fn a_reference_to_a_field_that_is_not_there_is_an_error() {
    let terrain =
        TerrainSpec::new(UVec2::new(8, 8)).with_field(reading(Layer::new("a"), &["gone"]));
    let error = terrain.plan_bake().unwrap_err();
    assert!(
        matches!(&error, PlanError::UnknownField { referenced, reader }
            if referenced == "gone" && reader == "a"),
        "{error:?}"
    );
}

// References are by name, so two fields sharing one makes every reference to it
// ambiguous: it has to be refused rather than resolved to whichever came first.
#[test]
fn two_fields_may_not_share_an_id() {
    let mut terrain = TerrainSpec::new(UVec2::new(8, 8))
        .with_field(Layer::new("height"))
        .with_field(Layer::new("height"));
    let error = terrain.bake_in_place().unwrap_err();
    assert!(matches!(error, PlanError::DuplicateField(_)), "{error:?}");
}

// A zero extent would make every allocation and every rectangle degenerate; it is
// refused at the top rather than producing an empty document that looks baked.
#[test]
fn a_document_with_no_extent_is_an_error() {
    let mut terrain = TerrainSpec::new(UVec2::new(0, 16));
    assert!(matches!(
        terrain.bake_in_place().unwrap_err(),
        PlanError::ZeroSize(0, 16)
    ));
}

// The clamp is applied once to what the shader produced, so a shader may leave the
// range and still land inside it.
#[test]
fn a_field_is_clamped_to_the_range_it_declares() {
    let mut terrain = TerrainSpec::new(UVec2::new(8, 8)).with_field(held(
        Layer::new("height").with_range((single(0.0), single(1.0))),
        5.0,
    ));
    terrain.bake_in_place().unwrap();
    assert_eq!(sample(&terrain, "height", 4.5, 4.5).unwrap(), 1.0);
}

#[test]
fn a_bake_lies_in_its_range_whichever_way_round_the_range_was_stored() {
    for (value, wanted) in [(-5.0, -1.0), (5.0, 1.0), (0.25, 0.25)] {
        let mut terrain = TerrainSpec::new(UVec2::new(8, 8)).with_field(held(
            Layer::new("height").with_range((single(1.0), single(-1.0))),
            value,
        ));
        terrain.bake_in_place().unwrap();
        assert_eq!(sample(&terrain, "height", 4.5, 4.5).unwrap(), wanted);
    }
}

// An extent that is not a multiple of the shift rounds up to a raster whose last
// row and column are only partly covered by the document; those texels still have
// to be written, or a sample near the far edge reads whatever the allocation held.
#[test]
fn a_bake_leaves_no_texel_of_a_field_untouched() {
    let mut terrain = TerrainSpec::new(UVec2::new(37, 23))
        .with_field(held(Layer::new("height").with_shift(2), 0.5));
    terrain.bake_in_place().unwrap();
    let field = terrain.field("height").unwrap();
    assert_eq!(field.baked().size, UVec2::new(10, 6));
    assert!(field.baked().data.iter().all(|value| number(*value) == 0.5));
}

fn roled_document() -> TerrainSpec {
    TerrainSpec::new(UVec2::new(64, 64))
        .with_field(holding(
            Layer::new("moisture").with_role(FieldRole::Moisture).with_shift(3),
            ramp(UVec2::new(8, 8)),
        ))
        .with_field(holding(
            Layer::new("height").with_role(FieldRole::Height),
            ramp(UVec2::new(64, 64)),
        ))
}

// The plan is what a caller reads before a texel is written, so a step per field in
// dependency order is the whole of what it promises.
#[test]
fn a_plan_carries_one_step_per_field_in_the_order_a_bake_visits_them() {
    let plan = roled_document().plan_bake().unwrap();
    let fields: Vec<_> = plan.steps().iter().map(|step| step.field.clone()).collect();
    assert_eq!(fields, vec!["moisture", "height"]);
    assert!(plan.steps().iter().all(|step| step.kind == StepKind::Field));
}

// Water reads a baked height, so its step has to come after every field step; a
// plan that ordered it anywhere else would solve over an empty raster.
#[test]
fn a_spec_that_declares_water_plans_a_water_step_last() {
    let mut spec = roled_document();
    spec.water_spec = Some(WaterSpec::new("height").with_moisture("moisture"));

    let plan = spec.plan_bake().unwrap();
    assert_eq!(plan.steps().last().unwrap().kind, StepKind::Water);
    assert_eq!(plan.steps().len(), 3);
}

// Advancing answers Finished on the last step and nothing after it: the caller drives
// its loop on that rather than asking the bake a second question.
#[test]
fn advancing_answers_finished_on_the_last_step_and_refuses_after_it() {
    let mut bake = roled_document().begin_bake().unwrap();
    assert_eq!(
        bake.advance(Dispatch::Held, WaterParts::none()).unwrap(),
        BakeProgress::Advanced
    );
    assert_eq!(
        bake.advance(Dispatch::Held, WaterParts::none()).unwrap(),
        BakeProgress::Finished
    );
    assert!(matches!(
        bake.advance(Dispatch::Held, WaterParts::none()).unwrap_err(),
        BakeError::NoStepRemaining
    ));
}

// What a progress display reads. The field named is the one that has finished,
// not the one about to start, which is the distinction an off-by-one here would
// blur.
#[test]
fn a_report_names_the_field_whose_step_ran_and_counts_the_rest() {
    let mut bake = roled_document().begin_bake().unwrap();
    bake.advance(Dispatch::Held, WaterParts::none()).unwrap();

    let report = bake.report();
    assert_eq!((report.step, report.total), (1, 2));
    assert_eq!(report.field, "moisture");
    assert!(report.live_bytes > 0);
}

// A bake is finished only when every step has run, or it would carry a field that reads
// as zero everywhere while looking exactly like one that was baked.
#[test]
fn finishing_before_every_step_has_run_is_refused() {
    let mut bake = roled_document().begin_bake().unwrap();
    bake.advance(Dispatch::Held, WaterParts::none()).unwrap();

    assert!(matches!(
        bake.finish(Tables::none()).unwrap_err(),
        BakeError::StepsRemaining(1)
    ));
}

// The one-call spelling and the stepped one are the same bake, or the progress a
// caller watched was of a different world.
#[test]
fn stepping_a_bake_writes_what_the_one_call_spelling_writes() {
    let stepped = {
        let mut bake = roled_document().begin_bake().unwrap();
        while bake.advance(Dispatch::Held, WaterParts::none()).unwrap() == BakeProgress::Advanced {}
        bake.finish_keeping_spec(Tables::none()).unwrap().1
    };
    let mut whole = roled_document();
    whole.bake_in_place().unwrap();

    for field in &whole.fields {
        let other = stepped.field(field.id.as_str()).unwrap();
        assert_eq!(field.baked().data, other.baked().data, "{:?} differs", field.id);
    }
}

// Role validation is part of planning precisely so it costs nothing: a document
// with a role conflict must fail before it allocates a field's worth of memory.
#[test]
fn two_fields_claiming_one_role_is_refused_before_a_raster_is_allocated() {
    let mut spec = roled_document();
    spec.fields[0].role = FieldRole::Height;

    assert!(matches!(
        spec.plan_bake().unwrap_err(),
        PlanError::DuplicateRole(FieldRole::Height)
    ));
}

// The solve reads its height one texel per cell and will not resample one, so a coarse
// height is refused at plan time rather than discovered at the water step.
#[test]
fn a_coarse_height_field_is_refused_at_plan_time() {
    let mut spec = roled_document();
    spec.fields[1].shift = 2;

    assert!(matches!(
        spec.plan_bake().unwrap_err(),
        PlanError::CoarseHeight(_, 2)
    ));
}

// The water step names the height field by role, so a document declaring water
// with no `Height` field would otherwise plan happily and fail part way through
// the bake.
#[test]
fn declaring_water_without_a_height_field_is_refused_at_plan_time() {
    let mut spec = roled_document();
    spec.fields[1].role = FieldRole::Custom;
    spec.water_spec = Some(WaterSpec::new("height"));

    assert!(matches!(
        spec.plan_bake().unwrap_err(),
        PlanError::MissingHeightField
    ));
}

// A spec whose file carried every bake plans no steps at all: that is what a
// bakes-only export is.
#[test]
fn a_spec_that_carries_every_bake_plans_no_steps() {
    let mut spec = roled_document();
    spec.bake_in_place().unwrap();

    assert!(spec.plan_bake().unwrap().is_empty());
}

// A document written before roles existed loads with every field defaulted to Custom,
// so a water spec it carried names a height field the plan can no longer find.
#[test]
fn a_document_that_carries_no_roles_refuses_to_plan_its_water() {
    let mut spec =
        TerrainSpec::new(UVec2::new(32, 32)).with_field(held(Layer::new("height"), 0.5));
    spec.water_spec = Some(WaterSpec::new("height"));

    assert!(matches!(
        spec.plan_bake().unwrap_err(),
        PlanError::MissingHeightField
    ));
}

// A file's `@layer` name is the only thing that says one field needs another, so
// the order has to follow it even when the reader is declared first.
#[test]
fn a_field_whose_shader_names_another_is_baked_after_it() {
    let terrain = TerrainSpec::new(UVec2::splat(8))
        .with_field(reading(
            holding(Layer::new("reader"), ramp(UVec2::splat(8))),
            &["source"],
        ))
        .with_field(held(Layer::new("source"), 0.5));
    let order: Vec<_> = terrain
        .bake_order()
        .unwrap()
        .into_iter()
        .map(|id| id.to_text())
        .collect();
    assert_eq!(order, ["source", "reader"]);
    let steps: Vec<_> = terrain
        .plan_bake()
        .unwrap()
        .steps()
        .iter()
        .map(|step| step.field.clone())
        .collect();
    assert_eq!(steps, ["source", "reader"]);
}

// A mistyped name in one file must not stop the rest of the document from baking;
// the reader alone is left unbaked, and the fault names what it could not find.
#[test]
fn a_field_naming_no_field_is_left_unbaked_while_the_rest_bakes() {
    let mut terrain = TerrainSpec::new(UVec2::new(96, 80))
        .with_field(holding(
            Layer::new("moisture").with_shift(3),
            ramp(UVec2::new(12, 10)),
        ))
        .with_field(reading(
            holding(Layer::new("height"), ramp(UVec2::new(96, 80))),
            &["nowhere"],
        ));
    terrain.bake_in_place().expect("the bake was refused");

    assert_eq!(
        terrain.field("moisture").unwrap().baked().size,
        UVec2::new(12, 10)
    );
    assert!(terrain.field("height").unwrap().baked().is_empty());
    let faults = terrain.field_faults();
    assert_eq!(faults.len(), 1, "{faults:?}");
    assert_eq!(faults[0].0.as_str(), "height");
    assert!(faults[0].1.contains("nowhere"), "{}", faults[0].1);
}

// Two files naming each other cannot be ordered, so the bake fails rather than
// spinning, and both fields carry the chain that says which names to change.
#[test]
fn two_shaders_naming_each_other_fail_the_bake_and_both_carry_the_chain() {
    let mut terrain = TerrainSpec::new(UVec2::splat(8))
        .with_field(reading(Layer::new("a"), &["b"]))
        .with_field(reading(Layer::new("b"), &["a"]));
    let error = terrain.bake_in_place().unwrap_err();
    assert!(
        matches!(&error, PlanError::Cycle(chain) if chain == "a -> b -> a"),
        "{error:?}"
    );
    let faults = terrain.field_faults();
    assert_eq!(faults.len(), 2, "{faults:?}");
    assert!(faults.iter().all(|(_, fault)| fault.contains("a -> b -> a")));
}

// Every field on a circle is reported, also where the circle is not the first.
#[test]
fn every_field_of_every_cycle_is_reported() {
    let terrain = TerrainSpec::new(UVec2::splat(8))
        .with_field(reading(Layer::new("a"), &["b"]))
        .with_field(reading(Layer::new("b"), &["a"]))
        .with_field(reading(Layer::new("c"), &["d"]))
        .with_field(reading(Layer::new("d"), &["c"]))
        .with_field(reading(Layer::new("e"), &["a"]))
        .with_field(Layer::new("f"));
    let faults = terrain.field_faults();
    let named: Vec<&str> = faults.iter().map(|(id, _)| id.as_str()).collect();
    assert_eq!(named, ["a", "b", "c", "d"]);
    assert!(faults[2].1.contains("c -> d -> c"), "{}", faults[2].1);
}

#[test]
fn a_circle_is_found_where_there_is_one() {
    let reads = vec![vec![1], vec![2, 0], vec![2], vec![]];
    assert_eq!(find_circle(&reads, 2).map(|circle| circle.len()), Some(2));
    assert!(find_circle(&reads, 0).is_some());
    assert!(find_circle(&reads, 3).is_none());
}

#[test]
fn an_order_puts_each_after_what_it_reads() {
    assert_eq!(topological_order(&vec![vec![2], vec![], vec![1]]), Ok(vec![1, 2, 0]));
    assert!(topological_order(&vec![vec![1], vec![0]]).is_err());
}

// A step that releases hands back what no later step reads.
#[test]
fn a_step_releases_what_nothing_after_it_reads() {
    let plan = with_relief(two_field_document()).plan_bake().unwrap();
    assert_eq!(plan.len(), 3);
    let released: Vec<&String> = plan.steps().iter().flat_map(|step| &step.releases).collect();
    for (index, step) in plan.steps().iter().enumerate() {
        for later in &plan.steps()[index + 1..] {
            let reader = later.field.as_str();
            let document = with_relief(two_field_document());
            let reads = document.field(reader).unwrap().dependencies();
            assert!(step.releases.iter().all(|name| reads.iter().all(|id| !id.is(name))));
        }
    }
    assert!(released.len() <= 3);
}

fn flat_parts(cells: usize) -> WaterParts {
    WaterParts {
        slopes: vec![[single(0.0); 8]; cells],
        codes: vec![7; cells],
        depth: vec![single(0.0); cells],
    }
}

// A water step solves over the baked height and stands on the document afterwards.
#[test]
fn a_water_step_leaves_its_water_on_the_document() {
    let mut spec = roled_document();
    spec.water_spec = Some(WaterSpec::new("height"));
    let mut bake = spec.begin_bake().unwrap();
    assert_eq!(bake.next().unwrap().field, "moisture");
    bake.advance(Dispatch::Held, WaterParts::none()).unwrap();
    bake.advance(Dispatch::Held, WaterParts::none()).unwrap();
    assert_eq!(bake.next().unwrap().kind, StepKind::Water);
    let progress = bake.advance(Dispatch::Held, flat_parts(64 * 64)).unwrap();
    assert_eq!(progress, BakeProgress::Finished);
    assert!(bake.next().is_none());
    assert_eq!(bake.report().step, 3);
    let spec = bake.finish_keeping_spec(Tables::none()).unwrap().1;
    let water = spec.water().unwrap();
    assert_eq!(water.size(), UVec2::new(64, 64));
    assert_eq!(water.accumulation_code(3, 3), 7);
}

// What a dispatch makes is kept with its key and baked; one that fails leaves the field
// allocated and says why.
#[test]
fn a_dispatch_that_fails_is_reported_with_its_field() {
    let mut terrain = TerrainSpec::new(UVec2::splat(2)).with_field(Layer::new("height"));
    assert!(terrain.needs_dispatch(0, false, 5));
    terrain
        .bake_field("height", Dispatch::Made { values: vec![single(0.25); 4], key: 5 })
        .unwrap();
    assert!(!terrain.needs_dispatch(0, false, 5));
    assert!(terrain.needs_dispatch(0, false, 6));
    assert!(terrain.needs_dispatch(0, true, 5));
    assert_eq!(sample(&terrain, "height", 1.0, 1.0), Some(0.25));
    let error = terrain
        .bake_field("height", Dispatch::Failed("no device".to_owned()))
        .unwrap_err();
    assert!(
        matches!(&error, PlanError::ShaderDispatch { field, reason }
            if field == "height" && reason == "no device"),
        "{error:?}"
    );
    assert!(error.message().contains("no device"), "{}", error.message());
    let short = terrain.bake_field("height", Dispatch::Made { values: vec![], key: 6 });
    assert!(short.is_err());
}

// The field of a role is the one that holds it; any number may hold none.
#[test]
fn a_role_names_its_field() {
    let spec = roled_document();
    assert_eq!(spec.field_with_role(FieldRole::Height).unwrap().id.as_str(), "height");
    assert!(spec.field_with_role(FieldRole::Custom).is_none());
    assert!(spec.validate_roles().is_ok());
}

// Every refusal has its own words.
#[test]
fn every_refusal_of_a_plan_says_what_was_wrong() {
    let errors = [
        PlanError::ZeroSize(0, 16),
        PlanError::DuplicateField("height".to_owned()),
        PlanError::UnknownField { referenced: "gone".to_owned(), reader: "a".to_owned() },
        PlanError::Cycle("a -> b -> a".to_owned()),
        PlanError::DuplicateRole(FieldRole::Height),
        PlanError::CoarseHeight("height".to_owned(), 2),
        PlanError::MissingHeightField,
    ];
    let messages: Vec<String> = errors.iter().map(|error| error.message()).collect();
    assert!(messages[2].contains("gone") && messages[2].contains('a'));
    assert!(messages[3].contains("a -> b -> a"));
    for (index, message) in messages.iter().enumerate() {
        assert!(!message.is_empty());
        assert!(messages[index + 1..].iter().all(|other| other != message));
    }
    assert!(BakeError::StepsRemaining(3).message().contains('3'));
    assert!(!BakeError::NoStepRemaining.message().is_empty());
    let plan = BakeError::Plan(PlanError::MissingHeightField);
    assert!(plan.message().contains(messages[6].as_str()), "{}", plan.message());
}

// Each field's bytes stand in the layer and the order it is placed in, and the water's last.
#[test]
fn a_finished_terrain_holds_each_field_where_it_is_placed() {
    let mut spec =
        roled_document().with_field(held(Layer::new("relief").with_categorical(true), 1.0));
    spec.water_spec = Some(WaterSpec::new("height"));
    let mut bake = spec.begin_bake().unwrap();
    for _ in 0..3 {
        bake.advance(Dispatch::Held, WaterParts::none()).unwrap();
    }
    let mut parts = flat_parts(64 * 64);
    parts.depth[5] = single(0.25);
    bake.advance(Dispatch::Held, parts).unwrap();
    let tables = Tables {
        shifts: vec![3, 0],
        placements: vec![
            Placement { layer: 0, channel: 0 },
            Placement { layer: 1, channel: 0 },
            Placement { layer: 1, channel: 1 },
        ],
        encoded: vec![vec![1; 64], vec![2; 4096], vec![3; 4096]],
        water: WaterBytes {
            depth: vec![0; 4096],
            across: vec![4; 4096],
            down: vec![5; 4096],
            accumulation: vec![6; 4096],
            largest: single(8.0),
        },
    };
    let packed = bake.finish(tables).unwrap().unwrap();
    assert_eq!(packed.size, UVec2::new(64, 64));
    let names: Vec<&str> = packed.fields.iter().map(|field| field.name.as_str()).collect();
    assert_eq!(names, ["moisture", "height", "relief"]);
    assert_eq!(packed.fields[0].role, FieldRole::Moisture);
    assert_eq!(packed.fields[2].place, Placement { layer: 1, channel: 1 });
    let classes: Vec<bool> = packed.fields.iter().map(|field| field.categorical).collect();
    assert_eq!(classes, [false, false, true]);
    assert_eq!(packed.layers.len(), 3);
    assert_eq!(packed.layers[0].size, UVec2::new(8, 8));
    assert_eq!(packed.layers[1].columns.len(), 2);
    assert_eq!(packed.layers[1].columns[1][0], 3);
    assert_eq!(packed.layers[1].channels[1], ChannelMeta::Linear(single(1.0), single(1.0)));
    assert_eq!(packed.layers[2].channels[0], ChannelMeta::Log(single(0.25)));
    assert_eq!(packed.layers[2].columns[0][5], 1);
    assert_eq!(packed.layers[2].columns[0][6], 0);
    assert_eq!(packed.layers[2].columns[3][0], 6);
    assert_eq!(packed.water, Some(WaterInfo { lakes: 0, layer: 2 }));
}

// Tables that are not those of the document make no terrain.
#[test]
fn tables_of_another_document_make_no_terrain() {
    let mut spec = roled_document();
    assert!(quantize(&spec, Tables::none()).unwrap().unwrap().fields.is_empty());
    spec.bake_in_place().unwrap();
    assert!(quantize(&spec, Tables::none()).unwrap().is_none());
    let beyond = Tables {
        placements: vec![Placement { layer: 0, channel: 0 }; 2],
        encoded: vec![vec![], vec![]],
        ..Tables::none()
    };
    assert!(quantize(&spec, beyond).unwrap().is_none());
}

// What a shader is told is what the document says of itself and of the field.
#[test]
fn a_shader_is_told_of_the_document_and_the_field() {
    let mut terrain = TerrainSpec::new(UVec2::new(37, 23))
        .with_field(reading(Layer::new("wet").with_shift(2), &["height", "gone", "wet"]))
        .with_field(Layer::new("height"));
    terrain.seed = 77;
    assert_eq!(
        terrain.dispatch_globals(0),
        DispatchGlobals {
            document: UVec2::new(37, 23),
            texels: UVec2::new(10, 6),
            origin: UVec2::new(0, 0),
            shift: 2,
            seed: 77,
        }
    );
    assert_eq!(terrain.dispatch_globals(1).texels, UVec2::new(37, 23));
    assert_eq!(terrain.dispatch_layers(0), vec![Some(1), None, Some(0)]);
    assert!(terrain.dispatch_layers(1).is_empty());
}

// A step that fails is not counted, and one that succeeds is counted once.
#[test]
fn a_run_of_a_bake_counts_to_the_end_of_its_plan() {
    let terrain = TerrainSpec::new(UVec2::new(8, 8))
        .with_field(held(Layer::new("a"), 0.25))
        .with_field(reading(held(Layer::new("b"), 0.5), &["a"]));
    let mut bake = terrain.begin_bake().unwrap();
    let failed = Dispatch::Failed("lost".to_owned());
    assert!(bake.advance(failed, WaterParts::none()).is_err());
    assert_eq!((bake.report().step, bake.report().total), (0, 2));
    assert_eq!(bake.report().field, "");
    let first = bake.advance(Dispatch::Held, WaterParts::none()).unwrap();
    assert_eq!(first, BakeProgress::Advanced);
    assert_eq!((bake.report().step, bake.report().field.as_str()), (1, "a"));
    let last = bake.advance(Dispatch::Held, WaterParts::none()).unwrap();
    assert_eq!(last, BakeProgress::Finished);
    assert!(bake.advance(Dispatch::Held, WaterParts::none()).is_err());
    assert_eq!((bake.report().step, bake.report().field.as_str()), (2, "b"));
}

// Halfway between two classes is not a third, so it is not stored as one.
#[test]
fn a_class_that_is_not_whole_is_refused() {
    let classes = |value: f32| {
        TerrainSpec::new(UVec2::new(8, 8))
            .with_field(held(Layer::new("relief"), 0.5))
            .with_field(held(
                Layer::new("biome").with_categorical(true).with_range((single(0.0), single(9.0))),
                value,
            ))
    };
    let mut whole = classes(3.0);
    whole.bake_in_place().unwrap();
    assert_eq!(whole.misclassed_field(), None);
    assert!(quantize(&whole, Tables::none()).is_ok());

    let mut between = classes(3.5);
    assert_eq!(between.misclassed_field(), None, "nothing is baked yet");
    between.bake_in_place().unwrap();
    assert_eq!(between.misclassed_field(), Some(1));
    let bake = between.begin_bake().unwrap();
    let refused = bake.finish(Tables::none()).unwrap_err();
    assert!(matches!(&refused, BakeError::Channel(field) if field == "biome"));
    assert_eq!(refused.message(), "field `biome` holds a class that is not whole");
}

// Only the water is solved in cells that a word counts: coarse fields bake over more.
#[test]
fn a_wide_document_of_coarse_fields_bakes() {
    let terrain = TerrainSpec::new(UVec2::new(65536, 65536))
        .with_field(held(Layer::new("coarse").with_shift(12), 0.5));
    let mut bake = terrain.begin_bake().unwrap();
    let step = bake.advance(Dispatch::Held, WaterParts::none()).unwrap();
    assert_eq!(step, BakeProgress::Finished);
    assert_eq!(bake.spec().fields[0].baked().size, UVec2::new(16, 16));
}
