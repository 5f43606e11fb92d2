//! What a saved document carries besides its values.

use watershed_editor::layer::Layer;
use watershed_editor::names::FieldRole;
use watershed_editor::pack::deepest;
use watershed_editor::quantize::{depth_bytes, value_range, ChannelMeta, LayerBuild};
use watershed_editor::raster::{Raster, UVec2};
use watershed_editor::recipe::{
    check_size, check_version, document_of_names, recipe_of, RecipeAction, RecipeError,
    SaveOptions, MAX_RECIPE_BYTES, RECIPE_FILE, RECIPE_VERSION,
};
use watershed_editor::single::Single;
use watershed_editor::terrain::TerrainSpec;
use watershed_editor::water::{WaterParts, WaterSpec};

const SIZE: UVec2 = UVec2 { x: 48, y: 32 };

fn single(value: f32) -> Single {
    Single(value.to_bits())
}

fn holding(layer: Layer, raster: Raster<Single>) -> Layer {
    let mut layer = layer;
    layer.shader.put_values(raster);
    layer
}

fn ramp() -> Raster<Single> {
    let values = (0..SIZE.x * SIZE.y)
        .map(|n| single(((n % SIZE.x) + (n / SIZE.x)) as f32 / (SIZE.x + SIZE.y) as f32))
        .collect();
    Raster::from_vec(SIZE, values).unwrap()
}

fn baked_document() -> TerrainSpec {
    let mut terrain = TerrainSpec::new(SIZE)
        .with_field(holding(
            Layer::new("moisture").with_shift(2),
            Raster::new(UVec2::new(12, 8), single(0.5)),
        ))
        .with_field(holding(Layer::new("height").with_role(FieldRole::Height), ramp()));
    terrain.bake_in_place().unwrap();
    terrain
}

// The recipe is what separates a document from an export, and an export has to be
// unable to pose as something that can be edited again.
#[test]
fn an_export_carries_no_recipe() {
    assert_eq!(SaveOptions::document().recipe_action(false), RecipeAction::Write);
    assert_eq!(SaveOptions::document().recipe_action(true), RecipeAction::Write);
    assert_eq!(SaveOptions::export().recipe_action(false), RecipeAction::Leave);
    let names = vec!["moisture".to_owned(), "height".to_owned()];
    let loaded = document_of_names(SIZE, &names);
    assert_eq!(loaded.fields.len(), 2);
    assert!(loaded.fields.iter().all(|layer| layer.shader.params.len() == 0));
    assert_eq!(loaded.size, SIZE);
}

// Exporting over a document has to take the recipe with it: one left behind would
// claim to describe values it no longer produced.
#[test]
fn exporting_over_a_document_takes_the_recipe_away() {
    assert_eq!(SaveOptions::export().recipe_action(true), RecipeAction::Remove);
    assert_eq!(SaveOptions::default(), SaveOptions::document());
    assert_eq!(RECIPE_FILE, "recipe.ron");
}

// The water spec is carried even though the solved state is not, which is what lets a
// document that was saved without water still grow it back.
#[test]
fn a_recipe_keeps_the_water_spec() {
    let mut spec = baked_document();
    let parts = WaterParts {
        slopes: vec![[single(0.0); 8]; 48 * 32],
        codes: vec![0; 48 * 32],
        depth: vec![single(0.0); 48 * 32],
    };
    spec.solve_water(&WaterSpec::new("height"), parts).unwrap();
    let loaded = recipe_of(&spec).document();
    let water = loaded.water_spec.unwrap();
    assert_eq!(water.height.as_str(), "height");
    assert!(water.moisture.is_none());
    assert!(loaded.water.is_none());
}

// No spec has to mean no water rather than a default solve.
#[test]
fn a_recipe_with_no_water_spec_gives_no_water() {
    let loaded = recipe_of(&baked_document()).document();
    assert!(loaded.water_spec.is_none());
    assert!(loaded.water().is_none());
}

// A layer's recipe is its export flag, the document's seed and the values for its
// parameters, not the raster and not what the shader file declares.
#[test]
fn a_recipe_carries_parameters_and_seed_and_nothing_derived() {
    let mut height = holding(
        Layer::new("height")
            .with_role(FieldRole::Height)
            .with_range((single(-2.0), single(3.0)))
            .with_export(true),
        Raster::new(SIZE, single(0.5)),
    );
    height.shader.params.insert("scale".to_owned(), vec![single(0.03)]);
    let mut spec = TerrainSpec::new(SIZE).with_field(height);
    spec.seed = 42;

    let recipe = recipe_of(&spec);
    assert_eq!(recipe.version, RECIPE_VERSION);
    assert_eq!(recipe.layers.len(), 1);
    let loaded = recipe.document();
    assert_eq!(loaded.seed, 42);
    let layer = &loaded.fields[0];
    assert!(layer.export);
    assert_eq!(layer.shader.params.get("scale"), Some(&vec![single(0.03)]));
    assert!(layer.shader.values().is_empty(), "the values were kept");
    assert_eq!(layer.role, FieldRole::Custom);
    assert_eq!(layer.range, (single(0.0), single(1.0)));
    assert!(loaded.needs_bake());
}

// There is no migration path for the recipe, so a version this build does not read is
// refused rather than parsed as far as it happens to agree.
#[test]
fn a_recipe_of_another_version_is_refused() {
    assert!(check_version(RECIPE_VERSION).is_ok());
    assert!(matches!(check_version(99), Err(RecipeError::UnsupportedVersion(99))));
    let error = check_version(4).unwrap_err();
    assert!(matches!(error, RecipeError::UnsupportedVersion(4)));
    assert!(error.message().contains('4'), "{}", error.message());
}

// A file too large to be a recipe is refused before it is read.
#[test]
fn a_recipe_too_large_is_refused() {
    assert!(check_size(MAX_RECIPE_BYTES).is_ok());
    let error = check_size(MAX_RECIPE_BYTES + 1).unwrap_err();
    assert!(matches!(error, RecipeError::TooLarge(67_108_865)));
    assert!(error.message().contains("67108865"), "{}", error.message());
}

// A document that is baked throughout needs no bake.
#[test]
fn a_document_needs_a_bake_until_every_field_has_one() {
    let mut spec = baked_document();
    assert!(!spec.needs_bake());
    spec.release("height");
    assert!(spec.needs_bake());
}

// What can be read of a document are its baked fields, and its water where that covers it.
#[test]
fn a_released_field_is_not_readable() {
    let mut spec = baked_document();
    assert_eq!(spec.readable_fields(), vec![0, 1]);
    spec.release("moisture");
    assert_eq!(spec.readable_fields(), vec![1]);
    assert!(spec.readable_water().is_none());
}

// The range of a field is the least and the greatest of its finite values.
#[test]
fn a_range_holds_every_finite_value() {
    let values = vec![single(0.5), single(f32::NAN), single(-2.0), single(f32::INFINITY)];
    assert_eq!(value_range(&values), ChannelMeta::Linear(single(-2.0), single(0.5)));
    assert_eq!(value_range(&vec![]), ChannelMeta::Linear(single(0.0), single(0.0)));
    assert_eq!(deepest(&values), single(0.5));
    assert_eq!(deepest(&vec![single(-1.0)]), single(0.0));
}

// Where water stands at all its depth is never written as dry ground.
#[test]
fn standing_water_is_never_written_as_dry() {
    let depth = vec![single(0.0), single(0.001), single(1.0)];
    assert_eq!(depth_bytes(&depth, &vec![0, 0, 255]), vec![0, 1, 255]);
}

// The channels of an image are interleaved, texel by texel.
#[test]
fn the_channels_of_a_layer_are_interleaved() {
    let mut layer = LayerBuild::new(Some(0), UVec2::new(2, 1));
    layer.push(ChannelMeta::Linear(single(0.0), single(1.0)), vec![1, 2]);
    layer.push(ChannelMeta::Unit, vec![3, 4]);
    let bytes = layer.finish();
    assert_eq!(bytes, vec![1, 3, 2, 4]);
    assert_eq!(layer.channels.len(), 2);
}
