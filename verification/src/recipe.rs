//! What a document is saved as beside its values, and what it is when it has been read back.
//!
//! The values and the recipe are two files because they are two audiences. A consuming
//! project reads the values and never learns what a layer's shader is; only the editor reads
//! the recipe. A recipe that is read is untrusted input: its size is checked before it is
//! read, and its version before anything in it is used.

use vstd::prelude::*;
use crate::evaluate::texels_at;
use crate::layer::{copy_values, reads_of, Layer};
use crate::names::{FieldId, FieldRole};
use crate::raster::UVec2;
use crate::single::Single;
use crate::terrain::TerrainSpec;
use crate::text::{decimal, decimal_of};
use crate::values::Values;
use crate::water::WaterSpec;

verus! {

/// The recipe file a terrain directory carries when it was saved as a document.
pub const RECIPE_FILE: &'static str = "recipe.ron";

/// The recipe format that is written, and the only one that is read. A recipe carrying any
/// other version is refused outright; there is no migration path.
pub const RECIPE_VERSION: u32 = 5;

/// The largest recipe that is read, checked before the file is read.
pub const MAX_RECIPE_BYTES: u64 = 67_108_864;

/// Why a recipe is not read.
#[derive(Debug)]
pub enum RecipeError {
    /// The file is larger than [`MAX_RECIPE_BYTES`].
    TooLarge(u64),
    /// A recipe of another version.
    UnsupportedVersion(u32),
}

impl RecipeError {
    /// The fault in words.
    pub open spec fn shown(&self) -> Seq<char> {
        match self {
            RecipeError::TooLarge(bytes) => "recipe.ron is "@ + decimal(*bytes as nat)
                + " bytes, over the 67108864 byte limit"@,
            RecipeError::UnsupportedVersion(version) => "recipe version "@ + decimal(
                *version as nat,
            ) + " is not supported; this build reads 5"@,
        }
    }

    /// The fault in words.
    pub fn message(&self) -> (text: String)
        ensures
            text@ == self.shown(),
    {
        match self {
            RecipeError::TooLarge(bytes) => {
                let mut text: String = String::from_str("recipe.ron is ");
                text.append(decimal_of(*bytes as u128).as_str());
                text.append(" bytes, over the 67108864 byte limit");
                text
            },
            RecipeError::UnsupportedVersion(version) => {
                let mut text: String = String::from_str("recipe version ");
                text.append(decimal_of(*version as u128).as_str());
                text.append(" is not supported; this build reads 5");
                text
            },
        }
    }
}

/// Refuses a recipe file of more bytes than are read.
pub fn check_size(bytes: u64) -> (answer: Result<(), RecipeError>)
    ensures
        answer == (if bytes > MAX_RECIPE_BYTES {
            Err(RecipeError::TooLarge(bytes))
        } else {
            Ok(())
        }),
{
    if bytes > MAX_RECIPE_BYTES {
        Err(RecipeError::TooLarge(bytes))
    } else {
        Ok(())
    }
}

/// Refuses a recipe of any version but the one that is read.
pub fn check_version(version: u32) -> (answer: Result<(), RecipeError>)
    ensures
        answer == (if version != RECIPE_VERSION {
            Err(RecipeError::UnsupportedVersion(version))
        } else {
            Ok(())
        }),
{
    if version != RECIPE_VERSION {
        Err(RecipeError::UnsupportedVersion(version))
    } else {
        Ok(())
    }
}

/// What a save writes, beyond the values every terrain carries.
///
/// The values are always written, a terrain without them is one no consumer can read, so the
/// only choice left is whether the recipe goes with them.
#[derive(Clone, Copy, Debug, PartialEq, Eq, Structural)]
pub struct SaveOptions {
    /// Write the recipe. Without it the terrain has values but no recipe, and cannot be
    /// opened for editing again.
    pub recipe: bool,
}

impl Default for SaveOptions {
    fn default() -> (options: Self)
        ensures
            options == (SaveOptions { recipe: true }),
    {
        SaveOptions::document()
    }
}

impl SaveOptions {
    /// Everything: the values and the recipe that produced them. What an editor saves, and the
    /// only form that can be opened for editing again.
    pub fn document() -> (options: SaveOptions)
        ensures
            options == (SaveOptions { recipe: true }),
    {
        SaveOptions { recipe: true }
    }

    /// Values without the recipe, for a consumer that reads a terrain and never authors one.
    ///
    /// Removes a recipe already in the directory, because one left behind would claim to
    /// describe values it no longer produced.
    pub fn export() -> (options: SaveOptions)
        ensures
            options == (SaveOptions { recipe: false }),
    {
        SaveOptions { recipe: false }
    }

    /// What a save does with the recipe file, given whether the directory has one.
    pub fn recipe_action(self, present: bool) -> (action: RecipeAction)
        ensures
            action == (if self.recipe {
                RecipeAction::Write
            } else if present {
                RecipeAction::Remove
            } else {
                RecipeAction::Leave
            }),
    {
        if self.recipe {
            RecipeAction::Write
        } else if present {
            RecipeAction::Remove
        } else {
            RecipeAction::Leave
        }
    }
}

/// What a save does with the recipe file.
#[derive(Clone, Copy, Debug, PartialEq, Eq, Structural)]
pub enum RecipeAction {
    /// Write it, over whatever is there.
    Write,
    /// Remove the one there is.
    Remove,
    /// There is none, and none is written.
    Leave,
}

/// The recipe for one layer: everything needed to bake it again beside its shader file.
#[derive(Debug)]
pub struct LayerRecipe {
    /// The layer's name, and the stem of its shader file.
    pub name: FieldId,
    /// Carried through and never read by the bake.
    pub export: bool,
    /// A value per parameter the layer's shader declares.
    pub params: Values,
}

/// The recipe of a document.
#[derive(Debug)]
pub struct RecipeMeta {
    /// The recipe format version.
    pub version: u32,
    /// The document's extent in cells.
    pub size: UVec2,
    /// The seed every shader of the document is told about.
    pub seed: u32,
    /// The spec the water was solved from, kept so a document that carries no solved water can
    /// still be re-solved rather than losing it.
    pub water_spec: Option<WaterSpec>,
    /// One entry per layer, in declaration order.
    pub layers: Vec<LayerRecipe>,
}

/// Whether a layer and an entry of a recipe carry the same: the name, the export flag and the
/// parameter values.
pub open spec fn entry_of(layer: Layer, entry: LayerRecipe) -> bool {
    &&& entry.name@ == layer.id@
    &&& entry.export == layer.export
    &&& entry.params@ == layer.shader.params@
    &&& entry.params.wf()
}

/// Whether a recipe carries what a document does: the extent, the seed, the water spec and an
/// entry for each layer.
pub open spec fn carries(meta: RecipeMeta, spec: TerrainSpec) -> bool {
    &&& meta.size == spec.size
    &&& meta.seed == spec.seed
    &&& meta.water_spec == spec.water_spec
    &&& meta.layers@.len() == spec.fields@.len()
    &&& forall|i: int|
        0 <= i < meta.layers@.len() ==> entry_of(spec.fields@[i], #[trigger] meta.layers@[i])
}

/// Whether a layer is as new, but for its name, its export flag and its parameter values.
pub open spec fn unread(layer: Layer) -> bool {
    &&& layer.wf()
    &&& layer.bounded()
    &&& layer.role == FieldRole::Custom
    &&& layer.shift == 0
    &&& layer.range == (Single(0), Single(crate::layer::UNIT))
    &&& !layer.categorical
    &&& !layer.hillshade
    &&& layer.light_azimuth == Single(crate::layer::DEFAULT_LIGHT_AZIMUTH)
    &&& !layer.contours
    &&& layer.contour_interval == Single(crate::layer::DEFAULT_CONTOUR_INTERVAL)
    &&& layer.shader.file@.len() == 0
    &&& layer.shader.inputs@.len() == 0
    &&& reads_of(layer) == Seq::<Seq<char>>::empty()
    &&& layer.shader.values.size == (UVec2 { x: 0, y: 0 })
    &&& layer.shader.stamp is None
    &&& layer.baked.size == (UVec2 { x: 0, y: 0 })
}

impl RecipeMeta {
    /// Whether the parameter values of every entry are well formed.
    pub open spec fn wf(&self) -> bool {
        forall|i: int| 0 <= i < self.layers@.len() ==> (#[trigger] self.layers@[i]).params.wf()
    }

    /// The document that a recipe describes, before its shader files have been read: each
    /// layer as new, with the name, the export flag and the parameter values of its entry.
    pub fn document(&self) -> (spec: TerrainSpec)
        requires
            self.wf(),
        ensures
            spec.wf(),
            carries(*self, spec),
            spec.water is None,
            forall|i: int| 0 <= i < spec.fields@.len() ==> unread(#[trigger] spec.fields@[i]),
    {
        let mut spec: TerrainSpec = TerrainSpec::new(self.size);
        spec.seed = self.seed;
        spec.water_spec = match &self.water_spec {
            Some(water) => Some(water.clone()),
            None => None,
        };
        let mut i: usize = 0;
        while i < self.layers.len()
            invariant
                i <= self.layers@.len(),
                self.wf(),
                spec.wf(),
                spec.size == self.size,
                spec.seed == self.seed,
                spec.water_spec == self.water_spec,
                spec.water is None,
                spec.fields@.len() == i,
                forall|j: int|
                    0 <= j < i ==> entry_of(#[trigger] spec.fields@[j], self.layers@[j]) && unread(
                        spec.fields@[j],
                    ),
            decreases self.layers@.len() - i,
        {
            let entry: &LayerRecipe = &self.layers[i];
            proof {
                assert(self.layers@[i as int].params.wf());
            }
            let mut layer: Layer = Layer::new(entry.name.as_str()).with_export(entry.export);
            layer.shader.params = copy_values(&entry.params);
            let ghost before = spec.fields@;
            spec.fields.push(layer);
            proof {
                assert forall|j: int| 0 <= j < i + 1 implies entry_of(
                    #[trigger] spec.fields@[j],
                    self.layers@[j],
                ) && unread(spec.fields@[j]) by {
                    if j < i {
                        assert(spec.fields@[j] == before[j]);
                    } else {
                        assert(reads_of(spec.fields@[j]) =~= Seq::<Seq<char>>::empty());
                    }
                }
            }
            i = i + 1;
        }
        spec
    }
}

/// The document of a terrain that carries no recipe: a layer of each name, with nothing set.
pub fn document_of_names(size: UVec2, names: &Vec<String>) -> (spec: TerrainSpec)
    ensures
        spec.wf(),
        spec.size == size,
        spec.seed == 0,
        spec.water_spec is None,
        spec.water is None,
        spec.fields@.len() == names@.len(),
        forall|i: int|
            0 <= i < names@.len() ==> unread(#[trigger] spec.fields@[i]) && spec.fields@[i].id@
                == names@[i]@ && !spec.fields@[i].export && spec.fields@[i].shader.params@
                == Map::<Seq<char>, Seq<Single>>::empty(),
{
    let mut spec: TerrainSpec = TerrainSpec::new(size);
    let mut i: usize = 0;
    while i < names.len()
        invariant
            i <= names@.len(),
            spec.wf(),
            spec.size == size,
            spec.seed == 0,
            spec.water_spec is None,
            spec.water is None,
            spec.fields@.len() == i,
            forall|j: int|
                0 <= j < i ==> unread(#[trigger] spec.fields@[j]) && spec.fields@[j].id@
                    == names@[j]@ && !spec.fields@[j].export && spec.fields@[j].shader.params@
                    == Map::<Seq<char>, Seq<Single>>::empty(),
        decreases names@.len() - i,
    {
        spec.fields.push(Layer::new(names[i].as_str()));
        i = i + 1;
    }
    spec
}

/// The recipe of a document: what is authored and the shader files do not declare.
pub fn recipe_of(spec: &TerrainSpec) -> (meta: RecipeMeta)
    requires
        spec.wf(),
    ensures
        meta.wf(),
        meta.version == RECIPE_VERSION,
        carries(meta, *spec),
{
    let mut layers: Vec<LayerRecipe> = Vec::new();
    let mut i: usize = 0;
    while i < spec.fields.len()
        invariant
            i <= spec.fields@.len(),
            spec.wf(),
            layers@.len() == i,
            forall|j: int| 0 <= j < i ==> entry_of(spec.fields@[j], #[trigger] layers@[j]),
        decreases spec.fields@.len() - i,
    {
        let layer: &Layer = &spec.fields[i];
        proof {
            assert(spec.fields@[i as int].wf());
        }
        layers.push(
            LayerRecipe {
                name: layer.id.clone(),
                export: layer.export,
                params: copy_values(&layer.shader.params),
            },
        );
        i = i + 1;
    }
    RecipeMeta {
        version: RECIPE_VERSION,
        size: spec.size,
        seed: spec.seed,
        water_spec: match &spec.water_spec {
            Some(water) => Some(water.clone()),
            None => None,
        },
        layers,
    }
}

impl TerrainSpec {
    /// Whether a document has to be baked before it is saved: some layer is not at its
    /// resolution, and a terrain that carries no values is one no consumer can open.
    pub fn needs_bake(&self) -> (answer: bool)
        ensures
            answer == (exists|i: int|
                0 <= i < self.fields@.len() && (#[trigger] self.fields@[i]).baked.size != texels_at(
                    *self,
                    i,
                )),
    {
        let mut i: usize = 0;
        while i < self.fields.len()
            invariant
                i <= self.fields@.len(),
                forall|j: int|
                    0 <= j < i ==> (#[trigger] self.fields@[j]).baked.size == texels_at(*self, j),
            decreases self.fields@.len() - i,
        {
            if self.fields[i].baked.size != self.fields[i].resolution(self.size) {
                assert(self.fields@[i as int].baked.size != texels_at(*self, i as int));
                return true;
            }
            i = i + 1;
        }
        false
    }
}

/// A document saved and read back keeps its extent, its seed, its water spec, and the name,
/// the export flag and the parameter values of every layer; and saving what was read back
/// writes the same recipe.
pub proof fn law_a_recipe_is_read_back(
    spec: TerrainSpec,
    meta: RecipeMeta,
    back: TerrainSpec,
    again: RecipeMeta,
    i: int,
)
    requires
        carries(meta, spec),
        carries(meta, back),
        carries(again, back),
        0 <= i < spec.fields@.len(),
    ensures
        back.size == spec.size,
        back.seed == spec.seed,
        back.water_spec == spec.water_spec,
        back.fields@.len() == spec.fields@.len(),
        back.fields@[i].id@ == spec.fields@[i].id@,
        back.fields@[i].export == spec.fields@[i].export,
        back.fields@[i].shader.params@ == spec.fields@[i].shader.params@,
        carries(again, spec),
{
    assert(entry_of(spec.fields@[i], meta.layers@[i]));
    assert(entry_of(back.fields@[i], meta.layers@[i]));
    assert forall|j: int| 0 <= j < again.layers@.len() implies entry_of(
        spec.fields@[j],
        #[trigger] again.layers@[j],
    ) by {
        assert(entry_of(spec.fields@[j], meta.layers@[j]));
        assert(entry_of(back.fields@[j], meta.layers@[j]));
    }
}

} // verus!
