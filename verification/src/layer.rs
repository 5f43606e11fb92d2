//! A named raster, the shader that produces its values, and the raster it bakes onto.

use vstd::prelude::*;
use vstd::arithmetic::power2::*;
use crate::names::{FieldId, FieldRole};
use crate::raster::{Raster, UVec2};
use crate::shader::{copy_row, ShaderLayer};
use crate::single::{power_of_two, Single};
use crate::values::Values;

verus! {

/// How many texels cover `cells` cells at a shift: one per two to the power of `shift`
/// cells, the last of them perhaps only partly covered, and never none.
pub open spec fn texels_over(cells: u32, shift: u8) -> int {
    let block = pow2(shift as nat) as int;
    let count = (cells + block - 1) / block;
    if count < 1 {
        1
    } else {
        count
    }
}

/// The texel dimensions a shift gives a document of `size` cells.
pub open spec fn texels_of(size: UVec2, shift: u8) -> UVec2 {
    UVec2 { x: texels_over(size.x, shift) as u32, y: texels_over(size.y, shift) as u32 }
}

proof fn lemma_texels(cells: u32, shift: u8)
    ensures
        1 <= texels_over(cells, shift) <= (if cells == 0 {
            1
        } else {
            cells as int
        }),
        shift >= 32 ==> texels_over(cells, shift) == 1,
{
    let block = pow2(shift as nat) as int;
    lemma_pow2_pos(shift as nat);
    let count = (cells + block - 1) / block;
    assert(count <= cells) by (nonlinear_arith)
        requires
            block >= 1,
            cells >= 0,
            count == (cells + block - 1) / block,
    ;
    if shift >= 32 {
        lemma2_to64();
        if shift > 32 {
            lemma_pow2_strictly_increases(32, shift as nat);
        }
        assert(count <= 1) by (nonlinear_arith)
            requires
                block >= 0x1_0000_0000,
                0 <= cells < 0x1_0000_0000,
                count == (cells + block - 1) / block,
        ;
    }
}

/// A layer never has more texels than the document has cells.
pub proof fn lemma_texels_fit(size: UVec2, shift: u8)
    requires
        !size.vacant(),
    ensures
        1 <= texels_of(size, shift).x <= size.x,
        1 <= texels_of(size, shift).y <= size.y,
        texels_of(size, shift).area() <= size.area(),
{
    lemma_texels(size.x, shift);
    lemma_texels(size.y, shift);
    let t = texels_of(size, shift);
    assert(t.x * t.y <= size.x * size.y) by (nonlinear_arith)
        requires
            0 <= t.x <= size.x,
            0 <= t.y <= size.y,
    ;
}

fn texels_along(cells: u32, shift: u8) -> (count: u32)
    ensures
        count == texels_over(cells, shift),
{
    proof {
        lemma_texels(cells, shift);
    }
    if shift >= 32 {
        return 1;
    }
    let block: u64 = power_of_two(shift as u32);
    proof {
        lemma_pow2_pos(shift as nat);
    }
    let count: u64 = (cells as u64 + block - 1) / block;
    if count < 1 {
        1
    } else {
        count as u32
    }
}

/// The texel dimensions a shift gives a document of `size` cells. Never zero on either
/// axis.
pub fn resolution(size: UVec2, shift: u8) -> (texels: UVec2)
    ensures
        texels == texels_of(size, shift),
        texels.x >= 1,
        texels.y >= 1,
{
    proof {
        lemma_texels(size.x, shift);
        lemma_texels(size.y, shift);
    }
    UVec2 { x: texels_along(size.x, shift), y: texels_along(size.y, shift) }
}

/// A named layer together with everything needed to bake its shader onto its own raster,
/// plus that raster once it has been baked.
///
/// The baked raster is derived from the shader and is re-obtained by baking, so a loaded
/// document starts with every layer empty and sampling as zero.
#[derive(Debug)]
pub struct Layer {
    /// The name this layer is referenced by, and the stem of its shader file.
    pub id: FieldId,
    /// What the bake may do with the layer.
    pub role: FieldRole,
    /// Resolution: one texel per cell at zero, per two to the power of `shift` cells above
    /// that.
    pub shift: u8,
    /// The interval baked values are clamped into. Accepted in either order; read it
    /// through [`Layer::bounds`] rather than directly.
    pub range: (Single, Single),
    /// Whether the layer holds whole class indices rather than a quantity, so that nothing
    /// between two of them is a value of its own.
    pub categorical: bool,
    /// For whatever consumes a baked terrain to decide what an exported layer means.
    pub export: bool,
    /// Whether the map lights this layer's colour ramp by the layer's own normal. Nothing a
    /// bake reads looks at this or at the bearing.
    pub hillshade: bool,
    /// The compass bearing the hillshade light comes from, in degrees.
    pub light_azimuth: Single,
    /// Whether the map draws an iso-line at every multiple of the interval. Nothing a bake
    /// reads looks at this or at the interval.
    pub contours: bool,
    /// The spacing between iso-lines, in the layer's own units.
    pub contour_interval: Single,
    /// The parameter values and the layers read of the shader file that produces this
    /// layer's values.
    pub shader: ShaderLayer,
    /// The values from the last bake.
    pub baked: Raster<Single>,
}

/// A range as its low end and its high end, swapped if it was stored backwards.
pub open spec fn ordered_range(range: (Single, Single)) -> (Single, Single) {
    if range.0.at_most(range.1) {
        range
    } else {
        (range.1, range.0)
    }
}

/// The names a layer's shader reads.
pub open spec fn reads_of(layer: Layer) -> Seq<Seq<char>> {
    layer.shader.layers@.map_values(|id: FieldId| id@)
}

/// The northwest, in degrees.
pub const DEFAULT_LIGHT_AZIMUTH: u32 = 0x439d_8000;

/// A tenth.
pub const DEFAULT_CONTOUR_INTERVAL: u32 = 0x3dcc_cccd;

/// One.
pub const UNIT: u32 = 0x3f80_0000;

impl Layer {
    /// Whether the layer's rasters and parameter values are well formed.
    pub open spec fn wf(&self) -> bool {
        self.shader.params.wf() && self.shader.values.wf() && self.baked.wf()
    }

    /// Whether both ends of the range are numbers, as a clamp needs.
    pub open spec fn bounded(&self) -> bool {
        !self.range.0.nan() && !self.range.1.nan()
    }

    /// A layer named `id` with no parameter values: role `Custom`, shift zero, range zero
    /// to one, a quantity, not exported, not hillshaded, lit from the northwest, without contours at a
    /// tenth-unit interval, and unbaked, so it samples as zero until it is baked.
    pub fn new(id: &str) -> (layer: Layer)
        ensures
            layer.wf(),
            layer.bounded(),
            layer.id@ == id@,
            layer.role == FieldRole::Custom,
            layer.shift == 0,
            layer.range == (Single(0), Single(UNIT)),
            !layer.categorical,
            !layer.export,
            !layer.hillshade,
            layer.light_azimuth == Single(DEFAULT_LIGHT_AZIMUTH),
            !layer.contours,
            layer.contour_interval == Single(DEFAULT_CONTOUR_INTERVAL),
            layer.shader.file@.len() == 0,
            layer.shader.params@ == Map::<Seq<char>, Seq<Single>>::empty(),
            layer.shader.inputs@.len() == 0,
            reads_of(layer) == Seq::<Seq<char>>::empty(),
            layer.shader.values.size == (UVec2 { x: 0, y: 0 }),
            layer.shader.stamp is None,
            layer.baked.size == (UVec2 { x: 0, y: 0 }),
    {
        let layer = Layer {
            id: FieldId::new(id),
            role: FieldRole::Custom,
            shift: 0,
            range: (Single(0), Single(UNIT)),
            categorical: false,
            export: false,
            hillshade: false,
            light_azimuth: Single(DEFAULT_LIGHT_AZIMUTH),
            contours: false,
            contour_interval: Single(DEFAULT_CONTOUR_INTERVAL),
            shader: ShaderLayer::new(""),
            baked: Raster::empty(),
        };
        proof {
            reveal_strlit("");
            assert(reads_of(layer) =~= Seq::<Seq<char>>::empty());
        }
        layer
    }

    /// Sets the role. Does not check what a document asks of roles; a conflict surfaces at
    /// plan time.
    pub fn with_role(self, role: FieldRole) -> (layer: Layer)
        ensures
            layer == (Layer { role, ..self }),
    {
        Layer { role, ..self }
    }

    /// Sets [`Layer::categorical`].
    pub fn with_categorical(self, categorical: bool) -> (layer: Layer)
        ensures
            layer == (Layer { categorical, ..self }),
    {
        Layer { categorical, ..self }
    }

    /// Sets [`Layer::export`].
    pub fn with_export(self, export: bool) -> (layer: Layer)
        ensures
            layer == (Layer { export, ..self }),
    {
        Layer { export, ..self }
    }

    /// Sets the resolution shift. A shift on the `Height` layer is rejected at plan time,
    /// not here.
    pub fn with_shift(self, shift: u8) -> (layer: Layer)
        ensures
            layer == (Layer { shift, ..self }),
    {
        Layer { shift, ..self }
    }

    /// Sets the clamp interval. Either order is accepted.
    pub fn with_range(self, range: (Single, Single)) -> (layer: Layer)
        ensures
            layer == (Layer { range, ..self }),
    {
        Layer { range, ..self }
    }

    /// The shader file this layer's values come from: a plain name inside the document's
    /// `shaders` directory, never a path.
    pub fn file(&self) -> (name: String)
        ensures
            name@ == self.id@ + ".wesl"@,
    {
        let mut name: String = self.id.to_text();
        name.append(".wesl");
        name
    }

    /// [`Layer::range`] as its low end and its high end, swapped if it was stored
    /// backwards. A backwards range is not an error anywhere; this is the only correct way
    /// to read it.
    pub fn bounds(&self) -> (range: (Single, Single))
        ensures
            range == ordered_range(self.range),
    {
        if self.range.0.le(self.range.1) {
            self.range
        } else {
            (self.range.1, self.range.0)
        }
    }

    /// Texel dimensions this layer bakes to in a `size`-cell document. Never zero on either
    /// axis.
    pub fn resolution(&self, size: UVec2) -> (texels: UVec2)
        ensures
            texels == texels_of(size, self.shift),
            texels.x >= 1,
            texels.y >= 1,
    {
        resolution(size, self.shift)
    }

    /// The values from the last bake. Empty for a layer that has never been baked, was
    /// released, or came from a loaded document.
    pub fn baked(&self) -> (raster: &Raster<Single>)
        ensures
            *raster == self.baked,
    {
        &self.baked
    }

    /// The layers this one's shader file reads by name, in declaration order, with
    /// duplicates kept.
    ///
    /// This is what bake ordering and cycle detection run on. It is what the file said when
    /// it was last read, so it is empty until the shader directory has been read.
    pub fn dependencies(&self) -> (list: &Vec<FieldId>)
        ensures
            list@ == self.shader.layers@,
    {
        &self.shader.layers
    }

    /// A copy of everything a person authored and nothing that was derived from it: the
    /// settings and the parameter values, with no shader values and no bake.
    ///
    /// What a history snapshot is made of: the bake and the shader values are re-obtained
    /// by baking and dispatching, so a copy that carried them would cost the size of the
    /// document per edit.
    pub fn authored(&self) -> (copy: Layer)
        requires
            self.shader.params.wf(),
        ensures
            copy.wf(),
            copy.id@ == self.id@,
            copy.role == self.role,
            copy.shift == self.shift,
            copy.range == self.range,
            copy.categorical == self.categorical,
            copy.export == self.export,
            copy.hillshade == self.hillshade,
            copy.light_azimuth == self.light_azimuth,
            copy.contours == self.contours,
            copy.contour_interval == self.contour_interval,
            copy.shader.file@ == self.shader.file@,
            copy.shader.params@ == self.shader.params@,
            texts_view(copy.shader.inputs@) == texts_view(self.shader.inputs@),
            reads_of(copy) == reads_of(*self),
            copy.shader.values.size == (UVec2 { x: 0, y: 0 }),
            copy.shader.stamp is None,
            copy.baked.size == (UVec2 { x: 0, y: 0 }),
    {
        let copy = Layer {
            id: self.id.clone(),
            role: self.role,
            shift: self.shift,
            range: self.range,
            categorical: self.categorical,
            export: self.export,
            hillshade: self.hillshade,
            light_azimuth: self.light_azimuth,
            contours: self.contours,
            contour_interval: self.contour_interval,
            shader: ShaderLayer {
                file: self.shader.file.clone(),
                params: copy_values(&self.shader.params),
                inputs: copy_texts(&self.shader.inputs),
                layers: copy_ids(&self.shader.layers),
                values: Raster::empty(),
                stamp: None,
            },
            baked: Raster::empty(),
        };
        proof {
            assert(reads_of(copy) =~= reads_of(*self));
        }
        copy
    }
}

/// What a list of strings says.
pub open spec fn texts_view(list: Seq<String>) -> Seq<Seq<char>> {
    list.map_values(|text: String| text@)
}

/// A copy of a list of strings.
pub fn copy_texts(list: &Vec<String>) -> (copy: Vec<String>)
    ensures
        copy@.len() == list@.len(),
        texts_view(copy@) == texts_view(list@),
{
    let mut copy: Vec<String> = Vec::new();
    let mut i: usize = 0;
    while i < list.len()
        invariant
            i <= list@.len(),
            copy@.len() == i,
            forall|j: int| 0 <= j < i ==> (#[trigger] copy@[j])@ == list@[j]@,
        decreases list@.len() - i,
    {
        copy.push(list[i].clone());
        i = i + 1;
    }
    proof {
        assert(texts_view(copy@) =~= texts_view(list@));
    }
    copy
}

/// A copy of a list of names.
pub fn copy_ids(list: &Vec<FieldId>) -> (copy: Vec<FieldId>)
    ensures
        copy@ == list@,
{
    let mut copy: Vec<FieldId> = Vec::new();
    let mut i: usize = 0;
    while i < list.len()
        invariant
            i <= list@.len(),
            copy@ == list@.take(i as int),
        decreases list@.len() - i,
    {
        proof {
            assert(list@.take(i + 1) =~= list@.take(i as int).push(list@[i as int]));
        }
        copy.push(list[i].clone());
        i = i + 1;
    }
    proof {
        assert(list@.take(i as int) =~= list@);
    }
    copy
}

/// A copy of some parameter values.
pub fn copy_values(values: &Values) -> (copy: Values)
    requires
        values.wf(),
    ensures
        copy.wf(),
        copy@ == values@,
{
    let mut copy: Values = Values::new();
    let mut i: usize = 0;
    proof {
        values.lemma_wf();
    }
    while i < values.len()
        invariant
            i <= values.names().len(),
            values.wf(),
            copy.wf(),
            forall|name: Seq<char>| #[trigger]
                copy@.dom().contains(name) ==> values@.dom().contains(name) && copy@[name]
                    == values@[name],
            forall|j: int| 0 <= j < i ==> copy@.dom().contains(#[trigger] values.names()[j]),
        decreases values.names().len() - i,
    {
        match (values.name_at(i), values.value_at(i)) {
            (Some(name), Some(row)) => {
                proof {
                    values.lemma_at(i as int);
                }
                copy.insert(String::from_str(name), copy_row(row));
            },
            _ => {},
        }
        i = i + 1;
    }
    proof {
        assert forall|name: Seq<char>| values@.dom().contains(name) implies copy@.dom().contains(
            name,
        ) by {
            let j = values.names().index_of(name);
            assert(values.names()[j] == name);
            assert(copy@.dom().contains(values.names()[j]));
        }
        assert(copy@ =~= values@);
    }
    copy
}

} // verus!
