//! Evaluating the fields of a document onto their rasters.

use vstd::prelude::*;
use crate::faults::{
    all_reads, chain_of, find_field, found, ids_of, index_fields, lemma_found, lemma_known_fit,
    readable_rows, reasons_view, repeat_from, resolve_readable, unreadable, unreadable_faults,
    Reasons,
};
use crate::grid::{cell, lemma_cell, lemma_split};
use crate::layer::{lemma_texels_fit, ordered_range, resolution, texels_of, Layer};
use crate::names::FieldId;
use crate::plan_error::{PlanError, PlanErrorView};
use crate::raster::{Raster, UVec2};
use crate::single::Single;
use crate::terrain::{
    allocated, evaluated, is_bake, readable_order, released, sampled, without_faults, Dispatch,
    TerrainSpec,
};
use crate::topology::{
    law_an_order_puts_each_after_what_it_reads, places, rows_of, topological_order,
};

verus! {

/// What a raster reads as at a texel: its own there, the one at its edge beyond that, and
/// zero where it has none.
fn sample_texel(source: &Raster<Single>, x: u32, y: u32) -> (value: Single)
    requires
        source.wf(),
    ensures
        value == sampled(*source, x as int, y as int),
{
    if source.size.x == 0 || source.size.y == 0 {
        return Single(0);
    }
    let column: u32 = if x < source.size.x {
        x
    } else {
        source.size.x - 1
    };
    let row: u32 = if y < source.size.y {
        y
    } else {
        source.size.y - 1
    };
    match source.get(column, row) {
        Some(value) => *value,
        None => Single(0),
    }
}

/// A raster of `texels` holding what a source reads as at each of them, clamped into a range
/// given in either order.
pub fn bake_raster(source: &Raster<Single>, range: (Single, Single), texels: UVec2) -> (raster:
    Raster<Single>)
    requires
        source.wf(),
        !range.0.nan(),
        !range.1.nan(),
        texels.area() <= usize::MAX,
    ensures
        is_bake(raster, *source, range, texels),
{
    let (low, high): (Single, Single) = if range.0.le(range.1) {
        range
    } else {
        (range.1, range.0)
    };
    proof {
        assert(0 <= texels.x * texels.y) by (nonlinear_arith);
        assert((low, high) == ordered_range(range));
        assert(low.at_most(high));
    }
    let mut data: Vec<Single> = Vec::new();
    let count: usize = texels.x as usize * texels.y as usize;
    let mut index: usize = 0;
    while index < count
        invariant
            count == texels.area(),
            index <= count,
            source.wf(),
            low.at_most(high),
            data@.len() == index,
            forall|x: int, y: int|
                0 <= x < texels.x && 0 <= y < texels.y && cell(x, y, texels.x as int) < index
                    ==> data@[#[trigger] cell(x, y, texels.x as int)] == sampled(
                    *source,
                    x,
                    y,
                ).held(low, high),
        decreases count - index,
    {
        proof {
            lemma_split(index as int, texels.x as int, texels.y as int);
        }
        let x: u32 = (index % texels.x as usize) as u32;
        let y: u32 = (index / texels.x as usize) as u32;
        let ghost before = data@;
        data.push(sample_texel(source, x, y).clamp(low, high));
        proof {
            assert forall|a: int, b: int|
                0 <= a < texels.x && 0 <= b < texels.y && cell(a, b, texels.x as int) < index
                    + 1 implies data@[#[trigger] cell(a, b, texels.x as int)] == sampled(
                *source,
                a,
                b,
            ).held(low, high) by {
                lemma_cell(a, b, texels.x as int, texels.y as int);
                if cell(a, b, texels.x as int) < index {
                    assert(data@[cell(a, b, texels.x as int)] == before[cell(
                        a,
                        b,
                        texels.x as int,
                    )]);
                }
            }
        }
        index = index + 1;
    }
    let raster: Raster<Single> = Raster { size: texels, data };
    proof {
        assert forall|x: int, y: int| raster.covers(x, y) implies #[trigger] raster.texel(x, y)
            == sampled(*source, x, y).held(low, high) by {
            lemma_cell(x, y, texels.x as int, texels.y as int);
            assert(raster.texel(x, y) == data@[cell(x, y, texels.x as int)]);
        }
    }
    raster
}

/// Whether a document differs from another in one field alone.
pub open spec fn differs_at(before: TerrainSpec, after: TerrainSpec, place: int) -> bool {
    &&& after == (TerrainSpec { fields: after.fields, ..before })
    &&& after.fields@.len() == before.fields@.len()
    &&& forall|i: int|
        0 <= i < before.fields@.len() && i != place ==> #[trigger] after.fields@[i]
            == before.fields@[i]
}

/// What baking one field is refused for before it is evaluated.
pub open spec fn bake_refusal(spec: TerrainSpec, id: Seq<char>) -> Option<PlanErrorView> {
    let ids = ids_of(spec.fields@);
    if spec.size.vacant() {
        Some(PlanErrorView::ZeroSize(spec.size.x, spec.size.y))
    } else if let Some(at) = repeat_from(ids, 0) {
        Some(PlanErrorView::DuplicateField(ids[at]))
    } else if found(ids, id) is None {
        Some(PlanErrorView::UnknownField { referenced: id, reader: id })
    } else {
        None
    }
}

/// The texels of the field at a place.
pub open spec fn texels_at(spec: TerrainSpec, place: int) -> UVec2 {
    texels_of(spec.size, spec.fields@[place].shift)
}

/// What a shader is told of the document and the field it is run for.
#[derive(Clone, Copy, Debug, PartialEq, Eq, Structural)]
pub struct DispatchGlobals {
    /// The document's extent in cells.
    pub document: UVec2,
    /// The texels the run covers.
    pub texels: UVec2,
    /// The texel the run starts at.
    pub origin: UVec2,
    /// The field's shift.
    pub shift: u32,
    /// The document's seed.
    pub seed: u32,
}

impl TerrainSpec {
    /// What the shader of the field at a place is told when it is run: the document's extent
    /// and seed, the field's own shift, and every texel the field has.
    pub fn dispatch_globals(&self, place: usize) -> (globals: DispatchGlobals)
        requires
            place < self.fields@.len(),
        ensures
            globals == (DispatchGlobals {
                document: self.size,
                texels: texels_at(*self, place as int),
                origin: UVec2 { x: 0, y: 0 },
                shift: self.fields@[place as int].shift as u32,
                seed: self.seed,
            }),
    {
        let field: &Layer = &self.fields[place];
        DispatchGlobals {
            document: self.size,
            texels: field.resolution(self.size),
            origin: UVec2 { x: 0, y: 0 },
            shift: field.shift as u32,
            seed: self.seed,
        }
    }

    /// The fields whose bakes the shader of the field at a place is handed, by place and in
    /// the order its file reads them; nothing where it reads a name no field has.
    pub fn dispatch_layers(&self, place: usize) -> (layers: Vec<Option<usize>>)
        requires
            place < self.fields@.len(),
        ensures
            layers@.len() == self.fields@[place as int].shader.layers@.len(),
            forall|i: int|
                0 <= i < layers@.len() ==> match #[trigger] layers@[i] {
                    Some(at) => found(
                        ids_of(self.fields@),
                        self.fields@[place as int].shader.layers@[i]@,
                    ) == Some(at as int),
                    None => found(
                        ids_of(self.fields@),
                        self.fields@[place as int].shader.layers@[i]@,
                    ) is None,
                },
    {
        let reads: &Vec<FieldId> = self.fields[place].dependencies();
        let mut layers: Vec<Option<usize>> = Vec::new();
        let mut i: usize = 0;
        while i < reads.len()
            invariant
                i <= reads@.len(),
                reads@ == self.fields@[place as int].shader.layers@,
                layers@.len() == i,
                forall|j: int|
                    0 <= j < i ==> match #[trigger] layers@[j] {
                        Some(at) => found(ids_of(self.fields@), reads@[j]@) == Some(at as int),
                        None => found(ids_of(self.fields@), reads@[j]@) is None,
                    },
            decreases reads@.len() - i,
        {
            layers.push(find_field(&self.fields, &reads[i]));
            i = i + 1;
        }
        layers
    }

    /// Whether the values that the field at a place holds are not those that running its
    /// shader again would give. They are where the last run was made from what `key` stands
    /// for, at the texels the field has now, and nothing else is read that may have changed:
    /// a shader that reads other fields is always run again.
    pub fn needs_dispatch(&self, place: usize, reads_layers: bool, key: u64) -> (answer: bool)
        requires
            place < self.fields@.len(),
        ensures
            answer == !(!reads_layers && self.fields@[place as int].shader.stamp == Some(key)
                && self.fields@[place as int].shader.values.size == texels_at(
                *self,
                place as int,
            )),
    {
        let field: &Layer = &self.fields[place];
        if reads_layers || field.shader.values.size != field.resolution(self.size) {
            return true;
        }
        match field.shader.stamp {
            Some(stamp) => stamp != key,
            None => true,
        }
    }

    /// Evaluates the field at a place onto a raster of its own resolution, after its shader
    /// has been dispatched or left alone.
    ///
    /// What the shader holds then, clamped into the field's range, is the field's bake. Where
    /// the dispatch gave nothing the field keeps the bake it had if that is at its
    /// resolution, and reads as zero if it is not.
    pub fn evaluate(&mut self, place: usize, dispatch: Dispatch) -> (answer: Result<(), PlanError>)
        requires
            old(self).wf(),
            place < old(self).fields@.len(),
            old(self).fields@[place as int].bounded(),
            !old(self).size.vacant(),
            old(self).size.area() <= usize::MAX,
        ensures
            final(self).wf(),
            differs_at(*old(self), *final(self), place as int),
            evaluated(
                old(self).fields@[place as int],
                final(self).fields@[place as int],
                dispatch,
                texels_at(*old(self), place as int),
            ),
            match answer {
                Ok(_) => dispatch.fault(texels_at(*old(self), place as int)) is None,
                Err(error) => dispatch.fault(texels_at(*old(self), place as int)) is Some
                    && error@ == (PlanErrorView::ShaderDispatch {
                    field: old(self).fields@[place as int].id@,
                    reason: dispatch.fault(texels_at(*old(self), place as int))->0,
                }),
            },
    {
        proof {
            lemma_texels_fit(self.size, self.fields@[place as int].shift);
        }
        let texels: UVec2 = self.fields[place].resolution(self.size);
        match dispatch {
            Dispatch::Held => {},
            Dispatch::Made { values, key } => {
                match Raster::from_vec(texels, values) {
                    Some(raster) => {
                        self.fields[place].shader.put_dispatch(raster, key);
                    },
                    None => {
                        self.allocate(place, texels);
                        return Err(
                            PlanError::ShaderDispatch {
                                field: self.fields[place].id.to_text(),
                                reason: String::from_str(
                                    "the dispatch produced the wrong number of texels",
                                ),
                            },
                        );
                    },
                }
            },
            Dispatch::Failed(reason) => {
                self.allocate(place, texels);
                return Err(
                    PlanError::ShaderDispatch { field: self.fields[place].id.to_text(), reason },
                );
            },
        }
        let raster: Raster<Single> = bake_raster(
            &self.fields[place].shader.values,
            self.fields[place].range,
            texels,
        );
        self.fields[place].baked = raster;
        Ok(())
    }

    /// Gives the field at a place a raster of `texels`, of zeros unless it has one.
    fn allocate(&mut self, place: usize, texels: UVec2)
        requires
            old(self).wf(),
            place < old(self).fields@.len(),
            texels.area() <= usize::MAX,
        ensures
            final(self).wf(),
            differs_at(*old(self), *final(self), place as int),
            allocated(
                old(self).fields@[place as int],
                final(self).fields@[place as int],
                texels,
            ),
    {
        if self.fields[place].baked.size != texels {
            self.fields[place].baked = Raster::new(texels, Single(0));
        }
    }

    /// Bakes one field over the whole document, assuming everything it reads is baked.
    ///
    /// The assumption is the caller's to keep, and [`TerrainSpec::bake_order`] is how:
    /// walking that order calls this on a field only after its dependencies.
    ///
    /// Only the named field is allocated, where [`TerrainSpec::bake_in_place`] allocates
    /// every field. That is what makes [`TerrainSpec::release`] worth anything: a released
    /// field stays released across the stages that follow it.
    pub fn bake_field(&mut self, id: &str, dispatch: Dispatch) -> (answer: Result<(), PlanError>)
        requires
            old(self).wf(),
            old(self).size.area() <= usize::MAX,
            bake_refusal(*old(self), id@) is None ==> old(self).fields@[found(
                ids_of(old(self).fields@),
                id@,
            )->0].bounded(),
        ensures
            final(self).wf(),
            match bake_refusal(*old(self), id@) {
                Some(fault) => *final(self) == *old(self) && answer is Err && answer->Err_0@
                    == fault,
                None => {
                    let place = found(ids_of(old(self).fields@), id@)->0;
                    let texels = texels_at(*old(self), place);
                    &&& differs_at(*old(self), *final(self), place)
                    &&& evaluated(
                        old(self).fields@[place],
                        final(self).fields@[place],
                        dispatch,
                        texels,
                    )
                    &&& match answer {
                        Ok(_) => dispatch.fault(texels) is None,
                        Err(error) => dispatch.fault(texels) is Some && error@
                            == (PlanErrorView::ShaderDispatch {
                            field: id@,
                            reason: dispatch.fault(texels)->0,
                        }),
                    }
                },
            },
    {
        if self.size.x == 0 || self.size.y == 0 {
            return Err(PlanError::ZeroSize(self.size.x, self.size.y));
        }
        if let Err(error) = index_fields(&self.fields) {
            return Err(error);
        }
        let name: FieldId = FieldId::new(id);
        match find_field(&self.fields, &name) {
            Some(place) => {
                proof {
                    lemma_found(ids_of(self.fields@), id@, 0);
                }
                self.evaluate(place, dispatch)
            },
            None => Err(
                PlanError::UnknownField { referenced: name.to_text(), reader: name.to_text() },
            ),
        }
    }
}

/// A place of an order without a fault is among those left.
proof fn lemma_without_faults(order: Seq<int>, faults: Reasons)
    ensures
        forall|i: int|
            0 <= i < order.len() && faults[#[trigger] order[i]] is None ==> without_faults(
                order,
                faults,
            ).contains(order[i]),
        forall|i: int|
            0 <= i < without_faults(order, faults).len() ==> order.contains(
                #[trigger] without_faults(order, faults)[i],
            ) && faults[without_faults(order, faults)[i]] is None,
    decreases order.len(),
{
    if order.len() > 0 {
        let shorter = order.drop_last();
        let rest = without_faults(shorter, faults);
        let all = without_faults(order, faults);
        lemma_without_faults(shorter, faults);
        assert forall|i: int|
            0 <= i < order.len() && faults[#[trigger] order[i]] is None implies all.contains(
            order[i],
        ) by {
            if i < shorter.len() {
                assert(shorter[i] == order[i]);
                let k = choose|k: int| 0 <= k < rest.len() && rest[k] == order[i];
                assert(all[k] == order[i]);
            } else {
                assert(all[rest.len() as int] == order[i]);
            }
        }
        assert forall|i: int| 0 <= i < all.len() implies order.contains(#[trigger] all[i])
            && faults[all[i]] is None by {
            if i < rest.len() {
                assert(shorter.contains(rest[i]));
                let k = choose|k: int| 0 <= k < shorter.len() && shorter[k] == rest[i];
                assert(order[k] == all[i]);
            } else {
                assert(order[order.len() - 1] == all[i]);
            }
        }
    }
}

/// Whether every field that can be read has been given a raster at its resolution, and every
/// other one has lost its own.
pub open spec fn reallocated(before: TerrainSpec, after: TerrainSpec, faults: Reasons) -> bool {
    &&& after == (TerrainSpec { fields: after.fields, ..before })
    &&& after.fields@.len() == before.fields@.len()
    &&& forall|i: int|
        0 <= i < before.fields@.len() ==> if faults[i] is Some {
            released(before.fields@[i], #[trigger] after.fields@[i])
        } else {
            allocated(before.fields@[i], after.fields@[i], texels_at(before, i))
        }
}

/// Whether every field that can be read has been evaluated over what its shader holds, and
/// every other one is unbaked.
pub open spec fn baked_whole(before: TerrainSpec, after: TerrainSpec, faults: Reasons) -> bool {
    &&& after == (TerrainSpec { fields: after.fields, ..before })
    &&& after.fields@.len() == before.fields@.len()
    &&& forall|i: int|
        0 <= i < before.fields@.len() ==> if faults[i] is Some {
            released(before.fields@[i], #[trigger] after.fields@[i])
        } else {
            evaluated(
                before.fields@[i],
                after.fields@[i],
                Dispatch::Held,
                texels_at(before, i),
            )
        }
}

/// Whether a range can be clamped into for every field that bakes.
pub open spec fn bounded_where_read(spec: TerrainSpec) -> bool {
    forall|i: int|
        0 <= i < spec.fields@.len() && unreadable_faults(
            ids_of(spec.fields@),
            all_reads(spec.fields@),
        )[i] is None ==> (#[trigger] spec.fields@[i]).bounded()
}

impl TerrainSpec {
    /// Makes the document ready for a bake of every field: those that can be read are given
    /// rasters at their declared resolutions, so this also fixes a document whose shifts have
    /// been edited, and the others are left unbaked. Gives the places of those to evaluate,
    /// each after the ones it reads.
    ///
    /// A cycle between fields, a duplicate id and a zero extent are refused, and the document
    /// is then left as it was.
    pub fn start_bake(&mut self) -> (answer: Result<Vec<usize>, PlanError>)
        requires
            old(self).wf(),
            old(self).size.area() <= usize::MAX,
        ensures
            final(self).wf(),
            ({
                let ids = ids_of(old(self).fields@);
                let reads = all_reads(old(self).fields@);
                match (answer, readable_order(old(self).size, ids, reads)) {
                    (Ok(list), Ok(order)) => {
                        &&& places(list@) == order
                        &&& forall|i: int|
                            0 <= i < list@.len() ==> (#[trigger] list@[i]) < old(self).fields@.len()
                        &&& reallocated(*old(self), *final(self), unreadable_faults(ids, reads))
                    },
                    (Err(error), Err(fault)) => error@ == fault && *final(self) == *old(self),
                    _ => false,
                }
            }),
    {
        if self.size.x == 0 || self.size.y == 0 {
            return Err(PlanError::ZeroSize(self.size.x, self.size.y));
        }
        if let Err(error) = index_fields(&self.fields) {
            return Err(error);
        }
        let ghost ids = ids_of(self.fields@);
        let ghost reads = all_reads(self.fields@);
        let faults: Vec<Option<String>> = unreadable(&self.fields);
        let ghost reasons = reasons_view(faults@);
        let rows: Vec<Vec<usize>> = resolve_readable(&self.fields, &faults);
        let whole: Vec<usize> = match topological_order(&rows) {
            Ok(order) => order,
            Err(circle) => {
                return Err(PlanError::Cycle(chain_of(&self.fields, &circle)));
            },
        };
        proof {
            law_an_order_puts_each_after_what_it_reads(rows_of(rows@), 0, 0);
            assert forall|i: int| 0 <= i < whole@.len() implies (#[trigger] whole@[i])
                < self.fields@.len() by {
                assert(places(whole@)[i] == whole@[i]);
            }
        }
        let mut order: Vec<usize> = Vec::new();
        let mut i: usize = 0;
        proof {
            assert(places(whole@).take(0) =~= Seq::<int>::empty());
            assert(places(order@) =~= Seq::<int>::empty());
        }
        while i < whole.len()
            invariant
                i <= whole@.len(),
                faults@.len() == self.fields@.len(),
                reasons == reasons_view(faults@),
                forall|j: int|
                    0 <= j < whole@.len() ==> (#[trigger] whole@[j]) < self.fields@.len(),
                forall|j: int|
                    0 <= j < order@.len() ==> (#[trigger] order@[j]) < self.fields@.len(),
                places(order@) == without_faults(places(whole@).take(i as int), reasons),
            decreases whole@.len() - i,
        {
            let place: usize = whole[i];
            proof {
                let list = places(whole@);
                assert(list.take(i + 1).drop_last() =~= list.take(i as int));
                assert(list.take(i + 1).last() == place);
                assert(reasons[place as int] is None <==> faults@[place as int] is None);
            }
            if faults[place].is_none() {
                let ghost before = order@;
                order.push(place);
                proof {
                    assert(places(order@) =~= places(before).push(place as int));
                }
            }
            i = i + 1;
        }
        proof {
            assert(places(whole@).take(i as int) =~= places(whole@));
        }
        let ghost start = *self;
        let mut k: usize = 0;
        while k < self.fields.len()
            invariant
                start == *old(self),
                !start.size.vacant(),
                start.size.area() <= usize::MAX,
                self.wf(),
                *self == (TerrainSpec { fields: self.fields, ..start }),
                self.fields@.len() == start.fields@.len(),
                faults@.len() == start.fields@.len(),
                reasons == reasons_view(faults@),
                k <= start.fields@.len(),
                forall|j: int|
                    k <= j < start.fields@.len() ==> #[trigger] self.fields@[j]
                        == start.fields@[j],
                forall|j: int|
                    0 <= j < k ==> if reasons[j] is Some {
                        released(start.fields@[j], #[trigger] self.fields@[j])
                    } else {
                        allocated(start.fields@[j], self.fields@[j], texels_at(start, j))
                    },
            decreases start.fields@.len() - k,
        {
            proof {
                assert(reasons[k as int] is None <==> faults@[k as int] is None);
                lemma_texels_fit(start.size, start.fields@[k as int].shift);
                assert(self.fields@[k as int] == start.fields@[k as int]);
            }
            if faults[k].is_some() {
                self.fields[k].baked = Raster::empty();
            } else {
                let texels: UVec2 = self.fields[k].resolution(self.size);
                self.allocate(k, texels);
            }
            k = k + 1;
        }
        Ok(order)
    }

    /// Bakes every field over the whole document, in dependency order, from the values the
    /// shaders hold, leaving the results on the fields. Does not solve water.
    ///
    /// Fields are reallocated to their declared resolutions first, so this also fixes a
    /// document whose shifts have been edited.
    ///
    /// A field reading a name the document does not carry, and every field reading one of
    /// those, is left unbaked, sampling as zero, while the rest bakes;
    /// [`TerrainSpec::field_faults`] says which and why. A cycle between fields, a duplicate
    /// id and a zero extent still fail the whole bake.
    pub fn bake_in_place(&mut self) -> (answer: Result<(), PlanError>)
        requires
            old(self).wf(),
            old(self).size.area() <= usize::MAX,
            bounded_where_read(*old(self)),
        ensures
            final(self).wf(),
            ({
                let ids = ids_of(old(self).fields@);
                let reads = all_reads(old(self).fields@);
                match (answer, readable_order(old(self).size, ids, reads)) {
                    (Ok(_), Ok(_)) => baked_whole(
                        *old(self),
                        *final(self),
                        unreadable_faults(ids, reads),
                    ),
                    (Err(error), Err(fault)) => error@ == fault && *final(self) == *old(self),
                    _ => false,
                }
            }),
    {
        let ghost start = *self;
        let ghost ids = ids_of(start.fields@);
        let ghost reads = all_reads(start.fields@);
        let ghost faults = unreadable_faults(ids, reads);
        let order: Vec<usize> = match self.start_bake() {
            Ok(order) => order,
            Err(error) => {
                return Err(error);
            },
        };
        let ghost ready = *self;
        let ghost whole = crate::topology::ordered(readable_rows(ids, reads, faults))->Ok_0;
        proof {
            lemma_known_fit(ids, reads, faults);
            law_an_order_puts_each_after_what_it_reads(readable_rows(ids, reads, faults), 0, 0);
            lemma_without_faults(whole, faults);
            assert forall|j: int| 0 <= j < order@.len() implies faults[(#[trigger] order@[j]) as int]
                is None by {
                assert(places(order@)[j] == order@[j]);
            }
        }
        let mut i: usize = 0;
        while i < order.len()
            invariant
                i <= order@.len(),
                start == *old(self),
                !start.size.vacant(),
                start.size.area() <= usize::MAX,
                bounded_where_read(start),
                ids == ids_of(start.fields@),
                reads == all_reads(start.fields@),
                faults == unreadable_faults(ids, reads),
                reallocated(start, ready, faults),
                places(order@) == without_faults(whole, faults),
                forall|j: int|
                    0 <= j < order@.len() ==> (#[trigger] order@[j]) < start.fields@.len(),
                forall|j: int|
                    0 <= j < order@.len() ==> faults[(#[trigger] order@[j]) as int] is None,
                self.wf(),
                *self == (TerrainSpec { fields: self.fields, ..start }),
                self.fields@.len() == start.fields@.len(),
                forall|j: int|
                    0 <= j < start.fields@.len() ==> (#[trigger] self.fields@[j] == ready.fields@[j])
                        || (faults[j] is None && evaluated(
                        start.fields@[j],
                        self.fields@[j],
                        Dispatch::Held,
                        texels_at(start, j),
                    )),
                forall|j: int|
                    0 <= j < i ==> evaluated(
                        start.fields@[order@[j] as int],
                        self.fields@[(#[trigger] order@[j]) as int],
                        Dispatch::Held,
                        texels_at(start, order@[j] as int),
                    ),
            decreases order@.len() - i,
        {
            let place: usize = order[i];
            let ghost before = *self;
            proof {
                assert(ready.fields@[place as int] == (Layer {
                    baked: ready.fields@[place as int].baked,
                    ..start.fields@[place as int]
                }));
                assert(start.fields@[place as int].bounded());
                assert(before.fields@[place as int] == (Layer {
                    baked: before.fields@[place as int].baked,
                    ..start.fields@[place as int]
                }));
            }
            if let Err(error) = self.evaluate(place, Dispatch::Held) {
                return Err(error);
            }
            i = i + 1;
        }
        proof {
            assert forall|j: int| 0 <= j < start.fields@.len() implies if faults[j] is Some {
                released(start.fields@[j], #[trigger] self.fields@[j])
            } else {
                evaluated(
                    start.fields@[j],
                    self.fields@[j],
                    Dispatch::Held,
                    texels_at(start, j),
                )
            } by {
                if faults[j] is Some {
                    assert(self.fields@[j] == ready.fields@[j]);
                } else {
                    assert(whole.contains(j));
                    let k = choose|k: int| 0 <= k < whole.len() && whole[k] == j;
                    assert(without_faults(whole, faults).contains(whole[k]));
                    let m = choose|m: int| 0 <= m < places(order@).len() && places(order@)[m] == j;
                    assert(order@[m] == j);
                }
            }
        }
        Ok(())
    }
}

} // verus!
