//! An authored document and the evaluation of its fields.

use vstd::prelude::*;
use crate::faults::{
    all_reads, all_resolved, chain_of, chained, faults_in, faults_view, find_field, found,
    index_fields, ids_of, lemma_found, list_faults, names_at, readable_rows, repeat_from,
    resolve_dependencies, resolved, unreadable_faults, Names, Reasons,
};
use crate::layer::{ordered_range, Layer};
use crate::names::{FieldId, FieldRole};
use crate::plan_error::{PlanError, PlanErrorView};
use crate::raster::{Raster, UVec2};
use crate::shader::ShaderLayer;
use crate::single::{capped, Single};
use crate::topology::{
    law_an_order_puts_each_after_what_it_reads, ordered, places, rows_of, topological_order,
};
use crate::water::{WaterSpec, WaterState};

verus! {

/// An authored document: an extent, the fields in it, and optionally a description of the
/// water over them.
///
/// This is the editable side of a terrain and the thing that is saved. Everything derived, a
/// field's baked raster and the solved water, is held here too but is not part of what is
/// saved; the recipe that re-derives it is, which is why the water spec survives a save
/// where the water itself does not.
#[derive(Debug)]
pub struct TerrainSpec {
    /// The extent in cells. Every field covers all of it, whatever its own shift.
    pub size: UVec2,
    /// The fields, in declaration order. Not bake order, see [`TerrainSpec::bake_order`],
    /// but the order a consumer reads them back in.
    pub fields: Vec<Layer>,
    /// What water this document wants, if any. Saved, so a document reloaded without its
    /// solved water can solve it again.
    pub water_spec: Option<WaterSpec>,
    /// The seed every shader of this document is told about. Saved, so a reloaded document
    /// dispatches to the same values.
    pub seed: u32,
    /// The solved water.
    pub water: Option<WaterState>,
}

/// What became of a field's shader before the field is evaluated.
#[derive(Debug)]
pub enum Dispatch {
    /// The shader was not run: there is nothing to run it on, or the values it holds are
    /// still those a run would give.
    Held,
    /// The shader ran and gave these values, made from what `key` stands for.
    Made {
        /// One value per texel, row by row.
        values: Vec<Single>,
        /// What the values were made from.
        key: u64,
    },
    /// The shader did not run, for this reason.
    Failed(String),
}

/// The nearest place to `at` among `count`.
pub open spec fn nearest_place(at: int, count: int) -> int {
    if at < count {
        at
    } else {
        count - 1
    }
}

/// What a raster reads as at a texel: its own there, the one at its edge beyond that, and
/// zero where it has none.
pub open spec fn sampled(source: Raster<Single>, x: int, y: int) -> Single {
    if source.size.vacant() {
        Single(0)
    } else {
        source.texel(
            nearest_place(x, source.size.x as int),
            nearest_place(y, source.size.y as int),
        )
    }
}

/// Whether a raster holds what a source reads as at each texel, clamped into a range.
pub open spec fn is_bake(
    raster: Raster<Single>,
    source: Raster<Single>,
    range: (Single, Single),
    texels: UVec2,
) -> bool {
    &&& raster.wf()
    &&& raster.size == texels
    &&& forall|x: int, y: int|
        raster.covers(x, y) ==> #[trigger] raster.texel(x, y) == sampled(source, x, y).held(
            ordered_range(range).0,
            ordered_range(range).1,
        )
}

impl Dispatch {
    /// Why a dispatch gives a field of `texels` no values, where it does not.
    pub open spec fn fault(self, texels: UVec2) -> Option<Seq<char>> {
        match self {
            Dispatch::Held => None,
            Dispatch::Made { values, key } => if values@.len() == texels.area() {
                None
            } else {
                Some("the dispatch produced the wrong number of texels"@)
            },
            Dispatch::Failed(reason) => Some(reason@),
        }
    }

    /// The shader of a field once the values of a dispatch over `texels` are on it.
    pub open spec fn leaves(self, shader: ShaderLayer, texels: UVec2) -> ShaderLayer {
        match self {
            Dispatch::Made { values, key } => ShaderLayer {
                values: Raster { size: texels, data: values },
                stamp: Some(key),
                ..shader
            },
            _ => shader,
        }
    }
}

/// Whether a field has been given a raster of `texels`: the one it had where that fits,
/// else one of zeros.
pub open spec fn allocated(before: Layer, after: Layer, texels: UVec2) -> bool {
    &&& after == (Layer { baked: after.baked, ..before })
    &&& after.baked.size == texels
    &&& after.baked.wf()
    &&& if before.baked.size == texels {
        after.baked == before.baked
    } else {
        forall|i: int| 0 <= i < after.baked.data@.len() ==> after.baked.data@[i] == Single(0)
    }
}

/// Whether a field has been evaluated after a dispatch: its shader holds what the dispatch
/// left, and its bake is that, clamped. A dispatch that gave nothing leaves it allocated.
pub open spec fn evaluated(before: Layer, after: Layer, dispatch: Dispatch, texels: UVec2) -> bool {
    if dispatch.fault(texels) is Some {
        allocated(before, after, texels)
    } else {
        let shader = dispatch.leaves(before.shader, texels);
        &&& after == (Layer { baked: after.baked, shader, ..before })
        &&& is_bake(after.baked, shader.values, before.range, texels)
    }
}

/// The order that some fields bake in, or why they have none: two share a name, one reads a
/// name no field has, or they read each other in a circle.
pub open spec fn full_order(ids: Names, reads: Seq<Names>) -> Result<Seq<int>, PlanErrorView> {
    if let Some(at) = repeat_from(ids, 0) {
        Err(PlanErrorView::DuplicateField(ids[at]))
    } else {
        match all_resolved(ids, reads, ids.len() as int) {
            Err(fault) => Err(
                PlanErrorView::UnknownField { referenced: fault.0, reader: fault.1 },
            ),
            Ok(rows) => match ordered(rows) {
                Err(circle) => Err(PlanErrorView::Cycle(chained(names_at(ids, circle)))),
                Ok(order) => Ok(order),
            },
        }
    }
}

/// What is read stands among the fields.
proof fn lemma_resolved(ids: Names, names: Names)
    ensures
        resolved(ids, names) matches Ok(row) ==> forall|i: int|
            0 <= i < row.len() ==> 0 <= #[trigger] row[i] < ids.len(),
    decreases names.len(),
{
    if names.len() > 0 {
        lemma_resolved(ids, names.drop_last());
        lemma_found(ids, names.last(), 0);
    }
}

/// What the fields read stands among them.
pub proof fn lemma_all_resolved(ids: Names, reads: Seq<Names>, upto: int)
    requires
        0 <= upto,
    ensures
        all_resolved(ids, reads, upto) matches Ok(rows) ==> rows.len() == upto && forall|
            a: int,
            i: int,
        |
            0 <= a < rows.len() && 0 <= i < rows[a].len() ==> 0 <= #[trigger] rows[a][i]
                < ids.len(),
    decreases upto,
{
    if upto > 0 {
        lemma_all_resolved(ids, reads, upto - 1);
        lemma_resolved(ids, reads[upto - 1]);
    }
}

/// An order of fields holds each of them once.
pub proof fn lemma_full_order(ids: Names, reads: Seq<Names>)
    ensures
        full_order(ids, reads) matches Ok(order) ==> order.len() == ids.len()
            && order.no_duplicates() && (forall|i: int|
            0 <= i < order.len() ==> 0 <= #[trigger] order[i] < ids.len()) && forall|c: int|
            0 <= c < ids.len() ==> order.contains(c),
{
    lemma_all_resolved(ids, reads, ids.len() as int);
    if full_order(ids, reads) is Ok {
        let rows = all_resolved(ids, reads, ids.len() as int)->Ok_0;
        law_an_order_puts_each_after_what_it_reads(rows, 0, 0);
    }
}

/// The order that those fields bake in that can be read, or why they have none: the document
/// has no cells, two share a name, or they read each other in a circle.
pub open spec fn readable_order(size: UVec2, ids: Names, reads: Seq<Names>) -> Result<
    Seq<int>,
    PlanErrorView,
> {
    let faults = unreadable_faults(ids, reads);
    if size.vacant() {
        Err(PlanErrorView::ZeroSize(size.x, size.y))
    } else if let Some(at) = repeat_from(ids, 0) {
        Err(PlanErrorView::DuplicateField(ids[at]))
    } else {
        match ordered(readable_rows(ids, reads, faults)) {
            Err(circle) => Err(PlanErrorView::Cycle(chained(names_at(ids, circle)))),
            Ok(order) => Ok(without_faults(order, faults)),
        }
    }
}

/// The places of an order that have no fault.
pub open spec fn without_faults(order: Seq<int>, faults: Reasons) -> Seq<int>
    decreases order.len(),
{
    if order.len() == 0 {
        Seq::empty()
    } else {
        let rest = without_faults(order.drop_last(), faults);
        if faults[order.last()] is None {
            rest.push(order.last())
        } else {
            rest
        }
    }
}

/// How many bytes the baked rasters of the first `upto` fields hold.
pub open spec fn held_bytes(fields: Seq<Layer>, upto: int) -> int
    decreases upto,
{
    if upto <= 0 {
        0
    } else {
        held_bytes(fields, upto - 1) + 4 * fields[upto - 1].baked.size.area()
    }
}

/// The first field of a role, at or after `from`.
pub open spec fn role_from(fields: Seq<Layer>, role: FieldRole, from: int) -> Option<int>
    decreases fields.len() - from,
{
    if from < 0 || from >= fields.len() {
        None
    } else if fields[from].role == role {
        Some(from)
    } else {
        role_from(fields, role, from + 1)
    }
}

/// The field that holds a role. None where the role is [`FieldRole::Custom`], which any
/// number may hold.
pub open spec fn role_holder(fields: Seq<Layer>, role: FieldRole) -> Option<int> {
    if role == FieldRole::Custom {
        None
    } else {
        role_from(fields, role, 0)
    }
}

/// Whether more than one field holds a role.
pub open spec fn role_shared(fields: Seq<Layer>, role: FieldRole) -> bool {
    match role_from(fields, role, 0) {
        Some(at) => role_from(fields, role, at + 1) is Some,
        None => false,
    }
}

/// What is wrong with the roles of a document.
pub open spec fn role_fault(fields: Seq<Layer>, wants_water: bool) -> Option<PlanErrorView> {
    if role_shared(fields, FieldRole::Height) {
        Some(PlanErrorView::DuplicateRole(FieldRole::Height))
    } else if role_shared(fields, FieldRole::Moisture) {
        Some(PlanErrorView::DuplicateRole(FieldRole::Moisture))
    } else {
        match role_holder(fields, FieldRole::Height) {
            Some(at) => if fields[at].shift != 0 {
                Some(PlanErrorView::CoarseHeight(fields[at].id@, fields[at].shift))
            } else {
                None
            },
            None => if wants_water {
                Some(PlanErrorView::MissingHeightField)
            } else {
                None
            },
        }
    }
}

impl TerrainSpec {
    /// Whether the rasters of the document are well formed.
    pub open spec fn wf(&self) -> bool {
        &&& forall|i: int| 0 <= i < self.fields@.len() ==> (#[trigger] self.fields@[i]).wf()
        &&& self.water matches Some(state) ==> state.wf()
    }

    /// An empty document of that extent: no fields, no water.
    pub fn new(size: UVec2) -> (spec: TerrainSpec)
        ensures
            spec.wf(),
            spec.size == size,
            spec.fields@.len() == 0,
            spec.water_spec is None,
            spec.seed == 0,
            spec.water is None,
    {
        TerrainSpec { size, fields: Vec::new(), water_spec: None, seed: 0, water: None }
    }

    /// Appends a field. Order here is declaration order, not evaluation order: a field may
    /// reference one added after it.
    pub fn with_field(self, field: Layer) -> (spec: TerrainSpec)
        ensures
            spec.fields@ == self.fields@.push(field),
            spec == (TerrainSpec { fields: spec.fields, ..self }),
            self.wf() && field.wf() ==> spec.wf(),
    {
        let mut spec: TerrainSpec = self;
        spec.fields.push(field);
        spec
    }

    /// The field of that exact name, or `None`. Case-sensitive.
    pub fn field(&self, id: &str) -> (answer: Option<&Layer>)
        ensures
            match answer {
                Some(field) => found(ids_of(self.fields@), id@) is Some && *field
                    == self.fields@[found(ids_of(self.fields@), id@)->0],
                None => found(ids_of(self.fields@), id@) is None,
            },
    {
        let name: FieldId = FieldId::new(id);
        match find_field(&self.fields, &name) {
            Some(at) => Some(&self.fields[at]),
            None => None,
        }
    }

    /// As [`TerrainSpec::field`], to be modified. Editing through this can invalidate the
    /// bakes and the water; nothing here notices.
    pub fn field_mut(&mut self, id: &str) -> (answer: Option<&mut Layer>)
        ensures
            match answer {
                Some(field) => found(ids_of(old(self).fields@), id@) is Some && *field
                    == old(self).fields@[found(ids_of(old(self).fields@), id@)->0]
                    && final(self).fields@ == old(self).fields@.update(
                    found(ids_of(old(self).fields@), id@)->0,
                    *final(field),
                ) && *final(self) == (TerrainSpec { fields: final(self).fields, ..*old(self) }),
                None => found(ids_of(old(self).fields@), id@) is None && *final(self) == *old(
                    self,
                ),
            },
    {
        let name: FieldId = FieldId::new(id);
        match find_field(&self.fields, &name) {
            Some(at) => Some(&mut self.fields[at]),
            None => None,
        }
    }

    /// Every field that cannot bake, with the reason, in declaration order.
    ///
    /// A field reading a name the document does not carry, a field reading one of those, and
    /// every field of a cycle between fields that could otherwise bake. The first two are
    /// left unbaked by [`TerrainSpec::bake_in_place`] while the rest of the document bakes; a
    /// cycle still fails the bake, and its fields' reason is `cycle: ` followed by the chain.
    /// Derived from the document each call, never stored. A document with two fields of one
    /// id answers no faults.
    pub fn field_faults(&self) -> (list: Vec<(FieldId, String)>)
        ensures
            faults_view(list@) == faults_in(ids_of(self.fields@), all_reads(self.fields@)),
    {
        list_faults(&self.fields)
    }

    /// The order a bake visits the fields in: every field after the ones it reads.
    ///
    /// This is the whole of what a caller needs to drive a bake a stage at a time, and it is
    /// a plan rather than a running bake: nothing is borrowed, so the document stays readable
    /// between stages and the caller decides the pacing. Anything that would make a bake fail
    /// late, a cycle, a missing field, a duplicate id, fails here instead, before a single
    /// texel is written.
    ///
    /// Ids rather than places, because a caller driving a bake a stage at a time may edit the
    /// document between stages, and a place among the fields would not survive a field being
    /// added or removed where a name does.
    pub fn bake_order(&self) -> (answer: Result<Vec<FieldId>, PlanError>)
        ensures
            ({
                let ids = ids_of(self.fields@);
                match (answer, full_order(ids, all_reads(self.fields@))) {
                    (Ok(list), Ok(order)) => list@.map_values(|id: FieldId| id@) == names_at(
                        ids,
                        order,
                    ),
                    (Err(error), Err(fault)) => error@ == fault,
                    _ => false,
                }
            }),
    {
        let order: Vec<usize> = match order_fields(&self.fields) {
            Ok(order) => order,
            Err(error) => {
                return Err(error);
            },
        };
        let mut list: Vec<FieldId> = Vec::new();
        let mut i: usize = 0;
        while i < order.len()
            invariant
                i <= order@.len(),
                forall|j: int| 0 <= j < order@.len() ==> (#[trigger] order@[j]) < self.fields@.len(),
                list@.len() == i,
                forall|j: int|
                    0 <= j < i ==> (#[trigger] list@[j])@ == self.fields@[order@[j] as int].id@,
            decreases order@.len() - i,
        {
            list.push(self.fields[order[i]].id.clone());
            i = i + 1;
        }
        proof {
            assert(list@.map_values(|id: FieldId| id@) =~= names_at(
                ids_of(self.fields@),
                places(order@),
            ));
        }
        Ok(list)
    }

    /// Drops a field's baked raster, keeping the shader values that would rebuild it, and
    /// says whether there was such a field.
    ///
    /// A document's fields do not all have to be resident at once: an intermediate is dead as
    /// soon as everything downstream of it has been baked. Releasing as the order advances
    /// turns the peak from the sum of every field into the widest live set.
    ///
    /// A released field samples as zero, exactly as one that has never been baked, so
    /// releasing something still to be read is not an error, it is a wrong answer, and the
    /// caller owns that distinction the same way it owns the bake order.
    pub fn release(&mut self, id: &str) -> (answer: bool)
        ensures
            answer == (found(ids_of(old(self).fields@), id@) is Some),
            !answer ==> *final(self) == *old(self),
            *final(self) == (TerrainSpec { fields: final(self).fields, ..*old(self) }),
            final(self).fields@.len() == old(self).fields@.len(),
            forall|i: int|
                0 <= i < old(self).fields@.len() && Some(i) != found(ids_of(old(self).fields@), id@)
                    ==> #[trigger] final(self).fields@[i] == old(self).fields@[i],
            answer ==> released(
                old(self).fields@[found(ids_of(old(self).fields@), id@)->0],
                final(self).fields@[found(ids_of(old(self).fields@), id@)->0],
            ),
            old(self).wf() ==> final(self).wf(),
    {
        let name: FieldId = FieldId::new(id);
        match find_field(&self.fields, &name) {
            Some(at) => {
                self.fields[at].baked = Raster::empty();
                true
            },
            None => false,
        }
    }

    /// How many bytes the baked rasters currently hold, or as many as can be told where that
    /// is more.
    ///
    /// The bakes only: a field's shader values are not counted. This number is the part that
    /// [`TerrainSpec::release`] moves and is what a staged bake watches.
    pub fn baked_bytes(&self) -> (bytes: usize)
        ensures
            bytes == capped(
                held_bytes(self.fields@, self.fields@.len() as int),
                usize::MAX as int,
            ),
    {
        let mut bytes: usize = 0;
        let mut i: usize = 0;
        while i < self.fields.len()
            invariant
                i <= self.fields@.len(),
                bytes == capped(held_bytes(self.fields@, i as int), usize::MAX as int),
                held_bytes(self.fields@, i as int) >= 0,
            decreases self.fields@.len() - i,
        {
            let size: UVec2 = self.fields[i].baked.size;
            proof {
                assert(0 <= size.x * size.y <= 0xffff_ffff * 0xffff_ffff) by (nonlinear_arith)
                    requires
                        0 <= size.x <= 0xffff_ffff,
                        0 <= size.y <= 0xffff_ffff,
                ;
            }
            let total: u128 = bytes as u128 + 4 * (size.x as u128 * size.y as u128);
            bytes = if total > usize::MAX as u128 {
                usize::MAX
            } else {
                total as usize
            };
            i = i + 1;
        }
        bytes
    }

    /// The field holding `role`. [`FieldRole::Custom`] always answers `None`, because any
    /// number of fields may hold it.
    pub fn field_with_role(&self, role: FieldRole) -> (answer: Option<&Layer>)
        ensures
            match answer {
                Some(field) => role_holder(self.fields@, role) is Some && *field
                    == self.fields@[role_holder(self.fields@, role)->0],
                None => role_holder(self.fields@, role) is None,
            },
    {
        if role == FieldRole::Custom {
            return None;
        }
        match find_role(&self.fields, role, 0) {
            Some(at) => Some(&self.fields[at]),
            None => None,
        }
    }

    /// Checks the three things a role assignment has to satisfy: at most one field per named
    /// role, a `Height` field at shift zero, and a `Height` field present if water is
    /// declared.
    ///
    /// Called by [`TerrainSpec::plan_bake`], and worth calling directly by anything that lets
    /// a role be changed, so the conflict is reported where it was made rather than at the
    /// next bake.
    pub fn validate_roles(&self) -> (answer: Result<(), PlanError>)
        ensures
            match answer {
                Ok(_) => role_fault(self.fields@, self.water_spec is Some) is None,
                Err(error) => role_fault(self.fields@, self.water_spec is Some) == Some(error@),
            },
    {
        proof {
            assert(self.fields@.len() == self.fields.len());
        }
        let height: Option<usize> = find_role(&self.fields, FieldRole::Height, 0);
        if let Some(at) = height {
            if find_role(&self.fields, FieldRole::Height, at + 1).is_some() {
                return Err(PlanError::DuplicateRole(FieldRole::Height));
            }
        }
        if let Some(at) = find_role(&self.fields, FieldRole::Moisture, 0) {
            if find_role(&self.fields, FieldRole::Moisture, at + 1).is_some() {
                return Err(PlanError::DuplicateRole(FieldRole::Moisture));
            }
        }
        match height {
            Some(at) => {
                if self.fields[at].shift != 0 {
                    return Err(
                        PlanError::CoarseHeight(self.fields[at].id.to_text(), self.fields[at].shift),
                    );
                }
            },
            None => {
                if self.water_spec.is_some() {
                    return Err(PlanError::MissingHeightField);
                }
            },
        }
        Ok(())
    }
}

/// Whether a field has lost its bake and nothing else.
pub open spec fn released(before: Layer, after: Layer) -> bool {
    &&& after == (Layer { baked: after.baked, ..before })
    &&& after.baked.size == (UVec2 { x: 0, y: 0 })
    &&& after.baked.wf()
}

/// The first field of a role, at or after `from`.
fn find_role(fields: &Vec<Layer>, role: FieldRole, from: usize) -> (answer: Option<usize>)
    requires
        from <= fields@.len(),
    ensures
        match answer {
            Some(at) => from <= at < fields@.len() && role_from(fields@, role, from as int)
                == Some(at as int),
            None => role_from(fields@, role, from as int) is None,
        },
{
    let mut i: usize = from;
    while i < fields.len()
        invariant
            from <= i <= fields@.len(),
            role_from(fields@, role, from as int) == role_from(fields@, role, i as int),
        decreases fields@.len() - i,
    {
        if fields[i].role == role {
            return Some(i);
        }
        i = i + 1;
    }
    None
}

/// The places of the fields in the order they bake in, or why they have none.
pub fn order_fields(fields: &Vec<Layer>) -> (answer: Result<Vec<usize>, PlanError>)
    ensures
        match (answer, full_order(ids_of(fields@), all_reads(fields@))) {
            (Ok(list), Ok(order)) => places(list@) == order && forall|i: int|
                0 <= i < list@.len() ==> (#[trigger] list@[i]) < fields@.len(),
            (Err(error), Err(fault)) => error@ == fault,
            _ => false,
        },
{
    if let Err(error) = index_fields(fields) {
        return Err(error);
    }
    let rows: Vec<Vec<usize>> = match resolve_dependencies(fields) {
        Ok(rows) => rows,
        Err(error) => {
            return Err(error);
        },
    };
    match topological_order(&rows) {
        Ok(order) => {
            proof {
                law_an_order_puts_each_after_what_it_reads(rows_of(rows@), 0, 0);
                assert forall|i: int| 0 <= i < order@.len() implies (#[trigger] order@[i])
                    < fields@.len() by {
                    assert(places(order@)[i] == order@[i]);
                }
            }
            Ok(order)
        },
        Err(circle) => Err(PlanError::Cycle(chain_of(fields, &circle))),
    }
}

} // verus!
