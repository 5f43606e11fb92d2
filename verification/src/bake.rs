//! Taking a document through its bake a step at a time.

use vstd::prelude::*;
use crate::evaluate::{bake_refusal, differs_at, texels_at};
use crate::faults::{all_reads, found, ids_of, lemma_found};
use crate::layer::{resolution, texts_view, Layer};
use crate::names::FieldRole;
use crate::pack::{fits, misclassed_from, packs, quantize, Packed, Tables};
use crate::pack_laws::law_the_water_is_packed_column_by_column;
use crate::plan_error::{PlanError, PlanErrorView};
use crate::single::capped;
use crate::solve::{height_place, water_fault};
use crate::terrain::{
    evaluated, full_order, held_bytes, order_fields, released, role_fault, role_holder, Dispatch,
    TerrainSpec,
};
use crate::text::{decimal, decimal_of};
use crate::topology::places;
use crate::water::{is_state, WaterError, WaterErrorView, WaterParts, WaterSpec};

verus! {

/// What one step of a plan does.
///
/// A step is the smallest unit of work whose result is complete: a whole field, or the whole
/// water solve.
#[derive(Clone, Copy, Debug, PartialEq, Eq, Structural)]
pub enum StepKind {
    /// Evaluate one field over the whole document.
    Field,
    /// Solve the water. Always last, and only present if the document declares water.
    Water,
}

/// One step of a [`BakePlan`].
#[derive(Debug)]
pub struct BakeStep {
    /// Whether this evaluates a field or solves the water.
    pub kind: StepKind,
    /// The field this step bakes. For a water step, the `Height` field it is solved over,
    /// empty if the document has none.
    pub field: String,
    /// Fields to release once this step has run, freeing their baked rasters.
    ///
    /// Honoured by [`Bake::advance`], but [`TerrainSpec::plan_bake`] never populates it: a
    /// finished terrain has to answer at every cell of every field it names, so nothing a
    /// plan produces may be released before the plan ends.
    pub releases: Vec<String>,
}

/// What a [`BakeStep`] says.
pub struct StepView {
    /// Whether this evaluates a field or solves the water.
    pub kind: StepKind,
    /// The field this step bakes.
    pub field: Seq<char>,
    /// Fields to release once this step has run.
    pub releases: Seq<Seq<char>>,
}

impl View for BakeStep {
    type V = StepView;

    open spec fn view(&self) -> StepView {
        StepView { kind: self.kind, field: self.field@, releases: texts_view(self.releases@) }
    }
}

/// The steps a document has to be taken through, settled before any of them runs.
///
/// A plan is a value, not a running bake: it borrows nothing, so a caller can read off how
/// many steps there are and which field each names while the document stays readable. It is
/// a snapshot, and editing the document afterwards does not update it.
///
/// Fields already baked at their declared resolution are left out, so a plan for a partially
/// baked document is shorter than one for a fresh one.
#[derive(Debug)]
pub struct BakePlan {
    steps: Vec<BakeStep>,
}

impl View for BakePlan {
    type V = Seq<StepView>;

    closed spec fn view(&self) -> Seq<StepView> {
        self.steps@.map_values(|step: BakeStep| step@)
    }
}

impl BakePlan {
    /// The steps, in the order they must run.
    pub fn steps(&self) -> (steps: &Vec<BakeStep>)
        ensures
            steps@.map_values(|step: BakeStep| step@) == self@,
    {
        &self.steps
    }

    /// How many steps. This is what a progress display counts against.
    pub fn len(&self) -> (count: usize)
        ensures
            count == self@.len(),
    {
        self.steps.len()
    }

    /// Whether there is nothing to do: a document with no fields, or one already fully baked
    /// and wanting no water.
    pub fn is_empty(&self) -> (answer: bool)
        ensures
            answer == (self@.len() == 0),
    {
        self.steps.len() == 0
    }
}

/// The field steps for the first `upto` places of an order: one for each field that is not
/// baked at its declared resolution.
pub open spec fn field_steps(spec: TerrainSpec, order: Seq<int>, upto: int) -> Seq<StepView>
    decreases upto,
{
    if upto <= 0 {
        Seq::empty()
    } else {
        let rest = field_steps(spec, order, upto - 1);
        let place = order[upto - 1];
        if spec.fields@[place].baked.size == texels_at(spec, place) {
            rest
        } else {
            rest.push(
                StepView {
                    kind: StepKind::Field,
                    field: spec.fields@[place].id@,
                    releases: Seq::empty(),
                },
            )
        }
    }
}

/// The step that solves the water of a document.
pub open spec fn water_step(spec: TerrainSpec) -> StepView {
    StepView {
        kind: StepKind::Water,
        field: match role_holder(spec.fields@, FieldRole::Height) {
            Some(at) => spec.fields@[at].id@,
            None => Seq::empty(),
        },
        releases: Seq::empty(),
    }
}

/// The steps a document has to be taken through, or why it cannot be.
pub open spec fn planned(spec: TerrainSpec) -> Result<Seq<StepView>, PlanErrorView> {
    if spec.size.vacant() {
        Err(PlanErrorView::ZeroSize(spec.size.x, spec.size.y))
    } else if let Some(fault) = role_fault(spec.fields@, spec.water_spec is Some) {
        Err(fault)
    } else {
        match full_order(ids_of(spec.fields@), all_reads(spec.fields@)) {
            Err(fault) => Err(fault),
            Ok(order) => {
                let steps = field_steps(spec, order, order.len() as int);
                Ok(
                    if spec.water_spec is Some {
                        steps.push(water_step(spec))
                    } else {
                        steps
                    },
                )
            },
        }
    }
}

impl TerrainSpec {
    /// The steps this document has to be taken through.
    ///
    /// Every structural fault, a zero size, a duplicate id, an unresolvable reference, a
    /// cycle, a role conflict, is caught here, before a single raster is allocated, so a
    /// document that plans can be baked and a running bake fails only on the water solve or
    /// on an edit made since.
    pub fn plan_bake(&self) -> (answer: Result<BakePlan, PlanError>)
        ensures
            match (answer, planned(*self)) {
                (Ok(plan), Ok(steps)) => plan@ == steps,
                (Err(error), Err(fault)) => error@ == fault,
                _ => false,
            },
    {
        if self.size.x == 0 || self.size.y == 0 {
            return Err(PlanError::ZeroSize(self.size.x, self.size.y));
        }
        if let Err(error) = self.validate_roles() {
            return Err(error);
        }
        let order: Vec<usize> = match order_fields(&self.fields) {
            Ok(order) => order,
            Err(error) => {
                return Err(error);
            },
        };
        let ghost list = places(order@);
        let mut steps: Vec<BakeStep> = Vec::new();
        let mut i: usize = 0;
        proof {
            assert(steps@.map_values(|step: BakeStep| step@) =~= Seq::<StepView>::empty());
        }
        while i < order.len()
            invariant
                i <= order@.len(),
                list == places(order@),
                forall|j: int| 0 <= j < order@.len() ==> (#[trigger] order@[j]) < self.fields@.len(),
                steps@.map_values(|step: BakeStep| step@) == field_steps(*self, list, i as int),
            decreases order@.len() - i,
        {
            let field: &Layer = &self.fields[order[i]];
            proof {
                assert(list[i as int] == order@[i as int]);
            }
            if field.baked.size != field.resolution(self.size) {
                let step: BakeStep = BakeStep {
                    kind: StepKind::Field,
                    field: field.id.to_text(),
                    releases: Vec::new(),
                };
                let ghost before = steps@;
                proof {
                    assert(step@.releases =~= Seq::<Seq<char>>::empty());
                }
                let ghost shown = step@;
                steps.push(step);
                proof {
                    assert(steps@.map_values(|step: BakeStep| step@) =~= before.map_values(
                        |step: BakeStep| step@,
                    ).push(shown));
                }
            }
            i = i + 1;
        }
        if self.water_spec.is_some() {
            let field: String = match self.field_with_role(FieldRole::Height) {
                Some(field) => field.id.to_text(),
                None => String::new(),
            };
            let step: BakeStep = BakeStep { kind: StepKind::Water, field, releases: Vec::new() };
            let ghost before = steps@;
            proof {
                assert(step@.releases =~= Seq::<Seq<char>>::empty());
                assert(step@.field =~= water_step(*self).field);
            }
            let ghost shown = step@;
            steps.push(step);
            proof {
                assert(steps@.map_values(|step: BakeStep| step@) =~= before.map_values(
                    |step: BakeStep| step@,
                ).push(shown));
            }
        }
        Ok(BakePlan { steps })
    }
}

/// What can go wrong once a plan exists.
///
/// Every structural fault was already caught by [`TerrainSpec::plan_bake`], so what is left is
/// a caller driving the plan out of step, or the water solve, the one step whose inputs are
/// not fully settled at plan time.
#[derive(Debug)]
pub enum BakeError {
    /// [`Bake::advance`] was called on a finished plan, or a water step was reached on a
    /// document whose water spec has since been removed.
    NoStepRemaining,
    /// [`Bake::finish_keeping_spec`] was called before every step had run, carrying how many
    /// are left. Finishing consumes the bake either way, so the work already done is lost
    /// with it.
    StepsRemaining(u32),
    /// The water step. See [`WaterError`].
    WaterSolve(WaterError),
    /// A field step. Reachable if the document was edited between planning and baking, or if
    /// a shader did not run. See [`PlanError`].
    Plan(PlanError),
    /// A field's values could not be stored in the channel they were destined for: a field of
    /// classes, carried here by name, holds a value that is not whole.
    Channel(String),
}

/// What a [`BakeError`] says.
pub enum BakeErrorView {
    /// There is no step to run.
    NoStepRemaining,
    /// Steps have not run.
    StepsRemaining(u32),
    /// The water step.
    WaterSolve(WaterErrorView),
    /// A field step.
    Plan(PlanErrorView),
    /// The field of a class that is not whole.
    Channel(Seq<char>),
}

impl View for BakeError {
    type V = BakeErrorView;

    open spec fn view(&self) -> BakeErrorView {
        match self {
            BakeError::NoStepRemaining => BakeErrorView::NoStepRemaining,
            BakeError::StepsRemaining(count) => BakeErrorView::StepsRemaining(*count),
            BakeError::WaterSolve(error) => BakeErrorView::WaterSolve(error@),
            BakeError::Plan(error) => BakeErrorView::Plan(error@),
            BakeError::Channel(field) => BakeErrorView::Channel(field@),
        }
    }
}

impl BakeError {
    /// The fault in words.
    pub open spec fn shown(&self) -> Seq<char> {
        match self {
            BakeError::NoStepRemaining => "the plan has no step left to advance"@,
            BakeError::StepsRemaining(count) => decimal(*count as nat)
                + " step(s) of the plan have not run"@,
            BakeError::WaterSolve(error) => error.shown(),
            BakeError::Plan(error) => error@.shown(),
            BakeError::Channel(field) => "field `"@ + field@
                + "` holds a class that is not whole"@,
        }
    }

    /// The fault in words.
    pub fn message(&self) -> (text: String)
        ensures
            text@ == self.shown(),
    {
        match self {
            BakeError::NoStepRemaining => String::from_str("the plan has no step left to advance"),
            BakeError::StepsRemaining(count) => {
                let mut text: String = decimal_of(*count as u128);
                text.append(" step(s) of the plan have not run");
                text
            },
            BakeError::WaterSolve(error) => error.message(),
            BakeError::Plan(error) => error.message(),
            BakeError::Channel(field) => {
                let mut text: String = String::from_str("field `");
                text.append(field.as_str());
                text.append("` holds a class that is not whole");
                text
            },
        }
    }
}

/// What [`Bake::advance`] says about the step it just ran.
///
/// The step ran either way: this reports whether another one follows, so a caller loops on
/// the return value rather than testing the bake before each call and racing its own edits.
#[derive(Clone, Copy, Debug, PartialEq, Eq, Structural)]
pub enum BakeProgress {
    /// A step ran and at least one more remains.
    Advanced,
    /// The last step ran. A further [`Bake::advance`] is [`BakeError::NoStepRemaining`].
    Finished,
}

/// Where a bake has got to, for a caller showing progress.
#[derive(Debug)]
pub struct BakeReport {
    /// Steps completed so far, so zero before the first has run.
    pub step: u32,
    /// Steps in the plan.
    pub total: u32,
    /// The field the last completed step baked; empty before the first has run.
    pub field: String,
    /// How much the baked rasters currently hold. The bakes only, fields' shader values and
    /// the solved water are not counted, so this is the number a staged bake can actually
    /// move, and it falls when a field is released.
    pub live_bytes: u64,
}

/// A document part way through being baked: it owns the spec, the plan, and whatever its
/// completed steps have written.
///
/// Constructing one allocates nothing, the plan is a list of names and a field's raster is
/// allocated by the step that fills it, so a caller may plan a bake it then decides not to
/// run.
#[derive(Debug)]
pub struct Bake {
    /// The document as it stands.
    pub spec: TerrainSpec,
    /// The plan being followed.
    pub plan: BakePlan,
    /// How many steps have run.
    pub next_step: u32,
    /// The field of the last step that ran.
    pub last_field: String,
}

/// Whether each field that a list names has lost its bake and nothing else has changed.
pub open spec fn released_by(
    before: TerrainSpec,
    after: TerrainSpec,
    names: Seq<Seq<char>>,
) -> bool {
    &&& after == (TerrainSpec { fields: after.fields, ..before })
    &&& after.fields@.len() == before.fields@.len()
    &&& forall|i: int|
        0 <= i < before.fields@.len() ==> if named_in(before, names, i) {
            released(before.fields@[i], #[trigger] after.fields@[i])
        } else {
            after.fields@[i] == before.fields@[i]
        }
}

/// Whether a list names the field at a place.
pub open spec fn named_in(spec: TerrainSpec, names: Seq<Seq<char>>, place: int) -> bool {
    exists|k: int|
        0 <= k < names.len() && found(ids_of(spec.fields@), #[trigger] names[k]) == Some(place)
}

/// Whether a document has been given the water of a solve over its height.
pub open spec fn watered(
    before: TerrainSpec,
    after: TerrainSpec,
    water: WaterSpec,
    parts: WaterParts,
) -> bool {
    &&& after == (TerrainSpec { water: after.water, water_spec: Some(water), ..before })
    &&& after.water is Some
    &&& is_state(
        after.water->0,
        before.fields@[height_place(before, water)->0].baked,
        parts,
        water.lake_min_cells as int,
    )
}

/// Why a step cannot be run on a document, where it cannot.
pub open spec fn step_fault(before: TerrainSpec, step: StepView, dispatch: Dispatch) -> Option<
    BakeErrorView,
> {
    match step.kind {
        StepKind::Field => match bake_refusal(before, step.field) {
            Some(fault) => Some(BakeErrorView::Plan(fault)),
            None => {
                let place = found(ids_of(before.fields@), step.field)->0;
                match dispatch.fault(texels_at(before, place)) {
                    Some(reason) => Some(
                        BakeErrorView::Plan(
                            PlanErrorView::ShaderDispatch { field: step.field, reason },
                        ),
                    ),
                    None => None,
                }
            },
        },
        StepKind::Water => match before.water_spec {
            None => Some(BakeErrorView::NoStepRemaining),
            Some(water) => match water_fault(before, water) {
                Some(fault) => Some(BakeErrorView::WaterSolve(fault)),
                None => None,
            },
        },
    }
}

/// Whether a document is what a step leaves of another. A field whose shader did not run is
/// left allocated, and anything else that cannot run leaves the document as it was.
pub open spec fn step_run(
    before: TerrainSpec,
    after: TerrainSpec,
    step: StepView,
    dispatch: Dispatch,
    parts: WaterParts,
) -> bool {
    match step.kind {
        StepKind::Field => if bake_refusal(before, step.field) is Some {
            after == before
        } else {
            let place = found(ids_of(before.fields@), step.field)->0;
            &&& differs_at(before, after, place)
            &&& evaluated(
                before.fields@[place],
                after.fields@[place],
                dispatch,
                texels_at(before, place),
            )
        },
        StepKind::Water => match before.water_spec {
            None => after == before,
            Some(water) => if water_fault(before, water) is Some {
                after == before
            } else {
                watered(before, after, water, parts)
            },
        },
    }
}

impl Bake {
    /// Whether the bake has run no more steps than its plan has.
    pub open spec fn wf(&self) -> bool {
        self.spec.wf() && self.next_step <= self.plan@.len() <= u32::MAX
    }

    /// The plan this bake is following. Fixed for the life of the bake.
    pub fn plan(&self) -> (plan: &BakePlan)
        ensures
            *plan == self.plan,
    {
        &self.plan
    }

    /// The document as it stands, with the rasters the completed steps have written. Readable
    /// between steps, which is what lets a caller display a partial bake.
    pub fn spec(&self) -> (spec: &TerrainSpec)
        ensures
            *spec == self.spec,
    {
        &self.spec
    }

    /// The step that [`Bake::advance`] runs next.
    pub fn next(&self) -> (step: Option<&BakeStep>)
        requires
            self.wf(),
        ensures
            match step {
                Some(step) => self.next_step < self.plan@.len() && step@
                    == self.plan@[self.next_step as int],
                None => self.next_step == self.plan@.len(),
            },
    {
        let at: usize = self.next_step as usize;
        if at < self.plan.steps.len() {
            Some(&self.plan.steps[at])
        } else {
            None
        }
    }

    /// Where the bake has got to. Valid at any point: before the first step it reports step
    /// zero, no field, and whatever the document was already holding.
    pub fn report(&self) -> (report: BakeReport)
        requires
            self.wf(),
        ensures
            report.step == self.next_step,
            report.total == self.plan@.len(),
            report.field@ == self.last_field@,
            report.live_bytes == capped(
                held_bytes(self.spec.fields@, self.spec.fields@.len() as int),
                usize::MAX as int,
            ),
    {
        BakeReport {
            step: self.next_step,
            total: self.plan.steps.len() as u32,
            field: self.last_field.clone(),
            live_bytes: self.spec.baked_bytes() as u64,
        }
    }

    /// Runs the next step and releases whatever that step named. A field step evaluates its
    /// field after `dispatch`; a water step takes the parts of a solve.
    ///
    /// Advancing past the last step is [`BakeError::NoStepRemaining`] rather than a second
    /// `Finished`, so a loop that has lost count is stopped rather than spinning. On an error
    /// the step counter does not advance.
    pub fn advance(&mut self, dispatch: Dispatch, parts: WaterParts) -> (answer: Result<
        BakeProgress,
        BakeError,
    >)
        requires
            old(self).wf(),
            old(self).next_step < old(self).plan@.len() ==> runs_on(
                old(self).spec,
                old(self).plan@[old(self).next_step as int],
            ),
        ensures
            final(self).wf(),
            final(self).spec.size == old(self).spec.size,
            advanced(*old(self), *final(self), dispatch, parts, answer),
    {
        let index: usize = self.next_step as usize;
        if index >= self.plan.steps.len() {
            return Err(BakeError::NoStepRemaining);
        }
        let ghost before = self.spec;
        let step: &BakeStep = &self.plan.steps[index];
        let ghost shown = self.plan@[self.next_step as int];
        assert(shown == step@);
        match step.kind {
            StepKind::Field => {
                if let Err(error) = self.spec.bake_field(step.field.as_str(), dispatch) {
                    return Err(BakeError::Plan(error));
                }
            },
            StepKind::Water => {
                let water: WaterSpec = match &self.spec.water_spec {
                    Some(water) => water.clone(),
                    None => {
                        return Err(BakeError::NoStepRemaining);
                    },
                };
                if let Err(error) = self.spec.solve_water(&water, parts) {
                    return Err(BakeError::WaterSolve(error));
                }
            },
        }
        let ghost mid = self.spec;
        release_all(&mut self.spec, &step.releases);
        assert(step_run(before, mid, shown, dispatch, parts));
        self.last_field = step.field.clone();
        self.next_step = self.next_step + 1;
        if self.next_step as usize >= self.plan.steps.len() {
            Ok(BakeProgress::Finished)
        } else {
            Ok(BakeProgress::Advanced)
        }
    }

    /// The finished terrain, dropping the document that produced it.
    ///
    /// For a consumer that will only read. A caller that will edit and bake again wants
    /// [`Bake::finish_keeping_spec`], since nothing rebuilds a document from a terrain.
    ///
    /// [`BakeError::StepsRemaining`] if the plan has not been run to the end,
    /// [`BakeError::Channel`] if a field of classes holds a value that is not whole, and no
    /// terrain where the tables are not those of the document.
    pub fn finish(self, tables: Tables) -> (answer: Result<Option<Packed>, BakeError>)
        requires
            self.wf(),
        ensures
            match answer {
                Ok(packed) => finish_fault(self) is None && handed_back(self.spec, tables, packed),
                Err(error) => finish_fault(self) == Some(error@),
            },
            answer matches Ok(Some(packed)) ==> self.spec.water matches Some(state) ==> state.depth.size
                == self.spec.size ==> packed.layers@.last().columns@[1]@
                == tables.water.across@ && packed.layers@.last().columns@[2]@
                == tables.water.down@,
    {
        match self.finish_keeping_spec(tables) {
            Ok((packed, _)) => Ok(packed),
            Err(error) => Err(error),
        }
    }

    /// As [`Bake::finish`], handing the document back beside the terrain, for an editor, which
    /// needs the recipe to keep editing and the terrain to display.
    pub fn finish_keeping_spec(self, tables: Tables) -> (answer: Result<
        (Option<Packed>, TerrainSpec),
        BakeError,
    >)
        requires
            self.wf(),
        ensures
            match answer {
                Ok((packed, spec)) => {
                    &&& finish_fault(self) is None
                    &&& spec == self.spec
                    &&& handed_back(self.spec, tables, packed)
                },
                Err(error) => finish_fault(self) == Some(error@),
            },
            answer matches Ok((Some(packed), _)) ==> self.spec.water matches Some(state) ==> state.depth.size
                == self.spec.size ==> packed.layers@.last().columns@[1]@
                == tables.water.across@ && packed.layers@.last().columns@[2]@
                == tables.water.down@,
    {
        let ghost given = tables;
        let remaining: u32 = self.plan.steps.len() as u32 - self.next_step;
        if remaining > 0 {
            return Err(BakeError::StepsRemaining(remaining));
        }
        match quantize(&self.spec, tables) {
            Ok(packed) => {
                proof {
                    if packed is Some && self.spec.water is Some && (self.spec.water->0).depth.size
                        == self.spec.size {
                        law_the_water_is_packed_column_by_column(
                            self.spec,
                            given,
                            packed->0,
                            self.spec.water->0,
                        );
                    }
                }
                Ok((packed, self.spec))
            },
            Err(error) => Err(error),
        }
    }
}

/// Whether a bake answers like this, and is left like this, when it is advanced: by the next
/// step of its plan, or not at all where none is left or the step fails.
pub open spec fn advanced(
    before: Bake,
    after: Bake,
    dispatch: Dispatch,
    parts: WaterParts,
    answer: Result<BakeProgress, BakeError>,
) -> bool {
    &&& after.plan == before.plan
    &&& if before.next_step == before.plan@.len() {
        after == before && answer is Err && answer->Err_0@ == BakeErrorView::NoStepRemaining
    } else {
        let step = before.plan@[before.next_step as int];
        match answer {
            Ok(progress) => {
                &&& exists|mid: TerrainSpec|
                    step_fault(before.spec, step, dispatch) is None && #[trigger] step_run(
                        before.spec,
                        mid,
                        step,
                        dispatch,
                        parts,
                    ) && released_by(mid, after.spec, step.releases)
                &&& after.next_step == before.next_step + 1
                &&& after.last_field@ == step.field
                &&& progress == (if after.next_step == before.plan@.len() {
                    BakeProgress::Finished
                } else {
                    BakeProgress::Advanced
                })
            },
            Err(error) => {
                &&& step_fault(before.spec, step, dispatch) == Some(error@)
                &&& step_run(before.spec, after.spec, step, dispatch, parts)
                &&& after == (Bake { spec: after.spec, ..before })
            },
        }
    }
}

/// Why a bake cannot be finished, where it cannot: steps of its plan have not run, or a field
/// of classes holds a value that is not whole.
pub open spec fn finish_fault(bake: Bake) -> Option<BakeErrorView> {
    if bake.next_step < bake.plan@.len() {
        Some(BakeErrorView::StepsRemaining((bake.plan@.len() - bake.next_step) as u32))
    } else {
        match misclassed_from(bake.spec, 0) {
            Some(place) => Some(BakeErrorView::Channel(bake.spec.fields@[place].id@)),
            None => None,
        }
    }
}

/// Whether a terrain is what a document is handed back as, where the tables are its own.
pub open spec fn handed_back(spec: TerrainSpec, tables: Tables, packed: Option<Packed>) -> bool {
    match packed {
        Some(packed) => fits(spec, tables) && packs(spec, tables, packed),
        None => !fits(spec, tables),
    }
}

/// Whether the field that a step bakes has a range that can be clamped into.
pub open spec fn bounded_for(spec: TerrainSpec, step: StepView) -> bool {
    step.kind == StepKind::Field && bake_refusal(spec, step.field) is None ==> spec.fields@[found(
        ids_of(spec.fields@),
        step.field,
    )->0].bounded()
}

/// Whether a step can be run on a document: its cells can be counted, in the width that water
/// is solved in where the step solves it, and the field it bakes has a range that can be
/// clamped into.
pub open spec fn runs_on(spec: TerrainSpec, step: StepView) -> bool {
    &&& spec.size.area() <= usize::MAX
    &&& step.kind == StepKind::Water ==> spec.size.area() <= u32::MAX
    &&& bounded_for(spec, step)
}

/// Drops the bake of each field that a list names.
fn release_all(spec: &mut TerrainSpec, names: &Vec<String>)
    requires
        old(spec).wf(),
    ensures
        final(spec).wf(),
        released_by(*old(spec), *final(spec), texts_view(names@)),
{
    let ghost before = *spec;
    let ghost list = texts_view(names@);
    let mut i: usize = 0;
    proof {
        assert(list.take(0) =~= Seq::<Seq<char>>::empty());
    }
    while i < names.len()
        invariant
            i <= names@.len(),
            list == texts_view(names@),
            spec.wf(),
            released_by(before, *spec, list.take(i as int)),
        decreases names@.len() - i,
    {
        let ghost now = *spec;
        let name: &str = names[i].as_str();
        proof {
            assert(ids_of(now.fields@) =~= ids_of(before.fields@)) by {
                assert forall|j: int| 0 <= j < before.fields@.len() implies now.fields@[j].id@
                    == before.fields@[j].id@ by {
                    assert(now.fields@[j] == now.fields@[j]);
                }
            }
            lemma_found(ids_of(before.fields@), name@, 0);
        }
        spec.release(name);
        proof {
            let wider = list.take(i + 1);
            let narrow = list.take(i as int);
            assert(wider[i as int] == name@);
            assert forall|j: int| 0 <= j < before.fields@.len() implies if named_in(
                before,
                wider,
                j,
            ) {
                released(before.fields@[j], #[trigger] spec.fields@[j])
            } else {
                spec.fields@[j] == before.fields@[j]
            } by {
                assert(now.fields@[j] == now.fields@[j]);
                if named_in(before, narrow, j) {
                    let k = choose|k: int|
                        0 <= k < narrow.len() && found(
                            ids_of(before.fields@),
                            #[trigger] narrow[k],
                        ) == Some(j);
                    assert(wider[k] == narrow[k]);
                } else if named_in(before, wider, j) {
                    let k = choose|k: int|
                        0 <= k < wider.len() && found(
                            ids_of(before.fields@),
                            #[trigger] wider[k],
                        ) == Some(j);
                    if k < i {
                        assert(narrow[k] == wider[k]);
                    }
                }
            }
        }
        i = i + 1;
    }
    proof {
        assert(list.take(i as int) =~= list);
    }
}

/// There are no more field steps than fields ordered.
proof fn lemma_field_steps(spec: TerrainSpec, order: Seq<int>, upto: int)
    requires
        0 <= upto,
    ensures
        field_steps(spec, order, upto).len() <= upto,
    decreases upto,
{
    if upto > 0 {
        lemma_field_steps(spec, order, upto - 1);
    }
}

impl TerrainSpec {
    /// Takes the document into a [`Bake`] the caller drives a step at a time.
    ///
    /// Plans first, so this fails on everything [`TerrainSpec::plan_bake`] does. Allocates
    /// nothing beyond the plan itself; the rasters are allocated by the steps that fill them.
    pub fn begin_bake(self) -> (answer: Result<Bake, PlanError>)
        requires
            self.wf(),
            self.fields@.len() < u32::MAX,
        ensures
            match (answer, planned(self)) {
                (Ok(bake), Ok(steps)) => {
                    &&& bake.wf()
                    &&& bake.spec == self
                    &&& bake.plan@ == steps
                    &&& bake.next_step == 0
                    &&& bake.last_field@.len() == 0
                },
                (Err(error), Err(fault)) => error@ == fault,
                _ => false,
            },
    {
        let plan: BakePlan = match self.plan_bake() {
            Ok(plan) => plan,
            Err(error) => {
                return Err(error);
            },
        };
        proof {
            let order = full_order(ids_of(self.fields@), all_reads(self.fields@))->Ok_0;
            lemma_field_steps(self, order, order.len() as int);
            crate::terrain::lemma_full_order(ids_of(self.fields@), all_reads(self.fields@));
        }
        Ok(Bake { spec: self, plan, next_step: 0, last_field: String::new() })
    }
}

} // verus!
