//! The water of a document: what it is solved over, and what it is when it has been.

use vstd::prelude::*;
use crate::faults::{found, ids_of, lemma_found};
use crate::layer::Layer;
use crate::terrain::TerrainSpec;
use crate::water::{
    is_state, WaterError, WaterErrorView, WaterParts, WaterSpec, WaterState,
};

verus! {

/// Where the field a water spec calls its height stands.
pub open spec fn height_place(spec: TerrainSpec, water: WaterSpec) -> Option<int> {
    found(ids_of(spec.fields@), water.height@)
}

/// Why water cannot be solved over a document as it stands.
pub open spec fn water_fault(spec: TerrainSpec, water: WaterSpec) -> Option<WaterErrorView> {
    if spec.size.vacant() {
        Some(WaterErrorView::ZeroSize(spec.size.x, spec.size.y))
    } else {
        match height_place(spec, water) {
            None => Some(WaterErrorView::UnknownHeightField(water.height@)),
            Some(at) => if spec.fields@[at].shift != 0 {
                Some(WaterErrorView::CoarseHeight(water.height@, spec.fields@[at].shift))
            } else if spec.fields@[at].baked.size != spec.size {
                Some(WaterErrorView::UnbakedHeight(water.height@))
            } else {
                match water.moisture {
                    Some(id) => if found(ids_of(spec.fields@), id@) is None {
                        Some(WaterErrorView::UnknownMoistureField(id@))
                    } else {
                        None
                    },
                    None => None,
                }
            },
        }
    }
}

impl TerrainSpec {
    /// The solved water, if the document has been solved and not invalidated since.
    pub fn water(&self) -> (state: Option<&WaterState>)
        ensures
            match state {
                Some(state) => self.water == Some(*state),
                None => self.water is None,
            },
    {
        match &self.water {
            Some(state) => Some(state),
            None => None,
        }
    }

    /// Removes the water from the document entirely, the solved state and the spec that
    /// produced it, so nothing will re-solve it.
    ///
    /// This is "this document has no water", not "this answer is stale"; for the latter use
    /// [`TerrainSpec::invalidate_water`].
    pub fn clear_water(&mut self)
        ensures
            *final(self) == (TerrainSpec { water: None, water_spec: None, ..*old(self) }),
    {
        self.water = None;
        self.water_spec = None;
    }

    /// Drops the solved state and keeps the spec, which is the difference between "forget
    /// about the water" and "the height moved, so this answer is stale".
    ///
    /// This is what an edit to the height calls: the answer no longer matches the ground, but
    /// the document still wants water, and the spec is the only record of what it wanted.
    pub fn invalidate_water(&mut self)
        ensures
            *final(self) == (TerrainSpec { water: None, ..*old(self) }),
    {
        self.water = None;
    }

    /// The height field that water is to be solved over and the moisture field that weighs
    /// it, if one is named.
    ///
    /// The height field must be in the document, at shift zero, and baked at the document's
    /// size; a moisture field, if named, must be in the document but may be at any shift.
    pub fn water_inputs(&self, spec: &WaterSpec) -> (answer: Result<
        (&Layer, Option<&Layer>),
        WaterError,
    >)
        ensures
            match answer {
                Ok((height, moisture)) => {
                    &&& water_fault(*self, *spec) is None
                    &&& *height == self.fields@[height_place(*self, *spec)->0]
                    &&& match (spec.moisture, moisture) {
                        (Some(id), Some(field)) => *field == self.fields@[found(
                            ids_of(self.fields@),
                            id@,
                        )->0],
                        (None, None) => true,
                        _ => false,
                    }
                },
                Err(error) => water_fault(*self, *spec) == Some(error@),
            },
    {
        if self.size.x == 0 || self.size.y == 0 {
            return Err(WaterError::ZeroSize(self.size.x, self.size.y));
        }
        let height: &Layer = match self.field(spec.height.as_str()) {
            Some(field) => field,
            None => {
                return Err(WaterError::UnknownHeightField(spec.height.to_text()));
            },
        };
        if height.shift != 0 {
            return Err(WaterError::CoarseHeight(spec.height.to_text(), height.shift));
        }
        if height.baked.size != self.size {
            return Err(WaterError::UnbakedHeight(spec.height.to_text()));
        }
        match &spec.moisture {
            Some(id) => match self.field(id.as_str()) {
                Some(field) => Ok((height, Some(field))),
                None => Err(WaterError::UnknownMoistureField(id.to_text())),
            },
            None => Ok((height, None)),
        }
    }

    /// Solves the water over the field `spec` names and puts it on the document together
    /// with the spec, replacing whatever was there.
    ///
    /// The parts are what [`WaterState::solve`] takes. On any [`WaterError`] the document is
    /// left exactly as it was.
    pub fn solve_water(&mut self, spec: &WaterSpec, parts: WaterParts) -> (answer: Result<
        (),
        WaterError,
    >)
        requires
            old(self).wf(),
            old(self).size.area() <= u32::MAX,
        ensures
            final(self).wf(),
            match answer {
                Ok(_) => {
                    &&& water_fault(*old(self), *spec) is None
                    &&& *final(self) == (TerrainSpec {
                        water: final(self).water,
                        water_spec: Some(*spec),
                        ..*old(self)
                    })
                    &&& final(self).water is Some
                    &&& is_state(
                        final(self).water->0,
                        old(self).fields@[height_place(*old(self), *spec)->0].baked,
                        parts,
                        spec.lake_min_cells as int,
                    )
                },
                Err(error) => water_fault(*old(self), *spec) == Some(error@) && *final(self)
                    == *old(self),
            },
    {
        let state: WaterState = match self.water_inputs(spec) {
            Ok((height, _)) => {
                proof {
                    lemma_found(ids_of(self.fields@), spec.height@, 0);
                }
                WaterState::solve(&height.baked, parts, spec.lake_min_cells)
            },
            Err(error) => {
                return Err(error);
            },
        };
        self.water = Some(state);
        self.water_spec = Some(spec.clone());
        Ok(())
    }
}

} // verus!
