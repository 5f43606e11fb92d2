//! Where water stands and where it runs on a baked height field.

use vstd::prelude::*;
use crate::drain::{directions, routed};
use crate::flood::{fill, flooded, Flood};
use crate::grid::{
    cell, direction_index, lemma_cell, lemma_split, neighbour, step_of, step_x, step_y,
};
use crate::lakes::{label_lakes, lake_of, lakes_before};
use crate::names::FieldId;
use crate::raster::{Raster, UVec2};
use crate::single::Single;
use crate::text::{decimal, decimal_of};
use crate::transfer::outlet;

verus! {

/// Why a document could not be solved. Every variant is about the document's state rather
/// than the solve, which cannot itself fail: on a readable height field the solve always
/// produces an answer.
#[derive(Debug)]
pub enum WaterError {
    /// The document has no cells to solve over.
    ZeroSize(u32, u32),
    /// The spec names a height field the document does not carry.
    UnknownHeightField(String),
    /// The spec names a moisture field the document does not carry.
    UnknownMoistureField(String),
    /// The height field is coarser than the document. Refused rather than resampled: a
    /// filled surface derived from interpolated texels would route water down slopes that
    /// are not in the document.
    CoarseHeight(String, u8),
    /// The height field has no baked raster at the document's size: it has not been baked,
    /// or was baked and released.
    UnbakedHeight(String),
}

/// What a [`WaterError`] says.
pub enum WaterErrorView {
    /// The document has no cells.
    ZeroSize(u32, u32),
    /// The height field is not in the document.
    UnknownHeightField(Seq<char>),
    /// The moisture field is not in the document.
    UnknownMoistureField(Seq<char>),
    /// The height field is coarser than the document.
    CoarseHeight(Seq<char>, u8),
    /// The height field has no bake at the document's size.
    UnbakedHeight(Seq<char>),
}

impl View for WaterError {
    type V = WaterErrorView;

    open spec fn view(&self) -> WaterErrorView {
        match self {
            WaterError::ZeroSize(x, y) => WaterErrorView::ZeroSize(*x, *y),
            WaterError::UnknownHeightField(name) => WaterErrorView::UnknownHeightField(name@),
            WaterError::UnknownMoistureField(name) => WaterErrorView::UnknownMoistureField(name@),
            WaterError::CoarseHeight(name, shift) => WaterErrorView::CoarseHeight(name@, *shift),
            WaterError::UnbakedHeight(name) => WaterErrorView::UnbakedHeight(name@),
        }
    }
}

impl WaterError {
    /// The fault in words.
    pub open spec fn shown(&self) -> Seq<char> {
        match self {
            WaterError::ZeroSize(x, y) => "terrain size has a zero component: "@ + decimal(
                *x as nat,
            ) + " by "@ + decimal(*y as nat),
            WaterError::UnknownHeightField(name) => "height field `"@ + name@
                + "` is not in the document"@,
            WaterError::UnknownMoistureField(name) => "moisture field `"@ + name@
                + "` is not in the document"@,
            WaterError::CoarseHeight(name, shift) => "height field `"@ + name@ + "` is at shift "@
                + decimal(*shift as nat) + "; the solve reads one texel per cell"@,
            WaterError::UnbakedHeight(name) => "height field `"@ + name@
                + "` has not been baked at the document's size"@,
        }
    }

    /// The fault in words.
    pub fn message(&self) -> (text: String)
        ensures
            text@ == self.shown(),
    {
        match self {
            WaterError::ZeroSize(x, y) => {
                let mut text: String = String::from_str("terrain size has a zero component: ");
                text.append(decimal_of(*x as u128).as_str());
                text.append(" by ");
                text.append(decimal_of(*y as u128).as_str());
                text
            },
            WaterError::UnknownHeightField(name) => {
                let mut text: String = String::from_str("height field `");
                text.append(name.as_str());
                text.append("` is not in the document");
                text
            },
            WaterError::UnknownMoistureField(name) => {
                let mut text: String = String::from_str("moisture field `");
                text.append(name.as_str());
                text.append("` is not in the document");
                text
            },
            WaterError::CoarseHeight(name, shift) => {
                let mut text: String = String::from_str("height field `");
                text.append(name.as_str());
                text.append("` is at shift ");
                text.append(decimal_of(*shift as u128).as_str());
                text.append("; the solve reads one texel per cell");
                text
            },
            WaterError::UnbakedHeight(name) => {
                let mut text: String = String::from_str("height field `");
                text.append(name.as_str());
                text.append("` has not been baked at the document's size");
                text
            },
        }
    }
}

/// What a solve is to be run over, and the one threshold it takes.
///
/// The height field is named rather than found by role, so a document can solve water over
/// a field that is not its `Height`, a second surface or a candidate being previewed,
/// without changing which field its consumers read as the ground.
#[derive(Debug)]
pub struct WaterSpec {
    /// The field to solve over. Must be in the document, at shift zero, and baked.
    pub height: FieldId,
    /// A field weighting how much water each cell contributes. `None` gives every cell a
    /// weight of one, so an accumulation counts cells.
    pub moisture: Option<FieldId>,
    /// The smallest connected body of standing water that gets a lake id. Anything smaller
    /// keeps its depth and stays unlabelled.
    pub lake_min_cells: u32,
}

/// The smallest lake where nothing says otherwise.
pub const DEFAULT_LAKE_MIN_CELLS: u32 = 64;

impl WaterSpec {
    /// Solves over `height`, with unit weights and the default lake threshold.
    pub fn new(height: &str) -> (spec: WaterSpec)
        ensures
            spec.height@ == height@,
            spec.moisture is None,
            spec.lake_min_cells == DEFAULT_LAKE_MIN_CELLS,
    {
        WaterSpec {
            height: FieldId::new(height),
            moisture: None,
            lake_min_cells: DEFAULT_LAKE_MIN_CELLS,
        }
    }

    /// Weights each cell's contribution by a field instead of by one.
    pub fn with_moisture(self, moisture: &str) -> (spec: WaterSpec)
        ensures
            spec.height == self.height,
            spec.moisture is Some,
            spec.moisture->0@ == moisture@,
            spec.lake_min_cells == self.lake_min_cells,
    {
        WaterSpec { moisture: Some(FieldId::new(moisture)), ..self }
    }

    /// Sets the smallest body of water that earns a lake id.
    pub fn with_lake_min_cells(self, cells: u32) -> (spec: WaterSpec)
        ensures
            spec == (WaterSpec { lake_min_cells: cells, ..self }),
    {
        WaterSpec { lake_min_cells: cells, ..self }
    }
}

impl Default for WaterSpec {
    fn default() -> (spec: Self)
        ensures
            spec.height@ == "height"@,
            spec.moisture is None,
            spec.lake_min_cells == DEFAULT_LAKE_MIN_CELLS,
    {
        WaterSpec::new("height")
    }
}

impl Clone for WaterSpec {
    fn clone(&self) -> (copy: Self)
        ensures
            copy == *self,
    {
        WaterSpec {
            height: self.height.clone(),
            moisture: match &self.moisture {
                Some(id) => Some(id.clone()),
                None => None,
            },
            lake_min_cells: self.lake_min_cells,
        }
    }
}

/// The solved answer: how deep the standing water is, where each cell drains, how much
/// reaches it, and which lake it belongs to.
///
/// Four rasters at one texel per cell, and nothing derived from them: the way a flow runs
/// comes back from one byte on read.
///
/// An empty state answers every read with `None`, `false` or zero rather than panicking,
/// which is what an unsolved or invalidated document holds.
#[derive(Debug)]
pub struct WaterState {
    /// How deep water stands in each cell.
    pub depth: Raster<Single>,
    /// Which way each cell drains.
    pub flow_dir: Raster<u8>,
    /// How much reaches each cell, as a code.
    pub flow_accum: Raster<u16>,
    /// Which lake each cell belongs to.
    pub lake_id: Raster<u32>,
    /// How many lakes there are.
    pub lakes: u32,
}

/// What a solve takes besides the heights: what is measured along and over the flooded
/// surface, one entry per cell in row-major order.
#[derive(Debug)]
pub struct WaterParts {
    /// How steeply each step leads down: the fall of the filled surface over the step's
    /// length, or of the routing surface between two cells on one level.
    pub slopes: Vec<[Single; 8]>,
    /// How much reaches each cell, as a code.
    pub codes: Vec<u16>,
    /// How deep water stands in each cell.
    pub depth: Vec<Single>,
}

impl WaterParts {
    /// The parts of no solve, for a step that solves no water.
    pub fn none() -> (parts: WaterParts)
        ensures
            parts.slopes@.len() == 0,
            parts.codes@.len() == 0,
            parts.depth@.len() == 0,
    {
        WaterParts { slopes: Vec::new(), codes: Vec::new(), depth: Vec::new() }
    }

    /// Whether each part has one entry per cell.
    pub open spec fn fit(self, count: int) -> bool {
        self.slopes@.len() == count && self.codes@.len() == count && self.depth@.len() == count
    }
}

/// Whether a state drains along the flooded surface `filled` and `routing`, by the slopes
/// measured on it, and labels the lakes that stand on the ground.
pub open spec fn runs_over(
    state: WaterState,
    height: Raster<Single>,
    filled: Seq<Single>,
    routing: Seq<Single>,
    slopes: Seq<[Single; 8]>,
    lake_min_cells: int,
) -> bool {
    let count = height.size.area();
    let width = height.size.x as int;
    let rows = height.size.y as int;
    &&& flooded(height.data@, width, rows, filled, routing)
    &&& routed(filled, routing, slopes, width, rows, state.flow_dir.data@)
    &&& forall|c: int|
        0 <= c < count ==> lake_of(
            filled,
            height.data@,
            width,
            rows,
            lake_min_cells,
            c,
            #[trigger] state.lake_id.data@[c],
        )
    &&& state.lakes == lakes_before(filled, height.data@, width, rows, lake_min_cells, count)
}

/// Whether a state is the solve of a height raster: empty where the raster has no cells or
/// a part is not exactly as long as it, and otherwise the raster flooded, its cells drained
/// and its lakes labelled, with the codes and the depths as given.
pub open spec fn is_state(
    state: WaterState,
    height: Raster<Single>,
    parts: WaterParts,
    lake_min_cells: int,
) -> bool {
    if height.size.area() == 0 || !parts.fit(height.size.area()) {
        state.vacant()
    } else {
        &&& state.depth.size == height.size
        &&& state.depth.data@ == parts.depth@
        &&& state.flow_accum.data@ == parts.codes@
        &&& exists|filled: Seq<Single>, routing: Seq<Single>| #[trigger]
            runs_over(state, height, filled, routing, parts.slopes@, lake_min_cells)
    }
}

impl WaterState {
    /// Whether the four rasters cover one extent.
    pub open spec fn wf(&self) -> bool {
        &&& self.depth.wf() && self.flow_dir.wf() && self.flow_accum.wf() && self.lake_id.wf()
        &&& self.flow_dir.size == self.depth.size
        &&& self.flow_accum.size == self.depth.size
        &&& self.lake_id.size == self.depth.size
    }

    /// Whether nothing was solved.
    pub open spec fn vacant(&self) -> bool {
        self.wf() && self.depth.size == (UVec2 { x: 0, y: 0 }) && self.lakes == 0
    }

    /// The column and row of the cell that a cell drains into, if the cell is inside the
    /// extent and drains.
    pub open spec fn drains_to(&self, x: int, y: int) -> Option<(int, int)> {
        let width = self.depth.size.x as int;
        let rows = self.depth.size.y as int;
        if self.depth.covers(x, y) {
            match outlet(self.flow_dir.data@, width, rows, cell(x, y, width)) {
                Some(to) => Some((to % width, to / width)),
                None => None,
            }
        } else {
            None
        }
    }

    /// A state with nothing solved.
    pub fn empty() -> (state: WaterState)
        ensures
            state.vacant(),
    {
        WaterState {
            depth: Raster::empty(),
            flow_dir: Raster::empty(),
            flow_accum: Raster::empty(),
            lake_id: Raster::empty(),
            lakes: 0,
        }
    }

    /// Solves the water over a height raster at one texel per cell: floods it, finds which
    /// way each cell drains by the measured slopes, and labels the lakes.
    ///
    /// Gives an empty state, not an error, if the raster has no cells or any part is not
    /// exactly as long as it.
    pub fn solve(height: &Raster<Single>, parts: WaterParts, lake_min_cells: u32) -> (state:
        WaterState)
        requires
            height.wf(),
            height.size.area() <= u32::MAX,
        ensures
            state.wf(),
            is_state(state, *height, parts, lake_min_cells as int),
    {
        let size: UVec2 = height.size;
        let count: usize = height.data.len();
        if count == 0 || parts.slopes.len() != count || parts.codes.len() != count
            || parts.depth.len() != count {
            return WaterState::empty();
        }
        let width: usize = size.x as usize;
        let rows: usize = size.y as usize;
        let flood: Flood = fill(height);
        let flow: Vec<u8> = directions(&flood.filled, &flood.routing, &parts.slopes, width, rows);
        let (lake_id, lakes): (Vec<u32>, u32) = label_lakes(
            &flood.filled,
            &height.data,
            width,
            rows,
            lake_min_cells,
        );
        let state = WaterState {
            depth: Raster { size, data: parts.depth },
            flow_dir: Raster { size, data: flow },
            flow_accum: Raster { size, data: parts.codes },
            lake_id: Raster { size, data: lake_id },
            lakes,
        };
        assert(runs_over(
            state,
            *height,
            flood.filled@,
            flood.routing@,
            parts.slopes@,
            lake_min_cells as int,
        ));
        state
    }

    /// The extent the state was solved over, in cells. Zero for an empty state.
    pub fn size(&self) -> (size: UVec2)
        ensures
            size == self.depth.size,
    {
        self.depth.size
    }

    /// Whether nothing was solved.
    pub fn is_empty(&self) -> (answer: bool)
        ensures
            answer == (self.depth.data@.len() == 0),
    {
        self.depth.is_empty()
    }

    /// Standing water depth per cell, never negative.
    pub fn depth(&self) -> (raster: &Raster<Single>)
        ensures
            *raster == self.depth,
    {
        &self.depth
    }

    /// Flow direction codes per cell; see [`crate::grid::SINK`] for what they mean.
    pub fn flow_dir(&self) -> (raster: &Raster<u8>)
        ensures
            *raster == self.flow_dir,
    {
        &self.flow_dir
    }

    /// Quantized accumulation codes per cell. Comparable directly, but not a quantity.
    pub fn flow_accum(&self) -> (raster: &Raster<u16>)
        ensures
            *raster == self.flow_accum,
    {
        &self.flow_accum
    }

    /// Lake ids per cell: zero for dry ground and for standing water in a body under the
    /// spec's threshold, otherwise `1..=lakes()`.
    pub fn lake_id(&self) -> (raster: &Raster<u32>)
        ensures
            *raster == self.lake_id,
    {
        &self.lake_id
    }

    /// How many bodies of water met the threshold. Ids run `1..=lakes()`.
    pub fn lakes(&self) -> (count: u32)
        ensures
            count == self.lakes,
    {
        self.lakes
    }

    /// How far the water surface stands above the ground at a cell, in the height field's
    /// own units. `None` outside the extent, and for every cell of an empty state.
    pub fn depth_at(&self, x: u32, y: u32) -> (answer: Option<Single>)
        requires
            self.wf(),
        ensures
            answer == (if self.depth.covers(x as int, y as int) {
                Some(self.depth.texel(x as int, y as int))
            } else {
                None
            }),
    {
        match self.depth.get(x, y) {
            Some(depth) => Some(*depth),
            None => None,
        }
    }

    /// Whether any water stands at a cell, at any depth.
    ///
    /// Reads the depth, not the lake id, so a puddle too small to have earned a lake id
    /// still counts as water. `false` outside the extent.
    pub fn is_water(&self, x: u32, y: u32) -> (answer: bool)
        requires
            self.wf(),
        ensures
            answer == (self.depth.covers(x as int, y as int) && Single(0).below(
                self.depth.texel(x as int, y as int),
            )),
    {
        match self.depth.get(x, y) {
            Some(depth) => Single(0).lt(*depth),
            None => false,
        }
    }

    /// The stored code of how much water reaches a cell, for a caller comparing or
    /// thresholding rather than measuring. Zero outside the extent.
    pub fn accumulation_code(&self, x: u32, y: u32) -> (code: u16)
        requires
            self.wf(),
        ensures
            code == (if self.flow_accum.covers(x as int, y as int) {
                self.flow_accum.texel(x as int, y as int)
            } else {
                0
            }),
    {
        match self.flow_accum.get(x, y) {
            Some(code) => *code,
            None => 0,
        }
    }

    /// Whether at least as much as `threshold` stands for reaches the cell, the test that
    /// turns an accumulation field into a river network. Compares codes. Outside the extent
    /// nothing reaches a cell, whatever the threshold.
    pub fn channel(&self, x: u32, y: u32, threshold: u16) -> (answer: bool)
        requires
            self.wf(),
        ensures
            answer == (self.flow_accum.covers(x as int, y as int) && self.flow_accum.texel(
                x as int,
                y as int,
            ) >= threshold),
    {
        match self.flow_accum.get(x, y) {
            Some(code) => *code >= threshold,
            None => false,
        }
    }

    /// The columns and rows that water crosses as it leaves a cell, reconstructed from the
    /// stored direction code rather than held per cell.
    ///
    /// `None` outside the extent and at a sink: a cell with no outflow has no direction,
    /// which is not the same as a zero one.
    pub fn flow_step(&self, x: u32, y: u32) -> (answer: Option<(i8, i8)>)
        requires
            self.wf(),
        ensures
            match answer {
                Some(step) => self.flow_dir.covers(x as int, y as int) && step_of(
                    self.flow_dir.texel(x as int, y as int),
                ) is Some && step.0 == step_x(
                    step_of(self.flow_dir.texel(x as int, y as int))->0,
                ) && step.1 == step_y(step_of(self.flow_dir.texel(x as int, y as int))->0),
                None => !self.flow_dir.covers(x as int, y as int) || step_of(
                    self.flow_dir.texel(x as int, y as int),
                ) is None,
            },
    {
        let code: u8 = match self.flow_dir.get(x, y) {
            Some(code) => *code,
            None => {
                return None;
            },
        };
        match direction_index(code) {
            Some(step) => {
                let across: i8 = if step == 0 || step == 1 || step == 7 {
                    1
                } else if step == 3 || step == 4 || step == 5 {
                    -1
                } else {
                    0
                };
                let down: i8 = if step == 1 || step == 2 || step == 3 {
                    1
                } else if step == 5 || step == 6 || step == 7 {
                    -1
                } else {
                    0
                };
                Some((across, down))
            },
            None => None,
        }
    }

    /// The cell this one drains into, in document cells.
    ///
    /// `None` outside the extent and at a sink.
    pub fn downstream(&self, x: u32, y: u32) -> (answer: Option<UVec2>)
        requires
            self.wf(),
        ensures
            match answer {
                Some(place) => self.drains_to(x as int, y as int) == Some(
                    (place.x as int, place.y as int),
                ),
                None => self.drains_to(x as int, y as int) is None,
            },
    {
        let size: UVec2 = self.depth.size;
        let code: u8 = match self.flow_dir.get(x, y) {
            Some(code) => *code,
            None => {
                return None;
            },
        };
        proof {
            lemma_cell(x as int, y as int, size.x as int, size.y as int);
            assert(self.depth.data@.len() == self.depth.data.len());
        }
        match direction_index(code) {
            Some(step) => {
                match neighbour(
                    x as usize,
                    y as usize,
                    step,
                    size.x as usize,
                    size.y as usize,
                ) {
                    Some(index) => {
                        proof {
                            lemma_split(index as int, size.x as int, size.y as int);
                        }
                        Some(
                            UVec2 {
                                x: (index % size.x as usize) as u32,
                                y: (index / size.x as usize) as u32,
                            },
                        )
                    },
                    None => None,
                }
            },
            None => None,
        }
    }
}

} // verus!
