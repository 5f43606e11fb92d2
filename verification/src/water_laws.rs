//! What holds of every solved water state.

use vstd::prelude::*;
use crate::drain::{can_take, drains_by, steepest};
use crate::flood::flooded;
use crate::flood_laws::{
    has_headroom, law_flood_is_determined, law_routing_stays_finite, numbers,
};
use crate::flow_laws::{
    course, law_flow_paths_end, law_no_cell_drains_uphill, law_sinks_are_on_the_border,
    slopes_show_falls,
};
use crate::grid::{cell, lemma_cell, lemma_split, lemma_target, step_x, step_y, SINK};
use crate::lakes::{
    law_a_lake_id_names_one_body, law_every_lake_id_is_used, lemma_joined_self, wet,
};
use crate::raster::Raster;
use crate::single::Single;
use crate::transfer::outlet;
use crate::water::{is_state, runs_over, WaterParts, WaterState};

verus! {

/// A cell drains in one direction only.
proof fn lemma_one_direction(
    filled: Seq<Single>,
    routing: Seq<Single>,
    slopes: Seq<Single>,
    width: int,
    rows: int,
    index: int,
    a: u8,
    b: u8,
)
    requires
        drains_by(filled, routing, slopes, width, rows, index, a),
        drains_by(filled, routing, slopes, width, rows, index, b),
    ensures
        a == b,
{
    assert forall|down: bool, p: int, q: int|
        steepest(filled, routing, slopes, width, rows, index, down, 8, p) && steepest(
            filled,
            routing,
            slopes,
            width,
            rows,
            index,
            down,
            8,
            q,
        ) implies p == q by {
        assert(can_take(filled, routing, slopes, width, rows, index, down, p));
        assert(can_take(filled, routing, slopes, width, rows, index, down, q));
    }
    if a != SINK {
        let step = a - 1;
        assert(can_take(filled, routing, slopes, width, rows, index, true, step) || can_take(
            filled,
            routing,
            slopes,
            width,
            rows,
            index,
            false,
            step,
        ));
    }
    if b != SINK {
        let step = b - 1;
        assert(can_take(filled, routing, slopes, width, rows, index, true, step) || can_take(
            filled,
            routing,
            slopes,
            width,
            rows,
            index,
            false,
            step,
        ));
    }
}

/// A state with nothing solved has no cells.
proof fn lemma_vacant(state: WaterState)
    requires
        state.vacant(),
    ensures
        state.depth.size.area() == 0,
        state.depth.data@.len() == 0,
        state.flow_dir.data@.len() == 0,
        state.flow_accum.data@.len() == 0,
        state.lake_id.data@.len() == 0,
{
    let x = state.depth.size.x as int;
    let y = state.depth.size.y as int;
    assert(x * y == 0) by (nonlinear_arith)
        requires
            x == 0,
    ;
}

/// A solve is the same every time it is run: two states of one height raster, of the same
/// parts and the same lake threshold, agree on every cell.
pub proof fn law_a_solve_is_the_same_every_time(
    height: Raster<Single>,
    parts: WaterParts,
    lake_min_cells: int,
    a: WaterState,
    b: WaterState,
)
    requires
        height.wf(),
        a.wf(),
        b.wf(),
        is_state(a, height, parts, lake_min_cells),
        is_state(b, height, parts, lake_min_cells),
    ensures
        a.depth.size == b.depth.size,
        a.depth.data@ == b.depth.data@,
        a.flow_dir.data@ == b.flow_dir.data@,
        a.flow_accum.data@ == b.flow_accum.data@,
        a.lake_id.data@ == b.lake_id.data@,
        a.lakes == b.lakes,
{
    let count = height.size.area();
    let width = height.size.x as int;
    let rows = height.size.y as int;
    if count == 0 || !parts.fit(count) {
        lemma_vacant(a);
        lemma_vacant(b);
    } else {
        let (filled, routing) = choose|filled: Seq<Single>, routing: Seq<Single>| #[trigger]
            runs_over(a, height, filled, routing, parts.slopes@, lake_min_cells);
        let (filled2, routing2) = choose|filled: Seq<Single>, routing: Seq<Single>| #[trigger]
            runs_over(b, height, filled, routing, parts.slopes@, lake_min_cells);
        assert(height.data@.len() == height.data.len());
        law_flood_is_determined(height.data@, width, rows, filled, routing, filled2, routing2);
        assert forall|c: int| 0 <= c < count implies a.flow_dir.data@[c] == b.flow_dir.data@[c] by {
            assert(drains_by(
                filled,
                routing,
                parts.slopes@[c]@,
                width,
                rows,
                c,
                a.flow_dir.data@[c],
            ));
            assert(drains_by(
                filled,
                routing,
                parts.slopes@[c]@,
                width,
                rows,
                c,
                b.flow_dir.data@[c],
            ));
            lemma_one_direction(
                filled,
                routing,
                parts.slopes@[c]@,
                width,
                rows,
                c,
                a.flow_dir.data@[c],
                b.flow_dir.data@[c],
            );
        }
        assert forall|c: int| 0 <= c < count implies a.lake_id.data@[c] == b.lake_id.data@[c] by {
            if wet(filled, height.data@, c) {
                lemma_joined_self(filled, height.data@, width, rows, c);
            }
            law_a_lake_id_names_one_body(
                filled,
                height.data@,
                width,
                rows,
                lake_min_cells,
                c,
                c,
                a.lake_id.data@[c],
                b.lake_id.data@[c],
            );
        }
    }
}

/// Where following the water from a cell leads in `steps` steps, if it goes on that far.
pub open spec fn followed(state: WaterState, x: int, y: int, steps: nat) -> Option<(int, int)>
    decreases steps,
{
    if steps == 0 {
        Some((x, y))
    } else {
        match followed(state, x, y, (steps - 1) as nat) {
            Some(at) => state.drains_to(at.0, at.1),
            None => None,
        }
    }
}

/// Whether water followed from a cell is, after `steps` steps, at a cell of the document
/// that drains nowhere.
pub open spec fn ends_after(state: WaterState, x: int, y: int, steps: nat) -> bool {
    followed(state, x, y, steps) matches Some(at) && state.depth.covers(at.0, at.1)
        && state.drains_to(at.0, at.1) is None
}

/// Whether a cell is in the first or last column or row of the document.
pub open spec fn at_edge(state: WaterState, x: int, y: int) -> bool {
    x == 0 || y == 0 || x + 1 == state.depth.size.x || y + 1 == state.depth.size.y
}

/// Whether water followed from a cell is in the first or last column or row after `steps`
/// steps.
pub open spec fn ends_at_edge(state: WaterState, x: int, y: int, steps: nat) -> bool {
    followed(state, x, y, steps) matches Some(at) && at_edge(state, at.0, at.1)
}

/// Whether every step that falls on the flooded surface of a height raster has a slope
/// above zero.
pub open spec fn slopes_measured(height: Raster<Single>, slopes: Seq<[Single; 8]>) -> bool {
    forall|filled: Seq<Single>, routing: Seq<Single>| #[trigger]
        flooded(height.data@, height.size.x as int, height.size.y as int, filled, routing)
            ==> slopes_show_falls(
            filled,
            routing,
            slopes,
            height.size.x as int,
            height.size.y as int,
        )
}

/// Following cells is following their indices.
proof fn lemma_followed_is_course(state: WaterState, x: int, y: int, steps: nat)
    requires
        state.wf(),
        state.depth.covers(x, y),
    ensures
        ({
            let width = state.depth.size.x as int;
            let rows = state.depth.size.y as int;
            match course(state.flow_dir.data@, width, rows, cell(x, y, width), steps) {
                Some(index) => followed(state, x, y, steps) == Some((index % width, index / width))
                    && 0 <= index < width * rows && state.depth.covers(index % width, index / width)
                    && cell(index % width, index / width, width) == index,
                None => followed(state, x, y, steps) is None,
            }
        }),
    decreases steps,
{
    let width = state.depth.size.x as int;
    let rows = state.depth.size.y as int;
    lemma_cell(x, y, width, rows);
    if steps > 0 {
        lemma_followed_is_course(state, x, y, (steps - 1) as nat);
        let before = course(
            state.flow_dir.data@,
            width,
            rows,
            cell(x, y, width),
            (steps - 1) as nat,
        );
        if let Some(index) = before {
            if let Some(to) = outlet(state.flow_dir.data@, width, rows, index) {
                lemma_target(index, state.flow_dir.data@[index] - 1, width, rows);
                lemma_split(to, width, rows);
            }
        }
    }
}

/// Following the water downstream from any cell of a state solved over numbers reaches a
/// cell that drains nowhere, in fewer steps than there are cells.
pub proof fn law_following_the_water_ends(
    height: Raster<Single>,
    parts: WaterParts,
    lake_min_cells: int,
    state: WaterState,
    x: int,
    y: int,
)
    requires
        height.wf(),
        state.wf(),
        is_state(state, height, parts, lake_min_cells),
        numbers(height.data@),
        state.depth.covers(x, y),
    ensures
        exists|steps: nat| steps < state.depth.size.area() && #[trigger] ends_after(state, x, y, steps),
{
    let width = height.size.x as int;
    let rows = height.size.y as int;
    if height.size.area() == 0 || !parts.fit(height.size.area()) {
        lemma_vacant(state);
    }
    let flow = state.flow_dir.data@;
    let start = cell(x, y, width);
    lemma_cell(x, y, width, rows);
    let (filled, routing) = choose|filled: Seq<Single>, routing: Seq<Single>| #[trigger]
        runs_over(state, height, filled, routing, parts.slopes@, lake_min_cells);
    law_no_cell_drains_uphill(height.data@, width, rows, filled, routing, parts.slopes@, flow);
    law_flow_paths_end(flow, width, rows, filled, routing, start);
    let steps = choose|steps: nat|
        steps < width * rows && (#[trigger] course(flow, width, rows, start, steps)) is Some
            && outlet(flow, width, rows, course(flow, width, rows, start, steps)->0) is None;
    lemma_followed_is_course(state, x, y, steps);
    assert(ends_after(state, x, y, steps));
}

/// A cell of a solved state drains into one of the eight beside it, or nowhere; one outside
/// the document drains nowhere.
pub proof fn law_water_moves_to_a_neighbour(state: WaterState, x: int, y: int)
    requires
        state.wf(),
    ensures
        state.drains_to(x, y) matches Some(to) ==> {
            &&& state.depth.covers(x, y)
            &&& state.depth.covers(to.0, to.1)
            &&& -1 <= to.0 - x <= 1
            &&& -1 <= to.1 - y <= 1
            &&& to != (x, y)
        },
        !state.depth.covers(x, y) ==> state.drains_to(x, y) is None,
{
    if let Some(to) = state.drains_to(x, y) {
        let width = state.depth.size.x as int;
        let rows = state.depth.size.y as int;
        let index = cell(x, y, width);
        lemma_cell(x, y, width, rows);
        let step = state.flow_dir.data@[index] - 1;
        lemma_target(index, step, width, rows);
        lemma_cell(x + step_x(step), y + step_y(step), width, rows);
    }
}

/// Water leaves a document only over its edge: a cell of a solved state drains nowhere only
/// in the first or last column or row. Heights so near the largest number that the routing
/// surface would climb to infinity are left out.
pub proof fn law_water_leaves_only_over_the_edge(
    height: Raster<Single>,
    parts: WaterParts,
    lake_min_cells: int,
    state: WaterState,
    x: int,
    y: int,
)
    requires
        height.wf(),
        state.wf(),
        is_state(state, height, parts, lake_min_cells),
        numbers(height.data@),
        has_headroom(height.data@),
        slopes_measured(height, parts.slopes@),
        state.depth.covers(x, y),
        state.drains_to(x, y) is None,
    ensures
        at_edge(state, x, y),
{
    let width = height.size.x as int;
    let rows = height.size.y as int;
    if height.size.area() == 0 || !parts.fit(height.size.area()) {
        lemma_vacant(state);
    }
    let index = cell(x, y, width);
    lemma_cell(x, y, width, rows);
    let (filled, routing) = choose|filled: Seq<Single>, routing: Seq<Single>| #[trigger]
        runs_over(state, height, filled, routing, parts.slopes@, lake_min_cells);
    law_routing_stays_finite(height.data@, width, rows, filled, routing, index);
    law_sinks_are_on_the_border(
        height.data@,
        width,
        rows,
        filled,
        routing,
        parts.slopes@,
        state.flow_dir.data@,
        index,
    );
}

/// Wherever water starts in a document solved over such heights, following it leads to the
/// edge in fewer steps than there are cells.
pub proof fn law_all_water_reaches_the_edge(
    height: Raster<Single>,
    parts: WaterParts,
    lake_min_cells: int,
    state: WaterState,
    x: int,
    y: int,
)
    requires
        height.wf(),
        state.wf(),
        is_state(state, height, parts, lake_min_cells),
        numbers(height.data@),
        has_headroom(height.data@),
        slopes_measured(height, parts.slopes@),
        state.depth.covers(x, y),
    ensures
        exists|steps: nat| #[trigger]
            ends_after(state, x, y, steps) && steps < state.depth.size.area() && ends_at_edge(
                state,
                x,
                y,
                steps,
            ),
{
    law_following_the_water_ends(height, parts, lake_min_cells, state, x, y);
    let steps = choose|steps: nat|
        steps < state.depth.size.area() && #[trigger] ends_after(state, x, y, steps);
    if let Some(at) = followed(state, x, y, steps) {
        law_water_leaves_only_over_the_edge(height, parts, lake_min_cells, state, at.0, at.1);
    }
}

/// The lake ids of a state run from one to its number of lakes: no cell has a higher one,
/// and each is some cell's.
pub proof fn law_lake_ids_run_to_the_number_of_lakes(
    height: Raster<Single>,
    parts: WaterParts,
    lake_min_cells: int,
    state: WaterState,
)
    requires
        height.wf(),
        state.wf(),
        is_state(state, height, parts, lake_min_cells),
    ensures
        forall|c: int|
            0 <= c < state.lake_id.data@.len() ==> #[trigger] state.lake_id.data@[c] <= state.lakes,
        forall|id: u32|
            1 <= id <= state.lakes ==> #[trigger] state.lake_id.data@.contains(id),
{
    let count = height.size.area();
    let width = height.size.x as int;
    let rows = height.size.y as int;
    if count == 0 || !parts.fit(count) {
        lemma_vacant(state);
    } else {
        let (filled, routing) = choose|filled: Seq<Single>, routing: Seq<Single>| #[trigger]
            runs_over(state, height, filled, routing, parts.slopes@, lake_min_cells);
        let label = state.lake_id.data@;
        assert forall|c: int| 0 <= c < label.len() implies #[trigger] label[c] <= state.lakes by {
            law_a_lake_id_names_one_body(
                filled,
                height.data@,
                width,
                rows,
                lake_min_cells,
                c,
                c,
                label[c],
                label[c],
            );
        }
        assert forall|id: u32| 1 <= id <= state.lakes implies #[trigger] label.contains(id) by {
            law_every_lake_id_is_used(filled, height.data@, width, rows, lake_min_cells, label, id);
        }
    }
}

} // verus!
