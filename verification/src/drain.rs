//! Which way each cell drains.

use vstd::prelude::*;
use crate::grid::{lemma_split, neighbour, target, SINK};
use crate::single::Single;

verus! {

/// Whether a step between two cells goes down the water surface.
pub open spec fn descends(filled: Seq<Single>, from: int, to: int) -> bool {
    filled[to].below(filled[from])
}

/// Whether a step between two cells crosses a level stretch of the water surface and
/// goes down the routing surface.
pub open spec fn crosses(
    filled: Seq<Single>,
    routing: Seq<Single>,
    from: int,
    to: int,
) -> bool {
    !filled[from].below(filled[to]) && !filled[to].below(filled[from]) && routing[to].below(
        routing[from],
    )
}

/// Whether water can take a step, given how steep each step of the cell is: down the
/// water surface where `down` asks for that, across a level stretch of it otherwise.
pub open spec fn can_take(
    filled: Seq<Single>,
    routing: Seq<Single>,
    slopes: Seq<Single>,
    width: int,
    rows: int,
    index: int,
    down: bool,
    step: int,
) -> bool {
    match target(index, step, width, rows) {
        Some(to) => (if down {
            descends(filled, index, to)
        } else {
            crosses(filled, routing, index, to)
        }) && Single(0).below(slopes[step]),
        None => false,
    }
}

/// Whether a step is the steepest the water can take among the first `steps`, and the
/// first of those that steep.
pub open spec fn steepest(
    filled: Seq<Single>,
    routing: Seq<Single>,
    slopes: Seq<Single>,
    width: int,
    rows: int,
    index: int,
    down: bool,
    steps: int,
    step: int,
) -> bool {
    &&& 0 <= step < steps
    &&& can_take(filled, routing, slopes, width, rows, index, down, step)
    &&& forall|other: int|
        0 <= other < steps && #[trigger] can_take(
            filled,
            routing,
            slopes,
            width,
            rows,
            index,
            down,
            other,
        ) ==> slopes[other].rank() <= slopes[step].rank() && (other < step ==> slopes[other].rank()
            < slopes[step].rank())
}

/// Whether there is no step of a kind among the first `steps` that water can take.
pub open spec fn none_taken(
    filled: Seq<Single>,
    routing: Seq<Single>,
    slopes: Seq<Single>,
    width: int,
    rows: int,
    index: int,
    down: bool,
    steps: int,
) -> bool {
    forall|step: int|
        0 <= step < steps ==> !#[trigger] can_take(
            filled,
            routing,
            slopes,
            width,
            rows,
            index,
            down,
            step,
        )
}

/// Whether `code` is the direction a cell drains in: down its steepest step, or where
/// none goes down across its steepest level one, or nowhere.
pub open spec fn drains_by(
    filled: Seq<Single>,
    routing: Seq<Single>,
    slopes: Seq<Single>,
    width: int,
    rows: int,
    index: int,
    code: u8,
) -> bool {
    if code == SINK {
        none_taken(filled, routing, slopes, width, rows, index, true, 8) && none_taken(
            filled,
            routing,
            slopes,
            width,
            rows,
            index,
            false,
            8,
        )
    } else {
        steepest(filled, routing, slopes, width, rows, index, true, 8, code - 1) || (none_taken(
            filled,
            routing,
            slopes,
            width,
            rows,
            index,
            true,
            8,
        ) && steepest(filled, routing, slopes, width, rows, index, false, 8, code - 1))
    }
}

/// Whether `flow` holds the direction of every cell.
pub open spec fn routed(
    filled: Seq<Single>,
    routing: Seq<Single>,
    slopes: Seq<[Single; 8]>,
    width: int,
    rows: int,
    flow: Seq<u8>,
) -> bool {
    &&& flow.len() == width * rows
    &&& forall|c: int|
        0 <= c < width * rows ==> #[trigger] drains_by(
            filled,
            routing,
            slopes[c]@,
            width,
            rows,
            c,
            flow[c],
        )
}

/// Whether `code` names the steepest step of a kind so far, with its slope.
spec fn leads(
    filled: Seq<Single>,
    routing: Seq<Single>,
    slopes: Seq<Single>,
    width: int,
    rows: int,
    index: int,
    down: bool,
    steps: int,
    code: u8,
    slope: Single,
) -> bool {
    if code == SINK {
        slope == Single(0) && none_taken(filled, routing, slopes, width, rows, index, down, steps)
    } else {
        slope == slopes[code - 1] && steepest(
            filled,
            routing,
            slopes,
            width,
            rows,
            index,
            down,
            steps,
            code - 1,
        )
    }
}

/// The direction one cell drains in, given how steep each of its steps is.
fn direction(
    filled: &Vec<Single>,
    routing: &Vec<Single>,
    slopes: &[Single; 8],
    width: usize,
    rows: usize,
    index: usize,
) -> (code: u8)
    requires
        width * rows <= usize::MAX,
        index < width * rows,
        filled@.len() == width * rows,
        routing@.len() == width * rows,
    ensures
        drains_by(
            filled@,
            routing@,
            slopes@,
            width as int,
            rows as int,
            index as int,
            code,
        ),
{
    proof {
        lemma_split(index as int, width as int, rows as int);
    }
    let x: usize = index % width;
    let y: usize = index / width;
    let mut downhill: u8 = SINK;
    let mut steepest_down: Single = Single(0);
    let mut across: u8 = SINK;
    let mut steepest_across: Single = Single(0);
    let mut step: usize = 0;
    while step < 8
        invariant
            step <= 8,
            width > 0,
            width * rows <= usize::MAX,
            index < width * rows,
            x == index % width,
            y == index / width,
            filled@.len() == width * rows,
            routing@.len() == width * rows,
            leads(
                filled@,
                routing@,
                slopes@,
                width as int,
                rows as int,
                index as int,
                true,
                step as int,
                downhill,
                steepest_down,
            ),
            leads(
                filled@,
                routing@,
                slopes@,
                width as int,
                rows as int,
                index as int,
                false,
                step as int,
                across,
                steepest_across,
            ),
        decreases 8 - step,
    {
        let slope: Single = slopes[step];
        let way: Option<usize> = neighbour(x, y, step, width, rows);
        if let Some(to) = way {
            assert(target(index as int, step as int, width as int, rows as int) == Some(to as int));
            if filled[to].lt(filled[index]) {
                if steepest_down.lt(slope) {
                    steepest_down = slope;
                    downhill = step as u8 + 1;
                }
            } else if !filled[index].lt(filled[to]) && routing[to].lt(routing[index]) {
                if steepest_across.lt(slope) {
                    steepest_across = slope;
                    across = step as u8 + 1;
                }
            }
        }
        step = step + 1;
    }
    if downhill == SINK {
        across
    } else {
        downhill
    }
}

/// The direction every cell drains in.
///
/// `slopes` holds, for each cell and each step out of it, how steep that step is: the
/// fall of the water surface over the distance where that falls, the fall of the
/// routing surface over the distance otherwise.
pub fn directions(
    filled: &Vec<Single>,
    routing: &Vec<Single>,
    slopes: &Vec<[Single; 8]>,
    width: usize,
    rows: usize,
) -> (flow: Vec<u8>)
    requires
        width * rows <= usize::MAX,
        filled@.len() == width * rows,
        routing@.len() == width * rows,
        slopes@.len() == width * rows,
    ensures
        routed(filled@, routing@, slopes@, width as int, rows as int, flow@),
{
    proof {
        assert(0 <= width * rows) by (nonlinear_arith);
    }
    let count: usize = width * rows;
    let mut flow: Vec<u8> = Vec::new();
    let mut index: usize = 0;
    while index < count
        invariant
            index <= count,
            count == width * rows,
            width * rows <= usize::MAX,
            filled@.len() == width * rows,
            routing@.len() == width * rows,
            slopes@.len() == width * rows,
            flow@.len() == index,
            forall|c: int|
                0 <= c < index ==> #[trigger] drains_by(
                    filled@,
                    routing@,
                    slopes@[c]@,
                    width as int,
                    rows as int,
                    c,
                    flow@[c],
                ),
        decreases count - index,
    {
        let code: u8 = direction(filled, routing, &slopes[index], width, rows, index);
        flow.push(code);
        index = index + 1;
    }
    flow
}

} // verus!
