//! Cells in row-major order and the eight ways out of one.

use vstd::prelude::*;
use vstd::arithmetic::div_mod::*;

verus! {

/// The flow direction code of a cell with no outflow: a cell on the border of the
/// document, or one whose neighbours all stand at least as high.
///
/// The other codes are `1..=8`, naming the eight neighbours in order starting at `+x`
/// and turning through `+y`: `1` is `(+1, 0)`, `2` is `(+1, +1)`, and so on round to
/// `8` at `(+1, -1)`. The numbering is part of what a saved document means.
pub const SINK: u8 = 0;

/// How many neighbours a cell away from the border has.
pub const STEPS: usize = 8;

/// The columns a step crosses, to the right.
pub open spec fn step_x(step: int) -> int {
    if step == 0 || step == 1 || step == 7 {
        1
    } else if step == 3 || step == 4 || step == 5 {
        -1
    } else {
        0
    }
}

/// The rows a step crosses, downwards.
pub open spec fn step_y(step: int) -> int {
    if step == 1 || step == 2 || step == 3 {
        1
    } else if step == 5 || step == 6 || step == 7 {
        -1
    } else {
        0
    }
}

/// The index of the cell in column `x` of row `y`.
pub open spec fn cell(x: int, y: int, width: int) -> int {
    y * width + x
}

/// Whether a column and a row are inside the grid.
pub open spec fn inside(x: int, y: int, width: int, rows: int) -> bool {
    0 <= x < width && 0 <= y < rows
}

/// The cell a step leads to from a column and a row, if that is inside the grid.
pub open spec fn stepped(x: int, y: int, step: int, width: int, rows: int) -> Option<int> {
    if inside(x + step_x(step), y + step_y(step), width, rows) {
        Some(cell(x + step_x(step), y + step_y(step), width))
    } else {
        None
    }
}

/// The cell a step leads to from a cell, if that is inside the grid.
pub open spec fn target(index: int, step: int, width: int, rows: int) -> Option<int> {
    stepped(index % width, index / width, step, width, rows)
}

/// Whether a step leads from one cell to the other.
pub open spec fn adjacent(from: int, to: int, width: int, rows: int) -> bool {
    exists|step: int| 0 <= step < 8 && #[trigger] target(from, step, width, rows) == Some(to)
}

/// Whether a cell is in the first or last column or row.
pub open spec fn on_border(index: int, width: int, rows: int) -> bool {
    let x = index % width;
    let y = index / width;
    x == 0 || y == 0 || x + 1 == width || y + 1 == rows
}

/// The step a direction code names.
pub open spec fn step_of(code: u8) -> Option<int> {
    if code == SINK || code > 8 {
        None
    } else {
        Some(code - 1)
    }
}

/// The cell a direction code leads to.
pub open spec fn led_to(index: int, code: u8, width: int, rows: int) -> Option<int> {
    match step_of(code) {
        Some(step) => target(index, step, width, rows),
        None => None,
    }
}

/// The step that leads back.
pub open spec fn opposite(step: int) -> int {
    if step < 4 {
        step + 4
    } else {
        step - 4
    }
}

/// A cell inside the grid has an index below the number of cells, from which its
/// column and row come back.
pub proof fn lemma_cell(x: int, y: int, width: int, rows: int)
    requires
        inside(x, y, width, rows),
    ensures
        0 <= cell(x, y, width) < width * rows,
        cell(x, y, width) % width == x,
        cell(x, y, width) / width == y,
{
    lemma_fundamental_div_mod_converse(cell(x, y, width), width, y, x);
    assert(0 <= y * width && y * width + width <= rows * width) by (nonlinear_arith)
        requires
            0 <= y < rows,
            width > 0,
    ;
    assert(rows * width == width * rows) by (nonlinear_arith);
}

/// Every index below the number of cells has a column and a row inside the grid.
pub proof fn lemma_split(index: int, width: int, rows: int)
    requires
        0 <= index < width * rows,
        0 <= width,
        0 <= rows,
    ensures
        inside(index % width, index / width, width, rows),
        cell(index % width, index / width, width) == index,
        width > 0,
        rows > 0,
{
    assert(width > 0 && rows > 0) by (nonlinear_arith)
        requires
            0 <= index < width * rows,
            0 <= width,
            0 <= rows,
    ;
    lemma_fundamental_div_mod(index, width);
    lemma_multiply_divide_lt(index, width, rows);
    lemma_div_pos_is_pos(index, width);
    assert(width * (index / width) == (index / width) * width) by (nonlinear_arith);
}

/// A step between two cells leads back the other way.
pub proof fn lemma_target(index: int, step: int, width: int, rows: int)
    requires
        0 <= index < width * rows,
        0 <= width,
        0 <= rows,
        0 <= step < 8,
        target(index, step, width, rows) is Some,
    ensures
        0 <= target(index, step, width, rows)->0 < width * rows,
        target(index, step, width, rows)->0 != index,
        0 <= opposite(step) < 8,
        target(target(index, step, width, rows)->0, opposite(step), width, rows) == Some(index),
{
    lemma_split(index, width, rows);
    let x = index % width;
    let y = index / width;
    lemma_cell(x + step_x(step), y + step_y(step), width, rows);
    lemma_cell(x, y, width, rows);
}

/// Adjacency goes both ways.
pub proof fn lemma_adjacent_symmetric(a: int, b: int, width: int, rows: int)
    requires
        0 <= a < width * rows,
        0 <= width,
        0 <= rows,
        adjacent(a, b, width, rows),
    ensures
        adjacent(b, a, width, rows),
        0 <= b < width * rows,
        a != b,
{
    let step = choose|step: int|
        0 <= step < 8 && #[trigger] target(a, step, width, rows) == Some(b);
    lemma_target(a, step, width, rows);
    assert(target(b, opposite(step), width, rows) == Some(a));
}

/// The cell that `step` leads to from column `x` of row `y`, or `None` where that is
/// outside the grid.
pub fn neighbour(x: usize, y: usize, step: usize, width: usize, rows: usize) -> (answer: Option<
    usize,
>)
    requires
        step < 8,
        width * rows <= usize::MAX,
    ensures
        match answer {
            Some(index) => stepped(x as int, y as int, step as int, width as int, rows as int)
                == Some(index as int) && index < width * rows,
            None => stepped(x as int, y as int, step as int, width as int, rows as int) is None,
        },
{
    let nx: usize;
    if step == 0 || step == 1 || step == 7 {
        if x >= width {
            return None;
        }
        nx = x + 1;
    } else if step == 3 || step == 4 || step == 5 {
        if x == 0 {
            return None;
        }
        nx = x - 1;
    } else {
        nx = x;
    }
    let ny: usize;
    if step == 1 || step == 2 || step == 3 {
        if y >= rows {
            return None;
        }
        ny = y + 1;
    } else if step == 5 || step == 6 || step == 7 {
        if y == 0 {
            return None;
        }
        ny = y - 1;
    } else {
        ny = y;
    }
    if nx >= width || ny >= rows {
        return None;
    }
    proof {
        lemma_cell(nx as int, ny as int, width as int, rows as int);
        assert(0 <= ny * width) by (nonlinear_arith);
    }
    Some(ny * width + nx)
}

/// The step a direction code names, or `None` for [`SINK`] and for a code that names
/// none.
pub fn direction_index(code: u8) -> (answer: Option<usize>)
    ensures
        match answer {
            Some(step) => step_of(code) == Some(step as int) && step < 8,
            None => step_of(code) is None,
        },
{
    if code == SINK || code > 8 {
        None
    } else {
        Some(code as usize - 1)
    }
}

} // verus!
