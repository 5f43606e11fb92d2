//! What holds of every step between cells and of every resolution.

use vstd::arithmetic::div_mod::lemma_fundamental_div_mod;
use vstd::arithmetic::power2::{lemma_pow2_pos, pow2};
use vstd::prelude::*;
use crate::grid::{adjacent, lemma_cell, on_border, opposite, step_of, step_x, step_y, target};
use crate::layer::{ordered_range, texels_of, texels_over};
use crate::raster::UVec2;
use crate::single::Single;

verus! {

/// The eight steps go round a cell: the first along the row, each an eighth of a turn on
/// from the one before, so that two steps on is a quarter turn, every second one crosses a
/// corner, and four on leads back.
pub proof fn law_the_steps_go_round_a_cell(step: int)
    requires
        0 <= step < 8,
    ensures
        step_x(0) == 1 && step_y(0) == 0,
        step_x(1) == 1 && step_y(1) == 1,
        -1 <= step_x(step) <= 1,
        -1 <= step_y(step) <= 1,
        step_x(step) == 0 ==> step_y(step) != 0,
        step_x(step) != 0 && step_y(step) != 0 <==> step % 2 == 1,
        step_x((step + 2) % 8) == -step_y(step),
        step_y((step + 2) % 8) == step_x(step),
        opposite(step) == (step + 4) % 8,
        step_x(opposite(step)) == -step_x(step),
        step_y(opposite(step)) == -step_y(step),
{
}

/// A direction code names the step before it, counting from one, and the code of a sink
/// none; no two codes name one step.
pub proof fn law_a_code_names_one_step(code: u8)
    ensures
        step_of(0) is None,
        1 <= code <= 8 ==> step_of(code) == Some(code as int - 1),
        code > 8 ==> step_of(code) is None,
{
}

/// A step that stays inside the grid leads to the cell as many columns and rows away as it
/// crosses; one that would leave it leads nowhere.
pub proof fn law_a_step_leads_where_it_points(
    x: int,
    y: int,
    step: int,
    width: int,
    rows: int,
)
    requires
        0 <= x < width,
        0 <= y < rows,
        0 <= step < 8,
    ensures
        ({
            let across = x + step_x(step);
            let down = y + step_y(step);
            let to = target(y * width + x, step, width, rows);
            &&& 0 <= across < width && 0 <= down < rows ==> to == Some(down * width + across)
            &&& !(0 <= across < width && 0 <= down < rows) ==> to is None
        }),
{
    lemma_cell(x, y, width, rows);
}

/// Two cells are neighbours exactly where they are at most a column and a row apart and not
/// the same.
pub proof fn law_neighbours_are_at_most_one_apart(
    x: int,
    y: int,
    to_x: int,
    to_y: int,
    width: int,
    rows: int,
)
    requires
        0 <= x < width,
        0 <= y < rows,
        0 <= to_x < width,
        0 <= to_y < rows,
    ensures
        adjacent(y * width + x, to_y * width + to_x, width, rows) <==> {
            &&& -1 <= to_x - x <= 1
            &&& -1 <= to_y - y <= 1
            &&& (to_x != x || to_y != y)
        },
{
    let from = y * width + x;
    let to = to_y * width + to_x;
    lemma_cell(x, y, width, rows);
    lemma_cell(to_x, to_y, width, rows);
    if adjacent(from, to, width, rows) {
        let step = choose|step: int|
            0 <= step < 8 && #[trigger] target(from, step, width, rows) == Some(to);
        law_a_step_leads_where_it_points(x, y, step, width, rows);
        lemma_cell(x + step_x(step), y + step_y(step), width, rows);
        assert(to_x == x + step_x(step) && to_y == y + step_y(step));
    }
    if -1 <= to_x - x <= 1 && -1 <= to_y - y <= 1 && (to_x != x || to_y != y) {
        let dx = to_x - x;
        let dy = to_y - y;
        let step: int = if dx == 1 {
            if dy == 0 {
                0
            } else if dy == 1 {
                1
            } else {
                7
            }
        } else if dx == 0 {
            if dy == 1 {
                2
            } else {
                6
            }
        } else if dy == 1 {
            3
        } else if dy == 0 {
            4
        } else {
            5
        };
        law_a_step_leads_where_it_points(x, y, step, width, rows);
        assert(target(from, step, width, rows) == Some(to));
    }
}

/// A cell is on the border exactly where some step from it leaves the grid.
pub proof fn law_a_step_leaves_from_the_border_alone(x: int, y: int, width: int, rows: int)
    requires
        0 <= x < width,
        0 <= y < rows,
    ensures
        on_border(y * width + x, width, rows) <==> exists|step: int|
            0 <= step < 8 && #[trigger] target(y * width + x, step, width, rows) is None,
{
    let from = y * width + x;
    lemma_cell(x, y, width, rows);
    assert forall|step: int| 0 <= step < 8 implies (#[trigger] target(from, step, width, rows)
        is None) == !(0 <= x + step_x(step) < width && 0 <= y + step_y(step) < rows) by {
        law_a_step_leads_where_it_points(x, y, step, width, rows);
    }
    assert(target(from, 0, width, rows) is None == !(x + 1 < width));
    assert(target(from, 2, width, rows) is None == !(y + 1 < rows));
    assert(target(from, 4, width, rows) is None == !(0 <= x - 1));
    assert(target(from, 6, width, rows) is None == !(0 <= y - 1));
}

/// The texels of a resolution cover all the cells, the last of them at least one, and there
/// is always one.
pub proof fn law_texels_cover_the_cells(cells: u32, shift: u8)
    ensures
        texels_over(cells, shift) >= 1,
        texels_over(cells, shift) * pow2(shift as nat) >= cells,
        texels_over(cells, shift) > 1 ==> (texels_over(cells, shift) - 1) * pow2(shift as nat)
            < cells,
{
    let block = pow2(shift as nat) as int;
    lemma_pow2_pos(shift as nat);
    let top = cells + block - 1;
    let count = top / block;
    lemma_fundamental_div_mod(top, block);
    assert(block * count == count * block) by (nonlinear_arith);
    assert((count - 1) * block == count * block - block) by (nonlinear_arith);
    if count < 1 {
        assert(count * block <= 0) by (nonlinear_arith)
            requires
                count <= 0,
                block > 0,
        ;
    }
}

/// A resolution has the texels that cover the columns across and those that cover the rows
/// down.
pub proof fn law_a_resolution_covers_columns_and_rows(size: UVec2, shift: u8)
    ensures
        texels_of(size, shift).x * pow2(shift as nat) >= size.x,
        texels_of(size, shift).y * pow2(shift as nat) >= size.y,
        shift == 0 && size.x > 0 ==> texels_of(size, shift).x == size.x,
        shift == 0 && size.y > 0 ==> texels_of(size, shift).y == size.y,
        texels_of(UVec2 { x: size.y, y: size.x }, shift) == (UVec2 {
            x: texels_of(size, shift).y,
            y: texels_of(size, shift).x,
        }),
{
    law_texels_cover_the_cells(size.x, shift);
    law_texels_cover_the_cells(size.y, shift);
    let block = pow2(shift as nat) as int;
    lemma_pow2_pos(shift as nat);
    lemma_texels_fit(size.x, shift);
    lemma_texels_fit(size.y, shift);
    if shift == 0 {
        vstd::arithmetic::power2::lemma2_to64();
        assert(block == 1);
    }
}

proof fn lemma_texels_fit(cells: u32, shift: u8)
    ensures
        1 <= texels_over(cells, shift) <= u32::MAX,
{
    let block = pow2(shift as nat) as int;
    lemma_pow2_pos(shift as nat);
    let count = (cells + block - 1) / block;
    assert(count <= cells) by (nonlinear_arith)
        requires
            block >= 1,
            cells >= 0,
            count == (cells + block - 1) / block,
    ;
}

/// A range in order has the same two ends, the lower first.
pub proof fn law_a_range_in_order_has_the_lower_end_first(range: (Single, Single))
    requires
        !range.0.nan(),
        !range.1.nan(),
    ensures
        ordered_range(range).0.rank() <= ordered_range(range).1.rank(),
        ordered_range(range) == range || ordered_range(range) == (range.1, range.0),
        range.0.rank() <= range.1.rank() ==> ordered_range(range) == range,
{
}

} // verus!
