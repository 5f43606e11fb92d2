//! What holds of every stroke and of every window onto a raster.

use vstd::arithmetic::div_mod::lemma_fundamental_div_mod;
use vstd::prelude::*;
use crate::brush::{
    about, cells_down, cells_up, covers_texels, laid_down, reached, slot, texel_over, Brush,
    CellRect, Window,
};
use crate::raster::{Raster, UVec2};

verus! {

/// A window over a rectangle holds the raster's texels row by row: what is in a column and a
/// row of the raster is found that many columns and rows past the rectangle's first.
pub proof fn law_a_window_holds_the_raster_row_by_row(
    window: Window,
    raster: Raster<u8>,
    x: int,
    y: int,
)
    requires
        window.copies(raster),
        window.rect.min.x <= x < window.rect.max.x,
        window.rect.min.y <= y < window.rect.max.y,
    ensures
        0 <= x < raster.size.x,
        0 <= y < raster.size.y,
        window.values@[(y - window.rect.min.y) * (window.rect.max.x - window.rect.min.x) + (x
            - window.rect.min.x)] == raster.data@[y * raster.size.x + x],
{
    assert(window.rect.holds(x, y));
    assert(slot(window.rect, x, y) == (y - window.rect.min.y) * (window.rect.max.x
        - window.rect.min.x) + (x - window.rect.min.x));
}

/// A stroke writes each of its bytes in the column and the row of the raster that it is for,
/// and changes no other texel.
pub proof fn law_a_stroke_writes_each_byte_in_its_place(
    before: Raster<u8>,
    after: Raster<u8>,
    texels: CellRect,
    bytes: Seq<Option<u8>>,
    x: int,
    y: int,
)
    requires
        before.wf(),
        laid_down(before, after, texels, bytes),
        0 <= x < before.size.x,
        0 <= y < before.size.y,
    ensures
        ({
            let at = y * before.size.x + x;
            let inside = texels.min.x <= x < texels.max.x && texels.min.y <= y < texels.max.y;
            let byte = bytes[(y - texels.min.y) * (texels.max.x - texels.min.x) + (x
                - texels.min.x)];
            &&& after.size == before.size
            &&& after.data@.len() == before.data@.len()
            &&& inside && byte is Some ==> after.data@[at] == byte->0
            &&& !(inside && byte is Some) ==> after.data@[at] == before.data@[at]
        }),
{
    assert(before.covers(x, y));
    assert(after.texel(x, y) == after.data@[y * before.size.x + x]);
}

/// Away from the edge of a window the nine values about a place are those of the three rows
/// about it, three of each, in order.
pub proof fn law_the_values_about_a_place_are_three_rows_of_three(
    window: Window,
    x: int,
    y: int,
    across: int,
    along: int,
)
    requires
        window.rect.min.x < x,
        x + 1 < window.rect.max.x,
        window.rect.min.y < y,
        y + 1 < window.rect.max.y,
        0 <= across < 3,
        0 <= along < 3,
    ensures
        about(window, x, y, 9).len() == 9,
        about(window, x, y, 9)[3 * along + across] == window.values@[(y - 1 + along
            - window.rect.min.y) * (window.rect.max.x - window.rect.min.x) + (x - 1 + across
            - window.rect.min.x)],
{
    lemma_about(window, x, y, 9);
    let k = 3 * along + across;
    assert(k / 3 == along && k % 3 == across);
    assert(about(window, x, y, 9)[k] == window.values@[slot(
        window.rect,
        x - 1 + k % 3,
        y - 1 + k / 3,
    )]);
}

proof fn lemma_about(window: Window, x: int, y: int, count: int)
    requires
        window.rect.min.x < x,
        x + 1 < window.rect.max.x,
        window.rect.min.y < y,
        y + 1 < window.rect.max.y,
        0 <= count <= 9,
    ensures
        about(window, x, y, count).len() == count,
        forall|k: int|
            0 <= k < count ==> #[trigger] about(window, x, y, count)[k] == window.values@[slot(
                window.rect,
                x - 1 + k % 3,
                y - 1 + k / 3,
            )],
    decreases count,
{
    if count > 0 {
        lemma_about(window, x, y, count - 1);
        let rest = about(window, x, y, count - 1);
        let all = about(window, x, y, count);
        assert forall|k: int| 0 <= k < count implies #[trigger] all[k] == window.values@[slot(
            window.rect,
            x - 1 + k % 3,
            y - 1 + k / 3,
        )] by {
            if k < count - 1 {
                assert(all[k] == rest[k]);
            }
        }
    }
}

/// At the corner of a window the values about a place are those that are in the window, the
/// others left out.
pub proof fn law_the_values_about_a_corner_are_four(window: Window)
    requires
        window.rect.min.x + 1 < window.rect.max.x,
        window.rect.min.y + 1 < window.rect.max.y,
    ensures
        ({
            let columns = window.rect.max.x - window.rect.min.x;
            let values = about(
                window,
                window.rect.min.x as int,
                window.rect.min.y as int,
                9,
            );
            &&& values.len() == 4
            &&& values[0] == window.values@[0]
            &&& values[1] == window.values@[1]
            &&& values[2] == window.values@[columns]
            &&& values[3] == window.values@[columns + 1]
        }),
{
    let x = window.rect.min.x as int;
    let y = window.rect.min.y as int;
    let columns = window.rect.max.x - window.rect.min.x;
    assert((y - window.rect.min.y) * columns == 0) by (nonlinear_arith)
        requires
            y == window.rect.min.y,
    ;
    assert((y + 1 - window.rect.min.y) * columns == columns) by (nonlinear_arith)
        requires
            y == window.rect.min.y,
    ;
    assert(slot(window.rect, x, y) == 0);
    assert(slot(window.rect, x + 1, y) == 1);
    assert(slot(window.rect, x, y + 1) == columns);
    assert(slot(window.rect, x + 1, y + 1) == columns + 1);
    assert(about(window, x, y, 0).len() == 0);
    assert(about(window, x, y, 1).len() == 0);
    assert(about(window, x, y, 2).len() == 0);
    assert(about(window, x, y, 3).len() == 0);
    assert(about(window, x, y, 4).len() == 0);
    assert(about(window, x, y, 5) =~= seq![window.values@[0]]);
    assert(about(window, x, y, 6) =~= seq![window.values@[0], window.values@[1]]);
    assert(about(window, x, y, 7) == about(window, x, y, 6));
    assert(about(window, x, y, 8) == about(window, x, y, 7).push(window.values@[columns]));
}

/// A stroke may reach the texels from the first to the last given that are in the raster, and
/// no others; it reaches none where it has no points, no width, or nothing to paint on.
pub proof fn law_a_stroke_reaches_what_is_in_the_raster(
    brush: Brush,
    resolution: UVec2,
    size: UVec2,
    points: int,
    low: (i64, i64),
    end: (i64, i64),
    x: int,
    y: int,
)
    ensures
        match reached(brush, resolution, size, points, low, end) {
            Some(rect) => {
                &&& points != 0
                &&& size.x > 0 && size.y > 0
                &&& brush.radius_cells.nan() || brush.radius_cells.rank() > 0
                &&& rect.min.x < rect.max.x <= resolution.x
                &&& rect.min.y < rect.max.y <= resolution.y
                &&& (rect.min.x <= x < rect.max.x && rect.min.y <= y < rect.max.y) <==> (low.0 <= x
                    < end.0 && low.1 <= y < end.1 && 0 <= x < resolution.x && 0 <= y
                    < resolution.y)
            },
            None => points == 0 || size.x == 0 || size.y == 0 || (!brush.radius_cells.nan()
                && brush.radius_cells.rank() <= 0) || !(low.0 <= x < end.0 && low.1 <= y < end.1
                && 0 <= x < resolution.x && 0 <= y < resolution.y),
        },
{
}

/// The texel over a cell is the one that the middle of the cell is in.
pub proof fn law_a_cell_is_under_the_texel_its_middle_is_in(at: int, resolution: int, size: int)
    requires
        size > 0,
        resolution > 0,
        0 <= at < size,
    ensures
        texel_over(at, resolution, size) * (2 * size) <= (2 * at + 1) * resolution,
        (2 * at + 1) * resolution < (texel_over(at, resolution, size) + 1) * (2 * size),
        0 <= texel_over(at, resolution, size) < resolution,
{
    let under = 2 * size;
    let top = (2 * at + 1) * resolution;
    let texel = texel_over(at, resolution, size);
    lemma_fundamental_div_mod(top, under);
    assert(under * texel == texel * under) by (nonlinear_arith);
    assert((texel + 1) * under == texel * under + under) by (nonlinear_arith);
    assert(0 <= top && top < resolution * under) by (nonlinear_arith)
        requires
            0 <= at < size,
            resolution > 0,
            top == (2 * at + 1) * resolution,
            under == 2 * size,
    ;
    assert(0 <= texel < resolution) by (nonlinear_arith)
        requires
            texel * under <= top < texel * under + under,
            0 <= top < resolution * under,
            under > 0,
    ;
}

/// The cells that some texels stand for start no later and end no earlier than the texels do,
/// and by less than a cell.
pub proof fn law_cells_are_rounded_outwards(texels: int, resolution: int, size: int)
    requires
        resolution > 0,
        size >= 0,
        texels >= 0,
    ensures
        cells_down(texels, resolution, size) * resolution <= texels * size < (cells_down(
            texels,
            resolution,
            size,
        ) + 1) * resolution,
        (cells_up(texels, resolution, size) - 1) * resolution < texels * size <= cells_up(
            texels,
            resolution,
            size,
        ) * resolution,
{
    let all = texels * size;
    let down = cells_down(texels, resolution, size);
    let up = cells_up(texels, resolution, size);
    lemma_fundamental_div_mod(all, resolution);
    lemma_fundamental_div_mod(all + resolution - 1, resolution);
    assert(resolution * down == down * resolution) by (nonlinear_arith);
    assert(resolution * up == up * resolution) by (nonlinear_arith);
    assert((down + 1) * resolution == down * resolution + resolution) by (nonlinear_arith);
    assert((up - 1) * resolution == up * resolution - resolution) by (nonlinear_arith);
}

/// Columns of texels stand for columns of cells and rows for rows: on either axis the cells
/// start no later and end no earlier than the texels do.
pub proof fn law_columns_stand_for_columns(
    rect: CellRect,
    texels: CellRect,
    resolution: UVec2,
    size: UVec2,
)
    requires
        covers_texels(rect, texels, resolution, size),
        resolution.x > 0,
        resolution.y > 0,
    ensures
        rect.min.x * resolution.x <= texels.min.x * size.x,
        texels.max.x * size.x <= rect.max.x * resolution.x,
        rect.min.y * resolution.y <= texels.min.y * size.y,
        texels.max.y * size.y <= rect.max.y * resolution.y,
{
    law_cells_are_rounded_outwards(texels.min.x as int, resolution.x as int, size.x as int);
    law_cells_are_rounded_outwards(texels.max.x as int, resolution.x as int, size.x as int);
    law_cells_are_rounded_outwards(texels.min.y as int, resolution.y as int, size.y as int);
    law_cells_are_rounded_outwards(texels.max.y as int, resolution.y as int, size.y as int);
}

} // verus!
