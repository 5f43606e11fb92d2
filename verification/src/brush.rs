//! Painting a raster by hand: what a stroke reaches, what it reads, and what it writes.
//!
//! Nothing here knows about input devices, documents or fields. A stroke is a polyline and a
//! handful of numbers, applied to a raster the caller passes in.

use vstd::prelude::*;
use vstd::arithmetic::div_mod::*;
use crate::grid::{cell, lemma_cell, lemma_split};
use crate::layer::UNIT;
use crate::raster::{Raster, UVec2};
use crate::single::{held_between, Single};

verus! {

/// A rectangle of whole cells: from `min`, up to but not at `max`.
#[derive(Clone, Copy, Debug, PartialEq, Eq, Structural)]
pub struct CellRect {
    /// The first column and row.
    pub min: UVec2,
    /// One past the last column and row.
    pub max: UVec2,
}

impl CellRect {
    /// Whether a cell is inside.
    pub open spec fn holds(self, x: int, y: int) -> bool {
        self.min.x <= x < self.max.x && self.min.y <= y < self.max.y
    }

    /// Whether no cell is inside.
    pub open spec fn vacant(self) -> bool {
        self.max.x <= self.min.x || self.max.y <= self.min.y
    }

    /// How many columns are inside.
    pub open spec fn columns(self) -> int {
        if self.max.x > self.min.x {
            self.max.x - self.min.x
        } else {
            0
        }
    }

    /// How many rows are inside.
    pub open spec fn lines(self) -> int {
        if self.max.y > self.min.y {
            self.max.y - self.min.y
        } else {
            0
        }
    }

    /// The rectangle from `min` up to `max`.
    pub fn new(min: UVec2, max: UVec2) -> (rect: CellRect)
        ensures
            rect == (CellRect { min, max }),
    {
        CellRect { min, max }
    }

    /// A rectangle with no cell in it.
    pub fn empty() -> (rect: CellRect)
        ensures
            rect.vacant(),
            rect == (CellRect { min: UVec2 { x: 0, y: 0 }, max: UVec2 { x: 0, y: 0 } }),
    {
        CellRect { min: UVec2 { x: 0, y: 0 }, max: UVec2 { x: 0, y: 0 } }
    }

    /// Every cell of an extent.
    pub fn from_size(size: UVec2) -> (rect: CellRect)
        ensures
            rect == (CellRect { min: UVec2 { x: 0, y: 0 }, max: size }),
    {
        CellRect { min: UVec2 { x: 0, y: 0 }, max: size }
    }

    /// Whether no cell is inside.
    pub fn is_empty(&self) -> (answer: bool)
        ensures
            answer == self.vacant(),
    {
        self.max.x <= self.min.x || self.max.y <= self.min.y
    }

    /// Whether a cell is inside.
    pub fn contains(&self, x: u32, y: u32) -> (answer: bool)
        ensures
            answer == self.holds(x as int, y as int),
    {
        self.min.x <= x && x < self.max.x && self.min.y <= y && y < self.max.y
    }

    /// How many columns are inside.
    pub fn width(&self) -> (count: u32)
        ensures
            count == self.columns(),
    {
        if self.max.x > self.min.x {
            self.max.x - self.min.x
        } else {
            0
        }
    }

    /// How many rows are inside.
    pub fn height(&self) -> (count: u32)
        ensures
            count == self.lines(),
    {
        if self.max.y > self.min.y {
            self.max.y - self.min.y
        } else {
            0
        }
    }

    /// The rectangle with `cells` more on every side, as far as cells can be counted.
    pub fn expand(&self, cells: u32) -> (rect: CellRect)
        ensures
            rect.min.x == (if self.min.x > cells {
                self.min.x - cells
            } else {
                0
            }),
            rect.min.y == (if self.min.y > cells {
                self.min.y - cells
            } else {
                0
            }),
            rect.max.x == (if self.max.x + cells < u32::MAX {
                self.max.x + cells
            } else {
                u32::MAX as int
            }),
            rect.max.y == (if self.max.y + cells < u32::MAX {
                self.max.y + cells
            } else {
                u32::MAX as int
            }),
    {
        CellRect {
            min: UVec2 {
                x: if self.min.x > cells {
                    self.min.x - cells
                } else {
                    0
                },
                y: if self.min.y > cells {
                    self.min.y - cells
                } else {
                    0
                },
            },
            max: UVec2 {
                x: if self.max.x < u32::MAX - cells {
                    self.max.x + cells
                } else {
                    u32::MAX
                },
                y: if self.max.y < u32::MAX - cells {
                    self.max.y + cells
                } else {
                    u32::MAX
                },
            },
        }
    }

    /// The cells inside both.
    pub fn intersect(&self, other: CellRect) -> (rect: CellRect)
        ensures
            forall|x: int, y: int|
                #[trigger] rect.holds(x, y) <==> self.holds(x, y) && other.holds(x, y),
            rect.max.x <= self.max.x && rect.max.x <= other.max.x,
            rect.max.y <= self.max.y && rect.max.y <= other.max.y,
            rect.min.x >= self.min.x && rect.min.x >= other.min.x,
            rect.min.y >= self.min.y && rect.min.y >= other.min.y,
    {
        CellRect {
            min: UVec2 {
                x: if self.min.x > other.min.x {
                    self.min.x
                } else {
                    other.min.x
                },
                y: if self.min.y > other.min.y {
                    self.min.y
                } else {
                    other.min.y
                },
            },
            max: UVec2 {
                x: if self.max.x < other.max.x {
                    self.max.x
                } else {
                    other.max.x
                },
                y: if self.max.y < other.max.y {
                    self.max.y
                } else {
                    other.max.y
                },
            },
        }
    }
}

/// What a stroke does to the value already under it.
///
/// The first two move a value by an amount and are unbounded; the last two move it a fraction
/// of the way towards a target and cannot overshoot. Which pair a mode belongs to is what
/// decides how [`Brush::strength`] is read.
#[derive(Clone, Copy, Debug, PartialEq, Eq, Structural)]
pub enum BrushMode {
    /// Adds the strength times the weight. Nothing clamps the result.
    Add,
    /// Subtracts the strength times the weight, so the strength stays a magnitude in every
    /// mode.
    Subtract,
    /// Moves the value towards [`Brush::value`] by the stroke's rate, so it approaches without
    /// passing it.
    SetTo,
    /// Moves the value towards the mean of its eight neighbours and itself, by the stroke's
    /// rate.
    Smooth,
}

impl Default for BrushMode {
    fn default() -> (mode: Self)
        ensures
            mode == BrushMode::Add,
    {
        BrushMode::Add
    }
}

/// The shape and force of a stroke.
#[derive(Clone, Copy, Debug, PartialEq, Eq, Structural)]
pub struct Brush {
    /// Reach, in document cells, never in texels, so the same brush covers the same ground on
    /// a field at any shift. At or below zero the stroke does nothing.
    pub radius_cells: Single,
    /// The fraction of the radius the weight falls off over.
    pub falloff: Single,
    /// How hard the stroke pushes.
    pub strength: Single,
    /// What [`BrushMode::SetTo`] moves a cell toward, and what no other mode reads.
    pub value: Single,
    /// What the stroke does to what it covers.
    pub mode: BrushMode,
}

impl Default for Brush {
    fn default() -> (brush: Self)
        ensures
            brush == (Brush {
                radius_cells: Single(0x41c0_0000),
                falloff: Single(0x3f00_0000),
                strength: Single(0x3e80_0000),
                value: Single(UNIT),
                mode: BrushMode::Add,
            }),
    {
        Brush {
            radius_cells: Single(0x41c0_0000),
            falloff: Single(0x3f00_0000),
            strength: Single(0x3e80_0000),
            value: Single(UNIT),
            mode: BrushMode::Add,
        }
    }
}

/// The texels that a stroke may reach, where there are any: those from `low` up to `end`, as
/// far as the raster goes.
pub open spec fn reached(
    brush: Brush,
    resolution: UVec2,
    size: UVec2,
    points: int,
    low: (i64, i64),
    end: (i64, i64),
) -> Option<CellRect> {
    let rect = CellRect {
        min: UVec2 {
            x: held_between(low.0 as int, 0, resolution.x as int) as u32,
            y: held_between(low.1 as int, 0, resolution.y as int) as u32,
        },
        max: UVec2 {
            x: held_between(end.0 as int, 0, resolution.x as int) as u32,
            y: held_between(end.1 as int, 0, resolution.y as int) as u32,
        },
    };
    if points == 0 || resolution.vacant() || size.vacant() || brush.radius_cells.at_most(Single(0))
        || rect.vacant() {
        None
    } else {
        Some(rect)
    }
}

impl Brush {
    /// Whether any of the stroke lands at a distance from it: none does at or beyond the rim,
    /// at a distance that is no number, or from a brush with no radius.
    pub fn reaches(&self, distance_cells: Single) -> (answer: bool)
        ensures
            answer == (!self.radius_cells.at_most(Single(0)) && distance_cells.finite()
                && !self.radius_cells.at_most(distance_cells)),
    {
        !self.radius_cells.le(Single(0)) && distance_cells.is_finite() && !self.radius_cells.le(
            distance_cells,
        )
    }

    /// The texels that a stroke may reach on a raster of `resolution` over a document of
    /// `size`: those from `low` up to `end`, as far as the raster goes. `points` says how many
    /// points the stroke has.
    ///
    /// `None` when the stroke touches nothing: no points, no radius, no texels, no cells, or
    /// entirely off the document.
    pub fn touched_texels(
        &self,
        resolution: UVec2,
        size: UVec2,
        points: usize,
        low: (i64, i64),
        end: (i64, i64),
    ) -> (answer: Option<CellRect>)
        ensures
            answer == reached(*self, resolution, size, points as int, low, end),
    {
        if points == 0 || resolution.x == 0 || resolution.y == 0 || size.x == 0 || size.y == 0
            || self.radius_cells.le(Single(0)) {
            return None;
        }
        let rect: CellRect = CellRect {
            min: UVec2 { x: clip(low.0, resolution.x), y: clip(low.1, resolution.y) },
            max: UVec2 { x: clip(end.0, resolution.x), y: clip(end.1, resolution.y) },
        };
        if rect.is_empty() {
            None
        } else {
            Some(rect)
        }
    }
}

pub(crate) fn clip(value: i64, bound: u32) -> (answer: u32)
    ensures
        answer == held_between(value as int, 0, bound as int),
{
    if value < 0 {
        0
    } else if value > bound as i64 {
        bound
    } else {
        value as u32
    }
}

/// How many cells reach as far as some texels, rounded up.
pub open spec fn cells_up(texels: int, resolution: int, size: int) -> int {
    (texels * size + resolution - 1) / resolution
}

/// How many cells reach as far as some texels, rounded down.
pub open spec fn cells_down(texels: int, resolution: int, size: int) -> int {
    texels * size / resolution
}

/// The texel that the middle of a cell is in.
pub open spec fn texel_over(at: int, resolution: int, size: int) -> int {
    (2 * at + 1) * resolution / (2 * size)
}

fn down(texels: u32, resolution: u32, size: u32) -> (cells: u32)
    requires
        texels <= resolution,
        resolution > 0,
    ensures
        cells == cells_down(texels as int, resolution as int, size as int),
        cells <= size,
{
    proof {
        assert(0 <= texels * size <= resolution * size <= 0xffff_ffff * 0xffff_ffff)
            by (nonlinear_arith)
            requires
                0 <= texels <= resolution <= 0xffff_ffff,
                0 <= size <= 0xffff_ffff,
        ;
        let n = texels * size;
        let d = resolution as int;
        assert(n / d <= size) by (nonlinear_arith)
            requires
                0 <= n <= d * size,
                d > 0,
        ;
    }
    (texels as u64 * size as u64 / resolution as u64) as u32
}

fn up(texels: u32, resolution: u32, size: u32) -> (cells: u32)
    requires
        texels <= resolution,
        resolution > 0,
    ensures
        cells == cells_up(texels as int, resolution as int, size as int),
        cells <= size,
{
    proof {
        assert(0 <= texels * size <= resolution * size <= 0xffff_ffff * 0xffff_ffff)
            by (nonlinear_arith)
            requires
                0 <= texels <= resolution <= 0xffff_ffff,
                0 <= size <= 0xffff_ffff,
        ;
        let n = texels * size;
        let d = resolution as int;
        assert((n + d - 1) / d <= size) by (nonlinear_arith)
            requires
                0 <= n <= d * size,
                d > 0,
        ;
    }
    ((texels as u64 * size as u64 + (resolution as u64 - 1)) / resolution as u64) as u32
}

/// Whether a rectangle of cells is what some texels of a raster stand for, rounded outwards.
pub open spec fn covers_texels(
    rect: CellRect,
    texels: CellRect,
    resolution: UVec2,
    size: UVec2,
) -> bool {
    &&& rect.min.x == cells_down(texels.min.x as int, resolution.x as int, size.x as int)
    &&& rect.min.y == cells_down(texels.min.y as int, resolution.y as int, size.y as int)
    &&& rect.max.x == cells_up(texels.max.x as int, resolution.x as int, size.x as int)
    &&& rect.max.y == cells_up(texels.max.y as int, resolution.y as int, size.y as int)
}

/// The cells of a document of `size` that some texels of a raster of `resolution` stand for,
/// rounded outwards: every cell whose value changed with those texels is inside, and cells
/// that did not change may be.
pub fn covered_cells(texels: CellRect, resolution: UVec2, size: UVec2) -> (rect: CellRect)
    requires
        texels.min.x <= resolution.x && texels.max.x <= resolution.x,
        texels.min.y <= resolution.y && texels.max.y <= resolution.y,
        !resolution.vacant(),
    ensures
        covers_texels(rect, texels, resolution, size),
        rect.max.x <= size.x,
        rect.max.y <= size.y,
{
    CellRect {
        min: UVec2 {
            x: down(texels.min.x, resolution.x, size.x),
            y: down(texels.min.y, resolution.y, size.y),
        },
        max: UVec2 {
            x: up(texels.max.x, resolution.x, size.x),
            y: up(texels.max.y, resolution.y, size.y),
        },
    }
}

/// A cell whose texel is among those a stroke may have moved is among the cells reported.
pub proof fn law_every_cell_of_a_touched_texel_is_reported(
    at: int,
    from: int,
    end: int,
    resolution: int,
    size: int,
)
    requires
        0 <= at < size,
        0 < resolution,
        0 <= from,
        from <= texel_over(at, resolution, size) < end,
    ensures
        cells_down(from, resolution, size) <= at < cells_up(end, resolution, size),
{
    let middle = (2 * at + 1) * resolution;
    let texel = texel_over(at, resolution, size);
    lemma_fundamental_div_mod(middle, 2 * size);
    assert(from * (2 * size) <= middle) by (nonlinear_arith)
        requires
            from <= texel,
            middle == 2 * size * texel + middle % (2 * size),
            0 <= middle % (2 * size),
            size > 0,
    ;
    assert(middle < end * (2 * size)) by (nonlinear_arith)
        requires
            texel + 1 <= end,
            middle == 2 * size * texel + middle % (2 * size),
            middle % (2 * size) < 2 * size,
            size > 0,
    ;
    let low = cells_down(from, resolution, size);
    lemma_fundamental_div_mod(from * size, resolution);
    assert(low <= at) by (nonlinear_arith)
        requires
            from * size == resolution * low + (from * size) % resolution,
            0 <= (from * size) % resolution,
            from * (2 * size) <= middle,
            middle == (2 * at + 1) * resolution,
            resolution > 0,
    ;
    let high = cells_up(end, resolution, size);
    let top = end * size + resolution - 1;
    lemma_fundamental_div_mod(top, resolution);
    assert(at < high) by (nonlinear_arith)
        requires
            top == resolution * high + top % resolution,
            top % resolution < resolution,
            top == end * size + resolution - 1,
            middle < end * (2 * size),
            middle == (2 * at + 1) * resolution,
            resolution > 0,
    ;
}

/// A copy of what a stroke reads before it writes anything, so that what it writes does not
/// depend on the order the texels are visited in.
#[derive(Debug)]
pub struct Window {
    /// The texels held.
    pub rect: CellRect,
    /// Their values, row by row.
    pub values: Vec<u8>,
}

/// Where a texel's value is in a window over a rectangle.
pub open spec fn slot(rect: CellRect, x: int, y: int) -> int {
    cell(x - rect.min.x, y - rect.min.y, rect.columns())
}

/// The values that a window holds of the first `count` of the nine texels about a place, row
/// by row.
pub open spec fn about(window: Window, x: int, y: int, count: int) -> Seq<u8>
    decreases count,
{
    if count <= 0 {
        Seq::empty()
    } else {
        let rest = about(window, x, y, count - 1);
        let across = x - 1 + (count - 1) % 3;
        let along = y - 1 + (count - 1) / 3;
        if window.rect.holds(across, along) {
            rest.push(window.values@[slot(window.rect, across, along)])
        } else {
            rest
        }
    }
}

impl Window {
    /// Whether there is one value for each texel.
    pub open spec fn wf(&self) -> bool {
        self.values@.len() == self.rect.columns() * self.rect.lines()
    }

    /// Whether the window holds what a raster does at each of its texels.
    pub open spec fn copies(&self, raster: Raster<u8>) -> bool {
        forall|x: int, y: int|
            self.rect.holds(x, y) ==> raster.covers(x, y) && self.values@[#[trigger] slot(
                self.rect,
                x,
                y,
            )] == raster.texel(x, y)
    }

    /// The texels of a rectangle and those around it, as far as the raster goes; nothing where
    /// they are not wanted.
    pub fn of(raster: &Raster<u8>, texels: CellRect, wanted: bool) -> (window: Window)
        requires
            raster.wf(),
        ensures
            window.wf(),
            window.copies(*raster),
            !wanted ==> window.rect.vacant(),
            wanted ==> forall|x: int, y: int|
                #[trigger] window.rect.holds(x, y) <==> raster.covers(x, y) && texels.min.x - 1 <= x
                    < texels.max.x + 1 && texels.min.y - 1 <= y < texels.max.y + 1,
    {
        if !wanted {
            let window: Window = Window { rect: CellRect::empty(), values: Vec::new() };
            proof {
                assert(window.rect.columns() * window.rect.lines() == 0) by (nonlinear_arith)
                    requires
                        window.rect.columns() == 0,
                ;
            }
            return window;
        }
        let rect: CellRect = texels.expand(1).intersect(CellRect::from_size(raster.size));
        let width: u32 = rect.width();
        let height: u32 = rect.height();
        let mut values: Vec<u8> = Vec::new();
        proof {
            assert(0 <= width * height) by (nonlinear_arith);
            assert(raster.data@.len() == raster.data.len());
            assert(width * height <= raster.size.x * raster.size.y) by (nonlinear_arith)
                requires
                    0 <= width <= raster.size.x,
                    0 <= height <= raster.size.y,
            ;
        }
        let count: usize = width as usize * height as usize;
        let mut index: usize = 0;
        while index < count
            invariant
                raster.wf(),
                width == rect.columns(),
                height == rect.lines(),
                count == width * height,
                index <= count,
                rect.max.x <= raster.size.x,
                rect.max.y <= raster.size.y,
                values@.len() == index,
                forall|x: int, y: int|
                    rect.holds(x, y) && slot(rect, x, y) < index ==> values@[#[trigger] slot(
                        rect,
                        x,
                        y,
                    )] == raster.texel(x, y),
            decreases count - index,
        {
            proof {
                lemma_split(index as int, width as int, height as int);
            }
            let x: u32 = rect.min.x + (index % width as usize) as u32;
            let y: u32 = rect.min.y + (index / width as usize) as u32;
            let value: u8 = match raster.get(x, y) {
                Some(value) => *value,
                None => 0,
            };
            let ghost before = values@;
            values.push(value);
            proof {
                assert forall|a: int, b: int|
                    rect.holds(a, b) && slot(rect, a, b) < index + 1 implies values@[#[trigger] slot(
                    rect,
                    a,
                    b,
                )] == raster.texel(a, b) by {
                    lemma_cell(
                        a - rect.min.x,
                        b - rect.min.y,
                        width as int,
                        height as int,
                    );
                    if slot(rect, a, b) < index {
                        assert(values@[slot(rect, a, b)] == before[slot(rect, a, b)]);
                    }
                }
            }
            index = index + 1;
        }
        let window: Window = Window { rect, values };
        proof {
            assert forall|x: int, y: int| rect.holds(x, y) implies raster.covers(x, y)
                && values@[#[trigger] slot(rect, x, y)] == raster.texel(x, y) by {
                lemma_cell(x - rect.min.x, y - rect.min.y, width as int, height as int);
            }
        }
        window
    }

    /// What the window holds of a texel.
    pub fn at(&self, x: u32, y: u32) -> (answer: Option<u8>)
        requires
            self.wf(),
        ensures
            answer == (if self.rect.holds(x as int, y as int) {
                Some(self.values@[slot(self.rect, x as int, y as int)])
            } else {
                None
            }),
    {
        if !self.rect.contains(x, y) {
            return None;
        }
        let width: u32 = self.rect.width();
        let across: u32 = x - self.rect.min.x;
        let along: u32 = y - self.rect.min.y;
        proof {
            lemma_cell(across as int, along as int, width as int, self.rect.lines());
            assert(self.values@.len() == self.values.len());
            assert(0 <= along * width) by (nonlinear_arith);
        }
        Some(self.values[along as usize * width as usize + across as usize])
    }

    /// What the window holds of the nine texels about a place, row by row: what smoothing
    /// takes the mean of.
    pub fn around(&self, x: u32, y: u32) -> (values: Vec<u8>)
        requires
            self.wf(),
            x < u32::MAX,
            y < u32::MAX,
        ensures
            values@ == about(*self, x as int, y as int, 9),
    {
        let mut values: Vec<u8> = Vec::new();
        let mut count: u32 = 0;
        while count < 9
            invariant
                count <= 9,
                self.wf(),
                x < u32::MAX,
                y < u32::MAX,
                values@ == about(*self, x as int, y as int, count as int),
            decreases 9 - count,
        {
            let right: u32 = count % 3;
            let below: u32 = count / 3;
            let across: u64 = x as u64 + right as u64;
            let along: u64 = y as u64 + below as u64;
            if across >= 1 && along >= 1 {
                if let Some(value) = self.at((across - 1) as u32, (along - 1) as u32) {
                    values.push(value);
                }
            }
            count = count + 1;
        }
        values
    }
}

/// Whether a raster is another with the bytes of a stroke written onto a rectangle, row by
/// row, and left as it was wherever there is no byte.
pub open spec fn laid_down(
    before: Raster<u8>,
    after: Raster<u8>,
    texels: CellRect,
    bytes: Seq<Option<u8>>,
) -> bool {
    &&& after.wf()
    &&& after.size == before.size
    &&& forall|x: int, y: int|
        before.covers(x, y) ==> #[trigger] after.texel(x, y) == (if texels.holds(x, y)
            && bytes[slot(texels, x, y)] is Some {
            bytes[slot(texels, x, y)]->0
        } else {
            before.texel(x, y)
        })
}

/// Writes the bytes of a stroke onto the texels of a rectangle, row by row. A texel with no
/// byte was not reached and is left as it is.
pub fn lay_down(raster: &mut Raster<u8>, texels: CellRect, bytes: &Vec<Option<u8>>)
    requires
        old(raster).wf(),
        texels.max.x <= old(raster).size.x,
        texels.max.y <= old(raster).size.y,
        bytes@.len() == texels.columns() * texels.lines(),
    ensures
        laid_down(*old(raster), *final(raster), texels, bytes@),
{
    let ghost start = *raster;
    let width: u32 = texels.width();
    let height: u32 = texels.height();
    let mut index: usize = 0;
    proof {
        assert(bytes@.len() == bytes.len());
    }
    while index < bytes.len()
        invariant
            raster.wf(),
            raster.size == start.size,
            texels.max.x <= start.size.x,
            texels.max.y <= start.size.y,
            width == texels.columns(),
            height == texels.lines(),
            bytes@.len() == width * height,
            index <= bytes@.len(),
            forall|x: int, y: int|
                start.covers(x, y) ==> #[trigger] raster.texel(x, y) == (if texels.holds(x, y)
                    && slot(texels, x, y) < index && bytes@[slot(texels, x, y)] is Some {
                    bytes@[slot(texels, x, y)]->0
                } else {
                    start.texel(x, y)
                }),
        decreases bytes@.len() - index,
    {
        proof {
            lemma_split(index as int, width as int, height as int);
        }
        let x: u32 = texels.min.x + (index % width as usize) as u32;
        let y: u32 = texels.min.y + (index / width as usize) as u32;
        let ghost before = *raster;
        if let Some(byte) = bytes[index] {
            raster.set(x, y, byte);
        }
        proof {
            lemma_cell(x as int, y as int, start.size.x as int, start.size.y as int);
            assert forall|a: int, b: int| start.covers(a, b) implies #[trigger] raster.texel(a, b)
                == (if texels.holds(a, b) && slot(texels, a, b) < index + 1 && bytes@[slot(
                texels,
                a,
                b,
            )] is Some {
                bytes@[slot(texels, a, b)]->0
            } else {
                start.texel(a, b)
            }) by {
                lemma_cell(a, b, start.size.x as int, start.size.y as int);
                let old_value = before.texel(a, b);
                if a == x && b == y {
                    assert(slot(texels, a, b) == index);
                } else {
                    assert(cell(a, b, start.size.x as int) != cell(
                        x as int,
                        y as int,
                        start.size.x as int,
                    ));
                    assert(raster.texel(a, b) == old_value);
                    if texels.holds(a, b) {
                        lemma_cell(
                            a - texels.min.x,
                            b - texels.min.y,
                            width as int,
                            height as int,
                        );
                        assert(slot(texels, a, b) != index);
                    }
                }
            }
        }
        index = index + 1;
    }
    proof {
        assert forall|x: int, y: int| start.covers(x, y) implies #[trigger] raster.texel(x, y) == (
        if texels.holds(x, y) && bytes@[slot(texels, x, y)] is Some {
            bytes@[slot(texels, x, y)]->0
        } else {
            start.texel(x, y)
        }) by {
            if texels.holds(x, y) {
                lemma_cell(x - texels.min.x, y - texels.min.y, width as int, height as int);
            }
        }
    }
}

impl Brush {
    /// Applies a stroke to a raster and returns the cells it may have moved.
    ///
    /// `low` and `end` bound the texels it may reach, and `bytes` holds for each of those, row
    /// by row, what the stroke makes of it, or nothing where it does not reach it; any other
    /// number of bytes is no stroke.
    ///
    /// The returned rectangle is in document cells and rounded outwards: every cell whose
    /// value changed is inside it. Empty when the stroke touched nothing.
    pub fn stroke(
        &self,
        raster: &mut Raster<u8>,
        size: UVec2,
        points: usize,
        low: (i64, i64),
        end: (i64, i64),
        bytes: &Vec<Option<u8>>,
    ) -> (rect: CellRect)
        requires
            old(raster).wf(),
        ensures
            match reached(*self, old(raster).size, size, points as int, low, end) {
                Some(texels) if bytes@.len() == texels.columns() * texels.lines() => laid_down(
                    *old(raster),
                    *final(raster),
                    texels,
                    bytes@,
                ) && covers_texels(rect, texels, old(raster).size, size),
                _ => *final(raster) == *old(raster) && rect == (CellRect {
                    min: UVec2 { x: 0, y: 0 },
                    max: UVec2 { x: 0, y: 0 },
                }),
            },
    {
        let resolution: UVec2 = raster.size;
        match self.touched_texels(resolution, size, points, low, end) {
            Some(texels) => {
                let width: u64 = texels.width() as u64;
                let height: u64 = texels.height() as u64;
                proof {
                    assert(0 <= width * height <= u32::MAX * u32::MAX) by (nonlinear_arith)
                        requires
                            width <= u32::MAX,
                            height <= u32::MAX,
                    ;
                }
                if bytes.len() as u64 != width * height {
                    return CellRect::empty();
                }
                lay_down(raster, texels, bytes);
                covered_cells(texels, resolution, size)
            },
            None => CellRect::empty(),
        }
    }
}

/// Every cell whose value a stroke changed is inside the rectangle it reports.
pub proof fn law_every_cell_a_stroke_moved_is_reported(
    before: Raster<u8>,
    after: Raster<u8>,
    texels: CellRect,
    bytes: Seq<Option<u8>>,
    size: UVec2,
    rect: CellRect,
    x: int,
    y: int,
)
    requires
        before.wf(),
        !before.size.vacant(),
        laid_down(before, after, texels, bytes),
        covers_texels(rect, texels, before.size, size),
        0 <= x < size.x,
        0 <= y < size.y,
        before.covers(
            texel_over(x, before.size.x as int, size.x as int),
            texel_over(y, before.size.y as int, size.y as int),
        ),
        after.texel(
            texel_over(x, before.size.x as int, size.x as int),
            texel_over(y, before.size.y as int, size.y as int),
        ) != before.texel(
            texel_over(x, before.size.x as int, size.x as int),
            texel_over(y, before.size.y as int, size.y as int),
        ),
    ensures
        rect.holds(x, y),
{
    law_every_cell_of_a_touched_texel_is_reported(
        x,
        texels.min.x as int,
        texels.max.x as int,
        before.size.x as int,
        size.x as int,
    );
    law_every_cell_of_a_touched_texel_is_reported(
        y,
        texels.min.y as int,
        texels.max.y as int,
        before.size.y as int,
        size.y as int,
    );
}

} // verus!
