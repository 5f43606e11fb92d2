//! Grids of texels and the extents they cover.

use vstd::prelude::*;
use crate::grid::{cell, lemma_cell};

verus! {

/// An extent or a position, in whole cells.
#[derive(Clone, Copy, Debug, PartialEq, Eq, Structural)]
pub struct UVec2 {
    /// Columns.
    pub x: u32,
    /// Rows.
    pub y: u32,
}

impl UVec2 {
    /// An extent of `x` columns and `y` rows.
    pub fn new(x: u32, y: u32) -> (size: UVec2)
        ensures
            size.x == x,
            size.y == y,
    {
        UVec2 { x, y }
    }

    /// The same extent both ways.
    pub fn splat(side: u32) -> (size: UVec2)
        ensures
            size.x == side,
            size.y == side,
    {
        UVec2 { x: side, y: side }
    }

    /// How many cells the extent holds.
    pub open spec fn area(self) -> int {
        self.x * self.y
    }

    /// Whether the extent holds no cell.
    pub open spec fn vacant(self) -> bool {
        self.x == 0 || self.y == 0
    }
}

/// A grid of texels in row-major order.
#[derive(Debug)]
pub struct Raster<T> {
    /// The extent in texels.
    pub size: UVec2,
    /// The texels, row by row.
    pub data: Vec<T>,
}

impl<T> Raster<T> {
    /// Whether the raster holds one texel for each place in its extent.
    pub open spec fn wf(&self) -> bool {
        self.data@.len() == self.size.area()
    }

    /// The texel in column `x` of row `y`.
    pub open spec fn texel(&self, x: int, y: int) -> T {
        self.data@[cell(x, y, self.size.x as int)]
    }

    /// Whether a texel is inside the extent.
    pub open spec fn covers(&self, x: int, y: int) -> bool {
        0 <= x < self.size.x && 0 <= y < self.size.y
    }

    /// A raster over `data`, or `None` where there is not one item per texel.
    pub fn from_vec(size: UVec2, data: Vec<T>) -> (raster: Option<Raster<T>>)
        ensures
            match raster {
                Some(raster) => raster.wf() && raster.size == size && raster.data == data,
                None => data@.len() != size.area(),
            },
    {
        proof {
            assert(0 <= size.x * size.y <= 0xffff_ffff * 0xffff_ffff) by (nonlinear_arith)
                requires
                    0 <= size.x <= 0xffff_ffff,
                    0 <= size.y <= 0xffff_ffff,
            ;
        }
        if data.len() as u64 == size.x as u64 * size.y as u64 {
            Some(Raster { size, data })
        } else {
            None
        }
    }

    /// A raster with no texels.
    pub fn empty() -> (raster: Raster<T>)
        ensures
            raster.wf(),
            raster.size == (UVec2 { x: 0, y: 0 }),
            raster.data@ == Seq::<T>::empty(),
    {
        Raster { size: UVec2 { x: 0, y: 0 }, data: Vec::new() }
    }

    /// Whether the raster has no texels.
    pub fn is_empty(&self) -> (answer: bool)
        ensures
            answer == (self.data@.len() == 0),
    {
        self.data.len() == 0
    }

    /// The texel in column `x` of row `y`, or `None` outside the extent.
    pub fn get(&self, x: u32, y: u32) -> (answer: Option<&T>)
        requires
            self.wf(),
        ensures
            match answer {
                Some(texel) => self.covers(x as int, y as int) && *texel == self.texel(
                    x as int,
                    y as int,
                ),
                None => !self.covers(x as int, y as int),
            },
    {
        if x >= self.size.x || y >= self.size.y {
            return None;
        }
        proof {
            lemma_cell(x as int, y as int, self.size.x as int, self.size.y as int);
            assert(self.data@.len() == self.data.len());
            assert(0 <= y * self.size.x) by (nonlinear_arith);
        }
        Some(&self.data[y as usize * self.size.x as usize + x as usize])
    }

    /// Writes the texel in column `x` of row `y`. Outside the extent nothing is written.
    pub fn set(&mut self, x: u32, y: u32, value: T)
        requires
            old(self).wf(),
        ensures
            final(self).wf(),
            final(self).size == old(self).size,
            final(self).data@ == (if old(self).covers(x as int, y as int) {
                old(self).data@.update(cell(x as int, y as int, old(self).size.x as int), value)
            } else {
                old(self).data@
            }),
    {
        if x >= self.size.x || y >= self.size.y {
            return;
        }
        proof {
            lemma_cell(x as int, y as int, self.size.x as int, self.size.y as int);
            assert(self.data@.len() == self.data.len());
            assert(0 <= y * self.size.x) by (nonlinear_arith);
        }
        self.data.set(y as usize * self.size.x as usize + x as usize, value);
    }
}

impl<T: Copy> Raster<T> {
    /// A raster of `size` texels, each of them `value`.
    pub fn new(size: UVec2, value: T) -> (raster: Raster<T>)
        requires
            size.area() <= usize::MAX,
        ensures
            raster.wf(),
            raster.size == size,
            forall|i: int| 0 <= i < raster.data@.len() ==> raster.data@[i] == value,
    {
        proof {
            assert(0 <= size.x * size.y) by (nonlinear_arith);
        }
        let count: usize = size.x as usize * size.y as usize;
        let mut data: Vec<T> = Vec::new();
        let mut i: usize = 0;
        while i < count
            invariant
                i <= count,
                data@.len() == i,
                forall|j: int| 0 <= j < i ==> data@[j] == value,
            decreases count - i,
        {
            data.push(value);
            i = i + 1;
        }
        Raster { size, data }
    }
}

impl<T: Copy> Clone for Raster<T> {
    fn clone(&self) -> (copy: Self)
        ensures
            copy.size == self.size,
            copy.data@ == self.data@,
    {
        let mut data: Vec<T> = Vec::new();
        let mut i: usize = 0;
        while i < self.data.len()
            invariant
                i <= self.data@.len(),
                data@ == self.data@.take(i as int),
            decreases self.data@.len() - i,
        {
            proof {
                assert(self.data@.take(i + 1) =~= self.data@.take(i as int).push(
                    self.data@[i as int],
                ));
            }
            data.push(self.data[i]);
            i = i + 1;
        }
        proof {
            assert(self.data@.take(i as int) =~= self.data@);
        }
        Raster { size: self.size, data }
    }
}

} // verus!
