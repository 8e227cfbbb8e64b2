//! A single rectangular grid with row-major flat indexing.

use vstd::prelude::*;

use crate::rng::RngSource;

verus! {

/// A cell position inside one rectangular grid.
#[derive(Debug, Hash, PartialEq, Eq, Clone, Copy, Structural)]
pub struct PixelLoc {
    pub i: i32,
    pub j: i32,
}

/// The geometry of one rectangular grid; it owns no pixels, only bounds.
#[derive(Debug, Clone, Copy)]
pub struct RectangularArray {
    pub width: u32,
    pub height: u32,
}

impl RectangularArray {
    /// Bounds small enough that flat indices fit the 32-bit arithmetic the
    /// index formulas use.
    pub open spec fn well_formed(self) -> bool {
        &&& self.width <= i32::MAX
        &&& self.height <= i32::MAX
        &&& self.width * self.height <= u32::MAX
    }

    pub open spec fn spec_valid(self, loc: PixelLoc) -> bool {
        &&& 0 <= loc.i < self.width
        &&& 0 <= loc.j < self.height
    }

    /// Row-major flat index of a valid location.
    pub open spec fn spec_index_of(self, loc: PixelLoc) -> int {
        loc.j * self.width + loc.i
    }

    pub open spec fn spec_len(self) -> int {
        self.width * self.height
    }

    pub fn is_valid(&self, loc: PixelLoc) -> (r: bool)
        ensures
            r == self.spec_valid(loc),
    {
        (loc.i >= 0)
            && (loc.j >= 0)
            && ((loc.i as i64) < (self.width as i64))
            && ((loc.j as i64) < (self.height as i64))
    }

    pub fn get_index(&self, loc: PixelLoc) -> (r: Option<usize>)
        requires
            self.well_formed(),
        ensures
            match r {
                Some(k) => self.spec_valid(loc) && k == self.spec_index_of(loc)
                    && k < self.spec_len(),
                None => !self.spec_valid(loc),
            },
    {
        if self.is_valid(loc) {
            proof {
                lemma_index_in_range(
                    self.width as int,
                    self.height as int,
                    loc.i as int,
                    loc.j as int,
                );
            }
            Some((loc.j as usize) * (self.width as usize) + (loc.i as usize))
        } else {
            None
        }
    }

    /// A location drawn uniformly from the grid; for a degenerate grid a
    /// fixed out-of-bounds placeholder comes back instead.
    pub fn get_random_loc(&self, rng: &mut RngSource) -> (r: PixelLoc)
        ensures
            self.well_formed() && self.width > 0 && self.height > 0 ==> self.spec_valid(r),
    {
        if self.width == 0 || self.height == 0 {
            return PixelLoc { i: 0, j: -1 };
        }
        if self.width > i32::MAX as u32 || self.height > i32::MAX as u32 {
            return PixelLoc { i: 0, j: -1 };
        }
        let i = rng.gen_index(self.width as usize);
        let j = rng.gen_index(self.height as usize);
        PixelLoc { i: i as i32, j: j as i32 }
    }

    /// The location whose flat index is `index`, or `None` past the end.
    pub fn get_loc(&self, index: usize) -> (r: Option<PixelLoc>)
        requires
            self.well_formed(),
        ensures
            match r {
                Some(loc) => index < self.spec_len() && self.spec_valid(loc)
                    && self.spec_index_of(loc) == index,
                None => index >= self.spec_len(),
            },
    {
        if index < self.len() {
            proof {
                lemma_loc_of_index(self.width as int, self.height as int, index as int);
            }
            let w = self.width as usize;
            let loc = PixelLoc { i: (index % w) as i32, j: (index / w) as i32 };
            Some(loc)
        } else {
            None
        }
    }

    pub fn len(&self) -> (r: usize)
        requires
            self.well_formed(),
        ensures
            r == self.spec_len(),
    {
        proof {
            lemma_mul_fits(self.width as int, self.height as int);
        }
        (self.width as usize) * (self.height as usize)
    }
}

/// A valid cell's row-major index stays below the grid's area.
pub(crate) proof fn lemma_index_in_range(w: int, h: int, i: int, j: int)
    by (nonlinear_arith)
    requires
        0 <= i < w,
        0 <= j < h,
    ensures
        0 <= j * w + i < w * h,
{
}

/// Splitting a flat index into quotient and remainder by the width lands on
/// a valid cell that maps back to the same index.
pub(crate) proof fn lemma_loc_of_index(w: int, h: int, index: int)
    by (nonlinear_arith)
    requires
        0 <= w,
        0 <= h,
        0 <= index < w * h,
    ensures
        0 <= index % w < w,
        0 <= index / w < h,
        (index / w) * w + (index % w) == index,
{
}

pub(crate) proof fn lemma_mul_fits(w: int, h: int)
    by (nonlinear_arith)
    requires
        0 <= w,
        0 <= h,
    ensures
        0 <= w * h,
        w > 0 && h > 0 ==> w <= w * h && h <= w * h,
{
}

} // verus!
