//! A fixed-size boolean occupancy buffer with a centered addressing mode.
//!
//! Raw addressing (`get`, `get_mut`) works on `[0, width) x [0, height)`;
//! windowed addressing (`v_get`, `v_get_mut`) first translates a logical
//! coordinate by the center offset `(width / 2, height / 2)`, so the logical
//! origin of an odd-sized grid is the buffer's exact center cell.  Any
//! coordinate that falls outside the buffer reads as absent, never an error.
use vstd::prelude::*;

verus! {

use vstd::pervasive::VecAdditionalExecFns;
use crate::vector::Vector;

#[derive(Clone, PartialEq, PartialOrd, Debug)]
pub struct Grid {
    width: usize,
    height: usize,
    v_off: Vector,
    grid: Vec<bool>,
}

impl Grid {
    pub closed spec fn spec_width(&self) -> int {
        self.width as int
    }

    pub closed spec fn spec_height(&self) -> int {
        self.height as int
    }

    /// The buffer contents, row-major.
    pub closed spec fn cells(&self) -> Seq<bool> {
        self.grid@
    }

    /// The center offset added to logical coordinates.
    pub closed spec fn off(&self) -> Vector {
        self.v_off
    }

    /// Well-formedness: the buffer has exactly `width * height` cells and the
    /// offset points at the center.
    pub open spec fn inv(&self) -> bool {
        &&& self.cells().len() == self.spec_width() * self.spec_height()
        &&& self.cells().len() <= usize::MAX
        &&& 0 <= self.spec_width() <= i32::MAX
        &&& 0 <= self.spec_height() <= i32::MAX
        &&& self.off().x == self.spec_width() / 2
        &&& self.off().y == self.spec_height() / 2
    }

    /// The cell at raw coordinates, or `None` outside the buffer.
    pub open spec fn spec_get(&self, x: int, y: int) -> Option<bool> {
        if 0 <= x < self.spec_width() && 0 <= y < self.spec_height() {
            Some(self.cells()[x + y * self.spec_width()])
        } else {
            None
        }
    }

    /// The cell at a logical coordinate: translated by the center offset,
    /// then looked up as raw coordinates.
    pub open spec fn spec_v_get(&self, pos: Vector) -> Option<bool> {
        self.spec_get(pos.x + self.off().x, pos.y + self.off().y)
    }

    /// A cleared `width` by `height` buffer.
    pub fn new(width: usize, height: usize) -> (r: Grid)
        requires
            width * height <= usize::MAX,
            width <= i32::MAX,
            height <= i32::MAX,
        ensures
            r.inv(),
            r.spec_width() == width,
            r.spec_height() == height,
            r.cells().len() == width * height,
            forall|i: int| 0 <= i < r.cells().len() ==> r.cells()[i] == false,
    {
        let n: usize = width * height;
        let mut cells: Vec<bool> = Vec::new();
        while cells.len() < n
            invariant
                cells@.len() <= n,
                forall|i: int| 0 <= i < cells@.len() ==> cells@[i] == false,
            decreases n - cells@.len(),
        {
            cells.push(false);
        }
        Grid {
            width,
            height,
            v_off: Vector { x: (width / 2) as i32, y: (height / 2) as i32 },
            grid: cells,
        }
    }

    /// Raw lookup: `Some` cell value inside the buffer, `None` outside.
    pub fn get(&self, x: usize, y: usize) -> (r: Option<bool>)
        requires
            self.inv(),
        ensures
            r == self.spec_get(x as int, y as int),
    {
        if x < self.width && y < self.height {
            proof {
                lemma_index_in_bounds(x as int, y as int, self.spec_width(), self.spec_height());
            }
            Some(self.grid[x + y * self.width])
        } else {
            None
        }
    }

    /// Windowed lookup: translates `pos` by the center offset first.
    pub fn v_get(&self, pos: Vector) -> (r: Option<bool>)
        requires
            self.inv(),
        ensures
            r == self.spec_v_get(pos),
    {
        let ix: i64 = pos.x as i64 + self.v_off.x as i64;
        let iy: i64 = pos.y as i64 + self.v_off.y as i64;
        if 0 <= ix && ix < self.width as i64 && 0 <= iy && iy < self.height as i64 {
            self.get(ix as usize, iy as usize)
        } else {
            None
        }
    }

    /// Raw write: stores `value` if the cell exists and reports whether it
    /// did; out-of-bounds writes change nothing.
    pub fn get_mut(&mut self, x: usize, y: usize, value: bool) -> (r: bool)
        requires
            old(self).inv(),
        ensures
            final(self).inv(),
            final(self).spec_width() == old(self).spec_width(),
            final(self).spec_height() == old(self).spec_height(),
            final(self).off() == old(self).off(),
            r == (old(self).spec_get(x as int, y as int) is Some),
            r ==> final(self).cells() == old(self).cells().update(
                x + y * old(self).spec_width(),
                value,
            ),
            !r ==> final(self).cells() == old(self).cells(),
    {
        if x < self.width && y < self.height {
            proof {
                lemma_index_in_bounds(x as int, y as int, self.spec_width(), self.spec_height());
            }
            self.grid.set(x + y * self.width, value);
            true
        } else {
            false
        }
    }

    /// Windowed write: translates `pos` by the center offset first.
    pub fn v_get_mut(&mut self, pos: Vector, value: bool) -> (r: bool)
        requires
            old(self).inv(),
        ensures
            final(self).inv(),
            final(self).spec_width() == old(self).spec_width(),
            final(self).spec_height() == old(self).spec_height(),
            final(self).off() == old(self).off(),
            r == (old(self).spec_v_get(pos) is Some),
            r ==> final(self).cells() == old(self).cells().update(
                (pos.x + old(self).off().x) + (pos.y + old(self).off().y) * old(
                    self,
                ).spec_width(),
                value,
            ),
            !r ==> final(self).cells() == old(self).cells(),
    {
        let ix: i64 = pos.x as i64 + self.v_off.x as i64;
        let iy: i64 = pos.y as i64 + self.v_off.y as i64;
        if 0 <= ix && ix < self.width as i64 && 0 <= iy && iy < self.height as i64 {
            self.get_mut(ix as usize, iy as usize, value)
        } else {
            false
        }
    }

    /// Resets every cell to `false`; the shape is unchanged.
    pub fn clear(&mut self)
        requires
            old(self).inv(),
        ensures
            final(self).inv(),
            final(self).spec_width() == old(self).spec_width(),
            final(self).spec_height() == old(self).spec_height(),
            final(self).off() == old(self).off(),
            final(self).cells().len() == old(self).cells().len(),
            forall|i: int| 0 <= i < final(self).cells().len() ==> final(self).cells()[i] == false,
    {
        let n = self.grid.len();
        let mut i: usize = 0;
        while i < n
            invariant
                n == self.grid@.len(),
                0 <= i <= n,
                self.width == old(self).width,
                self.height == old(self).height,
                self.v_off == old(self).v_off,
                old(self).inv(),
                self.cells().len() == old(self).cells().len(),
                forall|j: int| 0 <= j < i ==> self.grid@[j] == false,
            decreases n - i,
        {
            self.grid.set(i, false);
            i = i + 1;
        }
    }
}

/// Row-major indices of in-bounds coordinates stay inside the buffer.
proof fn lemma_index_in_bounds(x: int, y: int, w: int, h: int)
    requires
        0 <= x < w,
        0 <= y < h,
    ensures
        0 <= x + y * w < w * h,
        y * w <= w * h,
{
    assert(x + y * w < w * h && 0 <= y * w && y * w <= w * h) by (nonlinear_arith)
        requires
            0 <= x < w,
            0 <= y < h,
    ;
}


/// Grid addressing: on a buffer of odd width and height the logical origin
/// resolves to the buffer's exact center cell.
pub proof fn lemma_origin_is_center(g: Grid)
    requires
        g.inv(),
        g.spec_width() % 2 == 1,
        g.spec_height() % 2 == 1,
    ensures
        g.spec_v_get(Vector { x: 0, y: 0 }) == Some(
            g.cells()[g.spec_width() / 2 + (g.spec_height() / 2) * g.spec_width()],
        ),
{
    let w = g.spec_width();
    let h = g.spec_height();
    assert(0 <= w / 2 < w) by (nonlinear_arith)
        requires
            w >= 1,
    ;
    assert(0 <= h / 2 < h) by (nonlinear_arith)
        requires
            h >= 1,
    ;
}

/// Grid addressing: any logical coordinate whose translated offset falls
/// outside the buffer reads as absent — there is no failing lookup.
pub proof fn lemma_out_of_window_absent(g: Grid, pos: Vector)
    requires
        g.inv(),
        !(0 <= pos.x + g.off().x < g.spec_width()) || !(0 <= pos.y + g.off().y < g.spec_height()),
    ensures
        g.spec_v_get(pos) is None,
{
}

} // verus!
