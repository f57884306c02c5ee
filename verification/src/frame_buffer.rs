//! A 2-D character grid holding one rendered frame, stored row-major as a
//! flat vector of code points.

use vstd::prelude::*;

verus! {

/// The code point a freshly allocated cell is filled with.
pub const FILL_CODE_POINT: u32 = 97;

/// A rendered frame: `height` rows of `width` cells, row-major.
pub struct FrameBuffer {
    height: u32,
    width: u32,
    buf: Vec<u32>,
}

impl FrameBuffer {
    #[verifier::type_invariant]
    spec fn inv(self) -> bool {
        &&& self.width as int * self.height as int <= u32::MAX as int
        &&& self.buf@.len() == self.width as int * self.height as int
    }

    /// The grid's width in cells.
    pub closed spec fn spec_width(&self) -> u32 {
        self.width
    }

    /// The grid's height in cells.
    pub closed spec fn spec_height(&self) -> u32 {
        self.height
    }

    /// The cells of the grid, row-major.
    pub closed spec fn cells(&self) -> Seq<u32> {
        self.buf@
    }

    /// A fresh grid of the given dimensions, every cell holding the fill
    /// code point.
    pub fn new(height: u32, width: u32) -> (fb: FrameBuffer)
        requires
            width as int * height as int <= u32::MAX as int,
        ensures
            fb.spec_height() == height,
            fb.spec_width() == width,
            fb.cells().len() == width as int * height as int,
            forall|i: int| 0 <= i < fb.cells().len() ==> fb.cells()[i] == FILL_CODE_POINT,
    {
        let mut fb = FrameBuffer { width: 0, height: 0, buf: Vec::new() };
        fb.set_dimensions(height, width);
        fb
    }

    /// The current dimensions, as `(width, height)`.
    pub fn dimensions(&self) -> (d: (u32, u32))
        ensures
            d.0 == self.spec_width(),
            d.1 == self.spec_height(),
    {
        (self.width, self.height)
    }

    /// Resizes the grid to the given dimensions: cells that existed before
    /// keep their contents, newly allocated cells hold the fill code point.
    pub fn set_dimensions(&mut self, height: u32, width: u32)
        requires
            width as int * height as int <= u32::MAX as int,
        ensures
            final(self).spec_height() == height,
            final(self).spec_width() == width,
            final(self).cells().len() == width as int * height as int,
            forall|i: int|
                0 <= i < final(self).cells().len() ==> final(self).cells()[i] == (if i < old(
                    self,
                ).cells().len() {
                    old(self).cells()[i]
                } else {
                    FILL_CODE_POINT
                }),
    {
        let n: usize = (width as usize) * (height as usize);
        let mut new_buf: Vec<u32> = Vec::new();
        let mut i: usize = 0;
        while i < n
            invariant
                i <= n,
                n == width as int * height as int,
                new_buf@.len() == i,
                forall|j: int|
                    0 <= j < i ==> new_buf@[j] == (if j < self.buf@.len() {
                        self.buf@[j]
                    } else {
                        FILL_CODE_POINT
                    }),
            decreases n - i,
        {
            if i < self.buf.len() {
                let v = self.buf[i];
                new_buf.push(v);
            } else {
                new_buf.push(FILL_CODE_POINT);
            }
            i = i + 1;
        }
        *self = FrameBuffer { height, width, buf: new_buf };
    }

    /// The cell at row `y`, column `x`.
    pub fn get(&self, y: u32, x: u32) -> (v: u32)
        requires
            x < self.spec_width(),
            y < self.spec_height(),
        ensures
            v == self.cells()[y as int * self.spec_width() as int + x as int],
    {
        proof {
            use_type_invariant(self);
            assert((y as int) * (self.width as int) + (x as int) < (self.width as int) * (
            self.height as int)) by (nonlinear_arith)
                requires
                    (y as int) < (self.height as int),
                    (x as int) < (self.width as int),
                    0 <= y as int,
                    0 <= x as int,
                    0 <= self.width as int,
            ;
        }
        let idx = y * self.width + x;
        self.buf[idx as usize]
    }
}

} // verus!
