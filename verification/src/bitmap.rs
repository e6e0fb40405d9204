//! Single-channel 8-bit images stored row by row.
use vstd::prelude::*;

verus! {

/// Largest accepted width or height, in pixels.
pub const MAX_DIM: u32 = 1048576;

/// A grey-level image: `pixels[y * width + x]` is the value at column `x`, row `y`.
#[derive(Debug, Clone)]
pub struct Bitmap {
    pub width: u32,
    pub height: u32,
    pub pixels: Vec<u8>,
}

/// Row-major index of `(x, y)` in an image of the given width.
pub open spec fn pixel_index(width: int, x: int, y: int) -> int {
    y * width + x
}

/// Row-major indices of distinct in-range pixels are distinct and in range.
pub proof fn lemma_pixel_index(width: int, height: int, x: int, y: int)
    requires
        0 <= x < width,
        0 <= y < height,
    ensures
        0 <= pixel_index(width, x, y) < width * height,
        pixel_index(width, x, y) + width - x <= width * height,
{
    assert(0 <= y * width + x < width * height) by (nonlinear_arith)
        requires 0 <= x < width, 0 <= y < height;
    assert(y * width + width <= width * height) by (nonlinear_arith)
        requires 0 <= x < width, 0 <= y < height;
}

impl Bitmap {
    /// Dimensions within bounds and one value per pixel.
    pub open spec fn wf(&self) -> bool {
        &&& self.width <= MAX_DIM
        &&& self.height <= MAX_DIM
        &&& self.pixels@.len() == self.width * self.height
        &&& self.pixels@.len() < usize::MAX
    }

    /// `(x, y)` lies in the image.
    pub open spec fn in_bounds(&self, x: int, y: int) -> bool {
        0 <= x < self.width && 0 <= y < self.height
    }

    /// The value at column `x`, row `y`.
    pub open spec fn px(&self, x: int, y: int) -> u8 {
        self.pixels@[pixel_index(self.width as int, x, y)]
    }

    /// An image of the given size filled with `value`.
    pub fn filled(width: u32, height: u32, value: u8) -> (b: Bitmap)
        requires
            width <= MAX_DIM,
            height <= MAX_DIM,
            width * height < usize::MAX,
        ensures
            b.wf(),
            b.width == width,
            b.height == height,
            forall|i: int| 0 <= i < b.pixels@.len() ==> b.pixels@[i] == value,
    {
        assert(width * height <= MAX_DIM * MAX_DIM) by (nonlinear_arith)
            requires width <= MAX_DIM, height <= MAX_DIM;
        let n: u64 = (width as u64) * (height as u64);
        let mut pixels: Vec<u8> = Vec::new();
        let mut i: u64 = 0;
        while i < n
            invariant
                i <= n,
                n == width * height,
                n <= MAX_DIM * MAX_DIM,
                pixels@.len() == i,
                forall|j: int| 0 <= j < i ==> pixels@[j] == value,
            decreases n - i,
        {
            pixels.push(value);
            i = i + 1;
        }
        Bitmap { width, height, pixels }
    }

    /// The value at column `x`, row `y`.
    pub fn get_pixel(&self, x: u32, y: u32) -> (v: u8)
        requires
            self.wf(),
            self.in_bounds(x as int, y as int),
        ensures
            v == self.px(x as int, y as int),
    {
        proof {
            lemma_pixel_index(self.width as int, self.height as int, x as int, y as int);
        }
        let n = self.pixels.len();
        assert((y as int) * (self.width as int) <= pixel_index(self.width as int, x as int, y as int)) by (nonlinear_arith)
            requires 0 <= x;
        let idx: usize = (y as usize) * (self.width as usize) + (x as usize);
        self.pixels[idx]
    }

    /// Sets the value at column `x`, row `y`.
    pub fn put_pixel(&mut self, x: u32, y: u32, v: u8)
        requires
            old(self).wf(),
            old(self).in_bounds(x as int, y as int),
        ensures
            final(self).wf(),
            final(self).width == old(self).width,
            final(self).height == old(self).height,
            final(self).px(x as int, y as int) == v,
            forall|x2: int, y2: int|
                final(self).in_bounds(x2, y2) && (x2 != x || y2 != y) ==> #[trigger] final(self).px(
                    x2,
                    y2,
                ) == old(self).px(x2, y2),
    {
        proof {
            lemma_pixel_index(self.width as int, self.height as int, x as int, y as int);
        }
        let n = self.pixels.len();
        assert((y as int) * (self.width as int) <= pixel_index(self.width as int, x as int, y as int)) by (nonlinear_arith)
            requires 0 <= x;
        let idx: usize = (y as usize) * (self.width as usize) + (x as usize);
        self.pixels.set(idx, v);
        proof {
            assert forall|x2: int, y2: int|
                self.in_bounds(x2, y2) && (x2 != x || y2 != y) implies #[trigger] self.px(x2, y2)
                == old(self).px(x2, y2) by {
                lemma_pixel_index(self.width as int, self.height as int, x2, y2);
                lemma_index_injective(self.width as int, x as int, y as int, x2, y2);
            }
        }
    }
}

/// Distinct in-range pixels have distinct row-major indices.
pub proof fn lemma_index_injective(width: int, x1: int, y1: int, x2: int, y2: int)
    requires
        0 <= x1 < width,
        0 <= x2 < width,
        0 <= y1,
        0 <= y2,
        x1 != x2 || y1 != y2,
    ensures
        pixel_index(width, x1, y1) != pixel_index(width, x2, y2),
{
    if y1 < y2 {
        assert(y1 * width + x1 < y2 * width + x2) by (nonlinear_arith)
            requires 0 <= x1 < width, 0 <= x2 < width, y1 < y2;
    } else if y2 < y1 {
        assert(y2 * width + x2 < y1 * width + x1) by (nonlinear_arith)
            requires 0 <= x1 < width, 0 <= x2 < width, y2 < y1;
    }
}

} // verus!
