//! The pixel grid: a fixed-size 2-D array of opaque pixel values, stored
//! row-major. A grid is never mutated in place by the engine; each pass
//! allocates a fresh destination.

use vstd::prelude::*;
use vstd::pervasive::VecAdditionalExecFns;

verus! {

/// One pixel: three 8-bit channels. The engine copies pixels verbatim and
/// never inspects the channel data.
#[derive(Clone, Copy, PartialEq, Eq, Structural, Debug)]
pub struct Pixel {
    pub r: u8,
    pub g: u8,
    pub b: u8,
}

impl Pixel {
    /// The named neutral value a fresh destination grid is filled with
    /// before any pixel is written.
    pub fn black() -> (p: Pixel)
        ensures
            p == (Pixel { r: 0, g: 0, b: 0 }),
    {
        Pixel { r: 0, g: 0, b: 0 }
    }
}

/// The row-major cell index of a coordinate inside a `w` by `h` grid lies
/// inside the grid's storage.
pub proof fn lemma_row_major_in_range(x: int, y: int, w: int, h: int)
    requires
        0 <= x < w,
        0 <= y < h,
    ensures
        0 <= y * w,
        y * w + x < w * h,
{
    assert(0 <= y * w && y * w + x < w * h) by (nonlinear_arith)
        requires
            0 <= x < w,
            0 <= y < h,
    ;
}

/// A `width` by `height` grid of pixels. Dimensions are fixed on
/// construction; the bound of `0xFFFF_FFFF` on each matches the 32-bit
/// dimensions of common image containers and keeps every coordinate well
/// inside the 64-bit signed range.
pub struct Grid {
    width: usize,
    height: usize,
    pixels: Vec<Pixel>,
}

impl View for Grid {
    type V = Seq<Pixel>;

    /// The grid's pixels in row-major order: row `y`, column `x` sits at
    /// index `y * width + x`.
    closed spec fn view(&self) -> Seq<Pixel> {
        self.pixels@
    }
}

impl Grid {
    pub closed spec fn spec_width(&self) -> int {
        self.width as int
    }

    pub closed spec fn spec_height(&self) -> int {
        self.height as int
    }

    /// Well-formedness: both dimensions are non-zero (a zero-sized grid is
    /// a configuration error everywhere in this crate) and the storage
    /// holds exactly one pixel per cell.
    pub open spec fn wf(&self) -> bool {
        &&& 1 <= self.spec_width() <= 0xFFFF_FFFF
        &&& 1 <= self.spec_height() <= 0xFFFF_FFFF
        &&& self@.len() == self.spec_width() * self.spec_height()
        &&& self@.len() <= usize::MAX
    }

    /// The pixel at column `x`, row `y`.
    pub open spec fn spec_pixel(&self, x: int, y: int) -> Pixel
        recommends
            self.wf(),
            0 <= x < self.spec_width(),
            0 <= y < self.spec_height(),
    {
        self@[y * self.spec_width() + x]
    }

    /// A fresh grid with every cell set to `fill`.
    pub fn new(width: usize, height: usize, fill: Pixel) -> (g: Grid)
        requires
            1 <= width <= 0xFFFF_FFFF,
            1 <= height <= 0xFFFF_FFFF,
            width * height <= usize::MAX,
        ensures
            g.wf(),
            g.spec_width() == width,
            g.spec_height() == height,
            g@ == Seq::new((width * height) as nat, |i: int| fill),
    {
        let n = width * height;
        let mut pixels: Vec<Pixel> = Vec::new();
        let mut i: usize = 0;
        while i < n
            invariant
                i <= n,
                n == width * height,
                pixels@.len() == i,
                forall|k: int| 0 <= k < i ==> pixels@[k] == fill,
            decreases n - i,
        {
            pixels.push(fill);
            i = i + 1;
        }
        proof {
            assert(pixels@ =~= Seq::new((width * height) as nat, |i: int| fill));
        }
        Grid { width, height, pixels }
    }

    /// Builds a grid from a row-major pixel vector; `None` when a dimension
    /// is zero or out of range, or when the vector's length does not equal
    /// `width * height`.
    pub fn from_pixels(width: usize, height: usize, pixels: Vec<Pixel>) -> (r: Option<Grid>)
        ensures
            r is Some <==> {
                &&& 1 <= width <= 0xFFFF_FFFF
                &&& 1 <= height <= 0xFFFF_FFFF
                &&& pixels@.len() == width * height
            },
            r is Some ==> {
                let g = r.unwrap();
                &&& g.wf()
                &&& g.spec_width() == width
                &&& g.spec_height() == height
                &&& g@ == pixels@
            },
    {
        let len = pixels.len();
        if width < 1 || width > 0xFFFF_FFFF || height < 1 || height > 0xFFFF_FFFF {
            return None;
        }
        if let Some(n) = width.checked_mul(height) {
            if len == n {
                Some(Grid { width, height, pixels })
            } else {
                None
            }
        } else {
            // The product exceeds `usize`, so no vector can hold that
            // many pixels.
            proof {
                assert(pixels@.len() < width * height) by (nonlinear_arith)
                    requires
                        width * height > usize::MAX,
                        pixels@.len() <= usize::MAX,
                ;
            }
            None
        }
    }

    pub fn width(&self) -> (w: usize)
        ensures
            w == self.spec_width(),
    {
        self.width
    }

    pub fn height(&self) -> (h: usize)
        ensures
            h == self.spec_height(),
    {
        self.height
    }

    /// Reads the pixel at column `x`, row `y`.
    pub fn get(&self, x: usize, y: usize) -> (p: Pixel)
        requires
            self.wf(),
            x < self.spec_width(),
            y < self.spec_height(),
        ensures
            p == self.spec_pixel(x as int, y as int),
    {
        proof {
            lemma_row_major_in_range(x as int, y as int, self.spec_width(), self.spec_height());
        }
        let i = y * self.width + x;
        self.pixels[i]
    }

    /// Writes the pixel at column `x`, row `y`; every other cell is kept.
    pub fn set(&mut self, x: usize, y: usize, p: Pixel)
        requires
            old(self).wf(),
            x < old(self).spec_width(),
            y < old(self).spec_height(),
        ensures
            final(self).wf(),
            final(self).spec_width() == old(self).spec_width(),
            final(self).spec_height() == old(self).spec_height(),
            final(self)@ == old(self)@.update(y * old(self).spec_width() + x, p),
    {
        proof {
            lemma_row_major_in_range(x as int, y as int,
                old(self).spec_width(), old(self).spec_height());
        }
        let i = y * self.width + x;
        self.pixels.set(i, p);
    }

    /// An independent copy of the grid.
    pub fn duplicate(&self) -> (g: Grid)
        requires
            self.wf(),
        ensures
            g.wf(),
            g.spec_width() == self.spec_width(),
            g.spec_height() == self.spec_height(),
            g@ == self@,
    {
        let n = self.pixels.len();
        let mut pixels: Vec<Pixel> = Vec::new();
        let mut i: usize = 0;
        while i < n
            invariant
                i <= n,
                n == self@.len(),
                pixels@.len() == i,
                forall|k: int| 0 <= k < i ==> pixels@[k] == self@[k],
            decreases n - i,
        {
            pixels.push(self.pixels[i]);
            i = i + 1;
        }
        proof {
            assert(pixels@ =~= self@);
        }
        Grid { width: self.width, height: self.height, pixels }
    }

    /// Consumes the grid and hands its row-major pixels out.
    pub fn into_pixels(self) -> (v: Vec<Pixel>)
        ensures
            v@ == self@,
    {
        self.pixels
    }
}

} // verus!
