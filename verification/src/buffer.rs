//! The image buffer: a 2D grid of 8-bit intensity samples, and its
//! mathematical model `GImage` (a map from in-bounds coordinates to values).

use vstd::prelude::*;

verus! {

/// Mathematical model of an image: dimensions plus a map from every
/// in-bounds coordinate pair `(x, y)` to its intensity.
#[verifier::ext_equal]
pub struct GImage {
    pub width: int,
    pub height: int,
    pub pix: Map<(int, int), u8>,
}

impl GImage {
    /// `(x, y)` lies inside the image.
    pub open spec fn in_bounds(self, x: int, y: int) -> bool {
        0 <= x < self.width && 0 <= y < self.height
    }

    /// The domain of `pix` is exactly the set of in-bounds coordinates.
    pub open spec fn wf(self) -> bool {
        &&& self.width >= 0
        &&& self.height >= 0
        &&& forall|p: (int, int)|
            #[trigger] self.pix.dom().contains(p) <==> self.in_bounds(p.0, p.1)
    }

    /// Same dimensions as another image.
    pub open spec fn same_dims(self, other: GImage) -> bool {
        self.width == other.width && self.height == other.height
    }
}

/// Row-major index of `(x, y)` in a grid `w` samples wide.
pub open spec fn rm(w: int, x: int, y: int) -> int {
    y * w + x
}

pub proof fn lemma_rm_bounds(w: int, h: int, x: int, y: int)
    requires
        0 <= x < w,
        0 <= y < h,
    ensures
        0 <= rm(w, x, y) < w * h,
{
    assert(0 <= y * w + x < w * h) by (nonlinear_arith)
        requires
            0 <= x < w,
            0 <= y < h,
    ;
}

pub proof fn lemma_rm_inj(w: int, h: int, x1: int, y1: int, x2: int, y2: int)
    requires
        0 <= x1 < w,
        0 <= y1 < h,
        0 <= x2 < w,
        0 <= y2 < h,
        rm(w, x1, y1) == rm(w, x2, y2),
    ensures
        x1 == x2,
        y1 == y2,
{
    assert(x1 == x2 && y1 == y2) by (nonlinear_arith)
        requires
            0 <= x1 < w,
            0 <= y1 < h,
            0 <= x2 < w,
            0 <= y2 < h,
            y1 * w + x1 == y2 * w + x2,
    ;
}

/// An 8-bit single-channel raster image, origin at `(0, 0)` top-left,
/// stored row-major.
pub struct Image {
    width: usize,
    height: usize,
    pixels: Vec<u8>,
}

impl View for Image {
    type V = GImage;

    closed spec fn view(&self) -> GImage {
        GImage {
            width: self.width as int,
            height: self.height as int,
            pix: Map::new(
                (|p: (int, int)| 0 <= p.0 < self.width && 0 <= p.1 < self.height),
                (|p: (int, int)| self.pixels@[rm(self.width as int, p.0, p.1)]),
            ),
        }
    }
}

impl Image {
    /// The stored data covers exactly `width * height` samples, and the
    /// dimensions fit the bounds of a 32-bit raster.
    pub closed spec fn wf(&self) -> bool {
        &&& self.pixels.len() == (self.width as int) * (self.height as int)
        &&& self.width <= u32::MAX as usize
        &&& self.height <= u32::MAX as usize
    }

    /// The model of any `Image` is a well-formed grid.
    pub proof fn lemma_view_wf(&self)
        ensures
            self@.wf(),
    {
    }

    /// The dimensions of a well-formed image fit a 32-bit raster and their
    /// product fits the address space.
    pub proof fn lemma_area(&self)
        requires
            self.wf(),
        ensures
            self@.width <= u32::MAX,
            self@.height <= u32::MAX,
            self@.width * self@.height <= usize::MAX,
    {
    }

    /// A fresh all-zero image.
    pub fn new(width: usize, height: usize) -> (img: Image)
        requires
            width <= u32::MAX as usize,
            height <= u32::MAX as usize,
            width * height <= usize::MAX,
        ensures
            img.wf(),
            img@.width == width,
            img@.height == height,
            forall|x: int, y: int|
                img@.in_bounds(x, y) ==> img@.pix[(x, y)] == 0u8,
    {
        let mut pixels: Vec<u8> = Vec::new();
        let n: usize = width * height;
        let mut i: usize = 0;
        while i < n
            invariant
                i <= n,
                pixels.len() == i,
                forall|j: int| 0 <= j < i ==> pixels@[j] == 0u8,
            decreases n - i,
        {
            pixels.push(0u8);
            i = i + 1;
        }
        let img = Image { width, height, pixels };
        proof {
            assert forall|x: int, y: int| img@.in_bounds(x, y) implies img@.pix[(x, y)]
                == 0u8 by {
                lemma_rm_bounds(width as int, height as int, x, y);
            }
        }
        img
    }

    pub fn width(&self) -> (w: usize)
        ensures
            w == self@.width,
    {
        self.width
    }

    pub fn height(&self) -> (h: usize)
        ensures
            h == self@.height,
    {
        self.height
    }

    /// Read the sample at `(x, y)`.
    pub fn get_pixel(&self, x: usize, y: usize) -> (v: u8)
        requires
            self.wf(),
            x < self@.width,
            y < self@.height,
        ensures
            v == self@.pix[(x as int, y as int)],
    {
        proof {
            lemma_rm_bounds(self.width as int, self.height as int, x as int, y as int);
        }
        self.pixels[y * self.width + x]
    }

    /// Overwrite the sample at `(x, y)`.
    pub fn put_pixel(&mut self, x: usize, y: usize, v: u8)
        requires
            old(self).wf(),
            x < old(self)@.width,
            y < old(self)@.height,
        ensures
            final(self).wf(),
            final(self)@.width == old(self)@.width,
            final(self)@.height == old(self)@.height,
            final(self)@.pix == old(self)@.pix.insert((x as int, y as int), v),
    {
        proof {
            lemma_rm_bounds(self.width as int, self.height as int, x as int, y as int);
        }
        let i: usize = y * self.width + x;
        self.pixels[i] = v;
        proof {
            let w = self.width as int;
            let h = self.height as int;
            assert forall|p: (int, int)| #[trigger] final(self)@.pix.dom().contains(p)
                implies final(self)@.pix[p] == old(self)@.pix.insert(
                (x as int, y as int),
                v,
            )[p] by {
                lemma_rm_bounds(w, h, p.0, p.1);
                if p != (x as int, y as int) && rm(w, p.0, p.1) == rm(w, x as int, y as int) {
                    lemma_rm_inj(w, h, p.0, p.1, x as int, y as int);
                }
            }
            assert(final(self)@.pix =~= old(self)@.pix.insert((x as int, y as int), v));
        }
    }

    /// Build an image from its row-major sample data.
    pub fn from_pixels(width: usize, height: usize, pixels: Vec<u8>) -> (img: Image)
        requires
            width <= u32::MAX as usize,
            height <= u32::MAX as usize,
            pixels.len() == width * height,
        ensures
            img.wf(),
            img@.width == width,
            img@.height == height,
            forall|x: int, y: int|
                img@.in_bounds(x, y) ==> img@.pix[(x, y)] == pixels@[rm(width as int, x, y)],
    {
        Image { width, height, pixels }
    }
}

} // verus!
