//! The neighborhood-scan primitive (erosion / dilation) and the composite
//! operators (opening / closing) built by sequencing two scans.
//!
//! A scan replaces every pixel by the extremal intensity over its
//! structuring-element neighborhood, the pixel itself always included;
//! offsets that point outside the image are skipped.

use vstd::prelude::*;

use crate::buffer::GImage;
use crate::buffer::Image;

verus! {

/// Offset `k` of `offs` lands in bounds when applied at `(x, y)`.
pub open spec fn covers(g: GImage, offs: Seq<(i32, i32)>, x: int, y: int, k: int) -> bool {
    0 <= k < offs.len() && g.in_bounds(x + offs[k].0, y + offs[k].1)
}

/// The value a scan leaves at `(x, y)`: starting from the pixel's own
/// intensity, each in-bounds neighbor replaces the candidate when it is
/// strictly more extremal (strictly smaller when `is_min`, strictly larger
/// otherwise).
pub open spec fn scan_px(g: GImage, offs: Seq<(i32, i32)>, x: int, y: int, is_min: bool) -> u8
    decreases offs.len(),
{
    if offs.len() == 0 {
        g.pix[(x, y)]
    } else {
        let prev = scan_px(g, offs.drop_last(), x, y, is_min);
        let nx = x + offs.last().0;
        let ny = y + offs.last().1;
        if g.in_bounds(nx, ny) && (if is_min {
            g.pix[(nx, ny)] < prev
        } else {
            g.pix[(nx, ny)] > prev
        }) {
            g.pix[(nx, ny)]
        } else {
            prev
        }
    }
}

/// The image a full scan produces: every pixel holds its neighborhood
/// extremum; dimensions are unchanged.
pub open spec fn scanned(g: GImage, offs: Seq<(i32, i32)>, is_min: bool) -> GImage {
    GImage {
        width: g.width,
        height: g.height,
        pix: Map::new(
            (|p: (int, int)| 0 <= p.0 < g.width && 0 <= p.1 < g.height),
            (|p: (int, int)| scan_px(g, offs, p.0, p.1, is_min)),
        ),
    }
}

/// Erosion: pointwise minimum over the neighborhood.
pub open spec fn eroded(g: GImage, offs: Seq<(i32, i32)>) -> GImage {
    scanned(g, offs, true)
}

/// Dilation: pointwise maximum over the neighborhood.
pub open spec fn dilated(g: GImage, offs: Seq<(i32, i32)>) -> GImage {
    scanned(g, offs, false)
}

/// Opening: erosion followed by dilation.
pub open spec fn opening_of(g: GImage, offs: Seq<(i32, i32)>) -> GImage {
    dilated(eroded(g, offs), offs)
}

/// Closing: dilation followed by erosion.
pub open spec fn closing_of(g: GImage, offs: Seq<(i32, i32)>) -> GImage {
    eroded(dilated(g, offs), offs)
}

/// The pixelwise inversion `v |-> 255 - v`.
pub open spec fn inverted(g: GImage) -> GImage {
    GImage {
        width: g.width,
        height: g.height,
        pix: Map::new(
            (|p: (int, int)| 0 <= p.0 < g.width && 0 <= p.1 < g.height),
            (|p: (int, int)| (255 - g.pix[p]) as u8),
        ),
    }
}

/// `a` is pointwise at most `b` (same dimensions).
pub open spec fn le_img(a: GImage, b: GImage) -> bool {
    a.same_dims(b) && forall|x: int, y: int|
        a.in_bounds(x, y) ==> #[trigger] a.pix[(x, y)] <= #[trigger] b.pix[(x, y)]
}

/// Every offset of `offs` has its mirror image through the origin in `offs`.
pub open spec fn symmetric(offs: Seq<(i32, i32)>) -> bool {
    forall|k: int|
        0 <= k < offs.len() ==> offs[k].0 > i32::MIN && offs[k].1 > i32::MIN
            && offs.contains(((-(#[trigger] offs[k].0)) as i32, (-offs[k].1) as i32))
}

/// The scan result is at most (for a minimum scan) or at least (for a
/// maximum scan) every value it inspected: the center pixel and every
/// in-bounds neighbor.
pub proof fn lemma_scan_bounds(g: GImage, offs: Seq<(i32, i32)>, x: int, y: int, is_min: bool)
    requires
        g.wf(),
        g.in_bounds(x, y),
    ensures
        is_min ==> scan_px(g, offs, x, y, is_min) <= g.pix[(x, y)],
        !is_min ==> g.pix[(x, y)] <= scan_px(g, offs, x, y, is_min),
        forall|k: int|
            #[trigger] covers(g, offs, x, y, k) ==> if is_min {
                scan_px(g, offs, x, y, is_min) <= g.pix[(x + offs[k].0, y + offs[k].1)]
            } else {
                g.pix[(x + offs[k].0, y + offs[k].1)] <= scan_px(g, offs, x, y, is_min)
            },
    decreases offs.len(),
{
    if offs.len() > 0 {
        let rest = offs.drop_last();
        lemma_scan_bounds(g, rest, x, y, is_min);
        assert forall|k: int| #[trigger] covers(g, offs, x, y, k) implies if is_min {
            scan_px(g, offs, x, y, is_min) <= g.pix[(x + offs[k].0, y + offs[k].1)]
        } else {
            g.pix[(x + offs[k].0, y + offs[k].1)] <= scan_px(g, offs, x, y, is_min)
        } by {
            if k < offs.len() - 1 {
                assert(covers(g, rest, x, y, k));
            }
        }
    }
}

/// The scan result is attained: it equals the center pixel or the value of
/// some in-bounds neighbor.
pub proof fn lemma_scan_attained(g: GImage, offs: Seq<(i32, i32)>, x: int, y: int, is_min: bool)
    requires
        g.wf(),
        g.in_bounds(x, y),
    ensures
        scan_px(g, offs, x, y, is_min) == g.pix[(x, y)] || exists|k: int|
            #[trigger] covers(g, offs, x, y, k) && scan_px(g, offs, x, y, is_min) == g.pix[(x + offs[k].0, y + offs[k].1)],
    decreases offs.len(),
{
    if offs.len() > 0 {
        let rest = offs.drop_last();
        lemma_scan_attained(g, rest, x, y, is_min);
        let v = scan_px(g, offs, x, y, is_min);
        let prev = scan_px(g, rest, x, y, is_min);
        if v != prev {
            assert(covers(g, offs, x, y, offs.len() - 1));
        } else {
            if prev != g.pix[(x, y)] {
                let k = choose|k: int|
                    #[trigger] covers(g, rest, x, y, k) && prev == g.pix[(x + rest[k].0, y + rest[k].1)];
                assert(covers(g, offs, x, y, k));
            }
        }
    }
}

/// A scan is monotone: pointwise-ordered inputs give pointwise-ordered
/// outputs, for either extremum.
pub proof fn lemma_scan_monotone(
    a: GImage,
    b: GImage,
    offs: Seq<(i32, i32)>,
    x: int,
    y: int,
    is_min: bool,
)
    requires
        a.wf(),
        b.wf(),
        le_img(a, b),
        a.in_bounds(x, y),
    ensures
        scan_px(a, offs, x, y, is_min) <= scan_px(b, offs, x, y, is_min),
{
    if is_min {
        lemma_scan_attained(b, offs, x, y, is_min);
        lemma_scan_bounds(a, offs, x, y, is_min);
        if scan_px(b, offs, x, y, is_min) != b.pix[(x, y)] {
            let k = choose|k: int|
                #[trigger] covers(b, offs, x, y, k) && scan_px(b, offs, x, y, is_min) == b.pix[(x + offs[k].0, y + offs[k].1)];
            assert(covers(a, offs, x, y, k));
        }
    } else {
        lemma_scan_attained(a, offs, x, y, is_min);
        lemma_scan_bounds(b, offs, x, y, is_min);
        if scan_px(a, offs, x, y, is_min) != a.pix[(x, y)] {
            let k = choose|k: int|
                #[trigger] covers(a, offs, x, y, k) && scan_px(a, offs, x, y, is_min) == a.pix[(x + offs[k].0, y + offs[k].1)];
            assert(covers(b, offs, x, y, k));
        }
    }
}

/// The erosion / dilation primitive of the engine. `er_or_di` selects the
/// extremum: `true` erodes (minimum), `false` dilates (maximum). The output
/// has the input's dimensions and every output pixel is the extremum of the
/// in-bounds part of its neighborhood, the pixel itself included.
pub fn er_di(img: &Image, window_indices: &Vec<(i32, i32)>, er_or_di: bool) -> (out: Image)
    requires
        img.wf(),
    ensures
        out.wf(),
        out@ == scanned(img@, window_indices@, er_or_di),
{
    proof {
        img.lemma_area();
        img.lemma_view_wf();
    }
    let w: usize = img.width();
    let h: usize = img.height();
    let mut out = Image::new(w, h);
    for x in 0..w
        invariant
            img.wf(),
            img@.wf(),
            w == img@.width,
            h == img@.height,
            w <= u32::MAX as usize,
            h <= u32::MAX as usize,
            out.wf(),
            out@.width == w,
            out@.height == h,
            forall|px: int, py: int|
                0 <= px < w && 0 <= py < h && px < x ==> #[trigger] out@.pix[(px, py)] == scan_px(
                    img@,
                    window_indices@,
                    px,
                    py,
                    er_or_di,
                ),
    {
        for y in 0..h
            invariant
                img.wf(),
                img@.wf(),
                w == img@.width,
                h == img@.height,
                w <= u32::MAX as usize,
                h <= u32::MAX as usize,
                x < w,
                out.wf(),
                out@.width == w,
                out@.height == h,
                forall|px: int, py: int|
                    0 <= px < w && 0 <= py < h && (px < x || (px == x && py < y)) ==> #[trigger] out@.pix[(px, py)] == scan_px(img@, window_indices@, px, py, er_or_di),
        {
            let mut pixel: u8 = img.get_pixel(x, y);
            let n: usize = window_indices.len();
            for k in 0..n
                invariant
                    img.wf(),
                    img@.wf(),
                    w == img@.width,
                    h == img@.height,
                    w <= u32::MAX as usize,
                    h <= u32::MAX as usize,
                    x < w,
                    y < h,
                    n == window_indices@.len(),
                    pixel == scan_px(
                        img@,
                        window_indices@.take(k as int),
                        x as int,
                        y as int,
                        er_or_di,
                    ),
            {
                let (dx, dy) = window_indices[k];
                let nx: i64 = x as i64 + dx as i64;
                let ny: i64 = y as i64 + dy as i64;
                proof {
                    let s = window_indices@.take(k as int + 1);
                    assert(s.drop_last() =~= window_indices@.take(k as int));
                    assert(s.last() == window_indices@[k as int]);
                }
                if nx >= 0 && nx < w as i64 && ny >= 0 && ny < h as i64 {
                    let npx: u8 = img.get_pixel(nx as usize, ny as usize);
                    if (er_or_di && npx < pixel) || (!er_or_di && npx > pixel) {
                        pixel = npx;
                    }
                }
            }
            proof {
                assert(window_indices@.take(n as int) =~= window_indices@);
            }
            out.put_pixel(x, y, pixel);
        }
    }
    proof {
        out.lemma_view_wf();
        assert(out@ =~= scanned(img@, window_indices@, er_or_di));
    }
    out
}

/// Erosion: every pixel becomes the minimum intensity of its neighborhood.
pub fn erosion(img: &Image, window_indices: &Vec<(i32, i32)>) -> (out: Image)
    requires
        img.wf(),
    ensures
        out.wf(),
        out@ == eroded(img@, window_indices@),
{
    er_di(img, window_indices, true)
}

/// Dilation: every pixel becomes the maximum intensity of its neighborhood.
pub fn dilation(img: &Image, window_indices: &Vec<(i32, i32)>) -> (out: Image)
    requires
        img.wf(),
    ensures
        out.wf(),
        out@ == dilated(img@, window_indices@),
{
    er_di(img, window_indices, false)
}

/// Opening: erosion followed by dilation, both with the same element.
pub fn opening(img: &Image, window_indices: &Vec<(i32, i32)>) -> (out: Image)
    requires
        img.wf(),
    ensures
        out.wf(),
        out@ == opening_of(img@, window_indices@),
{
    dilation(&erosion(img, window_indices), window_indices)
}

/// Closing: dilation followed by erosion, both with the same element.
pub fn closing(img: &Image, window_indices: &Vec<(i32, i32)>) -> (out: Image)
    requires
        img.wf(),
    ensures
        out.wf(),
        out@ == closing_of(img@, window_indices@),
{
    erosion(&dilation(img, window_indices), window_indices)
}

/// Pixelwise inversion, `v |-> 255 - v`.
pub fn invert(img: &Image) -> (out: Image)
    requires
        img.wf(),
    ensures
        out.wf(),
        out@ == inverted(img@),
{
    proof {
        img.lemma_area();
        img.lemma_view_wf();
    }
    let w: usize = img.width();
    let h: usize = img.height();
    let mut out = Image::new(w, h);
    for x in 0..w
        invariant
            img.wf(),
            img@.wf(),
            w == img@.width,
            h == img@.height,
            w <= u32::MAX as usize,
            h <= u32::MAX as usize,
            out.wf(),
            out@.width == w,
            out@.height == h,
            forall|px: int, py: int|
                0 <= px < w && 0 <= py < h && px < x ==> #[trigger] out@.pix[(px, py)] == (255
                    - img@.pix[(px, py)]) as u8,
    {
        for y in 0..h
            invariant
                img.wf(),
                img@.wf(),
                w == img@.width,
                h == img@.height,
                w <= u32::MAX as usize,
                h <= u32::MAX as usize,
                x < w,
                out.wf(),
                out@.width == w,
                out@.height == h,
                forall|px: int, py: int|
                    0 <= px < w && 0 <= py < h && (px < x || (px == x && py < y)) ==> #[trigger] out@.pix[(px, py)] == (255 - img@.pix[(px, py)]) as u8,
        {
            let v: u8 = img.get_pixel(x, y);
            out.put_pixel(x, y, 255u8 - v);
        }
    }
    proof {
        out.lemma_view_wf();
        assert(out@ =~= inverted(img@));
    }
    out
}

} // verus!
