//! Opening and closing by reconstruction: a marker image is repeatedly
//! dilated (resp. eroded) with a fixed small connectivity neighborhood and
//! clamped against the mask, until a full pass changes no pixel.
//!
//! The connectivity used inside the iteration is the 4-connected plus
//! (cross) of radius 2, independent of the caller-chosen structuring
//! element.
//! Termination is proved from the monotone, bounded march of the marker
//! toward the mask: the total pointwise distance between marker and mask
//! strictly shrinks on every pass that changes a pixel.

use vstd::prelude::*;

use crate::buffer::GImage;
use crate::buffer::Image;
use crate::element::plus;
use crate::element::plus_seq;
use crate::laws::lemma_erosion_dilation_bounds;
use crate::laws::lemma_le_img_trans;
use crate::laws::lemma_scanned_wf;
use crate::morph::dilated;
use crate::morph::er_di;
use crate::morph::eroded;
use crate::morph::le_img;
use crate::morph::lemma_scan_bounds;
use crate::morph::lemma_scan_monotone;
use crate::morph::scanned;

verus! {

/// The candidate image clamped pointwise against the mask: minimum for
/// opening by reconstruction, maximum for closing by reconstruction.
pub open spec fn clamped(mask: GImage, g: GImage, keep_min: bool) -> GImage {
    GImage {
        width: mask.width,
        height: mask.height,
        pix: Map::new(
            (|p: (int, int)| 0 <= p.0 < mask.width && 0 <= p.1 < mask.height),
            (|p: (int, int)|
                if keep_min {
                    if mask.pix[p] < g.pix[p] {
                        mask.pix[p]
                    } else {
                        g.pix[p]
                    }
                } else {
                    if mask.pix[p] > g.pix[p] {
                        mask.pix[p]
                    } else {
                        g.pix[p]
                    }
                }),
        ),
    }
}

/// The fixed connectivity neighborhood of the reconstruction iteration:
/// the 4-connected plus of radius 2.
pub open spec fn recon_conn() -> Seq<(i32, i32)> {
    plus_seq(2)
}

/// One pass of the reconstruction iteration: dilate (opening) or erode
/// (closing) the marker with the connectivity neighborhood, then clamp
/// against the mask.
pub open spec fn recon_step(mask: GImage, marker: GImage, op_or_cl: bool) -> GImage {
    clamped(mask, scanned(marker, recon_conn(), !op_or_cl), op_or_cl)
}

/// The marker after `n` passes: pass zero builds the initial marker by
/// eroding (opening) or dilating (closing) the mask with the caller's
/// structuring element.
pub open spec fn recon_iter(mask: GImage, offs: Seq<(i32, i32)>, op_or_cl: bool, n: nat) -> GImage
    decreases n,
{
    if n == 0 {
        scanned(mask, offs, op_or_cl)
    } else {
        recon_step(mask, recon_iter(mask, offs, op_or_cl, (n - 1) as nat), op_or_cl)
    }
}

/// The pointwise distance between mask and marker at one pixel, oriented
/// so that it is nonnegative while the marker is on the proper side.
pub open spec fn diff_at(mask: GImage, g: GImage, x: int, y: int, op_or_cl: bool) -> int {
    if op_or_cl {
        mask.pix[(x, y)] - g.pix[(x, y)]
    } else {
        g.pix[(x, y)] - mask.pix[(x, y)]
    }
}

/// The summed distance over the first `rows` pixels of column `x`.
pub open spec fn col_defect(mask: GImage, g: GImage, x: int, rows: nat, op_or_cl: bool) -> int
    decreases rows,
{
    if rows == 0 {
        0
    } else {
        col_defect(mask, g, x, (rows - 1) as nat, op_or_cl) + diff_at(
            mask,
            g,
            x,
            rows - 1,
            op_or_cl,
        )
    }
}

/// The summed distance over the first `cols` full columns.
pub open spec fn defect_upto(mask: GImage, g: GImage, cols: nat, op_or_cl: bool) -> int
    decreases cols,
{
    if cols == 0 {
        0
    } else {
        defect_upto(mask, g, (cols - 1) as nat, op_or_cl) + col_defect(
            mask,
            g,
            cols - 1,
            mask.height as nat,
            op_or_cl,
        )
    }
}

/// The total pointwise distance between marker and mask: the termination
/// measure of the reconstruction loop.
pub open spec fn defect(mask: GImage, g: GImage, op_or_cl: bool) -> int {
    defect_upto(mask, g, mask.width as nat, op_or_cl)
}

proof fn lemma_col_defect_mono(
    mask: GImage,
    a: GImage,
    b: GImage,
    x: int,
    rows: nat,
    op_or_cl: bool,
)
    requires
        forall|y: int|
            0 <= y < rows ==> #[trigger] diff_at(mask, b, x, y, op_or_cl) <= diff_at(
                mask,
                a,
                x,
                y,
                op_or_cl,
            ),
    ensures
        col_defect(mask, b, x, rows, op_or_cl) <= col_defect(mask, a, x, rows, op_or_cl),
    decreases rows,
{
    if rows > 0 {
        lemma_col_defect_mono(mask, a, b, x, (rows - 1) as nat, op_or_cl);
    }
}

proof fn lemma_col_defect_strict(
    mask: GImage,
    a: GImage,
    b: GImage,
    x: int,
    rows: nat,
    op_or_cl: bool,
    y0: int,
)
    requires
        forall|y: int|
            0 <= y < rows ==> #[trigger] diff_at(mask, b, x, y, op_or_cl) <= diff_at(
                mask,
                a,
                x,
                y,
                op_or_cl,
            ),
        0 <= y0 < rows,
        diff_at(mask, b, x, y0, op_or_cl) < diff_at(mask, a, x, y0, op_or_cl),
    ensures
        col_defect(mask, b, x, rows, op_or_cl) < col_defect(mask, a, x, rows, op_or_cl),
    decreases rows,
{
    if y0 == rows - 1 {
        lemma_col_defect_mono(mask, a, b, x, (rows - 1) as nat, op_or_cl);
    } else {
        lemma_col_defect_strict(mask, a, b, x, (rows - 1) as nat, op_or_cl, y0);
    }
}

proof fn lemma_defect_upto_mono(
    mask: GImage,
    a: GImage,
    b: GImage,
    cols: nat,
    op_or_cl: bool,
)
    requires
        mask.height >= 0,
        forall|x: int, y: int|
            0 <= x < cols && 0 <= y < mask.height ==> #[trigger] diff_at(mask, b, x, y, op_or_cl)
                <= diff_at(mask, a, x, y, op_or_cl),
    ensures
        defect_upto(mask, b, cols, op_or_cl) <= defect_upto(mask, a, cols, op_or_cl),
    decreases cols,
{
    if cols > 0 {
        lemma_defect_upto_mono(mask, a, b, (cols - 1) as nat, op_or_cl);
        lemma_col_defect_mono(mask, a, b, cols - 1, mask.height as nat, op_or_cl);
    }
}

proof fn lemma_defect_upto_strict(
    mask: GImage,
    a: GImage,
    b: GImage,
    cols: nat,
    op_or_cl: bool,
    x0: int,
    y0: int,
)
    requires
        mask.height >= 0,
        forall|x: int, y: int|
            0 <= x < cols && 0 <= y < mask.height ==> #[trigger] diff_at(mask, b, x, y, op_or_cl)
                <= diff_at(mask, a, x, y, op_or_cl),
        0 <= x0 < cols,
        0 <= y0 < mask.height,
        diff_at(mask, b, x0, y0, op_or_cl) < diff_at(mask, a, x0, y0, op_or_cl),
    ensures
        defect_upto(mask, b, cols, op_or_cl) < defect_upto(mask, a, cols, op_or_cl),
    decreases cols,
{
    if x0 == cols - 1 {
        lemma_defect_upto_mono(mask, a, b, (cols - 1) as nat, op_or_cl);
        lemma_col_defect_strict(mask, a, b, cols - 1, mask.height as nat, op_or_cl, y0);
    } else {
        lemma_defect_upto_strict(mask, a, b, (cols - 1) as nat, op_or_cl, x0, y0);
        lemma_col_defect_mono(mask, a, b, cols - 1, mask.height as nat, op_or_cl);
    }
}

proof fn lemma_col_defect_nonneg(mask: GImage, g: GImage, x: int, rows: nat, op_or_cl: bool)
    requires
        forall|y: int| 0 <= y < rows ==> #[trigger] diff_at(mask, g, x, y, op_or_cl) >= 0,
    ensures
        col_defect(mask, g, x, rows, op_or_cl) >= 0,
    decreases rows,
{
    if rows > 0 {
        lemma_col_defect_nonneg(mask, g, x, (rows - 1) as nat, op_or_cl);
    }
}

proof fn lemma_defect_upto_nonneg(mask: GImage, g: GImage, cols: nat, op_or_cl: bool)
    requires
        mask.height >= 0,
        forall|x: int, y: int|
            0 <= x < cols && 0 <= y < mask.height ==> #[trigger] diff_at(mask, g, x, y, op_or_cl)
                >= 0,
    ensures
        defect_upto(mask, g, cols, op_or_cl) >= 0,
    decreases cols,
{
    if cols > 0 {
        lemma_defect_upto_nonneg(mask, g, (cols - 1) as nat, op_or_cl);
        lemma_col_defect_nonneg(mask, g, cols - 1, mask.height as nat, op_or_cl);
    }
}

/// One pass keeps the marker on the proper side of the mask and never
/// moves it away from the mask.
proof fn lemma_step_advances(mask: GImage, marker: GImage, op_or_cl: bool)
    requires
        mask.wf(),
        marker.wf(),
        marker.same_dims(mask),
        op_or_cl ==> le_img(marker, mask),
        !op_or_cl ==> le_img(mask, marker),
    ensures
        recon_step(mask, marker, op_or_cl).wf(),
        recon_step(mask, marker, op_or_cl).same_dims(mask),
        op_or_cl ==> le_img(marker, recon_step(mask, marker, op_or_cl)) && le_img(
            recon_step(mask, marker, op_or_cl),
            mask,
        ),
        !op_or_cl ==> le_img(recon_step(mask, marker, op_or_cl), marker) && le_img(
            mask,
            recon_step(mask, marker, op_or_cl),
        ),
{
    let s = recon_step(mask, marker, op_or_cl);
    if op_or_cl {
        assert forall|x: int, y: int| marker.in_bounds(x, y) implies #[trigger] marker.pix[(x, y)]
            <= #[trigger] s.pix[(x, y)] by {
            lemma_scan_bounds(marker, recon_conn(), x, y, false);
        }
        assert forall|x: int, y: int| s.in_bounds(x, y) implies #[trigger] s.pix[(x, y)]
            <= #[trigger] mask.pix[(x, y)] by {
        }
    } else {
        assert forall|x: int, y: int| s.in_bounds(x, y) implies #[trigger] s.pix[(x, y)]
            <= #[trigger] marker.pix[(x, y)] by {
            lemma_scan_bounds(marker, recon_conn(), x, y, true);
        }
        assert forall|x: int, y: int| mask.in_bounds(x, y) implies #[trigger] mask.pix[(x, y)]
            <= #[trigger] s.pix[(x, y)] by {
        }
    }
}

/// Every reconstruction iterate is a well-formed image of the mask's
/// dimensions.
pub proof fn lemma_recon_iter_wf(mask: GImage, offs: Seq<(i32, i32)>, op_or_cl: bool, n: nat)
    requires
        mask.wf(),
    ensures
        recon_iter(mask, offs, op_or_cl, n).wf(),
        recon_iter(mask, offs, op_or_cl, n).same_dims(mask),
    decreases n,
{
    if n == 0 {
        lemma_scanned_wf(mask, offs, op_or_cl);
    } else {
        lemma_recon_iter_wf(mask, offs, op_or_cl, (n - 1) as nat);
    }
}

/// A reconstruction pass is monotone in the marker.
proof fn lemma_recon_step_monotone(mask: GImage, a: GImage, b: GImage, op_or_cl: bool)
    requires
        mask.wf(),
        a.wf(),
        b.wf(),
        a.same_dims(mask),
        le_img(a, b),
    ensures
        le_img(recon_step(mask, a, op_or_cl), recon_step(mask, b, op_or_cl)),
{
    assert forall|x: int, y: int|
        0 <= x < mask.width && 0 <= y < mask.height implies #[trigger] recon_step(
        mask,
        a,
        op_or_cl,
    ).pix[(x, y)] <= #[trigger] recon_step(mask, b, op_or_cl).pix[(x, y)] by {
        lemma_scan_monotone(a, b, recon_conn(), x, y, !op_or_cl);
    }
}

/// The reconstruction result is extremal among the fixed points of the
/// pass: for opening, every iterate — hence the converged result — lies
/// below any fixed point that dominates the initial eroded marker, so the
/// result is the least such fixed point; dually, for closing it is the
/// greatest fixed point below the initial dilated marker.
pub proof fn lemma_recon_minimal(
    mask: GImage,
    offs: Seq<(i32, i32)>,
    f: GImage,
    op_or_cl: bool,
    n: nat,
)
    requires
        mask.wf(),
        f.wf(),
        f.same_dims(mask),
        recon_step(mask, f, op_or_cl) == f,
        op_or_cl ==> le_img(eroded(mask, offs), f),
        !op_or_cl ==> le_img(f, dilated(mask, offs)),
    ensures
        op_or_cl ==> le_img(recon_iter(mask, offs, op_or_cl, n), f),
        !op_or_cl ==> le_img(f, recon_iter(mask, offs, op_or_cl, n)),
    decreases n,
{
    if n > 0 {
        lemma_recon_minimal(mask, offs, f, op_or_cl, (n - 1) as nat);
        let prev = recon_iter(mask, offs, op_or_cl, (n - 1) as nat);
        lemma_recon_iter_wf(mask, offs, op_or_cl, (n - 1) as nat);
        if op_or_cl {
            lemma_recon_step_monotone(mask, prev, f, op_or_cl);
        } else {
            lemma_recon_step_monotone(mask, f, prev, op_or_cl);
        }
    }
}

/// Pointwise minimum (opening) or maximum (closing) of the mask and a
/// candidate image of the same dimensions.
fn clamp(mask: &Image, img: &Image, keep_min: bool) -> (out: Image)
    requires
        mask.wf(),
        img.wf(),
        img@.same_dims(mask@),
    ensures
        out.wf(),
        out@ == clamped(mask@, img@, keep_min),
{
    proof {
        mask.lemma_area();
        mask.lemma_view_wf();
        img.lemma_view_wf();
    }
    let w: usize = mask.width();
    let h: usize = mask.height();
    let mut out = Image::new(w, h);
    for x in 0..w
        invariant
            mask.wf(),
            img.wf(),
            img@.same_dims(mask@),
            w == mask@.width,
            h == mask@.height,
            out.wf(),
            out@.width == w,
            out@.height == h,
            forall|px: int, py: int|
                0 <= px < w && 0 <= py < h && px < x ==> #[trigger] out@.pix[(px, py)] == clamped(
                    mask@,
                    img@,
                    keep_min,
                ).pix[(px, py)],
    {
        for y in 0..h
            invariant
                mask.wf(),
                img.wf(),
                img@.same_dims(mask@),
                w == mask@.width,
                h == mask@.height,
                x < w,
                out.wf(),
                out@.width == w,
                out@.height == h,
                forall|px: int, py: int|
                    0 <= px < w && 0 <= py < h && (px < x || (px == x && py < y))
                        ==> #[trigger] out@.pix[(px, py)] == clamped(mask@, img@, keep_min).pix[
                        (px, py)],
        {
            let mv: u8 = mask.get_pixel(x, y);
            let gv: u8 = img.get_pixel(x, y);
            let v: u8 = if keep_min {
                if mv < gv {
                    mv
                } else {
                    gv
                }
            } else {
                if mv > gv {
                    mv
                } else {
                    gv
                }
            };
            out.put_pixel(x, y, v);
        }
    }
    proof {
        out.lemma_view_wf();
        assert(out@.pix =~= clamped(mask@, img@, keep_min).pix);
        assert(out@ =~= clamped(mask@, img@, keep_min));
    }
    out
}

/// Whether two images of the same dimensions hold the same samples.
fn images_equal(a: &Image, b: &Image) -> (r: bool)
    requires
        a.wf(),
        b.wf(),
        a@.same_dims(b@),
    ensures
        r <==> a@ == b@,
{
    proof {
        a.lemma_area();
        a.lemma_view_wf();
        b.lemma_view_wf();
    }
    let w: usize = a.width();
    let h: usize = a.height();
    for x in 0..w
        invariant
            a.wf(),
            b.wf(),
            a@.same_dims(b@),
            w == a@.width,
            h == a@.height,
            forall|px: int, py: int|
                0 <= px < w && 0 <= py < h && px < x ==> #[trigger] a@.pix[(px, py)] == #[trigger] b@.pix[
                    (px, py)],
    {
        for y in 0..h
            invariant
                a.wf(),
                b.wf(),
                a@.same_dims(b@),
                w == a@.width,
                h == a@.height,
                x < w,
                forall|px: int, py: int|
                    0 <= px < w && 0 <= py < h && (px < x || (px == x && py < y))
                        ==> #[trigger] a@.pix[(px, py)] == #[trigger] b@.pix[(px, py)],
        {
            if a.get_pixel(x, y) != b.get_pixel(x, y) {
                return false;
            }
        }
    }
    proof {
        assert(a@.pix =~= b@.pix);
        assert(a@ =~= b@);
    }
    true
}

/// Opening by reconstruction (`op_or_cl` true) or closing by
/// reconstruction (`op_or_cl` false), reporting alongside the result how
/// many passes the loop ran, the final unchanged pass included (the count
/// saturates at `u64::MAX`, a bound no real image can reach).
///
/// The result is some iterate of the pass sequence and is itself a fixed
/// point of the pass; for opening it lies between the plain erosion and
/// the mask, for closing between the mask and the plain dilation.
pub fn op_cl_rec_counted(img: &Image, window_indices: &Vec<(i32, i32)>, op_or_cl: bool) -> (r: (
    Image,
    u64,
))
    requires
        img.wf(),
    ensures
        r.0.wf(),
        r.0@.same_dims(img@),
        exists|n: nat|
            r.0@ == recon_iter(img@, window_indices@, op_or_cl, n) && (r.1 == n + 1 || r.1
                == u64::MAX),
        recon_step(img@, r.0@, op_or_cl) == r.0@,
        op_or_cl ==> le_img(eroded(img@, window_indices@), r.0@) && le_img(r.0@, img@),
        !op_or_cl ==> le_img(r.0@, dilated(img@, window_indices@)) && le_img(img@, r.0@),
{
    let conn: Vec<(i32, i32)> = plus(2);
    let mut marker: Image = er_di(img, window_indices, op_or_cl);
    let mut count: u64 = 0;
    let ghost mut n: nat = 0;
    proof {
        img.lemma_view_wf();
        marker.lemma_view_wf();
        lemma_erosion_dilation_bounds(img@, window_indices@);
    }
    loop
        invariant_except_break
            count == n || count == u64::MAX,
        invariant
            img.wf(),
            img@.wf(),
            marker.wf(),
            marker@.wf(),
            marker@.same_dims(img@),
            conn@ == plus_seq(2),
            marker@ == recon_iter(img@, window_indices@, op_or_cl, n),
            op_or_cl ==> le_img(marker@, img@) && le_img(eroded(img@, window_indices@), marker@),
            !op_or_cl ==> le_img(img@, marker@) && le_img(marker@, dilated(img@, window_indices@)),
        ensures
            marker.wf(),
            marker@.same_dims(img@),
            marker@ == recon_iter(img@, window_indices@, op_or_cl, n),
            count == n + 1 || count == u64::MAX,
            recon_step(img@, marker@, op_or_cl) == marker@,
            op_or_cl ==> le_img(marker@, img@) && le_img(eroded(img@, window_indices@), marker@),
            !op_or_cl ==> le_img(img@, marker@) && le_img(marker@, dilated(img@, window_indices@)),
        decreases defect(img@, marker@, op_or_cl),
    {
        let cand: Image = er_di(&marker, &conn, !op_or_cl);
        let next: Image = clamp(img, &cand, op_or_cl);
        if count < u64::MAX {
            count = count + 1;
        }
        proof {
            next.lemma_view_wf();
            assert(next@ == recon_step(img@, marker@, op_or_cl));
        }
        if images_equal(&next, &marker) {
            break;
        }
        proof {
            lemma_step_advances(img@, marker@, op_or_cl);
            assert(next@.pix.dom() =~= marker@.pix.dom());
            assert(next@.pix != marker@.pix);
            assert(exists|p: (int, int)|
                #[trigger] marker@.pix.dom().contains(p) && next@.pix[p] != marker@.pix[p]) by {
                if forall|p: (int, int)|
                    #[trigger] marker@.pix.dom().contains(p) ==> next@.pix[p] == marker@.pix[p] {
                    assert(next@.pix =~= marker@.pix);
                }
            }
            let p = choose|p: (int, int)|
                #[trigger] marker@.pix.dom().contains(p) && next@.pix[p] != marker@.pix[p];
            assert forall|x: int, y: int|
                0 <= x < img@.width && 0 <= y < img@.height implies #[trigger] diff_at(
                img@,
                next@,
                x,
                y,
                op_or_cl,
            ) <= diff_at(img@, marker@, x, y, op_or_cl) && diff_at(img@, next@, x, y, op_or_cl)
                >= 0 by {
                let mv: u8 = marker@.pix[(x, y)];
                let nv: u8 = next@.pix[(x, y)];
                let iv: u8 = img@.pix[(x, y)];
                if op_or_cl {
                    assert(mv <= nv && nv <= iv);
                } else {
                    assert(iv <= nv && nv <= mv);
                }
            }
            lemma_defect_upto_strict(
                img@,
                marker@,
                next@,
                img@.width as nat,
                op_or_cl,
                p.0,
                p.1,
            );
            lemma_defect_upto_nonneg(img@, next@, img@.width as nat, op_or_cl);
            if op_or_cl {
                lemma_le_img_trans(eroded(img@, window_indices@), marker@, next@);
            } else {
                lemma_le_img_trans(next@, marker@, dilated(img@, window_indices@));
            }
            n = n + 1;
        }
        marker = next;
    }
    proof {
        assert(marker@ == recon_iter(img@, window_indices@, op_or_cl, n) && (count == n + 1
            || count == u64::MAX));
    }
    (marker, count)
}

/// Opening by reconstruction (`op_or_cl` true) or closing by
/// reconstruction (`op_or_cl` false): iterate passes of the reconstruction
/// step from the eroded (resp. dilated) mask until a fixed point.
///
/// The result is some iterate of the pass sequence and is itself a fixed
/// point of the pass; for opening it lies between the plain erosion and
/// the mask, for closing between the mask and the plain dilation.
pub fn op_cl_rec(img: &Image, window_indices: &Vec<(i32, i32)>, op_or_cl: bool) -> (out: Image)
    requires
        img.wf(),
    ensures
        out.wf(),
        out@.same_dims(img@),
        exists|n: nat| out@ == recon_iter(img@, window_indices@, op_or_cl, n),
        recon_step(img@, out@, op_or_cl) == out@,
        op_or_cl ==> le_img(eroded(img@, window_indices@), out@) && le_img(out@, img@),
        !op_or_cl ==> le_img(out@, dilated(img@, window_indices@)) && le_img(img@, out@),
{
    let (out, count) = op_cl_rec_counted(img, window_indices, op_or_cl);
    proof {
        let n0 = choose|n: nat|
            out@ == recon_iter(img@, window_indices@, op_or_cl, n) && (count == n + 1 || count
                == u64::MAX);
        assert(out@ == recon_iter(img@, window_indices@, op_or_cl, n0));
    }
    out
}

/// Opening by reconstruction: erode the mask with the caller's element,
/// then reconstruct under the mask until the fixed point.
pub fn opening_by_reconstruction(img: &Image, window_indices: &Vec<(i32, i32)>) -> (out: Image)
    requires
        img.wf(),
    ensures
        out.wf(),
        out@.same_dims(img@),
        exists|n: nat| out@ == recon_iter(img@, window_indices@, true, n),
        recon_step(img@, out@, true) == out@,
        le_img(eroded(img@, window_indices@), out@),
        le_img(out@, img@),
{
    op_cl_rec(img, window_indices, true)
}

/// Closing by reconstruction: dilate the mask with the caller's element,
/// then reconstruct over the mask until the fixed point.
pub fn closing_by_reconstruction(img: &Image, window_indices: &Vec<(i32, i32)>) -> (out: Image)
    requires
        img.wf(),
    ensures
        out.wf(),
        out@.same_dims(img@),
        exists|n: nat| out@ == recon_iter(img@, window_indices@, false, n),
        recon_step(img@, out@, false) == out@,
        le_img(out@, dilated(img@, window_indices@)),
        le_img(img@, out@),
{
    op_cl_rec(img, window_indices, false)
}

} // verus!
