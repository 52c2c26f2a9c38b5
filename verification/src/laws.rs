//! Algebraic laws of the morphological operators, stated over the image
//! model and proved from the scan characterization lemmas.

use vstd::prelude::*;

use crate::buffer::GImage;
use crate::morph::closing_of;
use crate::morph::covers;
use crate::morph::dilated;
use crate::morph::eroded;
use crate::morph::inverted;
use crate::morph::le_img;
use crate::morph::opening_of;
use crate::morph::scan_px;
use crate::morph::scanned;
use crate::morph::symmetric;
use crate::morph::lemma_scan_attained;
use crate::morph::lemma_scan_bounds;
use crate::morph::lemma_scan_monotone;

verus! {

/// A scan keeps the image well formed.
pub proof fn lemma_scanned_wf(g: GImage, offs: Seq<(i32, i32)>, is_min: bool)
    requires
        g.wf(),
    ensures
        scanned(g, offs, is_min).wf(),
        scanned(g, offs, is_min).same_dims(g),
{
}

/// Erosion is pointwise at most the input; dilation is pointwise at least
/// the input: the center pixel is always part of the neighborhood, so the
/// extremum can only move toward the chosen extreme or stay equal.
pub proof fn lemma_erosion_dilation_bounds(g: GImage, offs: Seq<(i32, i32)>)
    requires
        g.wf(),
    ensures
        le_img(eroded(g, offs), g),
        le_img(g, dilated(g, offs)),
{
    assert forall|x: int, y: int| g.in_bounds(x, y) implies #[trigger] eroded(g, offs).pix[
        (x, y)
    ] <= #[trigger] g.pix[(x, y)] by {
        lemma_scan_bounds(g, offs, x, y, true);
    }
    assert forall|x: int, y: int| g.in_bounds(x, y) implies #[trigger] g.pix[(x, y)]
        <= #[trigger] dilated(g, offs).pix[(x, y)] by {
        lemma_scan_bounds(g, offs, x, y, false);
    }
}

/// A scan is monotone: pointwise-ordered images scan to pointwise-ordered
/// images, for either extremum.
pub proof fn lemma_scanned_monotone(a: GImage, b: GImage, offs: Seq<(i32, i32)>, is_min: bool)
    requires
        a.wf(),
        b.wf(),
        le_img(a, b),
    ensures
        le_img(scanned(a, offs, is_min), scanned(b, offs, is_min)),
{
    assert forall|x: int, y: int| a.in_bounds(x, y) implies #[trigger] scanned(a, offs, is_min).pix[
        (x, y)
    ] <= #[trigger] scanned(b, offs, is_min).pix[(x, y)] by {
        lemma_scan_monotone(a, b, offs, x, y, is_min);
    }
}

/// Pointwise order between images is transitive.
pub proof fn lemma_le_img_trans(a: GImage, b: GImage, c: GImage)
    requires
        le_img(a, b),
        le_img(b, c),
    ensures
        le_img(a, c),
{
    assert forall|x: int, y: int| a.in_bounds(x, y) implies #[trigger] a.pix[(x, y)]
        <= #[trigger] c.pix[(x, y)] by {
        assert(a.pix[(x, y)] <= b.pix[(x, y)]);
        assert(b.pix[(x, y)] <= c.pix[(x, y)]);
    }
}

/// Opening with a symmetric element never raises a pixel.
pub proof fn lemma_opening_anti_extensive(g: GImage, offs: Seq<(i32, i32)>)
    requires
        g.wf(),
        symmetric(offs),
    ensures
        le_img(opening_of(g, offs), g),
{
    let e = eroded(g, offs);
    lemma_scanned_wf(g, offs, true);
    assert forall|x: int, y: int| g.in_bounds(x, y) implies #[trigger] opening_of(g, offs).pix[
        (x, y)
    ] <= #[trigger] g.pix[(x, y)] by {
        let v = scan_px(e, offs, x, y, false);
        lemma_scan_attained(e, offs, x, y, false);
        if v == e.pix[(x, y)] {
            lemma_scan_bounds(g, offs, x, y, true);
        } else {
            let k = choose|k: int|
                #[trigger] covers(e, offs, x, y, k) && v == e.pix[(x + offs[k].0, y + offs[k].1)];
            let nx = x + offs[k].0;
            let ny = y + offs[k].1;
            let m = (((-offs[k].0) as i32), ((-offs[k].1) as i32));
            assert(offs.contains(m));
            let j = choose|j: int| 0 <= j < offs.len() && offs[j] == m;
            lemma_scan_bounds(g, offs, nx, ny, true);
            assert(covers(g, offs, nx, ny, j));
            assert(v <= g.pix[(nx + offs[j].0, ny + offs[j].1)]);
            assert(nx + offs[j].0 == x && ny + offs[j].1 == y);
        }
    }
}

/// Closing with a symmetric element never lowers a pixel.
pub proof fn lemma_closing_extensive(g: GImage, offs: Seq<(i32, i32)>)
    requires
        g.wf(),
        symmetric(offs),
    ensures
        le_img(g, closing_of(g, offs)),
{
    let d = dilated(g, offs);
    lemma_scanned_wf(g, offs, false);
    assert forall|x: int, y: int| g.in_bounds(x, y) implies #[trigger] g.pix[(x, y)]
        <= #[trigger] closing_of(g, offs).pix[(x, y)] by {
        let v = scan_px(d, offs, x, y, true);
        lemma_scan_attained(d, offs, x, y, true);
        if v == d.pix[(x, y)] {
            lemma_scan_bounds(g, offs, x, y, false);
        } else {
            let k = choose|k: int|
                #[trigger] covers(d, offs, x, y, k) && v == d.pix[(x + offs[k].0, y + offs[k].1)];
            let nx = x + offs[k].0;
            let ny = y + offs[k].1;
            let m = (((-offs[k].0) as i32), ((-offs[k].1) as i32));
            assert(offs.contains(m));
            let j = choose|j: int| 0 <= j < offs.len() && offs[j] == m;
            lemma_scan_bounds(g, offs, nx, ny, false);
            assert(covers(g, offs, nx, ny, j));
            assert(g.pix[(nx + offs[j].0, ny + offs[j].1)] <= v);
            assert(nx + offs[j].0 == x && ny + offs[j].1 == y);
        }
    }
}

/// Eroding an opening gives back the plain erosion (symmetric element).
pub proof fn lemma_erode_of_opening(g: GImage, offs: Seq<(i32, i32)>)
    requires
        g.wf(),
        symmetric(offs),
    ensures
        eroded(opening_of(g, offs), offs) == eroded(g, offs),
{
    let e = eroded(g, offs);
    let o = opening_of(g, offs);
    lemma_scanned_wf(g, offs, true);
    lemma_scanned_wf(e, offs, false);
    lemma_opening_anti_extensive(g, offs);
    lemma_scanned_monotone(o, g, offs, true);
    lemma_closing_extensive(e, offs);
    assert forall|x: int, y: int| g.in_bounds(x, y) implies #[trigger] eroded(o, offs).pix[(x, y)]
        == #[trigger] e.pix[(x, y)] by {
        assert(eroded(o, offs).pix[(x, y)] <= eroded(g, offs).pix[(x, y)]);
        assert(e.pix[(x, y)] <= closing_of(e, offs).pix[(x, y)]);
    }
    assert(eroded(o, offs).pix =~= e.pix);
    assert(eroded(o, offs) =~= e);
}

/// Dilating a closing gives back the plain dilation (symmetric element).
pub proof fn lemma_dilate_of_closing(g: GImage, offs: Seq<(i32, i32)>)
    requires
        g.wf(),
        symmetric(offs),
    ensures
        dilated(closing_of(g, offs), offs) == dilated(g, offs),
{
    let d = dilated(g, offs);
    let c = closing_of(g, offs);
    lemma_scanned_wf(g, offs, false);
    lemma_scanned_wf(d, offs, true);
    lemma_closing_extensive(g, offs);
    lemma_scanned_monotone(g, c, offs, false);
    lemma_opening_anti_extensive(d, offs);
    assert forall|x: int, y: int| g.in_bounds(x, y) implies #[trigger] dilated(c, offs).pix[(x, y)]
        == #[trigger] d.pix[(x, y)] by {
        assert(d.pix[(x, y)] <= dilated(c, offs).pix[(x, y)]);
        assert(opening_of(d, offs).pix[(x, y)] <= d.pix[(x, y)]);
    }
    assert(dilated(c, offs).pix =~= d.pix);
    assert(dilated(c, offs) =~= d);
}

/// Opening is idempotent for a symmetric structuring element.
pub proof fn lemma_opening_idempotent(g: GImage, offs: Seq<(i32, i32)>)
    requires
        g.wf(),
        symmetric(offs),
    ensures
        opening_of(opening_of(g, offs), offs) == opening_of(g, offs),
{
    lemma_erode_of_opening(g, offs);
}

/// Closing is idempotent for a symmetric structuring element.
pub proof fn lemma_closing_idempotent(g: GImage, offs: Seq<(i32, i32)>)
    requires
        g.wf(),
        symmetric(offs),
    ensures
        closing_of(closing_of(g, offs), offs) == closing_of(g, offs),
{
    lemma_dilate_of_closing(g, offs);
}

/// Pointwise duality of one scan under inversion.
proof fn lemma_scan_duality(g: GImage, offs: Seq<(i32, i32)>, x: int, y: int)
    requires
        g.wf(),
        g.in_bounds(x, y),
    ensures
        scan_px(inverted(g), offs, x, y, false) == 255 - scan_px(g, offs, x, y, true),
    decreases offs.len(),
{
    if offs.len() > 0 {
        lemma_scan_duality(g, offs.drop_last(), x, y);
    }
}

/// Duality: dilating the pixelwise-inverted image equals inverting the
/// erosion, for every structuring element.
pub proof fn lemma_duality(g: GImage, offs: Seq<(i32, i32)>)
    requires
        g.wf(),
    ensures
        dilated(inverted(g), offs) == inverted(eroded(g, offs)),
{
    assert forall|x: int, y: int| g.in_bounds(x, y) implies #[trigger] dilated(
        inverted(g),
        offs,
    ).pix[(x, y)] == #[trigger] inverted(eroded(g, offs)).pix[(x, y)] by {
        lemma_scan_duality(g, offs, x, y);
    }
    assert(dilated(inverted(g), offs).pix =~= inverted(eroded(g, offs)).pix);
    assert(dilated(inverted(g), offs) =~= inverted(eroded(g, offs)));
}

/// With the single-offset element `{(0, 0)}` — what every shape degenerates
/// to at radius 1 — erosion, dilation, opening and closing are the identity.
pub proof fn lemma_identity_element(g: GImage, offs: Seq<(i32, i32)>)
    requires
        g.wf(),
        offs == seq![(0i32, 0i32)],
    ensures
        eroded(g, offs) == g,
        dilated(g, offs) == g,
        opening_of(g, offs) == g,
        closing_of(g, offs) == g,
{
    assert forall|x: int, y: int, is_min: bool| g.in_bounds(x, y) implies #[trigger] scan_px(
        g,
        offs,
        x,
        y,
        is_min,
    ) == g.pix[(x, y)] by {
        assert(offs.len() == 1);
        assert(offs.drop_last() =~= Seq::<(i32, i32)>::empty());
        assert(scan_px(g, Seq::<(i32, i32)>::empty(), x, y, is_min) == g.pix[(x, y)]);
        assert(offs.last() == (0i32, 0i32));
    }
    assert(eroded(g, offs).pix =~= g.pix);
    assert(eroded(g, offs) =~= g);
    assert(dilated(g, offs).pix =~= g.pix);
    assert(dilated(g, offs) =~= g);
}

} // verus!
