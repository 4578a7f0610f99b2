use vstd::prelude::*;
use crate::classify::{
    border_of, classification_of, is_border, is_transparent, row_major, BorderPoint,
    Classification,
};
use crate::raster::Raster;

verus! {

/// Squared Euclidean distance between two grid coordinates.  Comparing
/// squared distances orders points exactly as the Euclidean distance does.
pub open spec fn dist2(ax: int, ay: int, bx: int, by: int) -> int {
    (ax - bx) * (ax - bx) + (ay - by) * (ay - by)
}

/// `(bx, by)` is the border point the nearest strategy copies from for the
/// pixel `(x, y)`: a nearest border pixel, with the lowest row-major
/// position among the equally near ones, so the choice is deterministic.
pub open spec fn chosen_border(r: Raster, x: int, y: int, bx: int, by: int) -> bool {
    &&& r.in_bounds(bx, by)
    &&& is_border(r, bx, by)
    &&& forall|cx: int, cy: int|
        r.in_bounds(cx, cy) && #[trigger] is_border(r, cx, cy) ==> dist2(x, y, bx, by) <= dist2(
            x, y, cx, cy)
    &&& forall|cx: int, cy: int|
        r.in_bounds(cx, cy) && #[trigger] is_border(r, cx, cy) && dist2(x, y, cx, cy) == dist2(
            x, y, bx, by) ==> row_major(r.width as int, bx, by) <= row_major(r.width as int, cx,
            cy)
}

/// Pixel `(x, y)` was repaired from its chosen border point: it took that
/// point's RGB exactly, and its alpha is 255 in debug mode and 0 otherwise.
pub open spec fn nearest_filled(pre: Raster, post: Raster, x: int, y: int, debug: bool) -> bool {
    &&& exists|bx: int, by: int|
        #[trigger] chosen_border(pre, x, y, bx, by) && post.rgb(x, y) == pre.rgb(bx, by)
    &&& post.alpha(x, y) == if debug {
        255u8
    } else {
        0u8
    }
}

/// What the nearest-border-point strategy does: every fully transparent
/// pixel is repaired from its chosen border point; every other pixel is
/// untouched.
pub open spec fn nearest_post(pre: Raster, post: Raster, debug: bool) -> bool {
    &&& post.width == pre.width
    &&& post.height == pre.height
    &&& post.wf()
    &&& forall|x: int, y: int|
        pre.in_bounds(x, y) && #[trigger] is_transparent(pre, x, y) ==> nearest_filled(pre, post,
            x, y, debug)
    &&& forall|x: int, y: int|
        pre.in_bounds(x, y) && !is_transparent(pre, x, y) ==> #[trigger] post.pixel_unchanged(
            pre, x, y)
}

/// A well-formed raster's dimensions are small enough that squared
/// distances between its coordinates fit comfortably in 128 bits.
pub proof fn lemma_dims_bounded(r: Raster)
    requires
        r.wf(),
    ensures
        r.width <= 0x4000_0000_0000_0000,
        r.height <= 0x4000_0000_0000_0000,
{
    vstd::std_specs::vec::axiom_spec_len(&r.data);
    assert(usize::MAX <= 0xffff_ffff_ffff_ffff);
    assert(r.width <= 0x4000_0000_0000_0000 && r.height <= 0x4000_0000_0000_0000) by (
    nonlinear_arith)
        requires
            0 < r.width,
            0 < r.height,
            4 * r.width * r.height <= 0xffff_ffff_ffff_ffff,
    ;
}

/// Index of the first border point at minimal squared distance from
/// `(x, y)` under a linear scan: the earliest minimizer wins ties.
fn nearest_index(border: &Vec<BorderPoint>, x: usize, y: usize) -> (best: usize)
    requires
        border@.len() > 0,
        x <= 0x4000_0000_0000_0000,
        y <= 0x4000_0000_0000_0000,
        forall|i: int|
            0 <= i < border@.len() ==> (#[trigger] border@[i]).x <= 0x4000_0000_0000_0000
                && border@[i].y <= 0x4000_0000_0000_0000,
    ensures
        best < border@.len(),
        forall|j: int|
            0 <= j < border@.len() ==> dist2(x as int, y as int, border@[best as int].x as int,
                border@[best as int].y as int) <= dist2(x as int, y as int,
                (#[trigger] border@[j]).x as int, border@[j].y as int),
        forall|j: int|
            0 <= j < best ==> dist2(x as int, y as int, (#[trigger] border@[j]).x as int,
                border@[j].y as int) > dist2(x as int, y as int, border@[best as int].x as int,
                border@[best as int].y as int),
{
    let mut best: usize = 0;
    let mut best_d: i128 = point_dist2(border, 0, x, y);
    let mut k: usize = 1;
    while k < border.len()
        invariant
            border@.len() > 0,
            x <= 0x4000_0000_0000_0000,
            y <= 0x4000_0000_0000_0000,
            forall|i: int|
                0 <= i < border@.len() ==> (#[trigger] border@[i]).x <= 0x4000_0000_0000_0000
                    && border@[i].y <= 0x4000_0000_0000_0000,
            1 <= k <= border@.len(),
            best < k,
            best_d == dist2(x as int, y as int, border@[best as int].x as int,
                border@[best as int].y as int),
            forall|j: int|
                0 <= j < k ==> best_d <= dist2(x as int, y as int, (#[trigger] border@[j]).x
                    as int, border@[j].y as int),
            forall|j: int|
                0 <= j < best ==> dist2(x as int, y as int, (#[trigger] border@[j]).x as int,
                    border@[j].y as int) > best_d,
        decreases border@.len() - k,
    {
        let d = point_dist2(border, k, x, y);
        if d < best_d {
            best = k;
            best_d = d;
        }
        k = k + 1;
    }
    best
}

/// Squared distance from `(x, y)` to the border point at index `k`.
fn point_dist2(border: &Vec<BorderPoint>, k: usize, x: usize, y: usize) -> (d: i128)
    requires
        k < border@.len(),
        x <= 0x4000_0000_0000_0000,
        y <= 0x4000_0000_0000_0000,
        border@[k as int].x <= 0x4000_0000_0000_0000,
        border@[k as int].y <= 0x4000_0000_0000_0000,
    ensures
        d == dist2(x as int, y as int, border@[k as int].x as int, border@[k as int].y as int),
{
    let b = &border[k];
    let dx = x as i128 - b.x as i128;
    let dy = y as i128 - b.y as i128;
    proof {
        assert(dx * dx <= 0x10000000000000000000000000000000 && dx * dx >= 0 && dy * dy
            <= 0x10000000000000000000000000000000 && dy * dy >= 0) by (nonlinear_arith)
            requires
                -0x4000_0000_0000_0000 <= dx <= 0x4000_0000_0000_0000,
                -0x4000_0000_0000_0000 <= dy <= 0x4000_0000_0000_0000,
        ;
    }
    dx * dx + dy * dy
}

/// The first minimizer of a scan over a complete, row-major-ordered border
/// list is the chosen border point of `(x, y)`.
proof fn lemma_nearest_is_chosen(border: Seq<BorderPoint>, r: Raster, x: int, y: int, best: int)
    requires
        border_of(border, r),
        0 <= best < border.len(),
        forall|j: int|
            0 <= j < border.len() ==> dist2(x, y, border[best].x as int, border[best].y as int)
                <= dist2(x, y, (#[trigger] border[j]).x as int, border[j].y as int),
        forall|j: int|
            0 <= j < best ==> dist2(x, y, (#[trigger] border[j]).x as int, border[j].y as int)
                > dist2(x, y, border[best].x as int, border[best].y as int),
    ensures
        chosen_border(r, x, y, border[best].x as int, border[best].y as int),
{
    let bx = border[best].x as int;
    let by = border[best].y as int;
    assert forall|cx: int, cy: int| r.in_bounds(cx, cy) && #[trigger] is_border(r, cx, cy)
        implies dist2(x, y, bx, by) <= dist2(x, y, cx, cy) by {
        let j = choose|j: int|
            0 <= j < border.len() && (#[trigger] border[j]).x == cx && border[j].y == cy;
        assert(dist2(x, y, bx, by) <= dist2(x, y, border[j].x as int, border[j].y as int));
    }
    assert forall|cx: int, cy: int|
        r.in_bounds(cx, cy) && #[trigger] is_border(r, cx, cy) && dist2(x, y, cx, cy) == dist2(
            x, y, bx, by) implies row_major(r.width as int, bx, by) <= row_major(r.width as int,
            cx, cy) by {
        let j = choose|j: int|
            0 <= j < border.len() && (#[trigger] border[j]).x == cx && border[j].y == cy;
        if row_major(r.width as int, cx, cy) < row_major(r.width as int, bx, by) {
            assert(j < best);
            assert(dist2(x, y, border[j].x as int, border[j].y as int) > dist2(x, y, bx, by));
            assert(false);
        }
    }
}

/// Repair every fully transparent pixel from the nearest border point.  The
/// RGB channels take the border color exactly; alpha is forced to 255 only
/// in debug mode, so compositing is unaffected otherwise.
pub fn nearest_fill(r: &mut Raster, c: &Classification, debug: bool)
    requires
        old(r).wf(),
        classification_of(*c, *old(r)),
        c.border@.len() > 0,
    ensures
        nearest_post(*old(r), *final(r), debug),
{
    proof {
        lemma_dims_bounded(*r);
    }
    let alpha_value: u8 = if debug {
        255
    } else {
        0
    };
    let mut k: usize = 0;
    while k < c.transparent.len()
        invariant
            old(r).wf(),
            r.wf(),
            r.width == old(r).width,
            r.height == old(r).height,
            classification_of(*c, *old(r)),
            c.border@.len() > 0,
            alpha_value == (if debug {
                255u8
            } else {
                0u8
            }),
            k <= c.transparent@.len(),
            forall|j: int|
                0 <= j < k ==> nearest_filled(*old(r), *r, (#[trigger] c.transparent@[j]).0
                    as int, c.transparent@[j].1 as int, debug),
            forall|x: int, y: int|
                old(r).in_bounds(x, y) && !(exists|j: int|
                    0 <= j < k && (#[trigger] c.transparent@[j]).0 == x && c.transparent@[j].1
                        == y) ==> #[trigger] r.pixel_unchanged(*old(r), x, y),
        decreases c.transparent@.len() - k,
    {
        let (x, y) = c.transparent[k];
        proof {
            lemma_dims_bounded(*old(r));
        }
        let best = nearest_index(&c.border, x, y);
        let b = c.border[best];
        let ghost pre_step = *r;
        r.set_chan(x, y, 0, b.red);
        r.set_chan(x, y, 1, b.green);
        r.set_chan(x, y, 2, b.blue);
        r.set_chan(x, y, 3, alpha_value);
        proof {
            lemma_nearest_is_chosen(c.border@, *old(r), x as int, y as int, best as int);
            let i0 = pre_step.pix(x as int, y as int);
            pre_step.lemma_pix_bounds(x as int, y as int);
            assert(r.data@ == pre_step.data@.update(i0, b.red).update(i0 + 1, b.green).update(
                i0 + 2, b.blue).update(i0 + 3, alpha_value));
            let bx = c.border@[best as int].x as int;
            let by = c.border@[best as int].y as int;
            assert forall|px: int, py: int|
                old(r).in_bounds(px, py) && (px, py) != (x as int, y as int)
                    implies r.chan(px, py, 0) == pre_step.chan(px, py, 0) && r.chan(px, py, 1)
                == pre_step.chan(px, py, 1) && r.chan(px, py, 2) == pre_step.chan(px, py, 2)
                && r.chan(px, py, 3) == pre_step.chan(px, py, 3) by {
                pre_step.lemma_pix_disjoint(px, py, x as int, y as int);
                pre_step.lemma_pix_bounds(px, py);
                pre_step.lemma_pix_bounds(x as int, y as int);
            }
            assert(r.rgb(x as int, y as int) == old(r).rgb(bx, by));
            assert(r.alpha(x as int, y as int) == alpha_value);
            assert(chosen_border(*old(r), x as int, y as int, bx, by));
            assert(nearest_filled(*old(r), *r, x as int, y as int, debug));
            assert forall|j: int|
                0 <= j < k + 1 implies nearest_filled(*old(r), *r,
                (#[trigger] c.transparent@[j]).0 as int, c.transparent@[j].1 as int, debug) by {
                if j < k {
                    let px = c.transparent@[j].0 as int;
                    let py = c.transparent@[j].1 as int;
                    if (px, py) != (x as int, y as int) {
                        assert(nearest_filled(*old(r), pre_step, px, py, debug));
                        let (bx2, by2) = choose|bx2: int, by2: int|
                            #[trigger] chosen_border(*old(r), px, py, bx2, by2) && pre_step.rgb(
                                px, py) == old(r).rgb(bx2, by2);
                        assert(r.rgb(px, py) == old(r).rgb(bx2, by2));
                    } else {
                        assert(row_major(old(r).width as int, c.transparent@[j].0 as int,
                            c.transparent@[j].1 as int) < row_major(old(r).width as int,
                            c.transparent@[k as int].0 as int, c.transparent@[k as int].1 as int));
                        assert(false);
                    }
                }
            }
            assert forall|px: int, py: int|
                old(r).in_bounds(px, py) && !(exists|j: int|
                    0 <= j < k + 1 && (#[trigger] c.transparent@[j]).0 == px
                        && c.transparent@[j].1 == py)
                    implies #[trigger] r.pixel_unchanged(*old(r), px, py) by {
                if (px, py) != (x as int, y as int) {
                    assert(!(exists|j: int|
                        0 <= j < k && (#[trigger] c.transparent@[j]).0 == px
                            && c.transparent@[j].1 == py));
                    assert(pre_step.pixel_unchanged(*old(r), px, py));
                    pre_step.lemma_pix_disjoint(px, py, x as int, y as int);
                    pre_step.lemma_pix_bounds(px, py);
                } else {
                    assert(c.transparent@[k as int].0 == px && c.transparent@[k as int].1 == py);
                    assert(false);
                }
            }
        }
        k = k + 1;
    }
    proof {
        assert forall|x: int, y: int|
            old(r).in_bounds(x, y) && #[trigger] is_transparent(*old(r), x, y)
                implies nearest_filled(*old(r), *r, x, y, debug) by {
            let j = choose|j: int|
                0 <= j < c.transparent@.len() && (#[trigger] c.transparent@[j]).0 == x
                    && c.transparent@[j].1 == y;
            assert(nearest_filled(*old(r), *r, c.transparent@[j].0 as int,
                c.transparent@[j].1 as int, debug));
        }
        assert forall|x: int, y: int|
            old(r).in_bounds(x, y) && !is_transparent(*old(r), x, y)
                implies #[trigger] r.pixel_unchanged(*old(r), x, y) by {
            if exists|j: int|
                0 <= j < c.transparent@.len() && (#[trigger] c.transparent@[j]).0 == x
                    && c.transparent@[j].1 == y {
                let j = choose|j: int|
                    0 <= j < c.transparent@.len() && (#[trigger] c.transparent@[j]).0 == x
                        && c.transparent@[j].1 == y;
                assert(is_transparent(*old(r), x, y));
            }
        }
    }
}

} // verus!
