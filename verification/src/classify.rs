use vstd::prelude::*;
use crate::neighbor::{is_neighbor, neighbor_coords, neighbor_list};
use crate::raster::Raster;

verus! {

/// An opaque pixel that touches full transparency, with its recorded color.
#[derive(Clone, Copy)]
pub struct BorderPoint {
    pub x: usize,
    pub y: usize,
    pub red: u8,
    pub green: u8,
    pub blue: u8,
}

/// `(x, y)` is fully transparent.
pub open spec fn is_transparent(r: Raster, x: int, y: int) -> bool {
    r.alpha(x, y) == 0
}

/// `(x, y)` is a border pixel: not fully transparent, with at least one
/// in-bounds Moore neighbor that is.  Out-of-bounds neighbors never count.
pub open spec fn is_border(r: Raster, x: int, y: int) -> bool {
    &&& r.alpha(x, y) != 0
    &&& exists|nx: int, ny: int|
        is_neighbor(x, y, nx, ny) && r.in_bounds(nx, ny) && r.alpha(nx, ny) == 0
}

/// The raster holds at least one border pixel.
pub open spec fn has_border(r: Raster) -> bool {
    exists|x: int, y: int| r.in_bounds(x, y) && #[trigger] is_border(r, x, y)
}

/// Row-major position of `(x, y)`: the discovery order of the classifier.
pub open spec fn row_major(w: int, x: int, y: int) -> int {
    y * w + x
}

/// Row-major position is injective on coordinates within a row width.
pub proof fn lemma_row_major_injective(w: int, x1: int, y1: int, x2: int, y2: int)
    requires
        0 <= x1 < w,
        0 <= x2 < w,
        0 <= y1,
        0 <= y2,
        (x1, y1) != (x2, y2),
    ensures
        row_major(w, x1, y1) != row_major(w, x2, y2),
{
    assert(y1 * w + x1 != y2 * w + x2) by (nonlinear_arith)
        requires
            0 <= x1 < w,
            0 <= x2 < w,
            0 <= y1,
            0 <= y2,
            x1 != x2 || y1 != y2,
    ;
}

/// What the classifier reports about one raster: the border points with
/// their colors, and every fully transparent pixel, both in discovery
/// (row-major) order.
pub struct Classification {
    pub border: Vec<BorderPoint>,
    pub transparent: Vec<(usize, usize)>,
}

/// `border` holds exactly the border pixels of `r`, with their colors, in
/// strictly increasing row-major order.
pub open spec fn border_of(border: Seq<BorderPoint>, r: Raster) -> bool {
    &&& forall|i: int|
        0 <= i < border.len() ==> {
            let b = #[trigger] border[i];
            &&& r.in_bounds(b.x as int, b.y as int)
            &&& is_border(r, b.x as int, b.y as int)
            &&& (b.red, b.green, b.blue) == r.rgb(b.x as int, b.y as int)
        }
    &&& forall|x: int, y: int|
        r.in_bounds(x, y) && is_border(r, x, y) ==> exists|i: int|
            0 <= i < border.len() && (#[trigger] border[i]).x == x && border[i].y == y
    &&& forall|i: int, j: int|
        0 <= i < j < border.len() ==> row_major(r.width as int, (#[trigger] border[i]).x as int,
            border[i].y as int) < row_major(r.width as int, (#[trigger] border[j]).x as int,
            border[j].y as int)
}

/// `transparent` holds exactly the fully transparent pixels of `r`, in
/// strictly increasing row-major order.
pub open spec fn transparent_of(transparent: Seq<(usize, usize)>, r: Raster) -> bool {
    &&& forall|i: int|
        0 <= i < transparent.len() ==> {
            let p = #[trigger] transparent[i];
            r.in_bounds(p.0 as int, p.1 as int) && is_transparent(r, p.0 as int, p.1 as int)
        }
    &&& forall|x: int, y: int|
        r.in_bounds(x, y) && is_transparent(r, x, y) ==> exists|i: int|
            0 <= i < transparent.len() && (#[trigger] transparent[i]).0 == x && transparent[i].1
            == y
    &&& forall|i: int, j: int|
        0 <= i < j < transparent.len() ==> row_major(r.width as int,
            (#[trigger] transparent[i]).0 as int, transparent[i].1 as int) < row_major(
            r.width as int, (#[trigger] transparent[j]).0 as int, transparent[j].1 as int)
}

pub open spec fn classification_of(c: Classification, r: Raster) -> bool {
    border_of(c.border@, r) && transparent_of(c.transparent@, r)
}

/// Does `(x, y)` have an in-bounds Moore neighbor that is fully transparent?
fn has_transparent_neighbor(r: &Raster, x: usize, y: usize) -> (b: bool)
    requires
        r.wf(),
        r.in_bounds(x as int, y as int),
    ensures
        b == exists|nx: int, ny: int|
            is_neighbor(x as int, y as int, nx, ny) && r.in_bounds(nx, ny) && r.alpha(nx, ny)
                == 0,
{
    let coords = neighbor_coords(x, y, r.width, r.height);
    let mut k: usize = 0;
    let mut found = false;
    while k < coords.len()
        invariant
            r.wf(),
            r.in_bounds(x as int, y as int),
            k <= coords@.len(),
            neighbor_list(coords@, x as int, y as int, r.width as int, r.height as int),
            found == exists|i: int|
                0 <= i < k && r.alpha((#[trigger] coords@[i]).0 as int, coords@[i].1 as int) == 0,
        decreases coords@.len() - k,
    {
        let (nx, ny) = coords[k];
        if r.get_chan(nx, ny, 3) == 0 {
            found = true;
            proof {
                assert(r.alpha(coords@[k as int].0 as int, coords@[k as int].1 as int) == 0);
            }
        }
        k = k + 1;
    }
    proof {
        if found {
            let i = choose|i: int|
                0 <= i < coords@.len() && r.alpha((#[trigger] coords@[i]).0 as int,
                    coords@[i].1 as int) == 0;
            assert(is_neighbor(x as int, y as int, coords@[i].0 as int, coords@[i].1 as int)
                && r.in_bounds(coords@[i].0 as int, coords@[i].1 as int));
        } else {
            assert forall|nx: int, ny: int|
                is_neighbor(x as int, y as int, nx, ny) && r.in_bounds(nx, ny)
                    implies r.alpha(nx, ny) != 0 by {
                let i = choose|i: int|
                    0 <= i < coords@.len() && (#[trigger] coords@[i]).0 == nx && coords@[i].1
                        == ny;
                assert(r.alpha(coords@[i].0 as int, coords@[i].1 as int) != 0);
            }
        }
    }
    found
}

/// Scan the raster once, recording every border pixel with its color and
/// every fully transparent pixel, in row-major discovery order.
pub fn classify(r: &Raster) -> (c: Classification)
    requires
        r.wf(),
    ensures
        classification_of(c, *r),
{
    let mut border: Vec<BorderPoint> = Vec::new();
    let mut transparent: Vec<(usize, usize)> = Vec::new();
    let mut y: usize = 0;
    while y < r.height
        invariant
            r.wf(),
            y <= r.height,
            scan_invariant(border@, transparent@, *r, row_major(r.width as int, 0, y as int)),
            row_major(r.width as int, 0, y as int) >= 0,
        decreases r.height - y,
    {
        let mut x: usize = 0;
        while x < r.width
            invariant
                r.wf(),
                y < r.height,
                x <= r.width,
                scan_invariant(border@, transparent@, *r, row_major(r.width as int, x as int,
                    y as int)),
                row_major(r.width as int, x as int, y as int) >= 0,
            decreases r.width - x,
        {
            let ghost limit = row_major(r.width as int, x as int, y as int);
            let ghost prev_border = border@;
            let ghost prev_transparent = transparent@;
            let a = r.get_chan(x, y, 3);
            if a == 0 {
                transparent.push((x, y));
            } else {
                if has_transparent_neighbor(r, x, y) {
                    let red = r.get_chan(x, y, 0);
                    let green = r.get_chan(x, y, 1);
                    let blue = r.get_chan(x, y, 2);
                    border.push(BorderPoint { x, y, red, green, blue });
                }
            }
            proof {
                lemma_scan_step(prev_border, border@, prev_transparent, transparent@, *r,
                    x as int, y as int);
            }
            x = x + 1;
            proof {
                assert(row_major(r.width as int, x as int, y as int) == limit + 1);
            }
        }
        y = y + 1;
        proof {
            assert(row_major(r.width as int, 0, y as int) == (y as int) * r.width) by (
            nonlinear_arith);
            assert((y as int) * r.width == ((y - 1) as int) * r.width + r.width) by (
            nonlinear_arith);
        }
    }
    proof {
        assert forall|x: int, y2: int| r.in_bounds(x, y2) implies row_major(r.width as int, x, y2)
            < row_major(r.width as int, 0, r.height as int) by {
            assert(y2 * r.width + x < r.height as int * r.width) by (nonlinear_arith)
                requires
                    0 <= x < r.width,
                    0 <= y2 < r.height,
            ;
        }
    }
    Classification { border, transparent }
}

/// The scan has seen exactly the pixels with row-major position below
/// `limit`, and has recorded their border points and transparent pixels in
/// order.
pub open spec fn scan_invariant(border: Seq<BorderPoint>, transparent: Seq<(usize, usize)>,
    r: Raster, limit: int) -> bool {
    &&& forall|i: int|
        0 <= i < border.len() ==> {
            let b = #[trigger] border[i];
            &&& r.in_bounds(b.x as int, b.y as int)
            &&& is_border(r, b.x as int, b.y as int)
            &&& (b.red, b.green, b.blue) == r.rgb(b.x as int, b.y as int)
            &&& row_major(r.width as int, b.x as int, b.y as int) < limit
        }
    &&& forall|x: int, y: int|
        r.in_bounds(x, y) && is_border(r, x, y) && row_major(r.width as int, x, y) < limit
            ==> exists|i: int|
            0 <= i < border.len() && (#[trigger] border[i]).x == x && border[i].y == y
    &&& forall|i: int, j: int|
        0 <= i < j < border.len() ==> row_major(r.width as int, (#[trigger] border[i]).x as int,
            border[i].y as int) < row_major(r.width as int, (#[trigger] border[j]).x as int,
            border[j].y as int)
    &&& forall|i: int|
        0 <= i < transparent.len() ==> {
            let p = #[trigger] transparent[i];
            &&& r.in_bounds(p.0 as int, p.1 as int)
            &&& is_transparent(r, p.0 as int, p.1 as int)
            &&& row_major(r.width as int, p.0 as int, p.1 as int) < limit
        }
    &&& forall|x: int, y: int|
        r.in_bounds(x, y) && is_transparent(r, x, y) && row_major(r.width as int, x, y) < limit
            ==> exists|i: int|
            0 <= i < transparent.len() && (#[trigger] transparent[i]).0 == x && transparent[i].1
            == y
    &&& forall|i: int, j: int|
        0 <= i < j < transparent.len() ==> row_major(r.width as int,
            (#[trigger] transparent[i]).0 as int, transparent[i].1 as int) < row_major(
            r.width as int, (#[trigger] transparent[j]).0 as int, transparent[j].1 as int)
}

/// One scan step: pixel `(x, y)` was just examined and, if it qualified,
/// recorded; the invariant advances one row-major position.
proof fn lemma_scan_step(prev_border: Seq<BorderPoint>, border: Seq<BorderPoint>,
    prev_transparent: Seq<(usize, usize)>, transparent: Seq<(usize, usize)>, r: Raster,
    x: int, y: int)
    requires
        r.wf(),
        r.in_bounds(x, y),
        scan_invariant(prev_border, prev_transparent, r, row_major(r.width as int, x, y)),
        if is_transparent(r, x, y) {
            border == prev_border && exists|p: (usize, usize)|
                p.0 == x && p.1 == y && transparent == prev_transparent.push(p)
        } else if is_border(r, x, y) {
            transparent == prev_transparent && exists|b: BorderPoint|
                b.x == x && b.y == y && (b.red, b.green, b.blue) == r.rgb(x, y) && border
                    == prev_border.push(b)
        } else {
            border == prev_border && transparent == prev_transparent
        },
    ensures
        scan_invariant(border, transparent, r, row_major(r.width as int, x, y) + 1),
{
    let w = r.width as int;
    let limit = row_major(w, x, y);
    assert forall|px: int, py: int|
        r.in_bounds(px, py) && is_border(r, px, py) && row_major(w, px, py) < limit + 1
            implies exists|i: int|
        0 <= i < border.len() && (#[trigger] border[i]).x == px && border[i].y == py by {
        if row_major(w, px, py) < limit {
            let i = choose|i: int|
                0 <= i < prev_border.len() && (#[trigger] prev_border[i]).x == px
                    && prev_border[i].y == py;
            assert(border[i].x == px && border[i].y == py);
        } else {
            if px != x || py != y {
                lemma_row_major_injective(w, px, py, x, y);
            }
            assert(px == x && py == y);
            assert(!is_transparent(r, x, y));
            assert(border[border.len() - 1].x == px && border[border.len() - 1].y == py);
        }
    }
    assert forall|px: int, py: int|
        r.in_bounds(px, py) && is_transparent(r, px, py) && row_major(w, px, py) < limit + 1
            implies exists|i: int|
        0 <= i < transparent.len() && (#[trigger] transparent[i]).0 == px && transparent[i].1
            == py by {
        if row_major(w, px, py) < limit {
            let i = choose|i: int|
                0 <= i < prev_transparent.len() && (#[trigger] prev_transparent[i]).0 == px
                    && prev_transparent[i].1 == py;
            assert(transparent[i].0 == px && transparent[i].1 == py);
        } else {
            if px != x || py != y {
                lemma_row_major_injective(w, px, py, x, y);
            }
            assert(px == x && py == y);
            assert(transparent[transparent.len() - 1].0 == px && transparent[transparent.len()
                - 1].1 == py);
        }
    }
}

/// The classifier finds no border point exactly when the raster has none.
pub proof fn lemma_border_empty(c: Classification, r: Raster)
    requires
        classification_of(c, r),
    ensures
        c.border@.len() == 0 <==> !has_border(r),
{
    if c.border@.len() > 0 {
        let b = c.border@[0];
        assert(r.in_bounds(b.x as int, b.y as int) && is_border(r, b.x as int, b.y as int));
        assert(has_border(r));
    }
    if has_border(r) {
        let (x, y) = choose|x: int, y: int| r.in_bounds(x, y) && #[trigger] is_border(r, x, y);
        assert(exists|i: int|
            0 <= i < c.border@.len() && (#[trigger] c.border@[i]).x == x && c.border@[i].y == y);
    }
}

/// An image with no fully transparent pixel, or no opaque pixel, or no
/// opaque/transparent adjacency, has no border pixel at all.
pub proof fn lemma_no_border_cases(r: Raster)
    requires
        r.wf(),
        (forall|x: int, y: int| r.in_bounds(x, y) ==> #[trigger] r.alpha(x, y) != 0)
            || (forall|x: int, y: int| r.in_bounds(x, y) ==> #[trigger] r.alpha(x, y) == 0)
            || (forall|x: int, y: int, nx: int, ny: int|
                r.in_bounds(x, y) && r.in_bounds(nx, ny) && is_neighbor(x, y, nx, ny)
                    ==> !(#[trigger] r.alpha(x, y) != 0 && #[trigger] r.alpha(nx, ny) == 0)),
    ensures
        !has_border(r),
{
    if has_border(r) {
        let (x, y) = choose|x: int, y: int| r.in_bounds(x, y) && #[trigger] is_border(r, x, y);
        let (nx, ny) = choose|nx: int, ny: int|
            is_neighbor(x, y, nx, ny) && r.in_bounds(nx, ny) && r.alpha(nx, ny) == 0;
        assert(r.alpha(x, y) != 0 && r.alpha(nx, ny) == 0);
        assert(false);
    }
}

} // verus!
