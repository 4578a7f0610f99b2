use vstd::prelude::*;

verus! {

/// `(nx, ny)` is one of the eight Moore neighbors of `(x, y)`: a distinct
/// coordinate at Chebyshev distance one (diagonals included).
pub open spec fn is_neighbor(x: int, y: int, nx: int, ny: int) -> bool {
    &&& (nx, ny) != (x, y)
    &&& -1 <= nx - x <= 1
    &&& -1 <= ny - y <= 1
}

/// Position of a Moore offset in the fixed scan order the fill strategies
/// use; 8 for anything that is not a Moore offset.
pub open spec fn offset_rank(dx: int, dy: int) -> int {
    if dx == -1 && dy == -1 {
        0
    } else if dx == 0 && dy == -1 {
        1
    } else if dx == 1 && dy == -1 {
        2
    } else if dx == 1 && dy == 0 {
        3
    } else if dx == 1 && dy == 1 {
        4
    } else if dx == 0 && dy == 1 {
        5
    } else if dx == -1 && dy == 1 {
        6
    } else if dx == -1 && dy == 0 {
        7
    } else {
        8
    }
}

/// The sequence `s` holds exactly the in-bounds Moore neighbors of `(x, y)`
/// in a `w` by `h` grid, each once.
pub open spec fn neighbor_list(s: Seq<(usize, usize)>, x: int, y: int, w: int, h: int) -> bool {
    &&& forall|i: int|
        0 <= i < s.len() ==> is_neighbor(x, y, (#[trigger] s[i]).0 as int, s[i].1 as int)
            && s[i].0 < w && s[i].1 < h
    &&& forall|nx: int, ny: int|
        is_neighbor(x, y, nx, ny) && 0 <= nx < w && 0 <= ny < h ==> exists|i: int|
            0 <= i < s.len() && (#[trigger] s[i]).0 == nx && s[i].1 == ny
    &&& forall|i: int, j: int| 0 <= i < j < s.len() ==> #[trigger] s[i] != #[trigger] s[j]
}

/// The in-bounds Moore neighbors of `(x, y)` in a `w` by `h` grid, in the
/// fixed scan order that the fill strategies use.
pub fn neighbor_coords(x: usize, y: usize, w: usize, h: usize) -> (out: Vec<(usize, usize)>)
    requires
        x < w,
        y < h,
    ensures
        neighbor_list(out@, x as int, y as int, w as int, h as int),
        out@.len() <= 8,
        forall|i: int, j: int|
            0 <= i < j < out@.len() ==> offset_rank((#[trigger] out@[i]).0 - x,
                out@[i].1 - y) < offset_rank((#[trigger] out@[j]).0 - x, out@[j].1 - y),
{
    let mut out: Vec<(usize, usize)> = Vec::new();
    let mut d: usize = 0;
    while d < 8
        invariant
            x < w,
            y < h,
            d <= 8,
            out@.len() <= d,
            forall|i: int|
                0 <= i < out@.len() ==> is_neighbor(x as int, y as int, (#[trigger] out@[i]).0
                    as int, out@[i].1 as int) && out@[i].0 < w && out@[i].1 < h
                    && offset_rank(out@[i].0 - x, out@[i].1 - y) < d,
            forall|nx: int, ny: int|
                is_neighbor(x as int, y as int, nx, ny) && 0 <= nx < w && 0 <= ny < h
                    && offset_rank(nx - x, ny - y) < d ==> exists|i: int|
                    0 <= i < out@.len() && (#[trigger] out@[i]).0 == nx && out@[i].1 == ny,
            forall|i: int, j: int| 0 <= i < j < out@.len() ==> #[trigger] out@[i] != #[trigger] out@[j],
            forall|i: int, j: int|
                0 <= i < j < out@.len() ==> offset_rank((#[trigger] out@[i]).0 - x,
                    out@[i].1 - y) < offset_rank((#[trigger] out@[j]).0 - x, out@[j].1 - y),
        decreases 8 - d,
    {
        let ghost prev = out@;
        let cand: Option<(usize, usize)> = if d == 0 {
            if x > 0 && y > 0 {
                Some((x - 1, y - 1))
            } else {
                None
            }
        } else if d == 1 {
            if y > 0 {
                Some((x, y - 1))
            } else {
                None
            }
        } else if d == 2 {
            if x + 1 < w && y > 0 {
                Some((x + 1, y - 1))
            } else {
                None
            }
        } else if d == 3 {
            if x + 1 < w {
                Some((x + 1, y))
            } else {
                None
            }
        } else if d == 4 {
            if x + 1 < w && y + 1 < h {
                Some((x + 1, y + 1))
            } else {
                None
            }
        } else if d == 5 {
            if y + 1 < h {
                Some((x, y + 1))
            } else {
                None
            }
        } else if d == 6 {
            if x > 0 && y + 1 < h {
                Some((x - 1, y + 1))
            } else {
                None
            }
        } else {
            if x > 0 {
                Some((x - 1, y))
            } else {
                None
            }
        };
        proof {
            assert(match cand {
                Some(p) => p.0 < w && p.1 < h && is_neighbor(x as int, y as int, p.0 as int,
                    p.1 as int) && offset_rank(p.0 - x, p.1 - y) == d,
                None => forall|nx: int, ny: int|
                    !(is_neighbor(x as int, y as int, nx, ny) && 0 <= nx < w && 0 <= ny < h
                        && offset_rank(nx - x, ny - y) == d),
            });
        }
        match cand {
            Some(p) => {
                out.push(p);
                proof {
                    assert(out@ == prev.push(p));
                    assert(out@[out@.len() - 1] == p);
                    assert forall|nx: int, ny: int|
                        is_neighbor(x as int, y as int, nx, ny) && 0 <= nx < w && 0 <= ny < h
                            && offset_rank(nx - x, ny - y) < d + 1 implies exists|i: int|
                        0 <= i < out@.len() && (#[trigger] out@[i]).0 == nx && out@[i].1
                            == ny by {
                        if offset_rank(nx - x, ny - y) < d {
                            let i = choose|i: int|
                                0 <= i < prev.len() && (#[trigger] prev[i]).0 == nx && prev[i].1
                                    == ny;
                            assert(out@[i].0 == nx && out@[i].1 == ny);
                        } else {
                            assert(nx == p.0 && ny == p.1);
                            assert(out@[out@.len() - 1].0 == nx && out@[out@.len() - 1].1 == ny);
                        }
                    }
                }
            },
            None => {},
        }
        d = d + 1;
    }
    proof {
        assert forall|nx: int, ny: int|
            is_neighbor(x as int, y as int, nx, ny) && 0 <= nx < w && 0 <= ny < h
                implies offset_rank(nx - x, ny - y) < 8 by {
            assert(-1 <= nx - x <= 1 && -1 <= ny - y <= 1 && !(nx - x == 0 && ny - y == 0));
        }
    }
    out
}

/// The in-bounds Moore neighbors of `(x, y)` in a `w` by `h` grid, for
/// callers that work in signed coordinates.
pub fn neighbors(x: i32, y: i32, w: i32, h: i32) -> (out: Vec<(i32, i32)>)
    requires
        0 <= x < w,
        0 <= y < h,
    ensures
        forall|i: int|
            0 <= i < out@.len() ==> is_neighbor(x as int, y as int, (#[trigger] out@[i]).0 as int,
                out@[i].1 as int) && 0 <= out@[i].0 < w && 0 <= out@[i].1 < h,
        forall|nx: int, ny: int|
            is_neighbor(x as int, y as int, nx, ny) && 0 <= nx < w && 0 <= ny < h
                ==> exists|i: int| 0 <= i < out@.len() && (#[trigger] out@[i]).0 == nx
                && out@[i].1 == ny,
        forall|i: int, j: int| 0 <= i < j < out@.len() ==> #[trigger] out@[i] != #[trigger] out@[j],
        forall|i: int, j: int|
            0 <= i < j < out@.len() ==> offset_rank((#[trigger] out@[i]).0 - x,
                out@[i].1 - y) < offset_rank((#[trigger] out@[j]).0 - x, out@[j].1 - y),
{
    let coords = neighbor_coords(x as usize, y as usize, w as usize, h as usize);
    let mut out: Vec<(i32, i32)> = Vec::new();
    let mut k: usize = 0;
    while k < coords.len()
        invariant
            k <= coords@.len(),
            out@.len() == k,
            neighbor_list(coords@, x as int, y as int, w as int, h as int),
            0 <= x < w,
            0 <= y < h,
            forall|i: int|
                0 <= i < k ==> (#[trigger] out@[i]).0 == coords@[i].0 && out@[i].1 == coords@[i].1,
        decreases coords@.len() - k,
    {
        let (nx, ny) = coords[k];
        out.push((nx as i32, ny as i32));
        k = k + 1;
    }
    proof {
        assert forall|nx: int, ny: int|
            is_neighbor(x as int, y as int, nx, ny) && 0 <= nx < w && 0 <= ny < h
                implies exists|i: int|
            0 <= i < out@.len() && (#[trigger] out@[i]).0 == nx && out@[i].1 == ny by {
            let i = choose|i: int|
                0 <= i < coords@.len() && (#[trigger] coords@[i]).0 == nx && coords@[i].1 == ny;
            assert(out@[i].0 == nx && out@[i].1 == ny);
        }
    }
    out
}

} // verus!
