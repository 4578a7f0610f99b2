use vstd::prelude::*;
use vstd::pervasive::VecAdditionalExecFns;
use crate::classify::{has_border, is_border};
use crate::neighbor::{is_neighbor, neighbor_coords, neighbor_list};
use crate::raster::Raster;

verus! {

/// Progress of one pixel through the flood: its color is still unknown,
/// or it sits in a frontier waiting to be averaged, or its color is final.
/// The transitions are monotonic: Unprocessed to Staged to Processed,
/// never backward.
#[derive(Clone, Copy, Debug, PartialEq, Eq, Structural)]
pub enum Stage {
    Unprocessed,
    Staged,
    Processed,
}

/// The stage recorded for pixel `(x, y)` in the row-major stage array.
pub open spec fn stage_at(stages: Seq<Stage>, w: int, x: int, y: int) -> Stage {
    stages[y * w + x]
}

/// Sum of channel `c` over the listed pixels of `r`.
pub open spec fn sum_chan(r: Raster, s: Seq<(usize, usize)>, c: int) -> int
    decreases s.len(),
{
    if s.len() == 0 {
        0
    } else {
        sum_chan(r, s.drop_last(), c) + r.chan(s.last().0 as int, s.last().1 as int, c)
    }
}

/// `s` witnesses the flood guarantee at `(x, y)`: a nonempty set of
/// distinct in-bounds Moore neighbors whose truncating channel-wise mean
/// in `post` is exactly the RGB of `(x, y)` in `post`.
pub open spec fn avg_witness(post: Raster, x: int, y: int, s: Seq<(usize, usize)>) -> bool {
    &&& s.len() > 0
    &&& forall|i: int|
        0 <= i < s.len() ==> is_neighbor(x, y, (#[trigger] s[i]).0 as int, s[i].1 as int)
            && post.in_bounds(s[i].0 as int, s[i].1 as int)
    &&& forall|i: int, j: int| 0 <= i < j < s.len() ==> #[trigger] s[i] != #[trigger] s[j]
    &&& post.chan(x, y, 0) == sum_chan(post, s, 0) / (s.len() as int)
    &&& post.chan(x, y, 1) == sum_chan(post, s, 1) / (s.len() as int)
    &&& post.chan(x, y, 2) == sum_chan(post, s, 2) / (s.len() as int)
}

/// The RGB of `(x, y)` is an integer channel-wise mean of the final colors
/// of some nonempty set of its Moore neighbors.
pub open spec fn avg_filled(post: Raster, x: int, y: int) -> bool {
    exists|s: Seq<(usize, usize)>| #[trigger] avg_witness(post, x, y, s)
}

/// What the flood strategy guarantees pixel by pixel: alpha is forced to
/// 255 everywhere; a pixel that was not fully transparent keeps its RGB;
/// any pixel whose RGB changed was fully transparent and now carries a
/// neighbor average.
pub open spec fn flood_pixel_ok(pre: Raster, post: Raster, x: int, y: int) -> bool {
    &&& post.alpha(x, y) == 255
    &&& pre.alpha(x, y) != 0 ==> post.rgb(x, y) == pre.rgb(x, y)
    &&& post.rgb(x, y) != pre.rgb(x, y) ==> pre.alpha(x, y) == 0 && avg_filled(post, x, y)
}

/// What the flood strategy does to a raster.  When the raster has any
/// border pixel at all, every fully transparent pixel receives a neighbor
/// average: none is left with its stale color.
pub open spec fn flood_post(pre: Raster, post: Raster) -> bool {
    &&& post.width == pre.width
    &&& post.height == pre.height
    &&& post.wf()
    &&& forall|x: int, y: int|
        pre.in_bounds(x, y) ==> #[trigger] flood_pixel_ok(pre, post, x, y)
    &&& has_border(pre) ==> forall|x: int, y: int|
        pre.in_bounds(x, y) && pre.alpha(x, y) == 0 ==> #[trigger] avg_filled(post, x, y)
}

/// A channel sum only depends on the channels of the listed pixels.
proof fn lemma_sum_chan_same(r1: Raster, r2: Raster, s: Seq<(usize, usize)>, c: int)
    requires
        forall|i: int|
            0 <= i < s.len() ==> r1.chan((#[trigger] s[i]).0 as int, s[i].1 as int, c) == r2.chan(
                s[i].0 as int, s[i].1 as int, c),
    ensures
        sum_chan(r1, s, c) == sum_chan(r2, s, c),
    decreases s.len(),
{
    if s.len() > 0 {
        lemma_sum_chan_same(r1, r2, s.drop_last(), c);
    }
}

/// A channel sum over `n` pixels lies between 0 and `255 * n`.
proof fn lemma_sum_chan_bounds(r: Raster, s: Seq<(usize, usize)>, c: int)
    ensures
        0 <= sum_chan(r, s, c) <= 255 * s.len(),
    decreases s.len(),
{
    if s.len() > 0 {
        lemma_sum_chan_bounds(r, s.drop_last(), c);
    }
}

/// Termination measure of the flood: Unprocessed pixels count twice,
/// Staged pixels once, Processed pixels nothing.
pub open spec fn stage_weight(st: Stage) -> int {
    match st {
        Stage::Unprocessed => 2,
        Stage::Staged => 1,
        Stage::Processed => 0,
    }
}

pub open spec fn weight(s: Seq<Stage>) -> int
    decreases s.len(),
{
    if s.len() == 0 {
        0
    } else {
        weight(s.drop_last()) + stage_weight(s.last())
    }
}

proof fn lemma_weight_nonneg(s: Seq<Stage>)
    ensures
        0 <= weight(s),
    decreases s.len(),
{
    if s.len() > 0 {
        lemma_weight_nonneg(s.drop_last());
    }
}

/// Updating one stage changes the measure by the difference of the two
/// stage weights.
proof fn lemma_weight_update(s: Seq<Stage>, i: int, v: Stage)
    requires
        0 <= i < s.len(),
    ensures
        weight(s.update(i, v)) == weight(s) - stage_weight(s[i]) + stage_weight(v),
    decreases s.len(),
{
    let t = s.update(i, v);
    if i == s.len() - 1 {
        assert(t.drop_last() =~= s.drop_last());
    } else {
        assert(t.drop_last() =~= s.drop_last().update(i, v));
        lemma_weight_update(s.drop_last(), i, v);
    }
}

/// Stage array for the start of the flood: Processed wherever the raster
/// is not fully transparent, Unprocessed everywhere else.
fn init_stages(r: &Raster) -> (stages: Vec<Stage>)
    requires
        r.wf(),
    ensures
        4 * stages@.len() == r.data@.len(),
        forall|x: int, y: int|
            r.in_bounds(x, y) ==> stage_at(stages@, r.width as int, x, y) == (if r.alpha(x, y)
                != 0 {
                Stage::Processed
            } else {
                Stage::Unprocessed
            }),
{
    proof {
        vstd::std_specs::vec::axiom_spec_len(&r.data);
        assert(4 * (r.width * r.height) == r.data@.len() && 0 <= r.width * r.height) by (
        nonlinear_arith)
            requires
                r.data@.len() == 4 * r.width * r.height,
                0 < r.width,
                0 < r.height,
        ;
    }
    let n = r.width * r.height;
    let mut stages: Vec<Stage> = vec![Stage::Unprocessed; n];
    proof {
        assert forall|px: int, py: int| r.in_bounds(px, py) implies stage_at(stages@,
            r.width as int, px, py) == Stage::Unprocessed by {
            r.lemma_pix_bounds(px, py);
        }
    }
    let mut y: usize = 0;
    while y < r.height
        invariant
            r.wf(),
            y <= r.height,
            4 * stages@.len() == r.data@.len(),
            forall|px: int, py: int|
                r.in_bounds(px, py) && py < y ==> stage_at(stages@, r.width as int, px, py) == (
                if r.alpha(px, py) != 0 {
                    Stage::Processed
                } else {
                    Stage::Unprocessed
                }),
            forall|px: int, py: int|
                r.in_bounds(px, py) && py >= y ==> stage_at(stages@, r.width as int, px, py)
                    == Stage::Unprocessed,
        decreases r.height - y,
    {
        let mut x: usize = 0;
        while x < r.width
            invariant
                r.wf(),
                y < r.height,
                x <= r.width,
                4 * stages@.len() == r.data@.len(),
                forall|px: int, py: int|
                    r.in_bounds(px, py) && (py < y || (py == y && px < x)) ==> stage_at(stages@,
                        r.width as int, px, py) == (if r.alpha(px, py) != 0 {
                        Stage::Processed
                    } else {
                        Stage::Unprocessed
                    }),
                forall|px: int, py: int|
                    r.in_bounds(px, py) && (py > y || (py == y && px >= x)) ==> stage_at(stages@,
                        r.width as int, px, py) == Stage::Unprocessed,
            decreases r.width - x,
        {
            let ghost prev = stages@;
            if r.get_chan(x, y, 3) != 0 {
                let i = stage_index(r, x, y);
                stages.set(i, Stage::Processed);
            }
            proof {
                assert forall|px: int, py: int|
                    r.in_bounds(px, py) && (px, py) != (x as int, y as int)
                        implies stage_at(stages@, r.width as int, px, py) == stage_at(prev,
                    r.width as int, px, py) by {
                    crate::classify::lemma_row_major_injective(r.width as int, px, py, x as int,
                        y as int);
                    r.lemma_pix_bounds(px, py);
                    r.lemma_pix_bounds(x as int, y as int);
                }
            }
            x = x + 1;
        }
        y = y + 1;
    }
    stages
}

/// Row-major index of `(x, y)` in a stage array of the raster's size.
fn stage_index(r: &Raster, x: usize, y: usize) -> (i: usize)
    requires
        r.wf(),
        r.in_bounds(x as int, y as int),
    ensures
        i == (y as int) * (r.width as int) + (x as int),
        4 * i + 3 < r.data@.len(),
{
    proof {
        vstd::std_specs::vec::axiom_spec_len(&r.data);
        r.lemma_pix_bounds(x as int, y as int);
    }
    y * r.width + x
}

/// Force every pixel's alpha to 255, leaving every RGB byte alone.
fn solidify(r: &mut Raster)
    requires
        old(r).wf(),
    ensures
        final(r).wf(),
        final(r).width == old(r).width,
        final(r).height == old(r).height,
        forall|x: int, y: int|
            old(r).in_bounds(x, y) ==> #[trigger] final(r).alpha(x, y) == 255,
        forall|x: int, y: int|
            old(r).in_bounds(x, y) ==> #[trigger] final(r).rgb(x, y) == old(r).rgb(x, y),
{
    let mut y: usize = 0;
    while y < r.height
        invariant
            r.wf(),
            old(r).wf(),
            r.width == old(r).width,
            r.height == old(r).height,
            y <= r.height,
            forall|px: int, py: int|
                old(r).in_bounds(px, py) && py < y ==> #[trigger] r.alpha(px, py) == 255,
            forall|px: int, py: int|
                old(r).in_bounds(px, py) && py >= y ==> #[trigger] r.alpha(px, py) == old(
                r).alpha(px, py),
            forall|px: int, py: int|
                old(r).in_bounds(px, py) ==> #[trigger] r.rgb(px, py) == old(r).rgb(px, py),
        decreases r.height - y,
    {
        let mut x: usize = 0;
        while x < r.width
            invariant
                r.wf(),
                old(r).wf(),
                r.width == old(r).width,
                r.height == old(r).height,
                y < r.height,
                x <= r.width,
                forall|px: int, py: int|
                    old(r).in_bounds(px, py) && (py < y || (py == y && px < x))
                        ==> #[trigger] r.alpha(px, py) == 255,
                forall|px: int, py: int|
                    old(r).in_bounds(px, py) && (py > y || (py == y && px >= x))
                        ==> #[trigger] r.alpha(px, py) == old(r).alpha(px, py),
                forall|px: int, py: int|
                    old(r).in_bounds(px, py) ==> #[trigger] r.rgb(px, py) == old(r).rgb(px, py),
            decreases r.width - x,
        {
            let ghost prev = *r;
            r.set_chan(x, y, 3, 255);
            proof {
                prev.lemma_pix_bounds(x as int, y as int);
                assert forall|px: int, py: int|
                    old(r).in_bounds(px, py) && (py < y || (py == y && px < x + 1))
                        implies #[trigger] r.alpha(px, py) == 255 by {
                    if (px, py) != (x as int, y as int) {
                        prev.lemma_pix_disjoint(px, py, x as int, y as int);
                        prev.lemma_pix_bounds(px, py);
                        assert(r.alpha(px, py) == prev.alpha(px, py));
                    }
                }
                assert forall|px: int, py: int|
                    old(r).in_bounds(px, py) && (py > y || (py == y && px >= x + 1))
                        implies #[trigger] r.alpha(px, py) == old(r).alpha(px, py) by {
                    prev.lemma_pix_disjoint(px, py, x as int, y as int);
                    prev.lemma_pix_bounds(px, py);
                    assert(r.alpha(px, py) == prev.alpha(px, py));
                }
                assert forall|px: int, py: int| old(r).in_bounds(px, py)
                    implies #[trigger] r.rgb(px, py) == old(r).rgb(px, py) by {
                    if (px, py) != (x as int, y as int) {
                        prev.lemma_pix_disjoint(px, py, x as int, y as int);
                    }
                    prev.lemma_pix_bounds(px, py);
                    assert(r.rgb(px, py) == prev.rgb(px, py));
                }
            }
            x = x + 1;
        }
        y = y + 1;
    }
}

/// One pixel's stage is Processed on the listed coordinates.
pub open spec fn all_processed(stages: Seq<Stage>, w: int, s: Seq<(usize, usize)>) -> bool {
    forall|i: int|
        0 <= i < s.len() ==> stage_at(stages, w, (#[trigger] s[i]).0 as int, s[i].1 as int)
            == Stage::Processed
}

/// If the RGB of `(x, y)` has changed, the pixel was fully transparent and
/// its color is already an average of currently Processed neighbors.
pub open spec fn round_ok(pre: Raster, cur: Raster, stages: Seq<Stage>, x: int, y: int) -> bool {
    cur.rgb(x, y) != pre.rgb(x, y) ==> pre.alpha(x, y) == 0 && exists|s: Seq<(usize, usize)>|
        #[trigger] avg_witness(cur, x, y, s) && all_processed(stages, pre.width as int, s)
}

/// Everything that holds between steps of the flood: stable dimensions,
/// pixels that were not fully transparent are Processed and keep their
/// color, non-Processed pixels were fully transparent, and every changed
/// pixel already carries an average of Processed neighbors.
pub open spec fn flood_inv(pre: Raster, cur: Raster, stages: Seq<Stage>) -> bool {
    &&& pre.wf()
    &&& cur.wf()
    &&& cur.width == pre.width
    &&& cur.height == pre.height
    &&& 4 * stages.len() == pre.data@.len()
    &&& forall|x: int, y: int|
        pre.in_bounds(x, y) && pre.alpha(x, y) != 0 ==> #[trigger] stage_at(stages,
            pre.width as int, x, y) == Stage::Processed
    &&& forall|x: int, y: int|
        pre.in_bounds(x, y) && pre.alpha(x, y) != 0 ==> #[trigger] cur.rgb(x, y) == pre.rgb(x, y)
    &&& forall|x: int, y: int|
        pre.in_bounds(x, y) && #[trigger] stage_at(stages, pre.width as int, x, y)
            != Stage::Processed ==> pre.alpha(x, y) == 0
    &&& forall|x: int, y: int|
        pre.in_bounds(x, y) ==> #[trigger] round_ok(pre, cur, stages, x, y)
    &&& forall|x: int, y: int|
        pre.in_bounds(x, y) && #[trigger] stage_at(stages, pre.width as int, x, y)
            == Stage::Processed ==> no_unprocessed_neighbor(pre, stages, x, y)
    &&& forall|x: int, y: int|
        pre.in_bounds(x, y) && pre.alpha(x, y) == 0 ==> #[trigger] filled_ok(pre, cur, stages,
            x, y)
}

/// A frontier: distinct in-bounds pixels, all currently Staged.
pub open spec fn queue_ok(q: Seq<(usize, usize)>, pre: Raster, stages: Seq<Stage>) -> bool {
    &&& forall|i: int|
        0 <= i < q.len() ==> pre.in_bounds((#[trigger] q[i]).0 as int, q[i].1 as int)
            && stage_at(stages, pre.width as int, q[i].0 as int, q[i].1 as int) == Stage::Staged
    &&& forall|i: int, j: int| 0 <= i < j < q.len() ==> #[trigger] q[i] != #[trigger] q[j]
}

/// `(x, y)` occurs in the queue.
pub open spec fn in_queue(q: Seq<(usize, usize)>, x: int, y: int) -> bool {
    exists|j: int| 0 <= j < q.len() && (#[trigger] q[j]).0 == x && q[j].1 == y
}

pub open spec fn queues_disjoint(q0: Seq<(usize, usize)>, q1: Seq<(usize, usize)>) -> bool {
    forall|i: int, j: int|
        0 <= i < q0.len() && 0 <= j < q1.len() ==> #[trigger] q0[i] != #[trigger] q1[j]
}

/// Keeping every Processed stage Processed preserves `round_ok` everywhere.
proof fn lemma_round_ok_monotone(pre: Raster, cur: Raster, s1: Seq<Stage>, s2: Seq<Stage>)
    requires
        forall|x: int, y: int|
            pre.in_bounds(x, y) && #[trigger] stage_at(s1, pre.width as int, x, y)
                == Stage::Processed ==> stage_at(s2, pre.width as int, x, y) == Stage::Processed,
        forall|x: int, y: int|
            pre.in_bounds(x, y) ==> #[trigger] round_ok(pre, cur, s1, x, y),
        cur.width == pre.width,
        cur.height == pre.height,
    ensures
        forall|x: int, y: int|
            pre.in_bounds(x, y) ==> #[trigger] round_ok(pre, cur, s2, x, y),
{
    assert forall|x: int, y: int| pre.in_bounds(x, y) implies #[trigger] round_ok(pre, cur, s2,
        x, y) by {
        if cur.rgb(x, y) != pre.rgb(x, y) {
            assert(round_ok(pre, cur, s1, x, y));
            let s = choose|s: Seq<(usize, usize)>|
                #[trigger] avg_witness(cur, x, y, s) && all_processed(s1, pre.width as int, s);
            assert forall|i: int| 0 <= i < s.len() implies stage_at(s2, pre.width as int,
                (#[trigger] s[i]).0 as int, s[i].1 as int) == Stage::Processed by {
                assert(stage_at(s1, pre.width as int, s[i].0 as int, s[i].1 as int)
                    == Stage::Processed);
                assert(pre.in_bounds(s[i].0 as int, s[i].1 as int));
            }
            assert(avg_witness(cur, x, y, s) && all_processed(s2, pre.width as int, s));
        }
    }
}

/// Rewriting the color of one non-Processed pixel preserves `round_ok` at
/// every other pixel: no witness can mention the rewritten pixel.
proof fn lemma_round_ok_write(pre: Raster, r1: Raster, r2: Raster, stages: Seq<Stage>, wx: int,
    wy: int)
    requires
        r1.width == pre.width,
        r1.height == pre.height,
        r2.width == pre.width,
        r2.height == pre.height,
        pre.in_bounds(wx, wy),
        stage_at(stages, pre.width as int, wx, wy) != Stage::Processed,
        forall|x: int, y: int|
            pre.in_bounds(x, y) && (x, y) != (wx, wy) ==> #[trigger] r2.rgb(x, y) == r1.rgb(x, y),
        forall|x: int, y: int|
            pre.in_bounds(x, y) ==> #[trigger] round_ok(pre, r1, stages, x, y),
    ensures
        forall|x: int, y: int|
            pre.in_bounds(x, y) && (x, y) != (wx, wy) ==> #[trigger] round_ok(pre, r2, stages, x,
                y),
{
    assert forall|x: int, y: int| pre.in_bounds(x, y) && (x, y) != (wx, wy)
        implies #[trigger] round_ok(pre, r2, stages, x, y) by {
        if r2.rgb(x, y) != pre.rgb(x, y) {
            assert(r1.rgb(x, y) != pre.rgb(x, y));
            assert(round_ok(pre, r1, stages, x, y));
            let s = choose|s: Seq<(usize, usize)>|
                #[trigger] avg_witness(r1, x, y, s) && all_processed(stages, pre.width as int, s);
            assert forall|i: int| 0 <= i < s.len() implies r1.chan((#[trigger] s[i]).0 as int,
                s[i].1 as int, 0) == r2.chan(s[i].0 as int, s[i].1 as int, 0) && r1.chan(
                s[i].0 as int, s[i].1 as int, 1) == r2.chan(s[i].0 as int, s[i].1 as int, 1)
                && r1.chan(s[i].0 as int, s[i].1 as int, 2) == r2.chan(s[i].0 as int,
                s[i].1 as int, 2) by {
                assert(stage_at(stages, pre.width as int, s[i].0 as int, s[i].1 as int)
                    == Stage::Processed);
                assert((s[i].0 as int, s[i].1 as int) != (wx, wy));
                assert(r2.rgb(s[i].0 as int, s[i].1 as int) == r1.rgb(s[i].0 as int,
                    s[i].1 as int));
            }
            lemma_sum_chan_same(r1, r2, s, 0);
            lemma_sum_chan_same(r1, r2, s, 1);
            lemma_sum_chan_same(r1, r2, s, 2);
            assert(avg_witness(r2, x, y, s) && all_processed(stages, pre.width as int, s));
        }
    }
}

/// No in-bounds Moore neighbor of `(x, y)` is still Unprocessed.
pub open spec fn no_unprocessed_neighbor(pre: Raster, stages: Seq<Stage>, x: int, y: int) -> bool {
    forall|nx: int, ny: int|
        pre.in_bounds(nx, ny) && is_neighbor(x, y, nx, ny) ==> #[trigger] stage_at(stages,
            pre.width as int, nx, ny) != Stage::Unprocessed
}

/// Some in-bounds Moore neighbor of `(x, y)` is already Processed.
pub open spec fn has_processed_neighbor(pre: Raster, stages: Seq<Stage>, x: int, y: int) -> bool {
    exists|nx: int, ny: int|
        pre.in_bounds(nx, ny) && is_neighbor(x, y, nx, ny) && #[trigger] stage_at(stages,
            pre.width as int, nx, ny) == Stage::Processed
}

/// `(x, y)` carries an average of currently Processed neighbors, whether
/// or not that average changed its bytes.
pub open spec fn witnessed(pre: Raster, cur: Raster, stages: Seq<Stage>, x: int, y: int) -> bool {
    exists|s: Seq<(usize, usize)>|
        #[trigger] avg_witness(cur, x, y, s) && all_processed(stages, pre.width as int, s)
}

/// Once a fully transparent pixel is Processed, it carries an average of
/// Processed neighbors.
pub open spec fn filled_ok(pre: Raster, cur: Raster, stages: Seq<Stage>, x: int, y: int) -> bool {
    stage_at(stages, pre.width as int, x, y) == Stage::Processed ==> witnessed(pre, cur, stages,
        x, y)
}

/// A witness survives growing the Processed set.
proof fn lemma_witnessed_monotone(pre: Raster, cur: Raster, s1: Seq<Stage>, s2: Seq<Stage>,
    x: int, y: int)
    requires
        cur.width == pre.width,
        cur.height == pre.height,
        witnessed(pre, cur, s1, x, y),
        forall|px: int, py: int|
            pre.in_bounds(px, py) && #[trigger] stage_at(s1, pre.width as int, px, py)
                == Stage::Processed ==> stage_at(s2, pre.width as int, px, py)
                == Stage::Processed,
    ensures
        witnessed(pre, cur, s2, x, y),
{
    let s = choose|s: Seq<(usize, usize)>|
        #[trigger] avg_witness(cur, x, y, s) && all_processed(s1, pre.width as int, s);
    assert forall|i: int| 0 <= i < s.len() implies stage_at(s2, pre.width as int,
        (#[trigger] s[i]).0 as int, s[i].1 as int) == Stage::Processed by {
        assert(stage_at(s1, pre.width as int, s[i].0 as int, s[i].1 as int)
            == Stage::Processed);
        assert(pre.in_bounds(s[i].0 as int, s[i].1 as int));
    }
    assert(avg_witness(cur, x, y, s) && all_processed(s2, pre.width as int, s));
}

/// A witness survives rewriting the color of one pixel that is neither
/// the witnessed pixel nor Processed, and growing the Processed set.
proof fn lemma_witnessed_stable(pre: Raster, r1: Raster, r2: Raster, s1: Seq<Stage>,
    s2: Seq<Stage>, wx: int, wy: int, qx: int, qy: int)
    requires
        r1.width == pre.width,
        r1.height == pre.height,
        r2.width == pre.width,
        r2.height == pre.height,
        pre.in_bounds(wx, wy),
        pre.in_bounds(qx, qy),
        (qx, qy) != (wx, wy),
        stage_at(s1, pre.width as int, wx, wy) != Stage::Processed,
        forall|x: int, y: int|
            pre.in_bounds(x, y) && (x, y) != (wx, wy) ==> #[trigger] r2.rgb(x, y) == r1.rgb(x, y),
        forall|px: int, py: int|
            pre.in_bounds(px, py) && #[trigger] stage_at(s1, pre.width as int, px, py)
                == Stage::Processed ==> stage_at(s2, pre.width as int, px, py)
                == Stage::Processed,
        witnessed(pre, r1, s1, qx, qy),
    ensures
        witnessed(pre, r2, s2, qx, qy),
{
    let s = choose|s: Seq<(usize, usize)>|
        #[trigger] avg_witness(r1, qx, qy, s) && all_processed(s1, pre.width as int, s);
    assert forall|i: int| 0 <= i < s.len() implies r1.chan((#[trigger] s[i]).0 as int,
        s[i].1 as int, 0) == r2.chan(s[i].0 as int, s[i].1 as int, 0) && r1.chan(s[i].0 as int,
        s[i].1 as int, 1) == r2.chan(s[i].0 as int, s[i].1 as int, 1) && r1.chan(s[i].0 as int,
        s[i].1 as int, 2) == r2.chan(s[i].0 as int, s[i].1 as int, 2) && stage_at(s2,
        pre.width as int, s[i].0 as int, s[i].1 as int) == Stage::Processed by {
        assert(stage_at(s1, pre.width as int, s[i].0 as int, s[i].1 as int)
            == Stage::Processed);
        assert(pre.in_bounds(s[i].0 as int, s[i].1 as int));
        assert((s[i].0 as int, s[i].1 as int) != (wx, wy));
        assert(r2.rgb(s[i].0 as int, s[i].1 as int) == r1.rgb(s[i].0 as int, s[i].1 as int));
    }
    lemma_sum_chan_same(r1, r2, s, 0);
    lemma_sum_chan_same(r1, r2, s, 1);
    lemma_sum_chan_same(r1, r2, s, 2);
    assert(r2.rgb(qx, qy) == r1.rgb(qx, qy));
    assert(avg_witness(r2, qx, qy, s) && all_processed(s2, pre.width as int, s));
}

/// Rewriting the color of one non-Processed pixel preserves `filled_ok`
/// everywhere: no witness can mention the rewritten pixel, and the pixel
/// itself is not Processed yet.
proof fn lemma_filled_ok_write(pre: Raster, r1: Raster, r2: Raster, stages: Seq<Stage>, wx: int,
    wy: int)
    requires
        r1.width == pre.width,
        r1.height == pre.height,
        r2.width == pre.width,
        r2.height == pre.height,
        pre.in_bounds(wx, wy),
        stage_at(stages, pre.width as int, wx, wy) != Stage::Processed,
        forall|x: int, y: int|
            pre.in_bounds(x, y) && (x, y) != (wx, wy) ==> #[trigger] r2.rgb(x, y) == r1.rgb(x, y),
        forall|x: int, y: int|
            pre.in_bounds(x, y) && pre.alpha(x, y) == 0 ==> #[trigger] filled_ok(pre, r1,
                stages, x, y),
    ensures
        forall|x: int, y: int|
            pre.in_bounds(x, y) && pre.alpha(x, y) == 0 ==> #[trigger] filled_ok(pre, r2,
                stages, x, y),
{
    assert forall|x: int, y: int| pre.in_bounds(x, y) && pre.alpha(x, y) == 0
        implies #[trigger] filled_ok(pre, r2, stages, x, y) by {
        assert(filled_ok(pre, r1, stages, x, y));
        if stage_at(stages, pre.width as int, x, y) == Stage::Processed {
            assert((x, y) != (wx, wy));
            let s = choose|s: Seq<(usize, usize)>|
                #[trigger] avg_witness(r1, x, y, s) && all_processed(stages, pre.width as int, s);
            assert forall|i: int| 0 <= i < s.len() implies r1.chan((#[trigger] s[i]).0 as int,
                s[i].1 as int, 0) == r2.chan(s[i].0 as int, s[i].1 as int, 0) && r1.chan(
                s[i].0 as int, s[i].1 as int, 1) == r2.chan(s[i].0 as int, s[i].1 as int, 1)
                && r1.chan(s[i].0 as int, s[i].1 as int, 2) == r2.chan(s[i].0 as int,
                s[i].1 as int, 2) by {
                assert(stage_at(stages, pre.width as int, s[i].0 as int, s[i].1 as int)
                    == Stage::Processed);
                assert((s[i].0 as int, s[i].1 as int) != (wx, wy));
                assert(r2.rgb(s[i].0 as int, s[i].1 as int) == r1.rgb(s[i].0 as int,
                    s[i].1 as int));
            }
            lemma_sum_chan_same(r1, r2, s, 0);
            lemma_sum_chan_same(r1, r2, s, 1);
            lemma_sum_chan_same(r1, r2, s, 2);
            assert(r2.rgb(x, y) == r1.rgb(x, y));
            assert(avg_witness(r2, x, y, s) && all_processed(stages, pre.width as int, s));
        }
    }
}

/// In a stage array where no Processed pixel borders an Unprocessed one
/// and nothing is Staged, an Unprocessed pixel spreads to the whole grid:
/// any other in-bounds pixel is reached by stepping one coordinate at a
/// time, and every step stays Unprocessed.
proof fn lemma_unprocessed_spreads(pre: Raster, stages: Seq<Stage>, px: int, py: int, qx: int,
    qy: int)
    requires
        pre.in_bounds(px, py),
        pre.in_bounds(qx, qy),
        stage_at(stages, pre.width as int, px, py) == Stage::Unprocessed,
        forall|x: int, y: int|
            pre.in_bounds(x, y) && #[trigger] stage_at(stages, pre.width as int, x, y)
                == Stage::Processed ==> no_unprocessed_neighbor(pre, stages, x, y),
        forall|x: int, y: int|
            pre.in_bounds(x, y) ==> #[trigger] stage_at(stages, pre.width as int, x, y)
                != Stage::Staged,
    ensures
        stage_at(stages, pre.width as int, qx, qy) == Stage::Unprocessed,
    decreases (if px < qx {
        qx - px
    } else {
        px - qx
    }) + (if py < qy {
        qy - py
    } else {
        py - qy
    }),
{
    if px == qx && py == qy {
    } else {
        let nx: int = if px < qx {
            px + 1
        } else if px > qx {
            px - 1
        } else {
            px
        };
        let ny: int = if px != qx {
            py
        } else if py < qy {
            py + 1
        } else {
            py - 1
        };
        assert(pre.in_bounds(nx, ny));
        assert(is_neighbor(px, py, nx, ny));
        assert(stage_at(stages, pre.width as int, nx, ny) != Stage::Processed) by {
            if stage_at(stages, pre.width as int, nx, ny) == Stage::Processed {
                assert(no_unprocessed_neighbor(pre, stages, nx, ny));
                assert(is_neighbor(nx, ny, px, py));
                assert(stage_at(stages, pre.width as int, px, py) != Stage::Unprocessed);
            }
        }
        assert(stage_at(stages, pre.width as int, nx, ny) == Stage::Unprocessed);
        lemma_unprocessed_spreads(pre, stages, nx, ny, qx, qy);
    }
}

/// Seed the first frontier: every Processed pixel stages each of its
/// Unprocessed Moore neighbors, and no pixel is staged twice.  Afterwards
/// no Processed pixel borders an Unprocessed one.
fn seed_frontier(r: &Raster, stages: &mut Vec<Stage>) -> (queue: Vec<(usize, usize)>)
    requires
        r.wf(),
        4 * old(stages)@.len() == r.data@.len(),
        forall|x: int, y: int|
            r.in_bounds(x, y) ==> stage_at(old(stages)@, r.width as int, x, y) == (if r.alpha(x,
                y) != 0 {
                Stage::Processed
            } else {
                Stage::Unprocessed
            }),
    ensures
        4 * final(stages)@.len() == r.data@.len(),
        forall|x: int, y: int|
            r.in_bounds(x, y) && r.alpha(x, y) != 0 ==> #[trigger] stage_at(final(stages)@,
                r.width as int, x, y) == Stage::Processed,
        forall|x: int, y: int|
            r.in_bounds(x, y) && #[trigger] stage_at(final(stages)@, r.width as int, x, y)
                != Stage::Processed ==> r.alpha(x, y) == 0,
        forall|x: int, y: int|
            r.in_bounds(x, y) && r.alpha(x, y) == 0 ==> #[trigger] stage_at(final(stages)@,
                r.width as int, x, y) != Stage::Processed,
        queue_ok(queue@, *r, final(stages)@),
        forall|x: int, y: int|
            r.in_bounds(x, y) && #[trigger] stage_at(final(stages)@, r.width as int, x, y)
                == Stage::Processed ==> no_unprocessed_neighbor(*r, final(stages)@, x, y),
        forall|x: int, y: int|
            r.in_bounds(x, y) && #[trigger] stage_at(final(stages)@, r.width as int, x, y)
                == Stage::Staged ==> exists|j: int|
                0 <= j < queue@.len() && (#[trigger] queue@[j]).0 == x && queue@[j].1 == y,
        forall|j: int|
            0 <= j < queue@.len() ==> has_processed_neighbor(*r, final(stages)@,
                (#[trigger] queue@[j]).0 as int, queue@[j].1 as int),
{
    let mut queue: Vec<(usize, usize)> = Vec::new();
    let ghost mut seeds: Seq<(usize, usize)> = Seq::empty();
    proof {
        assert forall|x: int, y: int| r.in_bounds(x, y) && r.alpha(x, y) != 0
            implies #[trigger] stage_at(stages@, r.width as int, x, y) == Stage::Processed by {}
        assert forall|x: int, y: int|
            r.in_bounds(x, y) && #[trigger] stage_at(stages@, r.width as int, x, y)
                != Stage::Processed implies r.alpha(x, y) == 0 by {}
    }
    let mut y: usize = 0;
    while y < r.height
        invariant
            r.wf(),
            y <= r.height,
            4 * stages@.len() == r.data@.len(),
            forall|px: int, py: int|
                r.in_bounds(px, py) ==> ((#[trigger] stage_at(stages@, r.width as int, px, py)
                    == Stage::Processed) <==> r.alpha(px, py) != 0),
            queue_ok(queue@, *r, stages@),
            forall|px: int, py: int|
                r.in_bounds(px, py) && py < y && #[trigger] stage_at(stages@, r.width as int,
                    px, py) == Stage::Processed ==> no_unprocessed_neighbor(*r, stages@, px, py),
            forall|px: int, py: int|
                r.in_bounds(px, py) && #[trigger] stage_at(stages@, r.width as int, px, py)
                    == Stage::Staged ==> exists|j: int|
                    0 <= j < queue@.len() && (#[trigger] queue@[j]).0 == px && queue@[j].1 == py,
            seeds.len() == queue@.len(),
            forall|j: int|
                0 <= j < queue@.len() ==> r.in_bounds((#[trigger] seeds[j]).0 as int,
                    seeds[j].1 as int) && is_neighbor(queue@[j].0 as int, queue@[j].1 as int,
                    seeds[j].0 as int, seeds[j].1 as int) && stage_at(stages@, r.width as int,
                    seeds[j].0 as int, seeds[j].1 as int) == Stage::Processed,
        decreases r.height - y,
    {
        let mut x: usize = 0;
        while x < r.width
            invariant
                r.wf(),
                y < r.height,
                x <= r.width,
                4 * stages@.len() == r.data@.len(),
                forall|px: int, py: int|
                    r.in_bounds(px, py) ==> ((#[trigger] stage_at(stages@, r.width as int, px,
                        py) == Stage::Processed) <==> r.alpha(px, py) != 0),
                queue_ok(queue@, *r, stages@),
                forall|px: int, py: int|
                    r.in_bounds(px, py) && (py < y || (py == y && px < x)) && #[trigger] stage_at(
                        stages@, r.width as int, px, py) == Stage::Processed
                        ==> no_unprocessed_neighbor(*r, stages@, px, py),
                forall|px: int, py: int|
                    r.in_bounds(px, py) && #[trigger] stage_at(stages@, r.width as int, px, py)
                        == Stage::Staged ==> exists|j: int|
                        0 <= j < queue@.len() && (#[trigger] queue@[j]).0 == px && queue@[j].1
                            == py,
                seeds.len() == queue@.len(),
                forall|j: int|
                    0 <= j < queue@.len() ==> r.in_bounds((#[trigger] seeds[j]).0 as int,
                        seeds[j].1 as int) && is_neighbor(queue@[j].0 as int, queue@[j].1 as int,
                        seeds[j].0 as int, seeds[j].1 as int) && stage_at(stages@,
                        r.width as int, seeds[j].0 as int, seeds[j].1 as int)
                        == Stage::Processed,
            decreases r.width - x,
        {
            let i = stage_index(r, x, y);
            if stages[i] == Stage::Processed {
                let coords = neighbor_coords(x, y, r.width, r.height);
                let mut k: usize = 0;
                while k < coords.len()
                    invariant
                        r.wf(),
                        r.in_bounds(x as int, y as int),
                        k <= coords@.len(),
                        neighbor_list(coords@, x as int, y as int, r.width as int,
                            r.height as int),
                        4 * stages@.len() == r.data@.len(),
                        stage_at(stages@, r.width as int, x as int, y as int)
                            == Stage::Processed,
                        forall|px: int, py: int|
                            r.in_bounds(px, py) ==> ((#[trigger] stage_at(stages@,
                                r.width as int, px, py) == Stage::Processed) <==> r.alpha(px,
                                py) != 0),
                        queue_ok(queue@, *r, stages@),
                        forall|j: int|
                            0 <= j < k ==> stage_at(stages@, r.width as int,
                                (#[trigger] coords@[j]).0 as int, coords@[j].1 as int)
                                != Stage::Unprocessed,
                        forall|px: int, py: int|
                            r.in_bounds(px, py) && (py < y || (py == y && px < x))
                                && #[trigger] stage_at(stages@, r.width as int, px, py)
                                == Stage::Processed ==> no_unprocessed_neighbor(*r, stages@, px,
                                py),
                        forall|px: int, py: int|
                            r.in_bounds(px, py) && #[trigger] stage_at(stages@, r.width as int,
                                px, py) == Stage::Staged ==> exists|j: int|
                                0 <= j < queue@.len() && (#[trigger] queue@[j]).0 == px
                                    && queue@[j].1 == py,
                        seeds.len() == queue@.len(),
                        forall|j: int|
                            0 <= j < queue@.len() ==> r.in_bounds((#[trigger] seeds[j]).0
                                as int, seeds[j].1 as int) && is_neighbor(queue@[j].0 as int,
                                queue@[j].1 as int, seeds[j].0 as int, seeds[j].1 as int)
                                && stage_at(stages@, r.width as int, seeds[j].0 as int,
                                seeds[j].1 as int) == Stage::Processed,
                    decreases coords@.len() - k,
                {
                    let (nx, ny) = coords[k];
                    let ni = stage_index(r, nx, ny);
                    if stages[ni] == Stage::Unprocessed {
                        let ghost prev = stages@;
                        let ghost prev_queue = queue@;
                        let ghost prev_seeds = seeds;
                        stages.set(ni, Stage::Staged);
                        queue.push((nx, ny));
                        proof {
                            seeds = prev_seeds.push((x, y));
                            assert forall|px: int, py: int|
                                r.in_bounds(px, py) && (px, py) != (nx as int, ny as int)
                                    implies stage_at(stages@, r.width as int, px, py)
                                == stage_at(prev, r.width as int, px, py) by {
                                crate::classify::lemma_row_major_injective(r.width as int, px,
                                    py, nx as int, ny as int);
                                r.lemma_pix_bounds(px, py);
                                r.lemma_pix_bounds(nx as int, ny as int);
                            }
                            assert(stage_at(stages@, r.width as int, nx as int, ny as int)
                                == Stage::Staged);
                            assert forall|j: int| 0 <= j < k + 1 implies stage_at(stages@,
                                r.width as int, (#[trigger] coords@[j]).0 as int,
                                coords@[j].1 as int) != Stage::Unprocessed by {
                                if j < k {
                                    assert(coords@[j] != coords@[k as int]);
                                    assert(r.in_bounds(coords@[j].0 as int, coords@[j].1 as int));
                                    assert((coords@[j].0 as int, coords@[j].1 as int) != (
                                    nx as int, ny as int));
                                    assert(stage_at(stages@, r.width as int, coords@[j].0 as int,
                                        coords@[j].1 as int) == stage_at(prev, r.width as int,
                                        coords@[j].0 as int, coords@[j].1 as int));
                                    assert(stage_at(prev, r.width as int, coords@[j].0 as int,
                                        coords@[j].1 as int) != Stage::Unprocessed);
                                } else {
                                    assert(coords@[j] == (nx, ny));
                                }
                            }
                            assert forall|px: int, py: int|
                                r.in_bounds(px, py) && (py < y || (py == y && px < x))
                                    && #[trigger] stage_at(stages@, r.width as int, px, py)
                                    == Stage::Processed
                                    implies no_unprocessed_neighbor(*r, stages@, px, py) by {
                                assert(stage_at(prev, r.width as int, px, py)
                                    == Stage::Processed);
                                assert(no_unprocessed_neighbor(*r, prev, px, py));
                                assert forall|ax: int, ay: int|
                                    r.in_bounds(ax, ay) && is_neighbor(px, py, ax, ay)
                                        implies #[trigger] stage_at(stages@, r.width as int, ax,
                                    ay) != Stage::Unprocessed by {
                                    if (ax, ay) != (nx as int, ny as int) {
                                        assert(stage_at(stages@, r.width as int, ax, ay)
                                            == stage_at(prev, r.width as int, ax, ay));
                                    }
                                }
                            }
                            assert forall|px: int, py: int|
                                r.in_bounds(px, py) && #[trigger] stage_at(stages@,
                                    r.width as int, px, py) == Stage::Staged
                                    implies exists|j: int|
                                0 <= j < queue@.len() && (#[trigger] queue@[j]).0 == px
                                    && queue@[j].1 == py by {
                                if (px, py) != (nx as int, ny as int) {
                                    assert(stage_at(prev, r.width as int, px, py)
                                        == Stage::Staged);
                                    let j = choose|j: int|
                                        0 <= j < prev_queue.len() && (#[trigger] prev_queue[j]).0
                                            == px && prev_queue[j].1 == py;
                                    assert(queue@[j].0 == px && queue@[j].1 == py);
                                } else {
                                    assert(queue@[queue@.len() - 1].0 == px && queue@[queue@.len()
                                        - 1].1 == py);
                                }
                            }
                            assert forall|j: int| 0 <= j < queue@.len()
                                implies r.in_bounds((#[trigger] queue@[j]).0 as int,
                                queue@[j].1 as int) && stage_at(stages@, r.width as int,
                                queue@[j].0 as int, queue@[j].1 as int) == Stage::Staged by {
                                if j < prev_queue.len() {
                                    assert(queue@[j] == prev_queue[j]);
                                    assert(stage_at(prev, r.width as int, prev_queue[j].0 as int,
                                        prev_queue[j].1 as int) == Stage::Staged);
                                }
                            }
                            assert forall|i1: int, j1: int| 0 <= i1 < j1 < queue@.len()
                                implies #[trigger] queue@[i1] != #[trigger] queue@[j1] by {
                                if j1 == queue@.len() - 1 {
                                    assert(stage_at(prev, r.width as int, queue@[i1].0 as int,
                                        queue@[i1].1 as int) == Stage::Staged);
                                }
                            }
                            assert forall|j: int| 0 <= j < queue@.len()
                                implies r.in_bounds((#[trigger] seeds[j]).0 as int,
                                seeds[j].1 as int) && is_neighbor(queue@[j].0 as int,
                                queue@[j].1 as int, seeds[j].0 as int, seeds[j].1 as int)
                                && stage_at(stages@, r.width as int, seeds[j].0 as int,
                                seeds[j].1 as int) == Stage::Processed by {
                                if j < prev_queue.len() {
                                    assert(seeds[j] == prev_seeds[j]);
                                    assert(queue@[j] == prev_queue[j]);
                                    assert(stage_at(prev, r.width as int, prev_seeds[j].0 as int,
                                        prev_seeds[j].1 as int) == Stage::Processed);
                                    assert((prev_seeds[j].0 as int, prev_seeds[j].1 as int) != (
                                    nx as int, ny as int));
                                } else {
                                    assert(seeds[j] == (x, y) && queue@[j] == (nx, ny));
                                    assert(is_neighbor(nx as int, ny as int, x as int,
                                        y as int));
                                }
                            }
                        }
                    }
                    k = k + 1;
                }
                proof {
                    assert(no_unprocessed_neighbor(*r, stages@, x as int, y as int)) by {
                        assert forall|ax: int, ay: int|
                            r.in_bounds(ax, ay) && is_neighbor(x as int, y as int, ax, ay)
                                implies #[trigger] stage_at(stages@, r.width as int, ax, ay)
                            != Stage::Unprocessed by {
                            let j = choose|j: int|
                                0 <= j < coords@.len() && (#[trigger] coords@[j]).0 == ax
                                    && coords@[j].1 == ay;
                            assert(stage_at(stages@, r.width as int, coords@[j].0 as int,
                                coords@[j].1 as int) != Stage::Unprocessed);
                        }
                    }
                }
            }
            proof {
                assert forall|px: int, py: int|
                    r.in_bounds(px, py) && (py < y || (py == y && px < x + 1))
                        && #[trigger] stage_at(stages@, r.width as int, px, py)
                        == Stage::Processed implies no_unprocessed_neighbor(*r, stages@, px,
                    py) by {
                    if (px, py) == (x as int, y as int) {
                        assert(r.alpha(px, py) != 0);
                    }
                }
            }
            x = x + 1;
        }
        y = y + 1;
    }
    proof {
        assert forall|j: int| 0 <= j < queue@.len() implies has_processed_neighbor(*r, stages@,
            (#[trigger] queue@[j]).0 as int, queue@[j].1 as int) by {
            assert(r.in_bounds(seeds[j].0 as int, seeds[j].1 as int) && is_neighbor(
                queue@[j].0 as int, queue@[j].1 as int, seeds[j].0 as int, seeds[j].1 as int)
                && stage_at(stages@, r.width as int, seeds[j].0 as int, seeds[j].1 as int)
                == Stage::Processed);
        }
    }
    queue
}

/// Average one frontier pixel from its currently Processed neighbors,
/// staging every Unprocessed neighbor it meets into the next frontier.
/// The pixel has a Processed neighbor, so it always receives an average.
fn process_frontier_pixel(r: &mut Raster, stages: &mut Vec<Stage>,
    queue1: &mut Vec<(usize, usize)>, x: usize, y: usize, Ghost(pre): Ghost<Raster>)
    requires
        flood_inv(pre, *old(r), old(stages)@),
        queue_ok(old(queue1)@, pre, old(stages)@),
        pre.in_bounds(x as int, y as int),
        stage_at(old(stages)@, pre.width as int, x as int, y as int) == Stage::Staged,
        has_processed_neighbor(pre, old(stages)@, x as int, y as int),
    ensures
        flood_inv(pre, *final(r), final(stages)@),
        queue_ok(final(queue1)@, pre, final(stages)@),
        final(stages)@.len() == old(stages)@.len(),
        weight(final(stages)@) <= weight(old(stages)@),
        forall|px: int, py: int|
            pre.in_bounds(px, py) ==> ((#[trigger] stage_at(final(stages)@, pre.width as int,
                px, py) == Stage::Processed) <==> (#[trigger] stage_at(old(stages)@,
                pre.width as int, px, py) == Stage::Processed)),
        forall|px: int, py: int|
            pre.in_bounds(px, py) && #[trigger] stage_at(old(stages)@, pre.width as int, px, py)
                == Stage::Staged ==> stage_at(final(stages)@, pre.width as int, px, py)
                == Stage::Staged,
        forall|px: int, py: int|
            pre.in_bounds(px, py) && #[trigger] stage_at(final(stages)@, pre.width as int, px,
                py) == Stage::Staged ==> stage_at(old(stages)@, pre.width as int, px, py)
                == Stage::Staged || in_queue(final(queue1)@, px, py),
        final(queue1)@.len() >= old(queue1)@.len(),
        forall|j: int|
            0 <= j < old(queue1)@.len() ==> #[trigger] final(queue1)@[j] == old(queue1)@[j],
        forall|j: int|
            old(queue1)@.len() <= j < final(queue1)@.len() ==> stage_at(old(stages)@,
                pre.width as int, (#[trigger] final(queue1)@[j]).0 as int,
                final(queue1)@[j].1 as int) == Stage::Unprocessed && is_neighbor(
                final(queue1)@[j].0 as int, final(queue1)@[j].1 as int, x as int, y as int),
        witnessed(pre, *final(r), final(stages)@, x as int, y as int),
        no_unprocessed_neighbor(pre, final(stages)@, x as int, y as int),
        forall|px: int, py: int|
            pre.in_bounds(px, py) && (px, py) != (x as int, y as int) ==> #[trigger] final(
            r).rgb(px, py) == old(r).rgb(px, py),
{
    let coords = neighbor_coords(x, y, r.width, r.height);
    let mut count: u32 = 0;
    let mut sum_red: u32 = 0;
    let mut sum_green: u32 = 0;
    let mut sum_blue: u32 = 0;
    let ghost mut picked: Seq<(usize, usize)> = Seq::empty();
    let mut k: usize = 0;
    while k < coords.len()
        invariant
            flood_inv(pre, *r, stages@),
            *r == *old(r),
            queue_ok(queue1@, pre, stages@),
            stages@.len() == old(stages)@.len(),
            weight(stages@) <= weight(old(stages)@),
            pre.in_bounds(x as int, y as int),
            stage_at(stages@, pre.width as int, x as int, y as int) == Stage::Staged,
            neighbor_list(coords@, x as int, y as int, pre.width as int, pre.height as int),
            k <= coords@.len(),
            coords@.len() <= 8,
            count == picked.len(),
            count <= k,
            sum_red == sum_chan(*r, picked, 0),
            sum_green == sum_chan(*r, picked, 1),
            sum_blue == sum_chan(*r, picked, 2),
            forall|m: int|
                0 <= m < picked.len() ==> is_neighbor(x as int, y as int,
                    (#[trigger] picked[m]).0 as int, picked[m].1 as int) && pre.in_bounds(
                    picked[m].0 as int, picked[m].1 as int) && stage_at(stages@,
                    pre.width as int, picked[m].0 as int, picked[m].1 as int)
                    == Stage::Processed,
            forall|m: int|
                0 <= m < picked.len() ==> exists|j: int|
                    0 <= j < k && #[trigger] picked[m] == coords@[j],
            forall|m1: int, m2: int|
                0 <= m1 < m2 < picked.len() ==> #[trigger] picked[m1] != #[trigger] picked[m2],
            count == 0 ==> forall|j: int|
                0 <= j < k ==> stage_at(stages@, pre.width as int,
                    (#[trigger] coords@[j]).0 as int, coords@[j].1 as int) != Stage::Processed,
            forall|j: int|
                0 <= j < k ==> stage_at(stages@, pre.width as int,
                    (#[trigger] coords@[j]).0 as int, coords@[j].1 as int)
                    != Stage::Unprocessed,
            forall|px: int, py: int|
                pre.in_bounds(px, py) ==> ((#[trigger] stage_at(stages@, pre.width as int, px,
                    py) == Stage::Processed) <==> (#[trigger] stage_at(old(stages)@,
                    pre.width as int, px, py) == Stage::Processed)),
            forall|px: int, py: int|
                pre.in_bounds(px, py) && #[trigger] stage_at(old(stages)@, pre.width as int, px,
                    py) == Stage::Staged ==> stage_at(stages@, pre.width as int, px, py)
                    == Stage::Staged,
            forall|px: int, py: int|
                pre.in_bounds(px, py) && #[trigger] stage_at(stages@, pre.width as int, px, py)
                    == Stage::Staged ==> stage_at(old(stages)@, pre.width as int, px, py)
                    == Stage::Staged || in_queue(queue1@, px, py),
            queue1@.len() >= old(queue1)@.len(),
            forall|j: int|
                0 <= j < old(queue1)@.len() ==> #[trigger] queue1@[j] == old(queue1)@[j],
            forall|j: int|
                old(queue1)@.len() <= j < queue1@.len() ==> stage_at(old(stages)@,
                    pre.width as int, (#[trigger] queue1@[j]).0 as int, queue1@[j].1 as int)
                    == Stage::Unprocessed && is_neighbor(queue1@[j].0 as int,
                    queue1@[j].1 as int, x as int, y as int),
        decreases coords@.len() - k,
    {
        let (nx, ny) = coords[k];
        let ni = stage_index(r, nx, ny);
        let st = stages[ni];
        if st == Stage::Processed {
            let ghost prev_picked = picked;
            proof {
                lemma_sum_chan_bounds(*r, picked, 0);
                lemma_sum_chan_bounds(*r, picked, 1);
                lemma_sum_chan_bounds(*r, picked, 2);
            }
            sum_red = sum_red + r.get_chan(nx, ny, 0) as u32;
            sum_green = sum_green + r.get_chan(nx, ny, 1) as u32;
            sum_blue = sum_blue + r.get_chan(nx, ny, 2) as u32;
            count = count + 1;
            proof {
                picked = prev_picked.push((nx, ny));
                assert(picked.drop_last() =~= prev_picked);
                assert(picked.last() == (nx, ny));
                assert forall|m1: int, m2: int| 0 <= m1 < m2 < picked.len()
                    implies #[trigger] picked[m1] != #[trigger] picked[m2] by {
                    if m2 == picked.len() - 1 {
                        let j = choose|j: int| 0 <= j < k && #[trigger] picked[m1] == coords@[j];
                        assert(coords@[j] != coords@[k as int]);
                    }
                }
            }
        } else if st == Stage::Unprocessed {
            let ghost prev = stages@;
            let ghost prev_q = queue1@;
            stages.set(ni, Stage::Staged);
            queue1.push((nx, ny));
            proof {
                assert forall|px: int, py: int|
                    pre.in_bounds(px, py) && (px, py) != (nx as int, ny as int)
                        implies stage_at(stages@, pre.width as int, px, py) == stage_at(prev,
                    pre.width as int, px, py) by {
                    crate::classify::lemma_row_major_injective(pre.width as int, px, py,
                        nx as int, ny as int);
                    pre.lemma_pix_bounds(px, py);
                    pre.lemma_pix_bounds(nx as int, ny as int);
                }
                assert(stage_at(stages@, pre.width as int, nx as int, ny as int)
                    == Stage::Staged);
                lemma_weight_update(prev, (ny as int) * (pre.width as int) + nx as int,
                    Stage::Staged);
                assert forall|px: int, py: int|
                    pre.in_bounds(px, py) && #[trigger] stage_at(prev, pre.width as int, px, py)
                        == Stage::Processed implies stage_at(stages@, pre.width as int, px, py)
                    == Stage::Processed by {}
                lemma_round_ok_monotone(pre, *r, prev, stages@);
                assert forall|j: int| 0 <= j < k + 1 implies stage_at(stages@, pre.width as int,
                    (#[trigger] coords@[j]).0 as int, coords@[j].1 as int)
                    != Stage::Unprocessed by {
                    if j < k {
                        assert(coords@[j] != coords@[k as int]);
                        assert(pre.in_bounds(coords@[j].0 as int, coords@[j].1 as int));
                        assert((coords@[j].0 as int, coords@[j].1 as int) != (nx as int,
                        ny as int));
                        assert(stage_at(stages@, pre.width as int, coords@[j].0 as int,
                            coords@[j].1 as int) == stage_at(prev, pre.width as int,
                            coords@[j].0 as int, coords@[j].1 as int));
                    } else {
                        assert(coords@[j] == (nx, ny));
                    }
                }
                assert forall|px: int, py: int|
                    pre.in_bounds(px, py) && #[trigger] stage_at(stages@, pre.width as int, px,
                        py) == Stage::Processed implies no_unprocessed_neighbor(pre, stages@,
                    px, py) by {
                    assert(stage_at(prev, pre.width as int, px, py) == Stage::Processed);
                    assert(no_unprocessed_neighbor(pre, prev, px, py));
                    assert forall|ax: int, ay: int|
                        pre.in_bounds(ax, ay) && is_neighbor(px, py, ax, ay)
                            implies #[trigger] stage_at(stages@, pre.width as int, ax, ay)
                        != Stage::Unprocessed by {
                        if (ax, ay) != (nx as int, ny as int) {
                            assert(stage_at(stages@, pre.width as int, ax, ay) == stage_at(prev,
                                pre.width as int, ax, ay));
                        }
                    }
                }
                assert forall|px: int, py: int|
                    pre.in_bounds(px, py) && pre.alpha(px, py) == 0
                        implies #[trigger] filled_ok(pre, *r, stages@, px, py) by {
                    assert(filled_ok(pre, *r, prev, px, py));
                    if stage_at(stages@, pre.width as int, px, py) == Stage::Processed {
                        assert(stage_at(prev, pre.width as int, px, py) == Stage::Processed);
                        lemma_witnessed_monotone(pre, *r, prev, stages@, px, py);
                    }
                }
                assert forall|j: int| 0 <= j < queue1@.len()
                    implies pre.in_bounds((#[trigger] queue1@[j]).0 as int, queue1@[j].1 as int)
                    && stage_at(stages@, pre.width as int, queue1@[j].0 as int,
                    queue1@[j].1 as int) == Stage::Staged by {
                    if j < prev_q.len() {
                        assert(queue1@[j] == prev_q[j]);
                        assert(stage_at(prev, pre.width as int, prev_q[j].0 as int,
                            prev_q[j].1 as int) == Stage::Staged);
                    }
                }
                assert forall|i1: int, j1: int| 0 <= i1 < j1 < queue1@.len()
                    implies #[trigger] queue1@[i1] != #[trigger] queue1@[j1] by {
                    if j1 == queue1@.len() - 1 {
                        assert(stage_at(prev, pre.width as int, queue1@[i1].0 as int,
                            queue1@[i1].1 as int) == Stage::Staged);
                    }
                }
                assert forall|px: int, py: int|
                    pre.in_bounds(px, py) && #[trigger] stage_at(stages@, pre.width as int, px,
                        py) == Stage::Staged implies stage_at(old(stages)@, pre.width as int,
                    px, py) == Stage::Staged || in_queue(queue1@, px, py) by {
                    if (px, py) != (nx as int, ny as int) {
                        assert(stage_at(prev, pre.width as int, px, py) == Stage::Staged);
                        if !(stage_at(old(stages)@, pre.width as int, px, py)
                            == Stage::Staged) {
                            let j = choose|j: int|
                                0 <= j < prev_q.len() && (#[trigger] prev_q[j]).0 == px
                                    && prev_q[j].1 == py;
                            assert(queue1@[j].0 == px && queue1@[j].1 == py);
                            assert(in_queue(queue1@, px, py));
                        }
                    } else {
                        assert(queue1@[queue1@.len() - 1].0 == px && queue1@[queue1@.len()
                            - 1].1 == py);
                        assert(in_queue(queue1@, px, py));
                    }
                }
                assert(stage_at(stages@, pre.width as int, x as int, y as int)
                    == Stage::Staged);
            }
        }
        k = k + 1;
    }
    proof {
        assert(no_unprocessed_neighbor(pre, stages@, x as int, y as int)) by {
            assert forall|ax: int, ay: int|
                pre.in_bounds(ax, ay) && is_neighbor(x as int, y as int, ax, ay)
                    implies #[trigger] stage_at(stages@, pre.width as int, ax, ay)
                != Stage::Unprocessed by {
                let j = choose|j: int|
                    0 <= j < coords@.len() && (#[trigger] coords@[j]).0 == ax && coords@[j].1
                        == ay;
                assert(stage_at(stages@, pre.width as int, coords@[j].0 as int,
                    coords@[j].1 as int) != Stage::Unprocessed);
            }
        }
        assert(count > 0) by {
            if count == 0 {
                let (ax, ay) = choose|ax: int, ay: int|
                    pre.in_bounds(ax, ay) && is_neighbor(x as int, y as int, ax, ay)
                        && #[trigger] stage_at(old(stages)@, pre.width as int, ax, ay)
                        == Stage::Processed;
                assert(stage_at(stages@, pre.width as int, ax, ay) == Stage::Processed);
                let j = choose|j: int|
                    0 <= j < coords@.len() && (#[trigger] coords@[j]).0 == ax && coords@[j].1
                        == ay;
                assert(stage_at(stages@, pre.width as int, coords@[j].0 as int,
                    coords@[j].1 as int) != Stage::Processed);
                assert(false);
            }
        }
        lemma_sum_chan_bounds(*r, picked, 0);
        lemma_sum_chan_bounds(*r, picked, 1);
        lemma_sum_chan_bounds(*r, picked, 2);
        vstd::arithmetic::div_mod::lemma_div_is_ordered(sum_red as int, 255
            * picked.len() as int, count as int);
        vstd::arithmetic::div_mod::lemma_div_is_ordered(sum_green as int, 255
            * picked.len() as int, count as int);
        vstd::arithmetic::div_mod::lemma_div_is_ordered(sum_blue as int, 255
            * picked.len() as int, count as int);
        assert((255 * count as int) / (count as int) == 255) by (nonlinear_arith)
            requires
                count >= 1,
        ;
    }
    let red = (sum_red / count) as u8;
    let green = (sum_green / count) as u8;
    let blue = (sum_blue / count) as u8;
    let ghost mid = *r;
    r.set_chan(x, y, 0, red);
    r.set_chan(x, y, 1, green);
    r.set_chan(x, y, 2, blue);
    proof {
        mid.lemma_pix_bounds(x as int, y as int);
        assert forall|px: int, py: int|
            pre.in_bounds(px, py) && (px, py) != (x as int, y as int)
                implies #[trigger] r.rgb(px, py) == mid.rgb(px, py) && r.chan(px, py, 3)
            == mid.chan(px, py, 3) by {
            mid.lemma_pix_disjoint(px, py, x as int, y as int);
            mid.lemma_pix_bounds(px, py);
        }
        lemma_round_ok_write(pre, mid, *r, stages@, x as int, y as int);
        assert forall|m: int| 0 <= m < picked.len() implies mid.chan(
            (#[trigger] picked[m]).0 as int, picked[m].1 as int, 0) == r.chan(
            picked[m].0 as int, picked[m].1 as int, 0) && mid.chan(picked[m].0 as int,
            picked[m].1 as int, 1) == r.chan(picked[m].0 as int, picked[m].1 as int, 1)
            && mid.chan(picked[m].0 as int, picked[m].1 as int, 2) == r.chan(
            picked[m].0 as int, picked[m].1 as int, 2) by {
            assert((picked[m].0 as int, picked[m].1 as int) != (x as int, y as int));
            assert(r.rgb(picked[m].0 as int, picked[m].1 as int) == mid.rgb(
                picked[m].0 as int, picked[m].1 as int));
        }
        lemma_sum_chan_same(mid, *r, picked, 0);
        lemma_sum_chan_same(mid, *r, picked, 1);
        lemma_sum_chan_same(mid, *r, picked, 2);
        assert(r.chan(x as int, y as int, 0) == red);
        assert(r.chan(x as int, y as int, 1) == green);
        assert(r.chan(x as int, y as int, 2) == blue);
        assert(avg_witness(*r, x as int, y as int, picked));
        assert(all_processed(stages@, pre.width as int, picked));
        assert(witnessed(pre, *r, stages@, x as int, y as int));
        assert(round_ok(pre, *r, stages@, x as int, y as int));
        assert forall|px: int, py: int| pre.in_bounds(px, py)
            implies #[trigger] round_ok(pre, *r, stages@, px, py) by {
            if (px, py) != (x as int, y as int) {
                assert(round_ok(pre, *r, stages@, px, py));
            }
        }
        lemma_filled_ok_write(pre, mid, *r, stages@, x as int, y as int);
        assert forall|px: int, py: int| pre.in_bounds(px, py) && pre.alpha(px, py) != 0
            implies #[trigger] r.rgb(px, py) == pre.rgb(px, py) by {
            assert(stage_at(stages@, pre.width as int, x as int, y as int)
                != Stage::Processed);
            assert(pre.alpha(x as int, y as int) == 0);
            assert((px, py) != (x as int, y as int));
            assert(r.rgb(px, py) == mid.rgb(px, py));
        }
    }
}

/// Promote a whole frontier to Processed, ending the round.  Every
/// member already carries its average and borders no Unprocessed pixel.
fn promote_frontier(r: &Raster, stages: &mut Vec<Stage>, queue0: &Vec<(usize, usize)>,
    Ghost(pre): Ghost<Raster>)
    requires
        flood_inv(pre, *r, old(stages)@),
        queue_ok(queue0@, pre, old(stages)@),
        forall|j: int|
            0 <= j < queue0@.len() ==> witnessed(pre, *r, old(stages)@,
                (#[trigger] queue0@[j]).0 as int, queue0@[j].1 as int),
        forall|j: int|
            0 <= j < queue0@.len() ==> no_unprocessed_neighbor(pre, old(stages)@,
                (#[trigger] queue0@[j]).0 as int, queue0@[j].1 as int),
    ensures
        flood_inv(pre, *r, final(stages)@),
        final(stages)@.len() == old(stages)@.len(),
        weight(final(stages)@) <= weight(old(stages)@) - queue0@.len(),
        forall|px: int, py: int|
            pre.in_bounds(px, py) && #[trigger] stage_at(old(stages)@, pre.width as int, px, py)
                == Stage::Processed ==> stage_at(final(stages)@, pre.width as int, px, py)
                == Stage::Processed,
        forall|j: int|
            0 <= j < queue0@.len() ==> stage_at(final(stages)@, pre.width as int,
                (#[trigger] queue0@[j]).0 as int, queue0@[j].1 as int) == Stage::Processed,
        forall|px: int, py: int|
            pre.in_bounds(px, py) && #[trigger] stage_at(final(stages)@, pre.width as int, px,
                py) == Stage::Staged ==> stage_at(old(stages)@, pre.width as int, px, py)
                == Stage::Staged && !in_queue(queue0@, px, py),
        forall|px: int, py: int|
            pre.in_bounds(px, py) && #[trigger] stage_at(old(stages)@, pre.width as int, px, py)
                == Stage::Staged && !in_queue(queue0@, px, py) ==> stage_at(final(stages)@,
                pre.width as int, px, py) == Stage::Staged,
{
    let mut j: usize = 0;
    while j < queue0.len()
        invariant
            flood_inv(pre, *r, stages@),
            j <= queue0@.len(),
            stages@.len() == old(stages)@.len(),
            weight(stages@) <= weight(old(stages)@) - j,
            forall|i: int|
                0 <= i < queue0@.len() ==> pre.in_bounds((#[trigger] queue0@[i]).0 as int,
                    queue0@[i].1 as int),
            forall|i: int|
                j <= i < queue0@.len() ==> stage_at(stages@, pre.width as int,
                    (#[trigger] queue0@[i]).0 as int, queue0@[i].1 as int) == Stage::Staged,
            forall|i: int|
                0 <= i < j ==> stage_at(stages@, pre.width as int,
                    (#[trigger] queue0@[i]).0 as int, queue0@[i].1 as int) == Stage::Processed,
            forall|i1: int, j1: int|
                0 <= i1 < j1 < queue0@.len() ==> #[trigger] queue0@[i1] != #[trigger] queue0@[j1],
            forall|i: int|
                0 <= i < queue0@.len() ==> witnessed(pre, *r, old(stages)@,
                    (#[trigger] queue0@[i]).0 as int, queue0@[i].1 as int),
            forall|i: int|
                0 <= i < queue0@.len() ==> no_unprocessed_neighbor(pre, old(stages)@,
                    (#[trigger] queue0@[i]).0 as int, queue0@[i].1 as int),
            forall|px: int, py: int|
                pre.in_bounds(px, py) ==> ((#[trigger] stage_at(stages@, pre.width as int, px,
                    py) == Stage::Unprocessed) <==> (#[trigger] stage_at(old(stages)@,
                    pre.width as int, px, py) == Stage::Unprocessed)),
            forall|px: int, py: int|
                pre.in_bounds(px, py) && #[trigger] stage_at(old(stages)@, pre.width as int, px,
                    py) == Stage::Processed ==> stage_at(stages@, pre.width as int, px, py)
                    == Stage::Processed,
            forall|px: int, py: int|
                pre.in_bounds(px, py) && #[trigger] stage_at(stages@, pre.width as int, px, py)
                    == Stage::Staged ==> stage_at(old(stages)@, pre.width as int, px, py)
                    == Stage::Staged && !(exists|i: int|
                    0 <= i < j && (#[trigger] queue0@[i]).0 == px && queue0@[i].1 == py),
            forall|px: int, py: int|
                pre.in_bounds(px, py) && #[trigger] stage_at(old(stages)@, pre.width as int, px,
                    py) == Stage::Staged && !in_queue(queue0@, px, py) ==> stage_at(stages@,
                    pre.width as int, px, py) == Stage::Staged,
        decreases queue0@.len() - j,
    {
        let (qx, qy) = queue0[j];
        let ni = stage_index(r, qx, qy);
        let ghost prev = stages@;
        stages.set(ni, Stage::Processed);
        proof {
            assert forall|px: int, py: int|
                pre.in_bounds(px, py) && (px, py) != (qx as int, qy as int)
                    implies stage_at(stages@, pre.width as int, px, py) == stage_at(prev,
                pre.width as int, px, py) by {
                crate::classify::lemma_row_major_injective(pre.width as int, px, py, qx as int,
                    qy as int);
                pre.lemma_pix_bounds(px, py);
                pre.lemma_pix_bounds(qx as int, qy as int);
            }
            assert(stage_at(stages@, pre.width as int, qx as int, qy as int)
                == Stage::Processed);
            lemma_weight_update(prev, (qy as int) * (pre.width as int) + qx as int,
                Stage::Processed);
            assert forall|px: int, py: int|
                pre.in_bounds(px, py) && #[trigger] stage_at(prev, pre.width as int, px, py)
                    == Stage::Processed implies stage_at(stages@, pre.width as int, px, py)
                == Stage::Processed by {}
            lemma_round_ok_monotone(pre, *r, prev, stages@);
            assert forall|i: int| j + 1 <= i < queue0@.len() implies stage_at(stages@,
                pre.width as int, (#[trigger] queue0@[i]).0 as int, queue0@[i].1 as int)
                == Stage::Staged by {
                assert(queue0@[i] != queue0@[j as int]);
                assert(stage_at(prev, pre.width as int, queue0@[i].0 as int,
                    queue0@[i].1 as int) == Stage::Staged);
            }
            assert forall|px: int, py: int|
                pre.in_bounds(px, py) && #[trigger] stage_at(old(stages)@, pre.width as int, px,
                    py) == Stage::Staged && !in_queue(queue0@, px, py) implies stage_at(stages@,
                pre.width as int, px, py) == Stage::Staged by {
                assert((px, py) != (qx as int, qy as int)) by {
                    if (px, py) == (qx as int, qy as int) {
                        assert(queue0@[j as int].0 == px && queue0@[j as int].1 == py);
                        assert(in_queue(queue0@, px, py));
                    }
                }
                assert(stage_at(prev, pre.width as int, px, py) == Stage::Staged);
            }
            assert forall|px: int, py: int|
                pre.in_bounds(px, py) && #[trigger] stage_at(stages@, pre.width as int, px, py)
                    == Stage::Processed implies no_unprocessed_neighbor(pre, stages@, px,
                py) by {
                if (px, py) == (qx as int, qy as int) {
                    assert(no_unprocessed_neighbor(pre, old(stages)@, px, py));
                    assert forall|ax: int, ay: int|
                        pre.in_bounds(ax, ay) && is_neighbor(px, py, ax, ay)
                            implies #[trigger] stage_at(stages@, pre.width as int, ax, ay)
                        != Stage::Unprocessed by {
                        assert(stage_at(old(stages)@, pre.width as int, ax, ay)
                            != Stage::Unprocessed);
                    }
                } else {
                    assert(stage_at(prev, pre.width as int, px, py) == Stage::Processed);
                    assert(no_unprocessed_neighbor(pre, prev, px, py));
                    assert forall|ax: int, ay: int|
                        pre.in_bounds(ax, ay) && is_neighbor(px, py, ax, ay)
                            implies #[trigger] stage_at(stages@, pre.width as int, ax, ay)
                        != Stage::Unprocessed by {
                        if (ax, ay) != (qx as int, qy as int) {
                            assert(stage_at(stages@, pre.width as int, ax, ay) == stage_at(prev,
                                pre.width as int, ax, ay));
                        }
                    }
                }
            }
            assert forall|px: int, py: int|
                pre.in_bounds(px, py) && pre.alpha(px, py) == 0
                    implies #[trigger] filled_ok(pre, *r, stages@, px, py) by {
                if stage_at(stages@, pre.width as int, px, py) == Stage::Processed {
                    if (px, py) == (qx as int, qy as int) {
                        assert(witnessed(pre, *r, old(stages)@, px, py));
                        lemma_witnessed_monotone(pre, *r, old(stages)@, stages@, px, py);
                    } else {
                        assert(stage_at(prev, pre.width as int, px, py) == Stage::Processed);
                        assert(filled_ok(pre, *r, prev, px, py));
                        lemma_witnessed_monotone(pre, *r, prev, stages@, px, py);
                    }
                }
            }
        }
        j = j + 1;
    }
}

/// Run flood rounds until the frontier dies out.  Each round averages the
/// whole frontier from Processed neighbors, stages the next ring, then
/// promotes the current ring.  When the loop ends nothing is Staged, and
/// every Processed pixel that was fully transparent carries its average.
fn run_rounds(r: &mut Raster, stages: &mut Vec<Stage>, queue_init: Vec<(usize, usize)>)
    requires
        flood_inv(*old(r), *old(r), old(stages)@),
        queue_ok(queue_init@, *old(r), old(stages)@),
        forall|px: int, py: int|
            old(r).in_bounds(px, py) && #[trigger] stage_at(old(stages)@, old(r).width as int,
                px, py) == Stage::Staged ==> in_queue(queue_init@, px, py),
        forall|j: int|
            0 <= j < queue_init@.len() ==> has_processed_neighbor(*old(r), old(stages)@,
                (#[trigger] queue_init@[j]).0 as int, queue_init@[j].1 as int),
    ensures
        flood_inv(*old(r), *final(r), final(stages)@),
        forall|px: int, py: int|
            old(r).in_bounds(px, py) ==> #[trigger] stage_at(final(stages)@,
                old(r).width as int, px, py) != Stage::Staged,
{
    let ghost pre = *old(r);
    let mut queue0 = queue_init;
    while queue0.len() > 0
        invariant
            flood_inv(pre, *r, stages@),
            queue_ok(queue0@, pre, stages@),
            pre == *old(r),
            forall|px: int, py: int|
                pre.in_bounds(px, py) && #[trigger] stage_at(stages@, pre.width as int, px, py)
                    == Stage::Staged ==> in_queue(queue0@, px, py),
            forall|j: int|
                0 <= j < queue0@.len() ==> has_processed_neighbor(pre, stages@,
                    (#[trigger] queue0@[j]).0 as int, queue0@[j].1 as int),
        decreases weight(stages@),
    {
        let ghost w_round = weight(stages@);
        let mut queue1: Vec<(usize, usize)> = Vec::new();
        let ghost mut q1wit: Seq<(usize, usize)> = Seq::empty();
        let mut i: usize = 0;
        while i < queue0.len()
            invariant
                flood_inv(pre, *r, stages@),
                queue_ok(queue0@, pre, stages@),
                queue_ok(queue1@, pre, stages@),
                queues_disjoint(queue0@, queue1@),
                weight(stages@) <= w_round,
                i <= queue0@.len(),
                pre == *old(r),
                forall|px: int, py: int|
                    pre.in_bounds(px, py) && #[trigger] stage_at(stages@, pre.width as int, px,
                        py) == Stage::Staged ==> in_queue(queue0@, px, py) || in_queue(queue1@,
                        px, py),
                forall|j: int|
                    0 <= j < queue0@.len() ==> has_processed_neighbor(pre, stages@,
                        (#[trigger] queue0@[j]).0 as int, queue0@[j].1 as int),
                forall|j: int|
                    0 <= j < i ==> witnessed(pre, *r, stages@, (#[trigger] queue0@[j]).0 as int,
                        queue0@[j].1 as int),
                forall|j: int|
                    0 <= j < i ==> no_unprocessed_neighbor(pre, stages@,
                        (#[trigger] queue0@[j]).0 as int, queue0@[j].1 as int),
                q1wit.len() == queue1@.len(),
                forall|j: int|
                    0 <= j < queue1@.len() ==> pre.in_bounds((#[trigger] q1wit[j]).0 as int,
                        q1wit[j].1 as int) && is_neighbor(queue1@[j].0 as int,
                        queue1@[j].1 as int, q1wit[j].0 as int, q1wit[j].1 as int) && in_queue(
                        queue0@, q1wit[j].0 as int, q1wit[j].1 as int),
            decreases queue0@.len() - i,
        {
            let (x, y) = queue0[i];
            let ghost r_before = *r;
            let ghost stages_before = stages@;
            let ghost q1_before = queue1@;
            process_frontier_pixel(r, stages, &mut queue1, x, y, Ghost(pre));
            proof {
                q1wit = q1wit.add(Seq::new((queue1@.len() - q1_before.len()) as nat,
                    |t: int| (x, y)));
                assert forall|m: int| 0 <= m < queue0@.len()
                    implies pre.in_bounds((#[trigger] queue0@[m]).0 as int, queue0@[m].1 as int)
                    && stage_at(stages@, pre.width as int, queue0@[m].0 as int,
                    queue0@[m].1 as int) == Stage::Staged by {
                    assert(stage_at(stages_before, pre.width as int, queue0@[m].0 as int,
                        queue0@[m].1 as int) == Stage::Staged);
                }
                assert forall|i0: int, j0: int|
                    0 <= i0 < queue0@.len() && 0 <= j0 < queue1@.len()
                        implies #[trigger] queue0@[i0] != #[trigger] queue1@[j0] by {
                    if j0 >= q1_before.len() {
                        assert(stage_at(stages_before, pre.width as int, queue1@[j0].0 as int,
                            queue1@[j0].1 as int) == Stage::Unprocessed);
                        assert(stage_at(stages_before, pre.width as int, queue0@[i0].0 as int,
                            queue0@[i0].1 as int) == Stage::Staged);
                    } else {
                        assert(queue1@[j0] == q1_before[j0]);
                    }
                }
                assert forall|j: int| 0 <= j < queue0@.len()
                    implies has_processed_neighbor(pre, stages@, (#[trigger] queue0@[j]).0
                    as int, queue0@[j].1 as int) by {
                    let (ax, ay) = choose|ax: int, ay: int|
                        pre.in_bounds(ax, ay) && is_neighbor(queue0@[j].0 as int,
                            queue0@[j].1 as int, ax, ay) && #[trigger] stage_at(stages_before,
                            pre.width as int, ax, ay) == Stage::Processed;
                    assert(stage_at(stages@, pre.width as int, ax, ay) == Stage::Processed);
                }
                assert forall|j: int| 0 <= j < i + 1 implies witnessed(pre, *r, stages@,
                    (#[trigger] queue0@[j]).0 as int, queue0@[j].1 as int) by {
                    if j < i {
                        assert(witnessed(pre, r_before, stages_before,
                            queue0@[j].0 as int, queue0@[j].1 as int));
                        assert(queue0@[j] != queue0@[i as int]);
                        lemma_witnessed_stable(pre, r_before, *r, stages_before, stages@,
                            x as int, y as int, queue0@[j].0 as int, queue0@[j].1 as int);
                    }
                }
                assert forall|j: int| 0 <= j < i + 1 implies no_unprocessed_neighbor(pre,
                    stages@, (#[trigger] queue0@[j]).0 as int, queue0@[j].1 as int) by {
                    if j < i {
                        assert(no_unprocessed_neighbor(pre, stages_before,
                            queue0@[j].0 as int, queue0@[j].1 as int));
                        assert forall|ax: int, ay: int|
                            pre.in_bounds(ax, ay) && is_neighbor(queue0@[j].0 as int,
                                queue0@[j].1 as int, ax, ay) implies #[trigger] stage_at(
                            stages@, pre.width as int, ax, ay) != Stage::Unprocessed by {
                            if stage_at(stages@, pre.width as int, ax, ay)
                                == Stage::Unprocessed {
                                assert(stage_at(stages_before, pre.width as int, ax, ay)
                                    != Stage::Unprocessed);
                                if stage_at(stages_before, pre.width as int, ax, ay)
                                    == Stage::Processed {
                                    assert(stage_at(stages@, pre.width as int, ax, ay)
                                        == Stage::Processed);
                                } else {
                                    assert(stage_at(stages_before, pre.width as int, ax, ay)
                                        == Stage::Staged);
                                    assert(stage_at(stages@, pre.width as int, ax, ay)
                                        == Stage::Staged);
                                }
                                assert(false);
                            }
                        }
                    }
                }
                assert forall|px: int, py: int|
                    pre.in_bounds(px, py) && #[trigger] stage_at(stages@, pre.width as int, px,
                        py) == Stage::Staged implies in_queue(queue0@, px, py) || in_queue(
                    queue1@, px, py) by {
                    if stage_at(stages_before, pre.width as int, px, py) == Stage::Staged {
                        if !in_queue(queue0@, px, py) {
                            assert(in_queue(q1_before, px, py));
                            let j = choose|j: int|
                                0 <= j < q1_before.len() && (#[trigger] q1_before[j]).0 == px
                                    && q1_before[j].1 == py;
                            assert(queue1@[j].0 == px && queue1@[j].1 == py);
                            assert(in_queue(queue1@, px, py));
                        }
                    } else {
                        assert(in_queue(queue1@, px, py));
                    }
                }
                assert forall|j: int| 0 <= j < queue1@.len()
                    implies pre.in_bounds((#[trigger] q1wit[j]).0 as int, q1wit[j].1 as int)
                    && is_neighbor(queue1@[j].0 as int, queue1@[j].1 as int, q1wit[j].0 as int,
                    q1wit[j].1 as int) && in_queue(queue0@, q1wit[j].0 as int,
                    q1wit[j].1 as int) by {
                    if j < q1_before.len() {
                        assert(queue1@[j] == q1_before[j]);
                    } else {
                        assert(q1wit[j] == (x, y));
                        assert(is_neighbor(queue1@[j].0 as int, queue1@[j].1 as int, x as int,
                            y as int));
                        assert(queue0@[i as int].0 == x as int && queue0@[i as int].1
                            == y as int);
                        assert(in_queue(queue0@, x as int, y as int));
                    }
                }
            }
            i = i + 1;
        }
        let ghost stages_mid = stages@;
        promote_frontier(r, stages, &queue0, Ghost(pre));
        proof {
            assert forall|m: int| 0 <= m < queue1@.len()
                implies pre.in_bounds((#[trigger] queue1@[m]).0 as int, queue1@[m].1 as int)
                && stage_at(stages@, pre.width as int, queue1@[m].0 as int, queue1@[m].1 as int)
                == Stage::Staged by {
                assert(stage_at(stages_mid, pre.width as int, queue1@[m].0 as int,
                    queue1@[m].1 as int) == Stage::Staged);
                assert(!in_queue(queue0@, queue1@[m].0 as int, queue1@[m].1 as int)) by {
                    if in_queue(queue0@, queue1@[m].0 as int, queue1@[m].1 as int) {
                        let i0 = choose|i0: int|
                            0 <= i0 < queue0@.len() && (#[trigger] queue0@[i0]).0
                                == queue1@[m].0 as int && queue0@[i0].1 == queue1@[m].1 as int;
                        assert(queue0@[i0] != queue1@[m]);
                    }
                }
            }
            assert forall|px: int, py: int|
                pre.in_bounds(px, py) && #[trigger] stage_at(stages@, pre.width as int, px, py)
                    == Stage::Staged implies in_queue(queue1@, px, py) by {
                assert(stage_at(stages_mid, pre.width as int, px, py) == Stage::Staged
                    && !in_queue(queue0@, px, py));
            }
            assert forall|j: int| 0 <= j < queue1@.len() implies has_processed_neighbor(pre,
                stages@, (#[trigger] queue1@[j]).0 as int, queue1@[j].1 as int) by {
                let i0 = choose|i0: int|
                    0 <= i0 < queue0@.len() && (#[trigger] queue0@[i0]).0 == q1wit[j].0 as int
                        && queue0@[i0].1 == q1wit[j].1 as int;
                assert(stage_at(stages@, pre.width as int, queue0@[i0].0 as int,
                    queue0@[i0].1 as int) == Stage::Processed);
                assert(stage_at(stages@, pre.width as int, q1wit[j].0 as int,
                    q1wit[j].1 as int) == Stage::Processed);
                assert(pre.in_bounds(q1wit[j].0 as int, q1wit[j].1 as int) && is_neighbor(
                    queue1@[j].0 as int, queue1@[j].1 as int, q1wit[j].0 as int,
                    q1wit[j].1 as int));
            }
            lemma_weight_nonneg(stages@);
        }
        queue0 = queue1;
    }
    proof {
        assert forall|px: int, py: int| pre.in_bounds(px, py) implies #[trigger] stage_at(
            stages@, pre.width as int, px, py) != Stage::Staged by {
            if stage_at(stages@, pre.width as int, px, py) == Stage::Staged {
                assert(in_queue(queue0@, px, py));
                let j = choose|j: int|
                    0 <= j < queue0@.len() && (#[trigger] queue0@[j]).0 == px && queue0@[j].1
                        == py;
                assert(false);
            }
        }
    }
}

/// An average witness only reads RGB channels, so it survives any change
/// that keeps every pixel's RGB (such as forcing alpha opaque).
proof fn lemma_avg_witness_same_rgb(r1: Raster, r2: Raster, x: int, y: int, s: Seq<(
    usize,
    usize,
)>)
    requires
        r1.width == r2.width,
        r1.height == r2.height,
        r1.in_bounds(x, y),
        avg_witness(r1, x, y, s),
        forall|px: int, py: int|
            r1.in_bounds(px, py) ==> #[trigger] r2.rgb(px, py) == r1.rgb(px, py),
    ensures
        avg_witness(r2, x, y, s),
{
    assert forall|m: int| 0 <= m < s.len() implies r1.chan((#[trigger] s[m]).0 as int,
        s[m].1 as int, 0) == r2.chan(s[m].0 as int, s[m].1 as int, 0) && r1.chan(s[m].0 as int,
        s[m].1 as int, 1) == r2.chan(s[m].0 as int, s[m].1 as int, 1) && r1.chan(s[m].0 as int,
        s[m].1 as int, 2) == r2.chan(s[m].0 as int, s[m].1 as int, 2) by {
        assert(r1.in_bounds(s[m].0 as int, s[m].1 as int));
        assert(r2.rgb(s[m].0 as int, s[m].1 as int) == r1.rgb(s[m].0 as int, s[m].1 as int));
    }
    lemma_sum_chan_same(r1, r2, s, 0);
    lemma_sum_chan_same(r1, r2, s, 1);
    lemma_sum_chan_same(r1, r2, s, 2);
    assert(r2.rgb(x, y) == r1.rgb(x, y));
}

/// Repair a raster with the flood strategy: mark every not-fully-
/// transparent pixel Processed, seed a frontier beside it, average ring by
/// ring until the frontier dies out, then force every alpha to 255.
pub fn flood_fill(r: &mut Raster)
    requires
        old(r).wf(),
    ensures
        flood_post(*old(r), *final(r)),
{
    let mut stages = init_stages(r);
    let queue0 = seed_frontier(r, &mut stages);
    proof {
        assert forall|x: int, y: int| old(r).in_bounds(x, y)
            implies #[trigger] round_ok(*old(r), *old(r), stages@, x, y) by {}
        assert forall|x: int, y: int| old(r).in_bounds(x, y) && old(r).alpha(x, y) == 0
            implies #[trigger] filled_ok(*old(r), *old(r), stages@, x, y) by {
            assert(stage_at(stages@, old(r).width as int, x, y) != Stage::Processed);
        }
        assert(flood_inv(*old(r), *old(r), stages@));
        assert forall|px: int, py: int|
            old(r).in_bounds(px, py) && #[trigger] stage_at(stages@, old(r).width as int, px,
                py) == Stage::Staged implies in_queue(queue0@, px, py) by {
            let j = choose|j: int|
                0 <= j < queue0@.len() && (#[trigger] queue0@[j]).0 == px && queue0@[j].1 == py;
            assert(in_queue(queue0@, px, py));
        }
    }
    run_rounds(r, &mut stages, queue0);
    let ghost mid = *r;
    solidify(r);
    proof {
        assert forall|x: int, y: int| old(r).in_bounds(x, y)
            implies #[trigger] flood_pixel_ok(*old(r), *r, x, y) by {
            assert(r.alpha(x, y) == 255);
            assert(r.rgb(x, y) == mid.rgb(x, y));
            assert(round_ok(*old(r), mid, stages@, x, y));
            if r.rgb(x, y) != old(r).rgb(x, y) {
                assert(mid.rgb(x, y) != old(r).rgb(x, y));
                let s = choose|s: Seq<(usize, usize)>|
                    #[trigger] avg_witness(mid, x, y, s) && all_processed(stages@,
                        old(r).width as int, s);
                lemma_avg_witness_same_rgb(mid, *r, x, y, s);
                assert(avg_witness(*r, x, y, s));
            }
        }
        if has_border(*old(r)) {
            let (bx, by) = choose|bx: int, by: int|
                old(r).in_bounds(bx, by) && #[trigger] is_border(*old(r), bx, by);
            assert(old(r).alpha(bx, by) != 0);
            assert(stage_at(stages@, old(r).width as int, bx, by) == Stage::Processed);
            assert forall|x: int, y: int|
                old(r).in_bounds(x, y) && old(r).alpha(x, y) == 0
                    implies #[trigger] avg_filled(*r, x, y) by {
                assert(stage_at(stages@, old(r).width as int, x, y) != Stage::Staged);
                if stage_at(stages@, old(r).width as int, x, y) == Stage::Unprocessed {
                    lemma_unprocessed_spreads(*old(r), stages@, x, y, bx, by);
                    assert(false);
                }
                assert(stage_at(stages@, old(r).width as int, x, y) == Stage::Processed);
                assert(filled_ok(*old(r), mid, stages@, x, y));
                assert(witnessed(*old(r), mid, stages@, x, y));
                let s = choose|s: Seq<(usize, usize)>|
                    #[trigger] avg_witness(mid, x, y, s) && all_processed(stages@,
                        old(r).width as int, s);
                lemma_avg_witness_same_rgb(mid, *r, x, y, s);
                assert(avg_witness(*r, x, y, s));
            }
        }
    }
}

/// Re-running the flood strategy on its own output is a no-op: the output
/// has alpha 255 everywhere, so there is nothing left to seed or fill.
pub proof fn lemma_flood_idempotent(r0: Raster, r1: Raster, r2: Raster)
    requires
        r0.wf(),
        flood_post(r0, r1),
        flood_post(r1, r2),
    ensures
        r2.width == r1.width,
        r2.height == r1.height,
        r2.data@ == r1.data@,
{
    assert forall|x: int, y: int| r1.in_bounds(x, y) implies #[trigger] r1.rgb(x, y) == r2.rgb(x,
        y) by {
        assert(flood_pixel_ok(r0, r1, x, y));
        assert(flood_pixel_ok(r1, r2, x, y));
        assert(r1.alpha(x, y) == 255);
    }
    assert forall|x: int, y: int| r1.in_bounds(x, y) implies #[trigger] r1.alpha(x, y)
        == r2.alpha(x, y) by {
        assert(flood_pixel_ok(r0, r1, x, y));
        assert(flood_pixel_ok(r1, r2, x, y));
    }
    assert forall|x: int, y: int| r2.in_bounds(x, y) implies #[trigger] r2.rgb(x, y) == r1.rgb(x,
        y) && #[trigger] r2.alpha(x, y) == r1.alpha(x, y) by {
        assert(r1.in_bounds(x, y));
        assert(r1.rgb(x, y) == r2.rgb(x, y));
        assert(r1.alpha(x, y) == r2.alpha(x, y));
    }
    assert forall|x: int, y: int| r2.in_bounds(x, y) implies #[trigger] r2.alpha(x, y)
        == r1.alpha(x, y) by {
        assert(r1.in_bounds(x, y));
        assert(r1.alpha(x, y) == r2.alpha(x, y));
    }
    crate::raster::lemma_data_from_pixels(r2, r1);
}

} // verus!
