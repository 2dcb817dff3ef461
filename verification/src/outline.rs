//! The marching-ants outline of the pixel selection.
//!
//! The selection's coverage is sampled at the view level L (the level the
//! viewport composites from), inside the visible rectangle only: one sample
//! per level-L pixel, inside or outside. The unit boundary segments between
//! an inside and an outside sample are joined into polylines, and
//! consecutive collinear steps are collapsed, so a straight run becomes two
//! points. Working at level L is what keeps this cheap on a huge document.
use vstd::prelude::*;

use crate::thumbs::{lemma_pow2_adds, lemma_pow2_mono, pow2};

verus! {

/// A rectangle in document pixels: `(x0, y0, x1, y1)`, exclusive at the far edge.
pub type DocRect = (i64, i64, i64, i64);

/// A lattice point.
pub type Point = (i64, i64);

/// A unit segment between two lattice points.
pub type Segment = (Point, Point);

/// Side of a tile, in pixels, as a document coordinate.
pub const TILE_SIDE: i64 = 256;

/// `a / b` rounded up.
pub open spec fn spec_div_ceil(a: int, b: int) -> int {
    (a + b - 1) / b
}

/// `a / b` rounded up (the operands are non-negative).
pub fn div_ceil(a: i64, b: i64) -> (q: i64)
    requires
        a >= 0,
        b > 0,
        a + b <= i64::MAX,
    ensures
        q == spec_div_ceil(a as int, b as int),
        q as int * b >= a,
        (q as int - 1) * b < a,
{
    let q = (a + b - 1) / b;
    proof {
        assert(q * b >= a && (q - 1) * b < a) by (nonlinear_arith)
            requires
                q == (a + b - 1) / (b as int),
                b > 0,
                a >= 0,
        ;
    }
    q
}

// ---------------------------------------------------------------------------
// The document rectangle the selection covers
// ---------------------------------------------------------------------------

/// The document rectangle of tile `(tx, ty)` of an image placed at `offset`.
pub open spec fn tile_rect(tile: (u32, u32), offset: (i32, i32)) -> (int, int, int, int) {
    let x0 = tile.0 * TILE_SIDE + offset.0;
    let y0 = tile.1 * TILE_SIDE + offset.1;
    (x0, y0, x0 + TILE_SIDE, y0 + TILE_SIDE)
}

/// `r` is the smallest rectangle holding the rectangles of all `tiles`.
pub open spec fn is_tiles_box(tiles: Seq<(u32, u32)>, offset: (i32, i32), r: DocRect) -> bool {
    &&& forall|k: int|
        0 <= k < tiles.len() ==> {
            let t = #[trigger] tile_rect(tiles[k], offset);
            r.0 <= t.0 && r.1 <= t.1 && t.2 <= r.2 && t.3 <= r.3
        }
    &&& exists|k: int| 0 <= k < tiles.len() && #[trigger] tile_rect(tiles[k], offset).0 == r.0
    &&& exists|k: int| 0 <= k < tiles.len() && #[trigger] tile_rect(tiles[k], offset).1 == r.1
    &&& exists|k: int| 0 <= k < tiles.len() && #[trigger] tile_rect(tiles[k], offset).2 == r.2
    &&& exists|k: int| 0 <= k < tiles.len() && #[trigger] tile_rect(tiles[k], offset).3 == r.3
}

/// The document rectangle the selection covers, from its non-empty tiles
/// (tile granularity, so it never scans pixels); `None` without a tile.
pub fn document_bounds(tiles: &Vec<(u32, u32)>, offset: (i32, i32)) -> (bounds: Option<DocRect>)
    ensures
        bounds is None <==> tiles@.len() == 0,
        bounds matches Some(r) ==> is_tiles_box(tiles@, offset, r),
{
    let (ox, oy) = (offset.0 as i64, offset.1 as i64);
    let mut bbox: Option<DocRect> = None;
    let mut k: usize = 0;
    while k < tiles.len()
        invariant
            k <= tiles@.len(),
            ox == offset.0 && oy == offset.1,
            bbox is None <==> k == 0,
            bbox matches Some(r) ==> is_tiles_box(tiles@.take(k as int), offset, r),
        decreases tiles@.len() - k,
    {
        let (tx, ty) = tiles[k];
        let x0 = tx as i64 * TILE_SIDE + ox;
        let y0 = ty as i64 * TILE_SIDE + oy;
        let rect = (x0, y0, x0 + TILE_SIDE, y0 + TILE_SIDE);
        let ghost prev = tiles@.take(k as int);
        let ghost next = tiles@.take(k + 1);
        proof {
            assert(tile_rect(next[k as int], offset) == (rect.0 as int, rect.1 as int, rect.2 as int, rect.3 as int));
            assert forall|m: int| 0 <= m < k implies next[m] == prev[m] by {}
        }
        bbox = Some(
            match bbox {
                None => rect,
                Some((ax0, ay0, ax1, ay1)) => (
                    if ax0 <= rect.0 { ax0 } else { rect.0 },
                    if ay0 <= rect.1 { ay0 } else { rect.1 },
                    if ax1 >= rect.2 { ax1 } else { rect.2 },
                    if ay1 >= rect.3 { ay1 } else { rect.3 },
                ),
            },
        );
        proof {
            let r = bbox->0;
            assert forall|m: int| 0 <= m < k + 1 implies {
                let t = #[trigger] tile_rect(next[m], offset);
                r.0 <= t.0 && r.1 <= t.1 && t.2 <= r.2 && t.3 <= r.3
            } by {
                if m < k {
                    assert(tile_rect(prev[m], offset) == tile_rect(next[m], offset));
                }
            }
            if k == 0 {
                assert(tile_rect(next[0], offset).0 == r.0);
                assert(tile_rect(next[0], offset).1 == r.1);
                assert(tile_rect(next[0], offset).2 == r.2);
                assert(tile_rect(next[0], offset).3 == r.3);
            } else {
                let p = prev;
                assert(exists|m: int| 0 <= m < k + 1 && #[trigger] tile_rect(next[m], offset).0 == r.0) by {
                    if r.0 != rect.0 {
                        let m = choose|m: int| 0 <= m < k && #[trigger] tile_rect(p[m], offset).0 == r.0;
                        assert(tile_rect(next[m], offset) == tile_rect(p[m], offset));
                    } else {
                        assert(tile_rect(next[k as int], offset).0 == r.0);
                    }
                }
                assert(exists|m: int| 0 <= m < k + 1 && #[trigger] tile_rect(next[m], offset).1 == r.1) by {
                    if r.1 != rect.1 {
                        let m = choose|m: int| 0 <= m < k && #[trigger] tile_rect(p[m], offset).1 == r.1;
                        assert(tile_rect(next[m], offset) == tile_rect(p[m], offset));
                    } else {
                        assert(tile_rect(next[k as int], offset).1 == r.1);
                    }
                }
                assert(exists|m: int| 0 <= m < k + 1 && #[trigger] tile_rect(next[m], offset).2 == r.2) by {
                    if r.2 != rect.2 {
                        let m = choose|m: int| 0 <= m < k && #[trigger] tile_rect(p[m], offset).2 == r.2;
                        assert(tile_rect(next[m], offset) == tile_rect(p[m], offset));
                    } else {
                        assert(tile_rect(next[k as int], offset).2 == r.2);
                    }
                }
                assert(exists|m: int| 0 <= m < k + 1 && #[trigger] tile_rect(next[m], offset).3 == r.3) by {
                    if r.3 != rect.3 {
                        let m = choose|m: int| 0 <= m < k && #[trigger] tile_rect(p[m], offset).3 == r.3;
                        assert(tile_rect(next[m], offset) == tile_rect(p[m], offset));
                    } else {
                        assert(tile_rect(next[k as int], offset).3 == r.3);
                    }
                }
            }
        }
        k = k + 1;
    }
    proof {
        assert(tiles@.take(k as int) =~= tiles@);
    }
    bbox
}

// ---------------------------------------------------------------------------
// Collapsing straight runs
// ---------------------------------------------------------------------------

/// Whether the step from `b` to `p` goes the way the step from `a` to `b`
/// went: the two steps are parallel (zero cross product) and point the same
/// way (positive dot product).
pub open spec fn same_direction(a: Point, b: Point, p: Point) -> bool {
    let (dx1, dy1) = (b.0 - a.0, b.1 - a.1);
    let (dx2, dy2) = (p.0 - b.0, p.1 - b.1);
    dx1 * dy2 == dy1 * dx2 && dx1 * dx2 + dy1 * dy2 > 0
}

/// The points kept of `points`: each point is appended, after dropping the
/// last kept point when the new one continues its step.
pub open spec fn spec_simplify(points: Seq<Point>) -> Seq<Point>
    decreases points.len(),
{
    if points.len() == 0 {
        Seq::empty()
    } else {
        let out = spec_simplify(points.drop_last());
        let p = points.last();
        let kept = if out.len() >= 2 && same_direction(out[out.len() - 2], out.last(), p) {
            out.drop_last()
        } else {
            out
        };
        kept.push(p)
    }
}

/// A product of two differences of `i64` values as a sign and a magnitude:
/// `neg` exactly when the product is negative.
fn product(x: i128, y: i128) -> (r: (bool, u128))
    requires
        -0xffff_ffff_ffff_ffff <= x <= 0xffff_ffff_ffff_ffff,
        -0xffff_ffff_ffff_ffff <= y <= 0xffff_ffff_ffff_ffff,
    ensures
        r.0 ==> r.1 > 0 && x * y == -(r.1 as int),
        !r.0 ==> x * y == r.1 as int,
{
    let ax: u128 = if x < 0 { (-x) as u128 } else { x as u128 };
    let ay: u128 = if y < 0 { (-y) as u128 } else { y as u128 };
    proof {
        assert(ax * ay <= 0xffff_ffff_ffff_ffff * 0xffff_ffff_ffff_ffff) by (nonlinear_arith)
            requires
                ax <= 0xffff_ffff_ffff_ffff,
                ay <= 0xffff_ffff_ffff_ffff,
        ;
        assert(x * y == if (x < 0) == (y < 0) {
            ax * ay
        } else {
            -(ax * ay)
        }) by (nonlinear_arith)
            requires
                ax == (if x < 0 {
                    -x
                } else {
                    x as int
                }),
                ay == (if y < 0 {
                    -y
                } else {
                    y as int
                }),
        ;
    }
    let m = ax * ay;
    ((x < 0) != (y < 0) && m != 0, m)
}

/// Whether `p` continues the step from `a` to `b`, computed exactly for any
/// coordinates.
fn continues(a: Point, b: Point, p: Point) -> (same: bool)
    ensures
        same == same_direction(a, b, p),
{
    let dx1 = b.0 as i128 - a.0 as i128;
    let dy1 = b.1 as i128 - a.1 as i128;
    let dx2 = p.0 as i128 - b.0 as i128;
    let dy2 = p.1 as i128 - b.1 as i128;
    let (n1, m1) = product(dx1, dy2);
    let (n2, m2) = product(dy1, dx2);
    let parallel = n1 == n2 && m1 == m2;
    let (n3, m3) = product(dx1, dx2);
    let (n4, m4) = product(dy1, dy2);
    let forward = if !n3 && !n4 {
        m3 > 0 || m4 > 0
    } else if n3 && n4 {
        false
    } else if n4 {
        m3 > m4
    } else {
        m4 > m3
    };
    parallel && forward
}

/// Every kept point is one of the input's, and the last one is kept.
proof fn lemma_simplify_from(points: Seq<Point>)
    ensures
        forall|k: int|
            0 <= k < spec_simplify(points).len() ==> points.contains(#[trigger] spec_simplify(
                points,
            )[k]),
        points.len() > 0 ==> spec_simplify(points).len() > 0,
        points.len() > 0 ==> spec_simplify(points).last() == points.last(),
        spec_simplify(points).len() <= points.len(),
    decreases points.len(),
{
    if points.len() > 0 {
        let init = points.drop_last();
        lemma_simplify_from(init);
        let out = spec_simplify(init);
        assert forall|k: int| 0 <= k < spec_simplify(points).len() implies points.contains(
            #[trigger] spec_simplify(points)[k],
        ) by {
            let r = spec_simplify(points);
            if k == r.len() - 1 {
                assert(points[points.len() - 1] == points.last());
            } else {
                assert(r[k] == out[k]);
                assert(init.contains(out[k]));
                let m = choose|m: int| 0 <= m < init.len() && init[m] == out[k];
                assert(points[m] == init[m]);
            }
        }
    }
}

/// Drop points that continue the previous direction (a straight run becomes
/// two points).
pub fn simplify(points: Vec<Point>) -> (out: Vec<Point>)
    ensures
        out@ == spec_simplify(points@),
{
    let mut out: Vec<Point> = Vec::new();
    let mut i: usize = 0;
    while i < points.len()
        invariant
            i <= points@.len(),
            out@ == spec_simplify(points@.take(i as int)),
        decreases points@.len() - i,
    {
        let point = points[i];
        proof {
            assert(points@.take(i + 1).drop_last() =~= points@.take(i as int));
            assert(points@.take(i + 1).last() == point);
        }
        let n = out.len();
        if n >= 2 {
            let a = out[n - 2];
            let b = out[n - 1];
            if continues(a, b, point) {
                out.pop();
            }
        }
        out.push(point);
        i = i + 1;
    }
    proof {
        assert(points@.take(i as int) =~= points@);
    }
    out
}

/// Simplifying keeps the ends of a polyline and never adds a point: the
/// first and last points stay, and every point kept is one of the input's.
pub proof fn law_simplify_keeps_ends(points: Seq<Point>)
    requires
        points.len() > 0,
    ensures
        spec_simplify(points).len() > 0,
        spec_simplify(points)[0] == points[0],
        spec_simplify(points).last() == points.last(),
        spec_simplify(points).len() <= points.len(),
        forall|k: int|
            0 <= k < spec_simplify(points).len() ==> points.contains(#[trigger] spec_simplify(
                points,
            )[k]),
    decreases points.len(),
{
    lemma_simplify_from(points);
    let init = points.drop_last();
    if init.len() > 0 {
        law_simplify_keeps_ends(init);
        let out = spec_simplify(init);
        assert(out[0] == init[0]);
        if out.len() >= 2 && same_direction(out[out.len() - 2], out.last(), points.last()) {
            assert(out.drop_last()[0] == out[0]);
        }
    } else {
        assert(spec_simplify(init).len() == 0);
    }
}

/// No kept point continues the step before it.
pub open spec fn no_straight_point(points: Seq<Point>) -> bool {
    forall|i: int|
        1 <= i < points.len() - 1 ==> !#[trigger] same_direction(points[i - 1], points[i], points[i + 1])
}

/// When the step `(x3, y3)` goes the way of `(x2, y2)`, a step goes the way
/// of their sum exactly when it goes the way of `(x2, y2)`.
proof fn lemma_parallel_sum(x1: int, y1: int, x2: int, y2: int, x3: int, y3: int)
    requires
        x2 * y3 == y2 * x3,
        x2 * x3 + y2 * y3 > 0,
    ensures
        (x1 * (y2 + y3) == y1 * (x2 + x3) && x1 * (x2 + x3) + y1 * (y2 + y3) > 0) <==> (x1 * y2 == y1
            * x2 && x1 * x2 + y1 * y2 > 0),
{
    let k = x2 * x2 + y2 * y2;
    let m = x2 * x3 + y2 * y3;
    assert(k * x3 == m * x2) by (nonlinear_arith)
        requires
            x2 * y3 == y2 * x3,
            k == x2 * x2 + y2 * y2,
            m == x2 * x3 + y2 * y3,
    ;
    assert(k * y3 == m * y2) by (nonlinear_arith)
        requires
            x2 * y3 == y2 * x3,
            k == x2 * x2 + y2 * y2,
            m == x2 * x3 + y2 * y3,
    ;
    assert(k > 0) by (nonlinear_arith)
        requires
            x2 * x3 + y2 * y3 > 0,
            k == x2 * x2 + y2 * y2,
    ;
    let c = x1 * y2 - y1 * x2;
    let ce = x1 * (y2 + y3) - y1 * (x2 + x3);
    let d = x1 * x2 + y1 * y2;
    let de = x1 * (x2 + x3) + y1 * (y2 + y3);
    let cross3 = x1 * y3 - y1 * x3;
    assert(ce == c + cross3) by (nonlinear_arith)
        requires
            c == x1 * y2 - y1 * x2,
            ce == x1 * (y2 + y3) - y1 * (x2 + x3),
            cross3 == x1 * y3 - y1 * x3,
    ;
    assert(k * cross3 == x1 * (k * y3) - y1 * (k * x3)) by (nonlinear_arith)
        requires
            cross3 == x1 * y3 - y1 * x3,
    ;
    assert(x1 * (m * y2) - y1 * (m * x2) == m * c) by (nonlinear_arith)
        requires
            c == x1 * y2 - y1 * x2,
    ;
    assert(k * ce == k * c + k * cross3) by (nonlinear_arith)
        requires
            ce == c + cross3,
    ;
    assert(k * ce == (k + m) * c) by (nonlinear_arith)
        requires
            k * ce == k * c + m * c,
    ;
    let dot3 = x1 * x3 + y1 * y3;
    assert(de == d + dot3) by (nonlinear_arith)
        requires
            d == x1 * x2 + y1 * y2,
            de == x1 * (x2 + x3) + y1 * (y2 + y3),
            dot3 == x1 * x3 + y1 * y3,
    ;
    assert(k * dot3 == x1 * (k * x3) + y1 * (k * y3)) by (nonlinear_arith)
        requires
            dot3 == x1 * x3 + y1 * y3,
    ;
    assert(x1 * (m * x2) + y1 * (m * y2) == m * d) by (nonlinear_arith)
        requires
            d == x1 * x2 + y1 * y2,
    ;
    assert(k * de == k * d + k * dot3) by (nonlinear_arith)
        requires
            de == d + dot3,
    ;
    assert(k * de == (k + m) * d) by (nonlinear_arith)
        requires
            k * de == k * d + m * d,
    ;
    assert((ce == 0) == (c == 0)) by (nonlinear_arith)
        requires
            k * ce == (k + m) * c,
            k > 0,
            m > 0,
    ;
    assert((de > 0) == (d > 0)) by (nonlinear_arith)
        requires
            k * de == (k + m) * d,
            k > 0,
            m > 0,
    ;
}

/// No point of a simplified polyline continues the step before it.
proof fn lemma_simplified_has_no_straight_point(points: Seq<Point>)
    ensures
        no_straight_point(spec_simplify(points)),
    decreases points.len(),
{
    if points.len() > 0 {
        let init = points.drop_last();
        lemma_simplified_has_no_straight_point(init);
        let out = spec_simplify(init);
        let p = points.last();
        let dropped = out.len() >= 2 && same_direction(out[out.len() - 2], out.last(), p);
        let kept = if dropped {
            out.drop_last()
        } else {
            out
        };
        let r = kept.push(p);
        assert(r == spec_simplify(points));
        assert forall|i: int| 1 <= i < r.len() - 1 implies !#[trigger] same_direction(
            r[i - 1],
            r[i],
            r[i + 1],
        ) by {
            if i + 1 < kept.len() {
                assert(r[i - 1] == out[i - 1] && r[i] == out[i] && r[i + 1] == out[i + 1]);
                assert(!same_direction(out[i - 1], out[i], out[i + 1]));
            } else if !dropped {
                assert(r[i - 1] == out[out.len() - 2] && r[i] == out.last() && r[i + 1] == p);
            } else {
                let n = out.len();
                let a = out[n - 3];
                let b = out[n - 2];
                let c = out[n - 1];
                assert(r[i - 1] == a && r[i] == b && r[i + 1] == p);
                let j = n - 2;
                assert(!same_direction(out[j - 1], out[j], out[j + 1]));
                lemma_parallel_sum(
                    b.0 - a.0,
                    b.1 - a.1,
                    c.0 - b.0,
                    c.1 - b.1,
                    p.0 - c.0,
                    p.1 - c.1,
                );
                assert((c.1 - b.1) + (p.1 - c.1) == p.1 - b.1);
                assert((c.0 - b.0) + (p.0 - c.0) == p.0 - b.0);
            }
        }
    }
}

/// A polyline with no straight point is its own simplification.
proof fn lemma_simplify_keeps_turns(points: Seq<Point>)
    requires
        no_straight_point(points),
    ensures
        spec_simplify(points) == points,
    decreases points.len(),
{
    if points.len() > 0 {
        let init = points.drop_last();
        assert forall|i: int| 1 <= i < init.len() - 1 implies !#[trigger] same_direction(
            init[i - 1],
            init[i],
            init[i + 1],
        ) by {
            assert(!same_direction(points[i - 1], points[i], points[i + 1]));
        }
        lemma_simplify_keeps_turns(init);
        if init.len() >= 2 {
            let i = points.len() - 2;
            assert(!same_direction(points[i - 1], points[i], points[i + 1]));
            assert(init[init.len() - 2] == points[i - 1] && init.last() == points[i]);
        }
        assert(init.push(points.last()) =~= points);
    }
}

/// Simplifying twice is simplifying once: after one pass no point
/// continues the step before it, so a second pass drops nothing.
pub proof fn law_simplify_is_idempotent(points: Seq<Point>)
    ensures
        spec_simplify(spec_simplify(points)) == spec_simplify(points),
{
    lemma_simplified_has_no_straight_point(points);
    lemma_simplify_keeps_turns(spec_simplify(points));
}

/// The points of a straight run: `n` points from `start`, one `step` apart.
pub open spec fn run(start: Point, step: (int, int), n: nat) -> Seq<Point> {
    Seq::new(n, |k: int| ((start.0 + k * step.0) as i64, (start.1 + k * step.1) as i64))
}

/// A straight run becomes two points: simplifying the points of a run of at
/// least two keeps its first and its last point only.
pub proof fn law_straight_run_becomes_two_points(start: Point, step: (int, int), n: nat)
    requires
        n >= 2,
        step.0 != 0 || step.1 != 0,
        forall|k: int| 0 <= k < n ==> i64::MIN <= #[trigger] (start.0 + k * step.0) <= i64::MAX
            && i64::MIN <= start.1 + k * step.1 <= i64::MAX,
    ensures
        spec_simplify(run(start, step, n)) == seq![run(start, step, n)[0], run(start, step, n)[n - 1]],
    decreases n,
{
    let pts = run(start, step, n);
    assert(pts.drop_last() =~= run(start, step, (n - 1) as nat));
    if n == 2 {
        let one = run(start, step, 1);
        assert(one.drop_last() =~= Seq::<Point>::empty());
        assert(spec_simplify(one.drop_last()).len() == 0);
        assert(spec_simplify(one) =~= seq![one[0]]);
    } else {
        let m = (n - 1) as nat;
        assert forall|k: int| 0 <= k < m implies i64::MIN <= #[trigger] (start.0 + k * step.0) <= i64::MAX
            && i64::MIN <= start.1 + k * step.1 <= i64::MAX by {
            assert(0 <= k < n);
        }
        law_straight_run_becomes_two_points(start, step, m);
        let first = pts[0];
        let mid = pts[n - 2];
        let last = pts[n - 1];
        let t = n - 2;
        assert(start.0 + t * step.0 == mid.0 && start.1 + t * step.1 == mid.1) by {
            assert(i64::MIN <= start.0 + t * step.0 <= i64::MAX && i64::MIN <= start.1 + t * step.1 <= i64::MAX);
        }
        assert(start.0 + (t + 1) * step.0 == last.0 && start.1 + (t + 1) * step.1 == last.1) by {
            assert(i64::MIN <= start.0 + (t + 1) * step.0 <= i64::MAX && i64::MIN <= start.1 + (t + 1) * step.1 <= i64::MAX);
        }
        assert(first == start) by {
            assert(i64::MIN <= start.0 + 0 * step.0 <= i64::MAX);
        }
        let (dx1, dy1) = (mid.0 - first.0, mid.1 - first.1);
        let (dx2, dy2) = (last.0 - mid.0, last.1 - mid.1);
        assert(dx1 == t * step.0 && dy1 == t * step.1);
        assert(dx2 == step.0 && dy2 == step.1) by (nonlinear_arith)
            requires
                start.0 + t * step.0 == mid.0,
                start.1 + t * step.1 == mid.1,
                start.0 + (t + 1) * step.0 == last.0,
                start.1 + (t + 1) * step.1 == last.1,
                dx2 == last.0 - mid.0,
                dy2 == last.1 - mid.1,
        ;
        assert(dx1 * dy2 == dy1 * dx2 && dx1 * dx2 + dy1 * dy2 > 0) by (nonlinear_arith)
            requires
                t >= 1,
                step.0 != 0 || step.1 != 0,
                dx1 == t * step.0,
                dy1 == t * step.1,
                dx2 == step.0,
                dy2 == step.1,
        ;
        assert(same_direction(first, mid, last));
        assert(seq![first, mid].drop_last().push(last) =~= seq![first, last]);
    }
}

// ---------------------------------------------------------------------------
// Unit boundary segments
// ---------------------------------------------------------------------------

/// Whether sample `(i, j)` of a `w × h` grid is inside; false off the grid.
#[verifier::opaque]
pub open spec fn sample_at(inside: Seq<bool>, w: int, h: int, i: int, j: int) -> bool {
    if 0 <= i < w && 0 <= j < h {
        inside[j * w + i]
    } else {
        false
    }
}

/// The segment from `a` to `b` when `open` holds, else nothing.
pub open spec fn edge_if(open: bool, a: Point, b: Point) -> Seq<Segment> {
    if open {
        seq![(a, b)]
    } else {
        Seq::empty()
    }
}

/// The boundary segments an inside sample `(i, j)` contributes: the edges of
/// its cell facing an outside sample, top, bottom, left, right.
pub open spec fn cell_segments(inside: Seq<bool>, w: int, h: int, i: int, j: int) -> Seq<Segment> {
    if !sample_at(inside, w, h, i, j) {
        Seq::empty()
    } else {
        let (x, y) = (i as i64, j as i64);
        let (x1, y1) = ((i + 1) as i64, (j + 1) as i64);
        edge_if(!sample_at(inside, w, h, i, j - 1), (x, y), (x1, y)) + edge_if(
            !sample_at(inside, w, h, i, j + 1),
            (x, y1),
            (x1, y1),
        ) + edge_if(!sample_at(inside, w, h, i - 1, j), (x, y), (x, y1)) + edge_if(
            !sample_at(inside, w, h, i + 1, j),
            (x1, y),
            (x1, y1),
        )
    }
}

/// The segments of the first `n` samples of row `j`.
pub open spec fn row_segments(inside: Seq<bool>, w: int, h: int, j: int, n: int) -> Seq<Segment>
    decreases n,
{
    if n <= 0 {
        Seq::empty()
    } else {
        row_segments(inside, w, h, j, n - 1) + cell_segments(inside, w, h, n - 1, j)
    }
}

/// The segments of the first `m` rows, row by row.
pub open spec fn grid_segments(inside: Seq<bool>, w: int, h: int, m: int) -> Seq<Segment>
    decreases m,
{
    if m <= 0 {
        Seq::empty()
    } else {
        grid_segments(inside, w, h, m - 1) + row_segments(inside, w, h, m - 1, w)
    }
}

/// The number of samples of a `w × h` grid.
#[verifier::opaque]
pub open spec fn grid_cells(w: int, h: int) -> int {
    w * h
}

/// Where row `j` starts in a row-major grid `w` samples wide.
#[verifier::opaque]
pub open spec fn row_start(j: int, w: int) -> int {
    j * w
}

/// The samples around `(i, j)` in the row-major grid, where `row` is `j · w`.
proof fn lemma_neighbours(inside: Seq<bool>, w: int, h: int, i: int, j: int, row: int)
    requires
        inside.len() == grid_cells(w, h),
        0 <= i < w,
        0 <= j < h,
        row == row_start(j, w),
    ensures
        row + i < inside.len(),
        row + w <= inside.len(),
        j > 0 ==> row >= w,
        j + 1 < h ==> row + w + i < inside.len(),
        sample_at(inside, w, h, i, j) == inside[row + i],
        j > 0 ==> sample_at(inside, w, h, i, j - 1) == inside[row - w + i],
        j == 0 ==> !sample_at(inside, w, h, i, j - 1),
        j + 1 < h ==> sample_at(inside, w, h, i, j + 1) == inside[row + w + i],
        j + 1 == h ==> !sample_at(inside, w, h, i, j + 1),
        i > 0 ==> sample_at(inside, w, h, i - 1, j) == inside[row + i - 1],
        i == 0 ==> !sample_at(inside, w, h, i - 1, j),
        i + 1 < w ==> sample_at(inside, w, h, i + 1, j) == inside[row + i + 1],
        i + 1 == w ==> !sample_at(inside, w, h, i + 1, j),
{
    reveal(sample_at);
    reveal(grid_cells);
    reveal(row_start);
    assert(row + w <= w * h) by (nonlinear_arith)
        requires
            row == j * w,
            0 <= j < h,
            w >= 0,
    ;
    if j > 0 {
        assert((j - 1) * w == row - w && row >= w) by (nonlinear_arith)
            requires
                row == j * w,
                j > 0,
                w >= 0,
        ;
    }
    assert((j + 1) * w == row + w) by (nonlinear_arith)
        requires
            row == j * w,
    ;
    if j + 1 < h {
        assert(row + w + i < w * h) by (nonlinear_arith)
            requires
                row == j * w,
                0 <= j,
                j + 1 < h,
                0 <= i < w,
        ;
    }
}

/// Append `segment` when `open` holds.
fn push_if(segments: &mut Vec<Segment>, open: bool, segment: Segment)
    ensures
        final(segments)@ == old(segments)@ + edge_if(open, segment.0, segment.1),
{
    if open {
        segments.push(segment);
    }
    proof {
        assert(final(segments)@ =~= old(segments)@ + edge_if(open, segment.0, segment.1));
    }
}

/// Append the boundary segments of sample `(i, j)`; `row` is `j · w`.
#[verifier::rlimit(100)]
#[verifier::spinoff_prover]
fn push_cell_segments(segments: &mut Vec<Segment>, inside: &Vec<bool>, w: usize, h: usize, i: usize, j: usize, row: usize)
    requires
        inside@.len() == grid_cells(w as int, h as int),
        w < 0x1000_0000,
        h < 0x1000_0000,
        i < w,
        j < h,
        row == row_start(j as int, w as int),
    ensures
        final(segments)@ == old(segments)@ + cell_segments(inside@, w as int, h as int, i as int, j as int),
{
    let n = inside.len();
    let ghost before = segments@;
    proof {
        lemma_neighbours(inside@, w as int, h as int, i as int, j as int, row as int);
    }
    if inside[row + i] {
        let (x, y, x1, y1) = (i as i64, j as i64, i as i64 + 1, j as i64 + 1);
        proof {
            lemma_neighbours(inside@, w as int, h as int, i as int, j as int, row as int);
        }
        let up = j > 0 && inside[row - w + i];
        let down = j + 1 < h && inside[row + w + i];
        let left = i > 0 && inside[row + i - 1];
        let right = i + 1 < w && inside[row + i + 1];
        proof {
            assert(up == sample_at(inside@, w as int, h as int, i as int, j - 1));
            assert(down == sample_at(inside@, w as int, h as int, i as int, j + 1));
            assert(left == sample_at(inside@, w as int, h as int, i - 1, j as int));
            assert(right == sample_at(inside@, w as int, h as int, i + 1, j as int));
            assert(sample_at(inside@, w as int, h as int, i as int, j as int));
        }
        push_if(segments, !up, ((x, y), (x1, y)));
        push_if(segments, !down, ((x, y1), (x1, y1)));
        push_if(segments, !left, ((x, y), (x, y1)));
        push_if(segments, !right, ((x1, y), (x1, y1)));
        proof {
            let e0 = edge_if(!up, (x, y), (x1, y));
            let e1 = edge_if(!down, (x, y1), (x1, y1));
            let e2 = edge_if(!left, (x, y), (x, y1));
            let e3 = edge_if(!right, (x1, y), (x1, y1));
            assert(before + e0 + e1 + e2 + e3 =~= before + (e0 + e1 + e2 + e3));
        }
    } else {
        proof {
            assert(!sample_at(inside@, w as int, h as int, i as int, j as int));
            assert(segments@ =~= before + cell_segments(inside@, w as int, h as int, i as int, j as int));
        }
    }
}

/// The unit segments between an inside and an outside sample of the
/// `w × h` grid `inside` (row-major), in grid coordinates.
pub fn boundary_segments(inside: &Vec<bool>, w: usize, h: usize) -> (segments: Vec<Segment>)
    requires
        inside@.len() == w * h,
        w < 0x1000_0000,
        h < 0x1000_0000,
    ensures
        segments@ == grid_segments(inside@, w as int, h as int, h as int),
{
    let mut segments: Vec<Segment> = Vec::new();
    let mut j: usize = 0;
    let mut row: usize = 0;
    let n = inside.len();
    while j < h
        invariant
            inside@.len() == w * h,
            n == inside@.len(),
            w < 0x1000_0000,
            h < 0x1000_0000,
            j <= h,
            row == j * w,
            segments@ == grid_segments(inside@, w as int, h as int, j as int),
        decreases h - j,
    {
        proof {
            assert(row + w <= w * h) by (nonlinear_arith)
                requires
                    row == j * w,
                    j < h,
            ;
        }
        let mut i: usize = 0;
        while i < w
            invariant
                inside@.len() == w * h,
                n == inside@.len(),
                w < 0x1000_0000,
                h < 0x1000_0000,
                j < h,
                i <= w,
                row == j * w,
                row + w <= w * h,
                segments@ == grid_segments(inside@, w as int, h as int, j as int) + row_segments(
                    inside@,
                    w as int,
                    h as int,
                    j as int,
                    i as int,
                ),
            decreases w - i,
        {
            proof {
                reveal(grid_cells);
                reveal(row_start);
            }
            push_cell_segments(&mut segments, inside, w, h, i, j, row);
            i = i + 1;
        }
        proof {
            assert(row + w == (j + 1) * w) by (nonlinear_arith)
                requires
                    row == j * w,
            ;
        }
        row = row + w;
        j = j + 1;
    }
    segments
}

// ---------------------------------------------------------------------------
// Joining segments into polylines
// ---------------------------------------------------------------------------

/// A lattice point of the `w × h` sample grid's corners.
pub open spec fn in_lattice(p: Point, w: int, h: int) -> bool {
    0 <= p.0 <= w && 0 <= p.1 <= h
}

/// Every segment runs between two lattice points.
pub open spec fn segments_in_lattice(segments: Seq<Segment>, w: int, h: int) -> bool {
    forall|e: int|
        #![trigger segments[e]]
        0 <= e < segments.len() ==> in_lattice(segments[e].0, w, h) && in_lattice(
            segments[e].1,
            w,
            h,
        )
}

/// The vertex number of a lattice point.
pub open spec fn vid(p: Point, w: int) -> int {
    p.1 * (w + 1) + p.0
}

/// Segment `s` joins `p` and `q`, in either direction.
pub open spec fn joins(s: Segment, p: Point, q: Point) -> bool {
    (s.0 == p && s.1 == q) || (s.0 == q && s.1 == p)
}

/// The point after position `t` of a walk, wrapping to the start.
pub open spec fn after(walk: Seq<Point>, t: int) -> Point {
    if t + 1 == walk.len() {
        walk[0]
    } else {
        walk[t + 1]
    }
}

/// `walk` goes along segments `edges` in order: each joins a point to the
/// next, and a closed walk's last segment joins its last point to its first.
pub open spec fn follows(segments: Seq<Segment>, walk: Seq<Point>, edges: Seq<usize>, closed: bool) -> bool {
    &&& edges.len() == (if closed {
        walk.len() as int
    } else {
        walk.len() - 1
    })
    &&& forall|t: int|
        #![trigger edges[t]]
        0 <= t < edges.len() ==> edges[t] < segments.len() && joins(
            segments[edges[t] as int],
            walk[t],
            after(walk, t),
        )
}

/// The segments of all walks, in order.
pub open spec fn flatten(edges: Seq<Seq<usize>>) -> Seq<usize>
    decreases edges.len(),
{
    if edges.len() == 0 {
        Seq::empty()
    } else {
        flatten(edges.drop_last()) + edges.last()
    }
}

/// No value occurs twice.
pub open spec fn distinct(s: Seq<usize>) -> bool {
    forall|i: int, j: int| 0 <= i < j < s.len() ==> s[i] != s[j]
}

/// Each of the segments `0..n` occurs exactly once.
pub open spec fn each_once(s: Seq<usize>, n: int) -> bool {
    &&& distinct(s)
    &&& forall|i: int| 0 <= i < s.len() ==> s[i] < n
    &&& forall|e: usize| e < n ==> #[trigger] s.contains(e)
}

/// A polyline and whether it closes on its first point.
pub open spec fn chain_views(chains: Seq<(Vec<Point>, bool)>) -> Seq<(Seq<Point>, bool)> {
    chains.map_values(|c: (Vec<Point>, bool)| (c.0@, c.1))
}

/// Segment `s` has an end at `p`.
pub open spec fn touches(s: Segment, p: Point) -> bool {
    s.0 == p || s.1 == p
}

/// A walk comes back to its first point only to close: no later point is
/// its first.
pub open spec fn leaves_start(walk: Seq<Point>) -> bool {
    forall|t: int| 1 <= t < walk.len() ==> #[trigger] walk[t] != walk[0]
}

/// Walk `k` stops only where it has to: it never passes its start, and
/// unless it closed on its start it ends at a point all of whose segments
/// the walks so far (`0..=k`) have used.
pub open spec fn ends_right(
    segments: Seq<Segment>,
    chains: Seq<(Seq<Point>, bool)>,
    walks: Seq<Seq<Point>>,
    edges: Seq<Seq<usize>>,
    k: int,
) -> bool {
    &&& leaves_start(walks[k])
    &&& !chains[k].1 ==> forall|e: int|
        0 <= e < segments.len() && #[trigger] touches(segments[e], walks[k].last()) ==> flatten(
            edges.take(k + 1),
        ).contains(e as usize)
}

/// Every walk goes on as long as it can: see [`ends_right`].
pub open spec fn maximal_walks(
    segments: Seq<Segment>,
    chains: Seq<(Seq<Point>, bool)>,
    walks: Seq<Seq<Point>>,
    edges: Seq<Seq<usize>>,
) -> bool {
    forall|k: int| 0 <= k < walks.len() ==> #[trigger] ends_right(segments, chains, walks, edges, k)
}

/// Segment `e` has an end at a point with an odd number of segments.
pub open spec fn at_odd_point(segments: Seq<Segment>, e: int) -> bool {
    degree(segments, segments[e].0) % 2 == 1 || degree(segments, segments[e].1) % 2 == 1
}

/// Open chains' starts come first: a walk that starts at a point with an
/// even number of segments comes after walks that used every segment at a
/// point with an odd number of them.
pub open spec fn odd_starts_first(segments: Seq<Segment>, walks: Seq<Seq<Point>>, edges: Seq<Seq<usize>>) -> bool {
    forall|k: int, e: int|
        0 <= k < walks.len() && degree(segments, walks[k][0]) % 2 == 0 && 0 <= e < segments.len()
            && at_odd_point(segments, e) ==> #[trigger] flatten(edges.take(k)).contains(e as usize)
}

/// `chains` are the walks `walks` over `segments`, simplified: each walk
/// follows its segments, and together the walks use every segment exactly
/// once.
pub open spec fn decomposes(
    segments: Seq<Segment>,
    chains: Seq<(Seq<Point>, bool)>,
    walks: Seq<Seq<Point>>,
    edges: Seq<Seq<usize>>,
) -> bool {
    &&& chains.len() == walks.len() == edges.len()
    &&& forall|k: int|
        #![trigger chains[k]]
        0 <= k < chains.len() ==> chains[k].0 == spec_simplify(walks[k]) && follows(
            segments,
            walks[k],
            edges[k],
            chains[k].1,
        )
    &&& forall|k: int| 0 <= k < walks.len() ==> (#[trigger] walks[k]).len() >= 2
    &&& each_once(flatten(edges), segments.len() as int)
}

/// Lattice points have distinct vertex numbers below `(w + 1) · (h + 1)`.
proof fn lemma_vid(p: Point, q: Point, w: int, h: int)
    requires
        in_lattice(p, w, h),
        in_lattice(q, w, h),
    ensures
        0 <= vid(p, w) < (w + 1) * (h + 1),
        vid(p, w) == vid(q, w) ==> p == q,
{
    assert(0 <= vid(p, w) < (w + 1) * (h + 1)) by (nonlinear_arith)
        requires
            0 <= p.0 <= w,
            0 <= p.1 <= h,
    ;
    if vid(p, w) == vid(q, w) {
        assert(p.1 == q.1 && p.0 == q.0) by (nonlinear_arith)
            requires
                p.1 * (w + 1) + p.0 == q.1 * (w + 1) + q.0,
                0 <= p.0 <= w,
                0 <= q.0 <= w,
                0 <= p.1,
                0 <= q.1,
        ;
    }
}

/// The incidence lists: list `v` holds segments with an end at vertex `v`,
/// and every segment is in the lists of both its ends.
pub open spec fn incidence(inc: Seq<Vec<usize>>, segments: Seq<Segment>, w: int, nv: int, upto: int) -> bool {
    &&& inc.len() == nv
    &&& forall|v: int, t: int|
        #![trigger inc[v]@[t]]
        0 <= v < nv && 0 <= t < inc[v]@.len() ==> inc[v]@[t] < segments.len() && (vid(
            segments[inc[v]@[t] as int].0,
            w,
        ) == v || vid(segments[inc[v]@[t] as int].1, w) == v)
    &&& forall|e: int|
        #![trigger segments[e]]
        0 <= e < upto ==> inc[vid(segments[e].0, w)]@.contains(e as usize) && inc[vid(
            segments[e].1,
            w,
        )]@.contains(e as usize)
}

/// Appending to two lists keeps what every list held.
proof fn lemma_push_keeps(
    before: Seq<Vec<usize>>,
    mid: Seq<Vec<usize>>,
    after: Seq<Vec<usize>>,
    va: int,
    vb: int,
    e: usize,
    v: int,
    f: usize,
)
    requires
        0 <= va < before.len(),
        0 <= vb < before.len(),
        0 <= v < before.len(),
        mid.len() == before.len(),
        after.len() == before.len(),
        mid[va]@ == before[va]@.push(e),
        forall|u: int| 0 <= u < before.len() && u != va ==> mid[u] == before[u],
        after[vb]@ == mid[vb]@.push(e),
        forall|u: int| 0 <= u < before.len() && u != vb ==> after[u] == mid[u],
        before[v]@.contains(f),
    ensures
        after[v]@.contains(f),
{
    let t = choose|t: int| 0 <= t < before[v]@.len() && before[v]@[t] == f;
    assert(mid[v]@[t] == f);
    assert(after[v]@[t] == f);
}

/// The vertex number of a lattice point.
fn vertex(p: Point, w: usize, h: usize) -> (v: usize)
    requires
        in_lattice(p, w as int, h as int),
        w < 0x1000_0000,
        h < 0x1000_0000,
        (w + 1) * (h + 1) <= usize::MAX,
    ensures
        v == vid(p, w as int),
        v < (w + 1) * (h + 1),
{
    proof {
        lemma_vid(p, p, w as int, h as int);
    }
    (p.1 as usize) * (w + 1) + p.0 as usize
}

/// The incidence lists of `segments` over the `(w + 1) × (h + 1)` lattice.
fn incidence_lists(segments: &Vec<Segment>, w: usize, h: usize) -> (inc: Vec<Vec<usize>>)
    requires
        segments_in_lattice(segments@, w as int, h as int),
        non_degenerate(segments@),
        w < 0x1000_0000,
        h < 0x1000_0000,
        (w + 1) * (h + 1) <= usize::MAX,
    ensures
        incidence(inc@, segments@, w as int, (w + 1) * (h + 1), segments@.len() as int),
        forall|v: int| 0 <= v < (w + 1) * (h + 1) ==> distinct(#[trigger] inc@[v]@),
{
    let nv = (w + 1) * (h + 1);
    let mut inc: Vec<Vec<usize>> = Vec::new();
    while inc.len() < nv
        invariant
            inc@.len() <= nv,
            forall|v: int| 0 <= v < inc@.len() ==> (#[trigger] inc@[v])@.len() == 0,
        decreases nv - inc@.len(),
    {
        inc.push(Vec::new());
    }
    let mut e: usize = 0;
    while e < segments.len()
        invariant
            nv == (w + 1) * (h + 1),
            nv <= usize::MAX,
            w < 0x1000_0000,
            h < 0x1000_0000,
            segments_in_lattice(segments@, w as int, h as int),
            non_degenerate(segments@),
            e <= segments@.len(),
            incidence(inc@, segments@, w as int, nv as int, e as int),
            forall|v: int, t: int|
                #![trigger inc@[v]@[t]]
                0 <= v < nv && 0 <= t < inc@[v]@.len() ==> inc@[v]@[t] < e,
            forall|v: int| 0 <= v < nv ==> distinct(#[trigger] inc@[v]@),
        decreases segments@.len() - e,
    {
        let (a, b) = segments[e];
        proof {
            assert(in_lattice(segments@[e as int].0, w as int, h as int));
        }
        let va = vertex(a, w, h);
        let vb = vertex(b, w, h);
        let ghost before = inc@;
        inc[va].push(e);
        let ghost mid = inc@;
        inc[vb].push(e);
        proof {
            assert(segments@[e as int].0 != segments@[e as int].1);
            lemma_vid(a, b, w as int, h as int);
            assert(va != vb);
            assert forall|v: int, t: int|
                #![trigger inc@[v]@[t]]
                0 <= v < nv && 0 <= t < inc@[v]@.len() implies inc@[v]@[t] < e + 1 by {
                if v == vb && t == inc@[v]@.len() - 1 {
                } else if v == va && t == mid[v]@.len() - 1 {
                    assert(inc@[v]@[t] == mid[v]@[t]);
                } else {
                    assert(inc@[v]@[t] == before[v]@[t]);
                }
            }
            assert forall|v: int| 0 <= v < nv implies distinct(#[trigger] inc@[v]@) by {
                assert(distinct(before[v]@));
                if v == va || v == vb {
                    assert forall|i: int, j: int| 0 <= i < j < inc@[v]@.len() implies inc@[v]@[i]
                        != inc@[v]@[j] by {
                        if j == inc@[v]@.len() - 1 {
                            assert(inc@[v]@[i] == before[v]@[i]);
                        } else {
                            assert(inc@[v]@[i] == before[v]@[i] && inc@[v]@[j] == before[v]@[j]);
                        }
                    }
                } else {
                    assert(inc@[v] == before[v]);
                }
            }
            assert forall|v: int, t: int|
                #![trigger inc@[v]@[t]]
                0 <= v < nv && 0 <= t < inc@[v]@.len() implies inc@[v]@[t] < segments@.len() && (vid(
                segments@[inc@[v]@[t] as int].0,
                w as int,
            ) == v || vid(segments@[inc@[v]@[t] as int].1, w as int) == v) by {
                if v == vb && t == inc@[v]@.len() - 1 {
                } else if v == va && t == mid[v]@.len() - 1 {
                    assert(inc@[v]@[t] == mid[v]@[t]);
                } else {
                    assert(inc@[v]@[t] == before[v]@[t]);
                }
            }
            assert forall|f: int|
                #![trigger segments@[f]]
                0 <= f < e + 1 implies inc@[vid(segments@[f].0, w as int)]@.contains(f as usize)
                && inc@[vid(segments@[f].1, w as int)]@.contains(f as usize) by {
                assert(in_lattice(segments@[f].0, w as int, h as int));
                assert(in_lattice(segments@[f].1, w as int, h as int));
                lemma_vid(segments@[f].0, segments@[f].0, w as int, h as int);
                lemma_vid(segments@[f].1, segments@[f].1, w as int, h as int);
                if f < e {
                    let v0 = vid(segments@[f].0, w as int);
                    let v1 = vid(segments@[f].1, w as int);
                    lemma_push_keeps(before, mid, inc@, va as int, vb as int, e, v0, f as usize);
                    lemma_push_keeps(before, mid, inc@, va as int, vb as int, e, v1, f as usize);
                } else {
                    assert(inc@[vb as int]@[inc@[vb as int]@.len() - 1] == e);
                    let ta = mid[va as int]@.len() - 1;
                    assert(mid[va as int]@[ta] == e);
                    assert(inc@[va as int]@[ta] == e);
                }
            }
        }
        e = e + 1;
    }
    inc
}

/// No segment starts and ends at the same point.
pub open spec fn non_degenerate(segments: Seq<Segment>) -> bool {
    forall|e: int| #![trigger segments[e]] 0 <= e < segments.len() ==> segments[e].0 != segments[e].1
}

/// The flags mark exactly the segments already walked, each once.
pub open spec fn marks(used: Seq<bool>, walked: Seq<usize>, n: int) -> bool {
    &&& used.len() == n
    &&& distinct(walked)
    &&& forall|i: int| 0 <= i < walked.len() ==> walked[i] < n
    &&& forall|e: int| 0 <= e < n ==> (used[e] <==> walked.contains(e as usize))
}

/// How many flags are still down.
pub open spec fn unused_count(used: Seq<bool>) -> nat
    decreases used.len(),
{
    if used.len() == 0 {
        0
    } else {
        unused_count(used.drop_last()) + if used.last() {
            0nat
        } else {
            1nat
        }
    }
}

/// Raising a flag that was down lowers the count by one.
proof fn lemma_unused_count(used: Seq<bool>, e: int)
    requires
        0 <= e < used.len(),
        !used[e],
    ensures
        unused_count(used.update(e, true)) + 1 == unused_count(used),
    decreases used.len(),
{
    let u = used.update(e, true);
    if e == used.len() - 1 {
        assert(u.drop_last() =~= used.drop_last());
    } else {
        lemma_unused_count(used.drop_last(), e);
        assert(u.drop_last() =~= used.drop_last().update(e, true));
    }
}

/// A segment of `list` not walked yet, if any.
fn first_unused(list: &Vec<usize>, used: &Vec<bool>) -> (found: Option<usize>)
    requires
        forall|t: int| 0 <= t < list@.len() ==> list@[t] < used@.len(),
    ensures
        found matches Some(e) ==> list@.contains(e) && !used@[e as int],
        found is None ==> forall|t: int| 0 <= t < list@.len() ==> used@[list@[t] as int],
{
    let mut t: usize = 0;
    while t < list.len()
        invariant
            t <= list@.len(),
            forall|u: int| 0 <= u < list@.len() ==> list@[u] < used@.len(),
            forall|u: int| 0 <= u < t ==> used@[list@[u] as int],
        decreases list@.len() - t,
    {
        let e = list[t];
        if !used[e] {
            return Some(e);
        }
        t = t + 1;
    }
    None
}

/// Walk from `start` along segments not walked yet, marking them, until
/// the walk is back at `start` (closed) or stuck (open).
fn walk(
    segments: &Vec<Segment>,
    inc: &Vec<Vec<usize>>,
    used: &mut Vec<bool>,
    start: usize,
    start_pt: Point,
    w: usize,
    h: usize,
    Ghost(walked): Ghost<Seq<usize>>,
) -> (res: (Vec<Point>, bool, Ghost<Seq<usize>>))
    requires
        segments_in_lattice(segments@, w as int, h as int),
        non_degenerate(segments@),
        w < 0x1000_0000,
        h < 0x1000_0000,
        (w + 1) * (h + 1) <= usize::MAX,
        incidence(inc@, segments@, w as int, (w + 1) * (h + 1), segments@.len() as int),
        marks(old(used)@, walked, segments@.len() as int),
        in_lattice(start_pt, w as int, h as int),
        start == vid(start_pt, w as int),
        exists|t: int|
            0 <= t < inc@[start as int]@.len() && !old(used)@[inc@[start as int]@[t] as int],
    ensures
        res.0@.len() >= 2,
        res.0@[0] == start_pt,
        forall|t: int| 1 <= t < res.0@.len() ==> res.0@[t] != start_pt,
        forall|t: int|
            #![trigger res.0@[t]]
            0 <= t < res.0@.len() ==> in_lattice(res.0@[t], w as int, h as int),
        follows(segments@, res.0@, res.2@, res.1),
        res.2@.len() >= 1,
        marks(final(used)@, walked + res.2@, segments@.len() as int),
        unused_count(final(used)@) < unused_count(old(used)@),
        forall|e: int| 0 <= e < old(used)@.len() && old(used)@[e] ==> final(used)@[e],
        !res.1 ==> forall|t: int|
            0 <= t < inc@[vid(res.0@.last(), w as int)]@.len() ==> final(used)@[inc@[vid(
                res.0@.last(),
                w as int,
            )]@[t] as int],
{
    let n = segments.len();
    let ghost nv = (w + 1) * (h + 1);
    let mut points: Vec<Point> = Vec::new();
    points.push(start_pt);
    let mut cur = start;
    let mut cur_pt = start_pt;
    let ghost mut edges: Seq<usize> = Seq::empty();
    let mut closed = false;
    proof {
        lemma_vid(start_pt, start_pt, w as int, h as int);
        assert(walked + edges =~= walked);
    }
    loop
        invariant_except_break
            n == segments@.len(),
            segments_in_lattice(segments@, w as int, h as int),
            non_degenerate(segments@),
            w < 0x1000_0000,
            h < 0x1000_0000,
            (w + 1) * (h + 1) <= usize::MAX,
            nv == (w + 1) * (h + 1),
            incidence(inc@, segments@, w as int, nv, n as int),
            in_lattice(start_pt, w as int, h as int),
            start == vid(start_pt, w as int),
            points@.len() >= 1,
            points@[0] == start_pt,
            points@.last() == cur_pt,
            forall|t: int| 1 <= t < points@.len() ==> points@[t] != start_pt,
            forall|t: int|
                #![trigger points@[t]]
                0 <= t < points@.len() ==> in_lattice(points@[t], w as int, h as int),
            cur == vid(cur_pt, w as int),
            cur < nv,
            edges.len() == points@.len() - 1,
            forall|t: int|
                #![trigger edges[t]]
                0 <= t < edges.len() ==> edges[t] < n && joins(
                    segments@[edges[t] as int],
                    points@[t],
                    points@[t + 1],
                ),
            marks(used@, walked + edges, n as int),
            unused_count(used@) + edges.len() == unused_count(old(used)@),
            used@.len() == old(used)@.len(),
            forall|f: int| 0 <= f < old(used)@.len() && old(used)@[f] ==> used@[f],
            points@.len() == 1 ==> exists|t: int|
                0 <= t < inc@[start as int]@.len() && !used@[inc@[start as int]@[t] as int],
        ensures
            points@.len() >= 2,
            points@[0] == start_pt,
            forall|t: int| 1 <= t < points@.len() ==> points@[t] != start_pt,
            forall|t: int|
                #![trigger points@[t]]
                0 <= t < points@.len() ==> in_lattice(points@[t], w as int, h as int),
            follows(segments@, points@, edges, closed),
            edges.len() >= 1,
            marks(used@, walked + edges, n as int),
            unused_count(used@) + edges.len() == unused_count(old(used)@),
            forall|f: int| 0 <= f < old(used)@.len() && old(used)@[f] ==> used@[f],
            !closed ==> forall|t: int|
                0 <= t < inc@[vid(points@.last(), w as int)]@.len() ==> used@[inc@[vid(
                    points@.last(),
                    w as int,
                )]@[t] as int],
        decreases unused_count(used@),
    {
        proof {
            assert forall|t: int| 0 <= t < inc@[cur as int]@.len() implies inc@[cur as int]@[t]
                < used@.len() by {
                assert(inc@[cur as int]@[t] < n);
            }
        }
        match first_unused(&inc[cur], used) {
            None => {
                proof {
                    if points@.len() == 1 {
                        let t = choose|t: int|
                            0 <= t < inc@[start as int]@.len() && !used@[inc@[start as int]@[t] as int];
                        assert(used@[inc@[cur as int]@[t] as int]);
                    }
                    assert forall|t: int| 0 <= t < edges.len() implies edges[t] < segments@.len() && joins(
                        segments@[edges[t] as int],
                        points@[t],
                        after(points@, t),
                    ) by {
                        assert(after(points@, t) == points@[t + 1]);
                    }
                }
                closed = false;
                break;
            },
            Some(e) => {
                let ghost before_walked = walked + edges;
                proof {
                    assert(!before_walked.contains(e));
                    let tt = choose|tt: int| 0 <= tt < inc@[cur as int]@.len() && inc@[cur as int]@[tt] == e;
                    assert(inc@[cur as int]@[tt] == e);
                }
                proof {
                    lemma_unused_count(used@, e as int);
                }
                used.set(e, true);
                proof {
                    edges = edges.push(e);
                    assert(walked + edges =~= before_walked.push(e));
                    assert forall|i: int, j: int| 0 <= i < j < (walked + edges).len() implies (walked
                        + edges)[i] != (walked + edges)[j] by {
                        if j == before_walked.len() {
                            assert(before_walked.contains(before_walked[i]));
                        } else {
                            assert((walked + edges)[i] == before_walked[i]);
                            assert((walked + edges)[j] == before_walked[j]);
                        }
                    }
                    assert forall|f: int| 0 <= f < n implies (used@[f] <==> (walked
                        + edges).contains(f as usize)) by {
                        if f == e {
                            assert((walked + edges)[before_walked.len() as int] == e);
                        } else {
                            if before_walked.contains(f as usize) {
                                let k = choose|k: int| 0 <= k < before_walked.len() && before_walked[k] == f as usize;
                                assert((walked + edges)[k] == f as usize);
                            }
                            if (walked + edges).contains(f as usize) {
                                let k = choose|k: int| 0 <= k < (walked + edges).len() && (walked + edges)[k] == f as usize;
                                assert(k < before_walked.len());
                                assert(before_walked[k] == f as usize);
                            }
                        }
                    }
                }
                let (a, b) = segments[e];
                proof {
                    assert(in_lattice(segments@[e as int].0, w as int, h as int));
                    assert(segments@[e as int].0 != segments@[e as int].1);
                    lemma_vid(a, cur_pt, w as int, h as int);
                    lemma_vid(b, cur_pt, w as int, h as int);
                }
                let va = vertex(a, w, h);
                let next_pt = if va == cur { b } else { a };
                let next = vertex(next_pt, w, h);
                proof {
                    lemma_vid(next_pt, start_pt, w as int, h as int);
                    assert(joins(segments@[e as int], cur_pt, next_pt));
                }
                if next == start {
                    proof {
                        assert(next_pt == start_pt);
                        assert(points@.len() >= 2);
                        assert forall|t: int| 0 <= t < edges.len() implies edges[t] < segments@.len() && joins(
                            segments@[edges[t] as int],
                            points@[t],
                            after(points@, t),
                        ) by {
                            if t + 1 < points@.len() {
                                assert(after(points@, t) == points@[t + 1]);
                            } else {
                                assert(edges[t] == e);
                                assert(points@[t] == cur_pt);
                            }
                        }
                    }
                    closed = true;
                    break;
                }
                let ghost before_points = points@;
                points.push(next_pt);
                proof {
                    assert(next_pt != start_pt);
                    assert forall|t: int|
                        #![trigger edges[t]]
                        0 <= t < edges.len() implies edges[t] < n && joins(
                        segments@[edges[t] as int],
                        points@[t],
                        points@[t + 1],
                    ) by {
                        if t + 1 < edges.len() {
                            assert(points@[t] == before_points[t]);
                            assert(points@[t + 1] == before_points[t + 1]);
                        } else {
                            assert(points@[t] == cur_pt);
                        }
                    }
                    assert forall|t: int| 1 <= t < points@.len() implies points@[t] != start_pt by {
                        if t < before_points.len() {
                            assert(points@[t] == before_points[t]);
                        }
                    }
                    assert forall|t: int|
                        #![trigger points@[t]]
                        0 <= t < points@.len() implies in_lattice(points@[t], w as int, h as int) by {
                        if t < before_points.len() {
                            assert(points@[t] == before_points[t]);
                        }
                    }
                }
                cur = next;
                cur_pt = next_pt;
            },
        }
    }
    (points, closed, Ghost(edges))
}

/// What the walks so far have built: each chain is its walk simplified,
/// each walk follows its segments, and the flags mark the walked segments.
pub open spec fn walked_so_far(
    segments: Seq<Segment>,
    chains: Seq<(Seq<Point>, bool)>,
    walks: Seq<Seq<Point>>,
    edges: Seq<Seq<usize>>,
    used: Seq<bool>,
) -> bool {
    &&& chains.len() == walks.len() == edges.len()
    &&& forall|k: int|
        #![trigger chains[k]]
        0 <= k < chains.len() ==> chains[k].0 == spec_simplify(walks[k]) && follows(
            segments,
            walks[k],
            edges[k],
            chains[k].1,
        )
    &&& forall|k: int| 0 <= k < walks.len() ==> (#[trigger] walks[k]).len() >= 2
    &&& maximal_walks(segments, chains, walks, edges)
    &&& marks(used, flatten(edges), segments.len() as int)
}

/// One more walk, and its simplified chain, keep what the walks have built.
proof fn lemma_extend(
    segments: Seq<Segment>,
    chains: Seq<(Seq<Point>, bool)>,
    next_chains: Seq<(Seq<Point>, bool)>,
    walks: Seq<Seq<Point>>,
    wedges: Seq<Seq<usize>>,
    used: Seq<bool>,
    points: Seq<Point>,
    es: Seq<usize>,
    simplified: Seq<Point>,
    closed: bool,
)
    requires
        chains.len() == walks.len() == wedges.len(),
        forall|k: int|
            #![trigger chains[k]]
            0 <= k < chains.len() ==> chains[k].0 == spec_simplify(walks[k]) && follows(
                segments,
                walks[k],
                wedges[k],
                chains[k].1,
            ),
        forall|k: int| 0 <= k < walks.len() ==> (#[trigger] walks[k]).len() >= 2,
        next_chains == chains.push((simplified, closed)),
        points.len() >= 2,
        simplified == spec_simplify(points),
        follows(segments, points, es, closed),
        marks(used, flatten(wedges) + es, segments.len() as int),
        maximal_walks(segments, chains, walks, wedges),
        leaves_start(points),
        !closed ==> forall|e: int|
            0 <= e < segments.len() && #[trigger] touches(segments[e], points.last()) ==> (flatten(
                wedges,
            ) + es).contains(e as usize),
    ensures
        walked_so_far(segments, next_chains, walks.push(points), wedges.push(es), used),
{
    let w2 = walks.push(points);
    let e2 = wedges.push(es);
    assert(e2.drop_last() =~= wedges);
    assert(flatten(e2) == flatten(wedges) + es);
    assert forall|k: int|
        #![trigger next_chains[k]]
        0 <= k < next_chains.len() implies next_chains[k].0 == spec_simplify(w2[k])
            && follows(segments, w2[k], e2[k], next_chains[k].1) by {
        if k < chains.len() {
            assert(next_chains[k] == chains[k]);
            assert(w2[k] == walks[k]);
            assert(e2[k] == wedges[k]);
        } else {
            assert(w2[k] == points);
            assert(e2[k] == es);
        }
    }
    assert forall|k: int| 0 <= k < w2.len() implies (#[trigger] w2[k]).len() >= 2 by {
        if k < walks.len() {
            assert(w2[k] == walks[k]);
        }
    }
    assert forall|k: int| 0 <= k < w2.len() implies #[trigger] ends_right(
        segments,
        next_chains,
        w2,
        e2,
        k,
    ) by {
        if k < walks.len() {
            assert(ends_right(segments, chains, walks, wedges, k));
            assert(next_chains[k] == chains[k]);
            assert(w2[k] == walks[k]);
            assert(e2.take(k + 1) =~= wedges.take(k + 1));
        } else {
            assert(w2[k] == points);
            assert(next_chains[k] == (simplified, closed));
            assert(e2.take(k + 1) =~= e2);
        }
    }
}

/// Walk from vertex `v` until no segment there is left.
fn walk_all_from(
    segments: &Vec<Segment>,
    inc: &Vec<Vec<usize>>,
    used: &mut Vec<bool>,
    chains: &mut Vec<(Vec<Point>, bool)>,
    v: usize,
    w: usize,
    h: usize,
    Ghost(walks): Ghost<Seq<Seq<Point>>>,
    Ghost(wedges): Ghost<Seq<Seq<usize>>>,
) -> (res: (Ghost<Seq<Seq<Point>>>, Ghost<Seq<Seq<usize>>>))
    requires
        segments_in_lattice(segments@, w as int, h as int),
        non_degenerate(segments@),
        w < 0x1000_0000,
        h < 0x1000_0000,
        (w + 1) * (h + 1) <= usize::MAX,
        v < (w + 1) * (h + 1),
        incidence(inc@, segments@, w as int, (w + 1) * (h + 1), segments@.len() as int),
        walked_so_far(segments@, chain_views(old(chains)@), walks, wedges, old(used)@),
    ensures
        walked_so_far(segments@, chain_views(final(chains)@), res.0@, res.1@, final(used)@),
        forall|t: int| 0 <= t < inc@[v as int]@.len() ==> final(used)@[inc@[v as int]@[t] as int],
        forall|e: int| 0 <= e < old(used)@.len() && old(used)@[e] ==> final(used)@[e],
        res.0@.len() >= walks.len(),
        res.0@.take(walks.len() as int) == walks,
        res.1@.take(wedges.len() as int) == wedges,
        forall|k: int|
            walks.len() <= k < res.0@.len() ==> vid((#[trigger] res.0@[k])[0], w as int) == v
                && in_lattice(res.0@[k][0], w as int, h as int),
        forall|k: int, e: int|
            walks.len() <= k < res.0@.len() && 0 <= e < old(used)@.len() && old(used)@[e]
                ==> #[trigger] flatten(res.1@.take(k)).contains(e as usize),
{
    let ghost walks0 = walks;
    let ghost wedges0 = wedges;
    let ghost mut walks = walks;
    let ghost mut wedges = wedges;
    let ghost n = segments@.len();
    loop
        invariant
            segments_in_lattice(segments@, w as int, h as int),
            non_degenerate(segments@),
            w < 0x1000_0000,
            h < 0x1000_0000,
            (w + 1) * (h + 1) <= usize::MAX,
            v < (w + 1) * (h + 1),
            incidence(inc@, segments@, w as int, (w + 1) * (h + 1), segments@.len() as int),
            walked_so_far(segments@, chain_views(chains@), walks, wedges, used@),
            used@.len() == old(used)@.len(),
            forall|e: int| 0 <= e < old(used)@.len() && old(used)@[e] ==> used@[e],
            walks.len() >= walks0.len(),
            walks0.len() == wedges0.len(),
            walks.take(walks0.len() as int) == walks0,
            wedges.take(wedges0.len() as int) == wedges0,
            forall|k: int|
                walks0.len() <= k < walks.len() ==> vid((#[trigger] walks[k])[0], w as int) == v
                    && in_lattice(walks[k][0], w as int, h as int),
            forall|k: int, e: int|
                walks0.len() <= k < walks.len() && 0 <= e < old(used)@.len() && old(used)@[e]
                    ==> #[trigger] flatten(wedges.take(k)).contains(e as usize),
        ensures
            walked_so_far(segments@, chain_views(chains@), walks, wedges, used@),
            forall|t: int| 0 <= t < inc@[v as int]@.len() ==> used@[inc@[v as int]@[t] as int],
            forall|e: int| 0 <= e < old(used)@.len() && old(used)@[e] ==> used@[e],
            walks.len() >= walks0.len(),
            walks.take(walks0.len() as int) == walks0,
            wedges.take(wedges0.len() as int) == wedges0,
            forall|k: int|
                walks0.len() <= k < walks.len() ==> vid((#[trigger] walks[k])[0], w as int) == v
                    && in_lattice(walks[k][0], w as int, h as int),
            forall|k: int, e: int|
                walks0.len() <= k < walks.len() && 0 <= e < old(used)@.len() && old(used)@[e]
                    ==> #[trigger] flatten(wedges.take(k)).contains(e as usize),
        decreases unused_count(used@),
    {
        proof {
            assert forall|t: int| 0 <= t < inc@[v as int]@.len() implies inc@[v as int]@[t]
                < used@.len() by {
                assert(inc@[v as int]@[t] < segments@.len());
            }
        }
        let e = match first_unused(&inc[v], used) {
            None => break,
            Some(e) => e,
        };
        let (a, b) = segments[e];
        proof {
            let tt = choose|tt: int| 0 <= tt < inc@[v as int]@.len() && inc@[v as int]@[tt] == e;
            assert(inc@[v as int]@[tt] == e);
            assert(in_lattice(segments@[e as int].0, w as int, h as int));
            assert(!used@[inc@[v as int]@[tt] as int]);
        }
        let va = vertex(a, w, h);
        let start_pt = if va == v { a } else { b };
        let ghost before_chains = chain_views(chains@);
        let ghost before_used = used@;
        let (points, closed, Ghost(es)) = walk(segments, inc, used, v, start_pt, w, h, Ghost(flatten(wedges)));
        proof {
            law_simplify_keeps_ends(points@);
        }
        let simplified = simplify(points);
        if simplified.len() >= 2 {
            chains.push((simplified, closed));
        } else {
            proof {
                assert(spec_simplify(points@)[0] == points@[0]);
                assert(points@.last() == points@[points@.len() - 1]);
                assert(false);
            }
        }
        proof {
            assert(chain_views(chains@) =~= before_chains.push((simplified@, closed)));
            assert(leaves_start(points@));
            if !closed {
                let p = points@.last();
                assert(in_lattice(points@[points@.len() - 1], w as int, h as int));
                let u = vid(p, w as int);
                assert forall|e: int|
                    0 <= e < segments@.len() && #[trigger] touches(segments@[e], p) implies (flatten(
                        wedges,
                    ) + es).contains(e as usize) by {
                    assert(inc@[vid(segments@[e].0, w as int)]@.contains(e as usize));
                    assert(inc@[vid(segments@[e].1, w as int)]@.contains(e as usize));
                    assert(inc@[u]@.contains(e as usize));
                    let t = choose|t: int| 0 <= t < inc@[u]@.len() && inc@[u]@[t] == e as usize;
                    assert(used@[inc@[u]@[t] as int]);
                }
            }
            lemma_extend(segments@, before_chains, chain_views(chains@), walks, wedges, used@, points@, es, simplified@, closed);
            let ghost old_walks = walks;
            let ghost old_wedges = wedges;
            walks = walks.push(points@);
            wedges = wedges.push(es);
            assert(walks.take(walks0.len() as int) =~= old_walks.take(walks0.len() as int));
            assert(wedges.take(wedges0.len() as int) =~= old_wedges.take(wedges0.len() as int));
            assert forall|k: int|
                walks0.len() <= k < walks.len() implies vid((#[trigger] walks[k])[0], w as int) == v
                && in_lattice(walks[k][0], w as int, h as int) by {
                if k < old_walks.len() {
                    assert(walks[k] == old_walks[k]);
                } else {
                    assert(walks[k] == points@);
                }
            }
            assert forall|k: int, e: int|
                walks0.len() <= k < walks.len() && 0 <= e < old(used)@.len() && old(used)@[e]
                    implies #[trigger] flatten(wedges.take(k)).contains(e as usize) by {
                if k < old_walks.len() {
                    assert(wedges.take(k) =~= old_wedges.take(k));
                    assert(flatten(old_wedges.take(k)).contains(e as usize));
                } else {
                    assert(wedges.take(k) =~= old_wedges);
                    assert(before_used[e]);
                }
            }
        }
    }
    (Ghost(walks), Ghost(wedges))
}

/// Walks added after the first ones keep the first walks' order: the
/// promise that walks from even points wait for the odd points' segments
/// carries over when the new walks keep it.
proof fn lemma_odd_first_extend(
    segments: Seq<Segment>,
    walks: Seq<Seq<Point>>,
    wedges: Seq<Seq<usize>>,
    walks2: Seq<Seq<Point>>,
    wedges2: Seq<Seq<usize>>,
)
    requires
        odd_starts_first(segments, walks, wedges),
        walks.len() == wedges.len(),
        walks2.len() >= walks.len(),
        wedges2.len() == walks2.len(),
        walks2.take(walks.len() as int) == walks,
        wedges2.take(wedges.len() as int) == wedges,
        forall|k: int, e: int|
            walks.len() <= k < walks2.len() && degree(segments, walks2[k][0]) % 2 == 0 && 0 <= e
                < segments.len() && at_odd_point(segments, e) ==> #[trigger] flatten(
                wedges2.take(k),
            ).contains(e as usize),
    ensures
        odd_starts_first(segments, walks2, wedges2),
{
    assert forall|k: int, e: int|
        0 <= k < walks2.len() && degree(segments, walks2[k][0]) % 2 == 0 && 0 <= e < segments.len()
            && at_odd_point(segments, e) implies #[trigger] flatten(wedges2.take(k)).contains(
        e as usize,
    ) by {
        if k < walks.len() {
            assert(walks2[k] == walks2.take(walks.len() as int)[k]);
            assert forall|i: int| 0 <= i < k implies wedges2.take(k)[i] == wedges.take(k)[i] by {
                assert(wedges2.take(wedges.len() as int)[i] == wedges2[i]);
            }
            assert(wedges2.take(k) =~= wedges.take(k));
            assert(flatten(wedges.take(k)).contains(e as usize));
        }
    }
}

/// Join unit segments into polylines. Each lattice point keeps the list of
/// its segments; a walk consumes segments until it returns to its start (a
/// closed loop) or runs out (an open chain, at a clipped edge). Open chains'
/// starts (points with an odd number of segments) are tried first, so a
/// shape clipped by the viewport does not hide the closed loops. Each chain
/// is simplified: consecutive collinear steps are collapsed.
///
/// The chains are the simplified walks, which use every segment once
/// ([`decomposes`]); each walk goes on until it is back at its start or no
/// segment is left at its end ([`maximal_walks`]); and walks from points
/// with an even number of segments wait until the odd points' segments are
/// used ([`odd_starts_first`]).
///
/// The segments lie on the `(w + 1) × (h + 1)` lattice of a `w × h` sample
/// grid's corners, as the outline's do, and each point is found by its
/// vertex number there. `w` and `h` stay below `2^28` so that the vertex
/// numbers and the coordinates' arithmetic are exact; a sample grid is at
/// most the visible part of a document, whose sides stay far below that
/// (tens of thousands of pixels).
pub fn join(segments: &Vec<Segment>, w: usize, h: usize) -> (chains: Vec<(Vec<Point>, bool)>)
    requires
        segments_in_lattice(segments@, w as int, h as int),
        non_degenerate(segments@),
        w < 0x1000_0000,
        h < 0x1000_0000,
        (w + 1) * (h + 1) <= usize::MAX,
    ensures
        exists|walks: Seq<Seq<Point>>, edges: Seq<Seq<usize>>|
            decomposes(segments@, chain_views(chains@), walks, edges) && maximal_walks(
                segments@,
                chain_views(chains@),
                walks,
                edges,
            ) && odd_starts_first(segments@, walks, edges),
{
    let inc = incidence_lists(segments, w, h);
    let nv = (w + 1) * (h + 1);
    let mut used: Vec<bool> = Vec::new();
    while used.len() < segments.len()
        invariant
            used@.len() <= segments@.len(),
            forall|e: int| 0 <= e < used@.len() ==> !used@[e],
        decreases segments@.len() - used@.len(),
    {
        used.push(false);
    }
    let mut chains: Vec<(Vec<Point>, bool)> = Vec::new();
    let ghost mut walks: Seq<Seq<Point>> = Seq::empty();
    let ghost mut wedges: Seq<Seq<usize>> = Seq::empty();
    proof {
        assert(chain_views(chains@) =~= Seq::<(Seq<Point>, bool)>::empty());
        assert(flatten(wedges) =~= Seq::<usize>::empty());
        assert(segments@.len() <= usize::MAX);
    }
    // Open chains' starts first.
    let mut v: usize = 0;
    while v < nv
        invariant
            segments_in_lattice(segments@, w as int, h as int),
            non_degenerate(segments@),
            w < 0x1000_0000,
            h < 0x1000_0000,
            nv == (w + 1) * (h + 1),
            nv <= usize::MAX,
            v <= nv,
            incidence(inc@, segments@, w as int, nv as int, segments@.len() as int),
            forall|u: int| 0 <= u < nv ==> distinct(#[trigger] inc@[u]@),
            segments@.len() <= usize::MAX,
            walked_so_far(segments@, chain_views(chains@), walks, wedges, used@),
            odd_starts_first(segments@, walks, wedges),
            forall|u: int, t: int|
                0 <= u < v && inc@[u]@.len() % 2 == 1 && 0 <= t < inc@[u]@.len() ==> used@[#[trigger] inc@[u]@[t] as int],
        decreases nv - v,
    {
        if inc[v].len() % 2 == 1 {
            let ghost before = used@;
            let (Ghost(ws), Ghost(es)) = walk_all_from(segments, &inc, &mut used, &mut chains, v, w, h, Ghost(walks), Ghost(wedges));
            proof {
                assert forall|k: int, e: int|
                    walks.len() <= k < ws.len() && degree(segments@, ws[k][0]) % 2 == 0 && 0 <= e
                        < segments@.len() && at_odd_point(segments@, e) implies #[trigger] flatten(
                    es.take(k),
                ).contains(e as usize) by {
                    let p = ws[k][0];
                    assert(vid(ws[k][0], w as int) == v && in_lattice(ws[k][0], w as int, h as int));
                    lemma_list_degree(inc@, segments@, w as int, h as int, p);
                }
                lemma_odd_first_extend(segments@, walks, wedges, ws, es);
                assert forall|u: int, t: int|
                    0 <= u < v + 1 && inc@[u]@.len() % 2 == 1 && 0 <= t < inc@[u]@.len() implies used@[#[trigger] inc@[u]@[t] as int] by {
                    if u < v {
                        assert(before[inc@[u]@[t] as int]);
                        assert(inc@[u]@[t] < segments@.len());
                    }
                }
                walks = ws;
                wedges = es;
            }
        }
        v = v + 1;
    }
    proof {
        assert forall|e: int| 0 <= e < segments@.len() && at_odd_point(segments@, e) implies used@[e] by {
            let s = segments@[e];
            let p = if degree(segments@, s.0) % 2 == 1 { s.0 } else { s.1 };
            assert(in_lattice(s.0, w as int, h as int) && in_lattice(s.1, w as int, h as int));
            lemma_vid(p, p, w as int, h as int);
            let u = vid(p, w as int);
            lemma_list_degree(inc@, segments@, w as int, h as int, p);
            assert(inc@[vid(s.0, w as int)]@.contains(e as usize));
            assert(inc@[vid(s.1, w as int)]@.contains(e as usize));
            let t = choose|t: int| 0 <= t < inc@[u]@.len() && inc@[u]@[t] == e as usize;
            assert(used@[inc@[u]@[t] as int]);
        }
    }
    // Then every point, which leaves no segment behind.
    v = 0;
    while v < nv
        invariant
            segments_in_lattice(segments@, w as int, h as int),
            non_degenerate(segments@),
            w < 0x1000_0000,
            h < 0x1000_0000,
            nv == (w + 1) * (h + 1),
            nv <= usize::MAX,
            v <= nv,
            incidence(inc@, segments@, w as int, nv as int, segments@.len() as int),
            walked_so_far(segments@, chain_views(chains@), walks, wedges, used@),
            forall|u: int, t: int|
                0 <= u < v && 0 <= t < inc@[u]@.len() ==> used@[#[trigger] inc@[u]@[t] as int],
            odd_starts_first(segments@, walks, wedges),
            forall|e: int| 0 <= e < segments@.len() && at_odd_point(segments@, e) ==> used@[e],
        decreases nv - v,
    {
        let ghost before = used@;
        let (Ghost(ws), Ghost(es)) = walk_all_from(segments, &inc, &mut used, &mut chains, v, w, h, Ghost(walks), Ghost(wedges));
        proof {
            assert forall|k: int, e: int|
                walks.len() <= k < ws.len() && degree(segments@, ws[k][0]) % 2 == 0 && 0 <= e
                    < segments@.len() && at_odd_point(segments@, e) implies #[trigger] flatten(
                es.take(k),
            ).contains(e as usize) by {
                assert(before[e]);
            }
            lemma_odd_first_extend(segments@, walks, wedges, ws, es);
            walks = ws;
            wedges = es;
            assert forall|u: int, t: int|
                0 <= u < v + 1 && 0 <= t < inc@[u]@.len() implies used@[#[trigger] inc@[u]@[t] as int] by {
                if u < v {
                    assert(before[inc@[u]@[t] as int]);
                    assert(inc@[u]@[t] < segments@.len());
                }
            }
        }
        v = v + 1;
    }
    proof {
        let all = flatten(wedges);
        assert forall|e: usize| e < segments@.len() implies #[trigger] all.contains(e) by {
            let a = segments@[e as int].0;
            assert(in_lattice(a, w as int, h as int));
            lemma_vid(a, a, w as int, h as int);
            let u = vid(a, w as int);
            assert(inc@[u]@.contains(e));
            let t = choose|t: int| 0 <= t < inc@[u]@.len() && inc@[u]@[t] == e;
            assert(used@[inc@[u]@[t] as int]);
        }
        assert(decomposes(segments@, chain_views(chains@), walks, wedges));
        assert(maximal_walks(segments@, chain_views(chains@), walks, wedges));
        assert(odd_starts_first(segments@, walks, wedges));
    }
    chains
}

// ---------------------------------------------------------------------------
// Counting the segments at a point
// ---------------------------------------------------------------------------

/// How many of the segments numbered in `es` have an end at `p`.
pub open spec fn ends_at(segments: Seq<Segment>, es: Seq<usize>, p: Point) -> nat
    decreases es.len(),
{
    if es.len() == 0 {
        0
    } else {
        ends_at(segments, es.drop_last(), p) + if touches(segments[es.last() as int], p) {
            1nat
        } else {
            0nat
        }
    }
}

/// The number of segments with an end at `p`.
pub open spec fn degree(segments: Seq<Segment>, p: Point) -> nat {
    ends_at(segments, Seq::new(segments.len(), |e: int| e as usize), p)
}

/// Counting over two lists adds up.
proof fn lemma_ends_at_add(segments: Seq<Segment>, a: Seq<usize>, b: Seq<usize>, p: Point)
    ensures
        ends_at(segments, a + b, p) == ends_at(segments, a, p) + ends_at(segments, b, p),
    decreases b.len(),
{
    if b.len() == 0 {
        assert(a + b =~= a);
    } else {
        lemma_ends_at_add(segments, a, b.drop_last(), p);
        assert((a + b).drop_last() =~= a + b.drop_last());
    }
}

/// A list none of whose segments has an end at `p` counts nothing.
proof fn lemma_ends_at_none(segments: Seq<Segment>, es: Seq<usize>, p: Point)
    requires
        forall|i: int| 0 <= i < es.len() ==> !touches(segments[#[trigger] es[i] as int], p),
    ensures
        ends_at(segments, es, p) == 0,
    decreases es.len(),
{
    if es.len() > 0 {
        lemma_ends_at_none(segments, es.drop_last(), p);
    }
}

/// Two lists without repeats, of segment numbers below `n`, that hold the
/// same segments with an end at `p`, count the same.
proof fn lemma_ends_at_same_members(segments: Seq<Segment>, f: Seq<usize>, g: Seq<usize>, p: Point)
    requires
        distinct(f),
        distinct(g),
        forall|i: int| 0 <= i < f.len() ==> f[i] < segments.len(),
        forall|i: int| 0 <= i < g.len() ==> g[i] < segments.len(),
        forall|e: usize|
            e < segments.len() && #[trigger] touches(segments[e as int], p) ==> (f.contains(e)
                <==> g.contains(e)),
    ensures
        ends_at(segments, f, p) == ends_at(segments, g, p),
    decreases f.len(),
{
    if f.len() == 0 {
        assert forall|i: int| 0 <= i < g.len() implies !touches(segments[#[trigger] g[i] as int], p) by {
            if touches(segments[g[i] as int], p) {
                assert(g.contains(g[i]));
            }
        }
        lemma_ends_at_none(segments, g, p);
    } else {
        let x = f.last();
        let f2 = f.drop_last();
        assert(f2.len() == f.len() - 1);
        assert forall|i: int, j: int| 0 <= i < j < f2.len() implies f2[i] != f2[j] by {
            assert(f2[i] == f[i] && f2[j] == f[j]);
        }
        assert forall|e: usize| f2.contains(e) <==> (f.contains(e) && e != x) by {
            if f2.contains(e) {
                let i = choose|i: int| 0 <= i < f2.len() && f2[i] == e;
                assert(f[i] == e);
                assert(f[f.len() - 1] == x);
            }
            if f.contains(e) && e != x {
                let i = choose|i: int| 0 <= i < f.len() && f[i] == e;
                assert(i != f.len() - 1);
                assert(f2[i] == e);
            }
        }
        if !touches(segments[x as int], p) {
            lemma_ends_at_same_members(segments, f2, g, p);
        } else {
            assert(f.contains(x)) by {
                assert(f[f.len() - 1] == x);
            }
            assert(g.contains(x));
            let i = choose|i: int| 0 <= i < g.len() && g[i] == x;
            let g2 = g.take(i) + g.skip(i + 1);
            assert(g =~= g.take(i) + (seq![x] + g.skip(i + 1)));
            lemma_ends_at_add(segments, g.take(i), seq![x] + g.skip(i + 1), p);
            lemma_ends_at_add(segments, seq![x], g.skip(i + 1), p);
            lemma_ends_at_add(segments, g.take(i), g.skip(i + 1), p);
            assert(seq![x].drop_last() =~= Seq::<usize>::empty());
            assert(seq![x].last() == x);
            assert(ends_at(segments, Seq::<usize>::empty(), p) == 0);
            assert(ends_at(segments, seq![x], p) == 1);
            assert forall|a: int| 0 <= a < g2.len() implies (#[trigger] g2[a] == if a < i {
                g[a]
            } else {
                g[a + 1]
            }) by {}
            assert forall|a: int, b: int| 0 <= a < b < g2.len() implies g2[a] != g2[b] by {
                let ga = if a < i { a } else { a + 1 };
                let gb = if b < i { b } else { b + 1 };
                assert(g2[a] == g[ga] && g2[b] == g[gb]);
            }
            assert forall|e: usize| g2.contains(e) <==> (g.contains(e) && e != x) by {
                if g2.contains(e) {
                    let a = choose|a: int| 0 <= a < g2.len() && g2[a] == e;
                    let ga = if a < i { a } else { a + 1 };
                    assert(g[ga] == e);
                }
                if g.contains(e) && e != x {
                    let b = choose|b: int| 0 <= b < g.len() && g[b] == e;
                    assert(b != i);
                    let a = if b < i { b } else { b - 1 };
                    assert(g2[a] == e);
                }
            }
            assert forall|a: int| 0 <= a < g2.len() implies g2[a] < segments.len() by {
                let ga = if a < i { a } else { a + 1 };
                assert(g2[a] == g[ga]);
            }
            lemma_ends_at_same_members(segments, f2, g2, p);
        }
    }
}

/// Along a walk, the segments with an end at `p` number, up to parity, the
/// times `p` is the walk's first point or its `t`-th point.
proof fn lemma_walk_prefix_parity(
    segments: Seq<Segment>,
    walk: Seq<Point>,
    es: Seq<usize>,
    closed: bool,
    p: Point,
    t: int,
)
    requires
        non_degenerate(segments),
        follows(segments, walk, es, closed),
        0 <= t < walk.len(),
        t <= es.len(),
    ensures
        ends_at(segments, es.take(t), p) % 2 == ((if p == walk[0] {
            1int
        } else {
            0int
        }) + (if p == walk[t] {
            1int
        } else {
            0int
        })) % 2,
    decreases t,
{
    if t == 0 {
        assert(es.take(0) =~= Seq::<usize>::empty());
    } else {
        lemma_walk_prefix_parity(segments, walk, es, closed, p, t - 1);
        assert(es.take(t).drop_last() =~= es.take(t - 1));
        assert(es.take(t).last() == es[t - 1]);
        let s = segments[es[t - 1] as int];
        assert(joins(s, walk[t - 1], after(walk, t - 1)));
        assert(after(walk, t - 1) == walk[t]);
        assert(s.0 != s.1);
    }
}

/// A closed walk has an even number of segments at every point; an open one
/// an odd number exactly at its two ends, when they differ.
proof fn lemma_walk_parity(segments: Seq<Segment>, walk: Seq<Point>, es: Seq<usize>, closed: bool, p: Point)
    requires
        non_degenerate(segments),
        follows(segments, walk, es, closed),
        walk.len() >= 1,
    ensures
        closed ==> ends_at(segments, es, p) % 2 == 0,
        !closed ==> ends_at(segments, es, p) % 2 == ((if p == walk[0] {
            1int
        } else {
            0int
        }) + (if p == walk.last() {
            1int
        } else {
            0int
        })) % 2,
{
    let n = walk.len() - 1;
    lemma_walk_prefix_parity(segments, walk, es, closed, p, n);
    if closed {
        assert(es.take(n + 1) =~= es);
        assert(es.take(n + 1).drop_last() =~= es.take(n));
        let s = segments[es[n] as int];
        assert(joins(s, walk[n], after(walk, n)));
        assert(s.0 != s.1);
    } else {
        assert(es.take(n) =~= es);
    }
}

/// The segments of the first `m` walks are a prefix of all walks' segments.
proof fn lemma_flatten_prefix(edges: Seq<Seq<usize>>, m: int)
    requires
        0 <= m <= edges.len(),
    ensures
        flatten(edges.take(m)).is_prefix_of(flatten(edges)),
    decreases edges.len(),
{
    if m == edges.len() {
        assert(edges.take(m) =~= edges);
    } else {
        lemma_flatten_prefix(edges.drop_last(), m);
        assert(edges.drop_last().take(m) =~= edges.take(m));
    }
}

/// Walks that all close have an even number of segments at every point.
proof fn lemma_closed_walks_even(
    segments: Seq<Segment>,
    chains: Seq<(Seq<Point>, bool)>,
    walks: Seq<Seq<Point>>,
    edges: Seq<Seq<usize>>,
    m: int,
    p: Point,
)
    requires
        non_degenerate(segments),
        decomposes(segments, chains, walks, edges),
        0 <= m <= edges.len(),
        forall|j: int| 0 <= j < m ==> (#[trigger] chains[j]).1,
    ensures
        ends_at(segments, flatten(edges.take(m)), p) % 2 == 0,
    decreases m,
{
    if m > 0 {
        lemma_closed_walks_even(segments, chains, walks, edges, m - 1, p);
        assert(edges.take(m).drop_last() =~= edges.take(m - 1));
        assert(edges.take(m).last() == edges[m - 1]);
        assert(chains[m - 1].1);
        lemma_walk_parity(segments, walks[m - 1], edges[m - 1], chains[m - 1].1, p);
        lemma_ends_at_add(segments, flatten(edges.take(m - 1)), edges[m - 1], p);
    } else {
        assert(edges.take(0) =~= Seq::<Seq<usize>>::empty());
    }
}

/// Walks `0..=k` all close when every point has an even number of segments.
proof fn lemma_even_closes_upto(
    segments: Seq<Segment>,
    chains: Seq<(Seq<Point>, bool)>,
    walks: Seq<Seq<Point>>,
    edges: Seq<Seq<usize>>,
    k: int,
)
    requires
        non_degenerate(segments),
        decomposes(segments, chains, walks, edges),
        maximal_walks(segments, chains, walks, edges),
        forall|p: Point| #[trigger] degree(segments, p) % 2 == 0,
        segments.len() <= usize::MAX,
        0 <= k < chains.len(),
    ensures
        forall|j: int| 0 <= j <= k ==> (#[trigger] chains[j]).1,
    decreases k,
{
    if k > 0 {
        lemma_even_closes_upto(segments, chains, walks, edges, k - 1);
    }
    assert forall|j: int| 0 <= j < k implies (#[trigger] chains[j]).1 by {
        assert(chains[j].1);
    }
    if !chains[k].1 {
        let walk = walks[k];
        let p = walk.last();
        assert(walk.len() >= 2);
        assert(ends_right(segments, chains, walks, edges, k));
        assert(walk[walk.len() - 1] != walk[0]);
        lemma_closed_walks_even(segments, chains, walks, edges, k, p);
        lemma_walk_parity(segments, walk, edges[k], false, p);
        let before = flatten(edges.take(k));
        let upto = flatten(edges.take(k + 1));
        assert(edges.take(k + 1).drop_last() =~= edges.take(k));
        assert(upto == before + edges[k]);
        lemma_ends_at_add(segments, before, edges[k], p);
        // The walks so far used every segment at `p`, each once.
        lemma_flatten_prefix(edges, k + 1);
        let all = flatten(edges);
        assert forall|i: int, j: int| 0 <= i < j < upto.len() implies upto[i] != upto[j] by {
            assert(upto[i] == all[i] && upto[j] == all[j]);
        }
        assert forall|i: int| 0 <= i < upto.len() implies upto[i] < segments.len() by {
            assert(upto[i] == all[i]);
        }
        let ids = Seq::new(segments.len(), |e: int| e as usize);
        assert forall|i: int, j: int| 0 <= i < j < ids.len() implies ids[i] != ids[j] by {}
        assert forall|e: usize|
            e < segments.len() && #[trigger] touches(segments[e as int], p) implies (upto.contains(e)
            <==> ids.contains(e)) by {
            assert(ids[e as int] == e);
            assert(upto.contains(e as int as usize));
        }
        lemma_ends_at_same_members(segments, upto, ids, p);
        assert(degree(segments, p) % 2 == 0);
    }
}

/// When every point has an even number of segments, as on the outline of
/// samples that lie inside the window, the walks that cover them all
/// close: there is no open chain.
pub proof fn law_even_points_give_closed_chains(
    segments: Seq<Segment>,
    chains: Seq<(Seq<Point>, bool)>,
    walks: Seq<Seq<Point>>,
    edges: Seq<Seq<usize>>,
)
    requires
        non_degenerate(segments),
        decomposes(segments, chains, walks, edges),
        maximal_walks(segments, chains, walks, edges),
        forall|p: Point| #[trigger] degree(segments, p) % 2 == 0,
        segments.len() <= usize::MAX,
    ensures
        forall|k: int| 0 <= k < chains.len() ==> (#[trigger] chains[k]).1,
{
    if chains.len() > 0 {
        lemma_even_closes_upto(segments, chains, walks, edges, chains.len() - 1);
    }
}

/// A list all of whose segments have an end at `p` counts its length.
proof fn lemma_ends_at_all(segments: Seq<Segment>, es: Seq<usize>, p: Point)
    requires
        forall|i: int| 0 <= i < es.len() ==> touches(segments[#[trigger] es[i] as int], p),
    ensures
        ends_at(segments, es, p) == es.len(),
    decreases es.len(),
{
    if es.len() > 0 {
        lemma_ends_at_all(segments, es.drop_last(), p);
        assert(touches(segments[es[es.len() - 1] as int], p));
    }
}

/// A point's incidence list holds as many segments as the point has.
proof fn lemma_list_degree(inc: Seq<Vec<usize>>, segments: Seq<Segment>, w: int, h: int, p: Point)
    requires
        0 <= w,
        0 <= h,
        incidence(inc, segments, w, (w + 1) * (h + 1), segments.len() as int),
        segments_in_lattice(segments, w, h),
        in_lattice(p, w, h),
        distinct(inc[vid(p, w)]@),
        segments.len() <= usize::MAX,
    ensures
        inc[vid(p, w)]@.len() == degree(segments, p),
{
    let v = vid(p, w);
    lemma_vid(p, p, w, h);
    let list = inc[v]@;
    assert forall|i: int| 0 <= i < list.len() implies touches(segments[#[trigger] list[i] as int], p) by {
        let s = segments[list[i] as int];
        assert(inc[v]@[i] == list[i]);
        assert(in_lattice(s.0, w, h) && in_lattice(s.1, w, h));
        lemma_vid(s.0, p, w, h);
        lemma_vid(s.1, p, w, h);
    }
    lemma_ends_at_all(segments, list, p);
    let ids = Seq::new(segments.len(), |e: int| e as usize);
    assert forall|i: int, j: int| 0 <= i < j < ids.len() implies ids[i] != ids[j] by {}
    assert forall|i: int| 0 <= i < list.len() implies list[i] < segments.len() by {
        assert(inc[v]@[i] == list[i]);
    }
    assert forall|e: usize|
        e < segments.len() && #[trigger] touches(segments[e as int], p) implies (list.contains(e)
        <==> ids.contains(e)) by {
        assert(ids[e as int] == e);
        assert(segments[e as int] == segments[e as int]);
        assert(inc[vid(segments[e as int].0, w)]@.contains(e as int as usize));
        assert(inc[vid(segments[e as int].1, w)]@.contains(e as int as usize));
    }
    lemma_ends_at_same_members(segments, list, ids, p);
}

/// Nothing to join gives no chain.
pub proof fn law_no_segments_no_chains(
    chains: Seq<(Seq<Point>, bool)>,
    walks: Seq<Seq<Point>>,
    edges: Seq<Seq<usize>>,
)
    requires
        decomposes(Seq::<Segment>::empty(), chains, walks, edges),
    ensures
        chains.len() == 0,
{
    if chains.len() > 0 {
        assert(chains[0].0 == spec_simplify(walks[0]));
        assert(walks[0].len() >= 2);
        assert(edges[0].len() >= 1);
        assert(edges[0][0] < 0);
    }
}

/// Samples that are all outside give no boundary segment.
proof fn lemma_no_inside_no_segments(inside: Seq<bool>, w: int, h: int, m: int)
    requires
        0 <= m <= h,
        forall|i: int, j: int| 0 <= i < w && 0 <= j < h ==> !#[trigger] sample_at(inside, w, h, i, j),
    ensures
        grid_segments(inside, w, h, m) == Seq::<Segment>::empty(),
    decreases m,
{
    if m > 0 {
        lemma_no_inside_no_segments(inside, w, h, m - 1);
        lemma_no_inside_row(inside, w, h, m - 1, w);
        assert(grid_segments(inside, w, h, m) =~= Seq::<Segment>::empty());
    }
}

/// A row of outside samples gives no boundary segment.
proof fn lemma_no_inside_row(inside: Seq<bool>, w: int, h: int, j: int, n: int)
    requires
        0 <= j < h,
        n <= w,
        forall|i: int, j: int| 0 <= i < w && 0 <= j < h ==> !#[trigger] sample_at(inside, w, h, i, j),
    ensures
        row_segments(inside, w, h, j, n) == Seq::<Segment>::empty(),
    decreases n,
{
    if n > 0 {
        lemma_no_inside_row(inside, w, h, j, n - 1);
        assert(!sample_at(inside, w, h, n - 1, j));
        assert(row_segments(inside, w, h, j, n) =~= Seq::<Segment>::empty());
    }
}

/// An empty selection has no outline: when no sample is inside, no chain
/// comes out.
pub proof fn law_empty_selection_has_no_outline(
    inside: Seq<bool>,
    w: int,
    h: int,
    chains: Seq<(Seq<Point>, bool)>,
    walks: Seq<Seq<Point>>,
    edges: Seq<Seq<usize>>,
)
    requires
        0 <= w,
        0 <= h,
        inside.len() == w * h,
        forall|k: int| 0 <= k < inside.len() ==> !inside[k],
        decomposes(grid_segments(inside, w, h, h), chains, walks, edges),
    ensures
        chains.len() == 0,
{
    assert forall|i: int, j: int| 0 <= i < w && 0 <= j < h implies !#[trigger] sample_at(
        inside,
        w,
        h,
        i,
        j,
    ) by {
        reveal(sample_at);
        assert(0 <= j * w + i < w * h) by (nonlinear_arith)
            requires
                0 <= i < w,
                0 <= j < h,
        ;
    }
    lemma_no_inside_no_segments(inside, w, h, h);
    law_no_segments_no_chains(chains, walks, edges);
}

/// Every segment of a cell lies on the lattice and has two distinct ends.
proof fn lemma_cell_segments_ok(inside: Seq<bool>, w: int, h: int, i: int, j: int)
    requires
        0 <= i < w < 0x1000_0000,
        0 <= j < h < 0x1000_0000,
    ensures
        segments_in_lattice(cell_segments(inside, w, h, i, j), w, h),
        non_degenerate(cell_segments(inside, w, h, i, j)),
{
}

/// The segments of some rows lie on the lattice and have distinct ends.
proof fn lemma_grid_segments_ok(inside: Seq<bool>, w: int, h: int, m: int, n: int)
    requires
        0 <= w < 0x1000_0000,
        0 <= h < 0x1000_0000,
        0 <= m <= h,
        0 <= n <= w,
        m < h || n == 0,
    ensures
        segments_in_lattice(grid_segments(inside, w, h, m) + row_segments(inside, w, h, m, n), w, h),
        non_degenerate(grid_segments(inside, w, h, m) + row_segments(inside, w, h, m, n)),
    decreases m, n,
{
    let all = grid_segments(inside, w, h, m) + row_segments(inside, w, h, m, n);
    if n > 0 {
        lemma_grid_segments_ok(inside, w, h, m, n - 1);
        lemma_cell_segments_ok(inside, w, h, n - 1, m);
        let prev = grid_segments(inside, w, h, m) + row_segments(inside, w, h, m, n - 1);
        let cell = cell_segments(inside, w, h, n - 1, m);
        assert(all =~= prev + cell);
        assert forall|e: int| #![trigger all[e]] 0 <= e < all.len() implies in_lattice(all[e].0, w, h)
            && in_lattice(all[e].1, w, h) && all[e].0 != all[e].1 by {
            if e < prev.len() {
                assert(all[e] == prev[e]);
            } else {
                assert(all[e] == cell[e - prev.len()]);
            }
        }
    } else if m > 0 {
        lemma_grid_segments_ok(inside, w, h, m - 1, w);
        assert(row_segments(inside, w, h, m, 0) =~= Seq::<Segment>::empty());
        assert(all =~= grid_segments(inside, w, h, m - 1) + row_segments(inside, w, h, m - 1, w));
    } else {
        assert(all =~= Seq::<Segment>::empty());
    }
}

// ---------------------------------------------------------------------------
// Every corner of the outline has an even number of segments
// ---------------------------------------------------------------------------

/// How many segments of the list `segs` have an end at `p`.
pub open spec fn count_at(segs: Seq<Segment>, p: Point) -> nat
    decreases segs.len(),
{
    if segs.len() == 0 {
        0
    } else {
        count_at(segs.drop_last(), p) + if touches(segs.last(), p) {
            1nat
        } else {
            0nat
        }
    }
}

/// Counting over two lists adds up.
proof fn lemma_count_at_add(a: Seq<Segment>, b: Seq<Segment>, p: Point)
    ensures
        count_at(a + b, p) == count_at(a, p) + count_at(b, p),
    decreases b.len(),
{
    if b.len() == 0 {
        assert(a + b =~= a);
    } else {
        lemma_count_at_add(a, b.drop_last(), p);
        assert((a + b).drop_last() =~= a + b.drop_last());
    }
}

/// The number of segments at `p` counted by number, prefix by prefix.
proof fn lemma_degree_prefix(segs: Seq<Segment>, p: Point, m: int)
    requires
        0 <= m <= segs.len(),
        segs.len() <= usize::MAX,
    ensures
        ends_at(segs, Seq::new(m as nat, |e: int| e as usize), p) == count_at(segs.take(m), p),
    decreases m,
{
    if m == 0 {
        assert(segs.take(0) =~= Seq::<Segment>::empty());
    } else {
        lemma_degree_prefix(segs, p, m - 1);
        let ids = Seq::new(m as nat, |e: int| e as usize);
        assert(ids.drop_last() =~= Seq::new((m - 1) as nat, |e: int| e as usize));
        assert(ids.last() == (m - 1) as usize);
        assert(segs.take(m).drop_last() =~= segs.take(m - 1));
        assert(segs.take(m).last() == segs[m - 1]);
    }
}

/// A point's degree is how many segments of the list have an end there.
proof fn lemma_degree_is_count(segs: Seq<Segment>, p: Point)
    requires
        segs.len() <= usize::MAX,
    ensures
        degree(segs, p) == count_at(segs, p),
{
    lemma_degree_prefix(segs, p, segs.len() as int);
    assert(segs.take(segs.len() as int) =~= segs);
}

/// The segment from `a` to `b`, when `open`, counts at `p` if it ends there.
pub open spec fn edge_count(open: bool, a: Point, b: Point, p: Point) -> nat {
    if open && (a == p || b == p) {
        1
    } else {
        0
    }
}

/// What a cell's segments count at `p`, edge by edge.
proof fn lemma_cell_count(inside: Seq<bool>, w: int, h: int, i: int, j: int, p: Point)
    ensures
        count_at(cell_segments(inside, w, h, i, j), p) == if !sample_at(inside, w, h, i, j) {
            0
        } else {
            let (x, y) = (i as i64, j as i64);
            let (x1, y1) = ((i + 1) as i64, (j + 1) as i64);
            edge_count(!sample_at(inside, w, h, i, j - 1), (x, y), (x1, y), p) + edge_count(
                !sample_at(inside, w, h, i, j + 1),
                (x, y1),
                (x1, y1),
                p,
            ) + edge_count(!sample_at(inside, w, h, i - 1, j), (x, y), (x, y1), p) + edge_count(
                !sample_at(inside, w, h, i + 1, j),
                (x1, y),
                (x1, y1),
                p,
            )
        },
{
    if sample_at(inside, w, h, i, j) {
        let (x, y) = (i as i64, j as i64);
        let (x1, y1) = ((i + 1) as i64, (j + 1) as i64);
        let e1 = edge_if(!sample_at(inside, w, h, i, j - 1), (x, y), (x1, y));
        let e2 = edge_if(!sample_at(inside, w, h, i, j + 1), (x, y1), (x1, y1));
        let e3 = edge_if(!sample_at(inside, w, h, i - 1, j), (x, y), (x, y1));
        let e4 = edge_if(!sample_at(inside, w, h, i + 1, j), (x1, y), (x1, y1));
        lemma_count_at_add(e1 + e2 + e3, e4, p);
        lemma_count_at_add(e1 + e2, e3, p);
        lemma_count_at_add(e1, e2, p);
        assert forall|open: bool, a: Point, b: Point|
            count_at(#[trigger] edge_if(open, a, b), p) == edge_count(open, a, b, p) by {
            assert(count_at(Seq::<Segment>::empty(), p) == 0);
            if open {
                assert(edge_if(open, a, b).drop_last() =~= Seq::<Segment>::empty());
                assert(edge_if(open, a, b).last() == (a, b));
                assert(touches((a, b), p) == (a == p || b == p));
            } else {
                assert(edge_if(open, a, b) == Seq::<Segment>::empty());
            }
        }
    }
}

/// A cell off the grid has no segments.
proof fn lemma_cell_off_grid(inside: Seq<bool>, w: int, h: int, i: int, j: int, p: Point)
    requires
        !(0 <= i < w && 0 <= j < h),
    ensures
        count_at(cell_segments(inside, w, h, i, j), p) == 0,
{
    reveal(sample_at);
}

/// A cell has segments at `p` only when `p` is one of its corners.
proof fn lemma_cell_away(inside: Seq<bool>, w: int, h: int, i: int, j: int, p: Point)
    requires
        -1 <= i <= 0x1000_0000,
        -1 <= j <= 0x1000_0000,
        !(i <= p.0 <= i + 1 && j <= p.1 <= j + 1),
    ensures
        count_at(cell_segments(inside, w, h, i, j), p) == 0,
{
    lemma_cell_count(inside, w, h, i, j, p);
}

/// Around a corner, the four cells' segments at it number an even count:
/// each pair of neighbouring cells adds one segment exactly when one of them
/// is inside.
proof fn lemma_corner_even(inside: Seq<bool>, w: int, h: int, p: Point)
    requires
        0 <= p.0 <= 0x1000_0000,
        0 <= p.1 <= 0x1000_0000,
    ensures
        (count_at(cell_segments(inside, w, h, p.0 - 1, p.1 - 1), p) + count_at(
            cell_segments(inside, w, h, p.0 as int, p.1 - 1),
            p,
        ) + count_at(cell_segments(inside, w, h, p.0 - 1, p.1 as int), p) + count_at(
            cell_segments(inside, w, h, p.0 as int, p.1 as int),
            p,
        )) % 2 == 0,
{
    let x = p.0 as int;
    let y = p.1 as int;
    lemma_cell_count(inside, w, h, x - 1, y - 1, p);
    lemma_cell_count(inside, w, h, x, y - 1, p);
    lemma_cell_count(inside, w, h, x - 1, y, p);
    lemma_cell_count(inside, w, h, x, y, p);
    let a = sample_at(inside, w, h, x - 1, y - 1);
    let b = sample_at(inside, w, h, x, y - 1);
    let c = sample_at(inside, w, h, x - 1, y);
    let d = sample_at(inside, w, h, x, y);
    assert(sample_at(inside, w, h, x - 1, y - 1 + 1) == c);
    assert(sample_at(inside, w, h, x - 1 + 1, y - 1) == b);
    assert(sample_at(inside, w, h, x, y - 1 + 1) == d);
    assert(sample_at(inside, w, h, x - 1, y - 1 + 1) == c);
    assert(sample_at(inside, w, h, x + 1 - 1, y) == d);
    assert(sample_at(inside, w, h, x - 1 + 1, y) == d);
    assert(sample_at(inside, w, h, x, y + 1 - 1) == d);
    assert(sample_at(inside, w, h, x, y - 1) == b);
    assert(((x - 1 + 1) as i64, (y - 1 + 1) as i64) == p);
    assert((x as i64, y as i64) == p);
    assert(((x - 1 + 1) as i64, y as i64) == p);
    assert((x as i64, (y - 1 + 1) as i64) == p);
}

/// The segments of the first `n` cells of row `j` at `p`: those of the two
/// cells of the row that have `p` as a corner.
proof fn lemma_row_count(inside: Seq<bool>, w: int, h: int, j: int, n: int, p: Point)
    requires
        0 <= n <= w < 0x1000_0000,
        0 <= j < h < 0x1000_0000,
    ensures
        count_at(row_segments(inside, w, h, j, n), p) == (if 0 <= p.0 - 1 < n {
            count_at(cell_segments(inside, w, h, p.0 - 1, j), p)
        } else {
            0
        }) + (if 0 <= p.0 < n {
            count_at(cell_segments(inside, w, h, p.0 as int, j), p)
        } else {
            0
        }),
    decreases n,
{
    if n > 0 {
        lemma_row_count(inside, w, h, j, n - 1, p);
        lemma_count_at_add(row_segments(inside, w, h, j, n - 1), cell_segments(inside, w, h, n - 1, j), p);
        if n - 1 != p.0 - 1 && n - 1 != p.0 {
            lemma_cell_away(inside, w, h, n - 1, j, p);
        }
    } else {
        assert(row_segments(inside, w, h, j, 0) =~= Seq::<Segment>::empty());
    }
}

/// The segments of the first `m` rows at `p`: those of the rows that have
/// `p` on a corner of their cells.
proof fn lemma_grid_count(inside: Seq<bool>, w: int, h: int, m: int, p: Point)
    requires
        0 <= w < 0x1000_0000,
        0 <= m <= h < 0x1000_0000,
    ensures
        count_at(grid_segments(inside, w, h, m), p) == (if 0 <= p.1 - 1 < m {
            count_at(row_segments(inside, w, h, p.1 - 1, w), p)
        } else {
            0
        }) + (if 0 <= p.1 < m {
            count_at(row_segments(inside, w, h, p.1 as int, w), p)
        } else {
            0
        }),
    decreases m,
{
    if m > 0 {
        lemma_grid_count(inside, w, h, m - 1, p);
        lemma_count_at_add(grid_segments(inside, w, h, m - 1), row_segments(inside, w, h, m - 1, w), p);
        if m - 1 != p.1 - 1 && m - 1 != p.1 {
            lemma_row_count(inside, w, h, m - 1, w, p);
            if 0 <= p.0 - 1 < w {
                lemma_cell_away(inside, w, h, p.0 - 1, m - 1, p);
            }
            if 0 <= p.0 < w {
                lemma_cell_away(inside, w, h, p.0 as int, m - 1, p);
            }
        }
    }
}

/// Every point has an even number of the outline's segments: the outline
/// of samples has no open end.
pub proof fn law_outline_points_are_even(inside: Seq<bool>, w: int, h: int, p: Point)
    requires
        0 <= w < 0x1000_0000,
        0 <= h < 0x1000_0000,
        grid_segments(inside, w, h, h).len() <= usize::MAX,
    ensures
        degree(grid_segments(inside, w, h, h), p) % 2 == 0,
{
    let g = grid_segments(inside, w, h, h);
    lemma_degree_is_count(g, p);
    lemma_grid_count(inside, w, h, h, p);
    let x = p.0 as int;
    let y = p.1 as int;
    if 0 <= y - 1 < h {
        lemma_row_count(inside, w, h, y - 1, w, p);
    }
    if 0 <= y < h {
        lemma_row_count(inside, w, h, y, w, p);
    }
    if 0 <= x <= w && 0 <= y <= h {
        lemma_corner_even(inside, w, h, p);
        if !(0 <= x - 1 < w && 0 <= y - 1 < h) {
            lemma_cell_off_grid(inside, w, h, x - 1, y - 1, p);
        }
        if !(0 <= x < w && 0 <= y - 1 < h) {
            lemma_cell_off_grid(inside, w, h, x, y - 1, p);
        }
        if !(0 <= x - 1 < w && 0 <= y < h) {
            lemma_cell_off_grid(inside, w, h, x - 1, y, p);
        }
        if !(0 <= x < w && 0 <= y < h) {
            lemma_cell_off_grid(inside, w, h, x, y, p);
        }
    }
}

/// The selection's outline on the `w × h` sample grid `inside` (row-major):
/// the boundary segments between inside and outside samples, joined into
/// polylines in grid-corner coordinates, each simplified. Every corner has
/// an even number of boundary segments, so every polyline closes. The
/// grid's sides stay below `2^28` (see [`join`]).
pub fn outline(inside: &Vec<bool>, w: usize, h: usize) -> (chains: Vec<(Vec<Point>, bool)>)
    requires
        inside@.len() == w * h,
        w < 0x1000_0000,
        h < 0x1000_0000,
        (w + 1) * (h + 1) <= usize::MAX,
    ensures
        exists|walks: Seq<Seq<Point>>, edges: Seq<Seq<usize>>|
            decomposes(
                grid_segments(inside@, w as int, h as int, h as int),
                chain_views(chains@),
                walks,
                edges,
            ) && maximal_walks(
                grid_segments(inside@, w as int, h as int, h as int),
                chain_views(chains@),
                walks,
                edges,
            ) && odd_starts_first(grid_segments(inside@, w as int, h as int, h as int), walks, edges),
        forall|k: int| 0 <= k < chains@.len() ==> (#[trigger] chains@[k]).1,
{
    let segments = boundary_segments(inside, w, h);
    proof {
        if h > 0 {
            lemma_grid_segments_ok(inside@, w as int, h as int, h - 1, w as int);
            assert(grid_segments(inside@, w as int, h as int, h as int) =~= grid_segments(
                inside@,
                w as int,
                h as int,
                h - 1,
            ) + row_segments(inside@, w as int, h as int, h - 1, w as int));
        } else {
            assert(grid_segments(inside@, w as int, h as int, 0) =~= Seq::<Segment>::empty());
        }
    }
    let chains = join(&segments, w, h);
    let segment_count = segments.len();
    proof {
        let g = segments@;
        assert(g.len() == segment_count);
        let (walks, edges) = choose|walks: Seq<Seq<Point>>, edges: Seq<Seq<usize>>|
            decomposes(g, chain_views(chains@), walks, edges) && maximal_walks(
                g,
                chain_views(chains@),
                walks,
                edges,
            ) && odd_starts_first(g, walks, edges);
        assert forall|p: Point| #[trigger] degree(g, p) % 2 == 0 by {
            law_outline_points_are_even(inside@, w as int, h as int, p);
        }
        law_even_points_give_closed_chains(g, chain_views(chains@), walks, edges);
        assert forall|k: int| 0 <= k < chains@.len() implies (#[trigger] chains@[k]).1 by {
            assert(chain_views(chains@)[k].1 == chains@[k].1);
        }
    }
    chains
}

// ---------------------------------------------------------------------------
// Where the samples are
// ---------------------------------------------------------------------------

/// The grid of level-L samples the outline is traced on: sample `(i, j)`
/// is level-L pixel `(i0 + i, j0 + j)`, whose block starts at document pixel
/// `((i0 + i) · step, (j0 + j) · step)` with `step = 2^level`, and is read at
/// its centre, `half` further.
#[derive(Clone, Copy, Debug, PartialEq, Eq, Structural)]
pub struct SampleWindow {
    pub level: u32,
    pub step: i64,
    pub half: i64,
    pub i0: i64,
    pub j0: i64,
    pub w: usize,
    pub h: usize,
}

/// `a` or `b`, whichever is larger.
pub open spec fn max(a: int, b: int) -> int {
    if a >= b {
        a
    } else {
        b
    }
}

/// `a` or `b`, whichever is smaller.
pub open spec fn min(a: int, b: int) -> int {
    if a <= b {
        a
    } else {
        b
    }
}

/// A coordinate of a rectangle the window is cut from: well inside `i64`.
pub open spec fn modest(v: i64) -> bool {
    -0x1_0000_0000_0000 <= v <= 0x1_0000_0000_0000
}

/// The sample grid for the selection box `bbox` seen through `visible` on a
/// `width × height` canvas at `level`: the box, cut to the visible rect and
/// the canvas, in level-L pixels grown by one sample on each side (bounded by
/// the canvas). `None` when nothing of the box is visible or the grid is
/// thinner than two samples.
pub open spec fn spec_sample_window(bbox: DocRect, visible: DocRect, width: u32, height: u32, level: u32) -> Option<SampleWindow> {
    let x0 = max(max(bbox.0 as int, visible.0 as int), 0);
    let y0 = max(max(bbox.1 as int, visible.1 as int), 0);
    let x1 = min(min(bbox.2 as int, visible.2 as int), width as int);
    let y1 = min(min(bbox.3 as int, visible.3 as int), height as int);
    let step = pow2(level as nat);
    let half = if level > 0 { step / 2 } else { 0 };
    let i0 = x0 / step - 1;
    let j0 = y0 / step - 1;
    let i1 = min((x1 + step - 1) / step, spec_div_ceil(width as int, step)) + 1;
    let j1 = min((y1 + step - 1) / step, spec_div_ceil(height as int, step)) + 1;
    if x1 <= x0 || y1 <= y0 || i1 - i0 < 2 || j1 - j0 < 2 {
        None
    } else {
        Some(
            SampleWindow {
                level,
                step: step as i64,
                half: half as i64,
                i0: i0 as i64,
                j0: j0 as i64,
                w: (i1 - i0) as usize,
                h: (j1 - j0) as usize,
            },
        )
    }
}

/// Powers of two up to the 60th.
proof fn lemma_pow2_range(k: nat)
    requires
        k <= 60,
    ensures
        1 <= pow2(k) <= 0x1000_0000_0000_0000,
{
    lemma_pow2_mono(k, 60);
    assert(pow2(10) == 0x400) by {
        reveal_with_fuel(pow2, 11);
    }
    lemma_pow2_adds(10, 10);
    assert(pow2(20) == 0x10_0000);
    lemma_pow2_adds(20, 20);
    assert(pow2(40) == 0x100_0000_0000);
    lemma_pow2_adds(40, 20);
    assert(pow2(60) == 0x1000_0000_0000_0000);
}

/// The sample grid the outline is traced on (see [`spec_sample_window`]).
#[verifier::rlimit(40)]
#[verifier::spinoff_prover]
pub fn sample_window(bbox: DocRect, visible: DocRect, width: u32, height: u32, level: u32) -> (window: Option<SampleWindow>)
    requires
        level <= 60,
        modest(bbox.0) && modest(bbox.1) && modest(bbox.2) && modest(bbox.3),
        modest(visible.0) && modest(visible.1) && modest(visible.2) && modest(visible.3),
    ensures
        window == spec_sample_window(bbox, visible, width, height, level),
{
    let x0 = if bbox.0 >= visible.0 { bbox.0 } else { visible.0 };
    let x0 = if x0 >= 0 { x0 } else { 0 };
    let y0 = if bbox.1 >= visible.1 { bbox.1 } else { visible.1 };
    let y0 = if y0 >= 0 { y0 } else { 0 };
    let x1 = if bbox.2 <= visible.2 { bbox.2 } else { visible.2 };
    let x1 = if x1 <= width as i64 { x1 } else { width as i64 };
    let y1 = if bbox.3 <= visible.3 { bbox.3 } else { visible.3 };
    let y1 = if y1 <= height as i64 { y1 } else { height as i64 };
    if x1 <= x0 || y1 <= y0 {
        return None;
    }
    let mut step: i64 = 1;
    let mut k: u32 = 0;
    while k < level
        invariant
            k <= level <= 60,
            step as int == pow2(k as nat),
            1 <= step <= 0x1000_0000_0000_0000,
        decreases level - k,
    {
        proof {
            lemma_pow2_range((k + 1) as nat);
        }
        step = step * 2;
        k = k + 1;
    }
    let half = if level > 0 { step / 2 } else { 0 };
    let i0 = x0 / step - 1;
    let j0 = y0 / step - 1;
    let wc = div_ceil(width as i64, step);
    let hc = div_ceil(height as i64, step);
    let xe = (x1 + step - 1) / step;
    let ye = (y1 + step - 1) / step;
    let i1 = (if xe <= wc { xe } else { wc }) + 1;
    let j1 = (if ye <= hc { ye } else { hc }) + 1;
    proof {
        assert(0 <= x0 / step <= x0) by (nonlinear_arith)
            requires
                x0 >= 0,
                step >= 1,
        ;
        assert(0 <= y0 / step <= y0) by (nonlinear_arith)
            requires
                y0 >= 0,
                step >= 1,
        ;
        assert(0 <= xe <= x1 + step) by (nonlinear_arith)
            requires
                x1 >= 0,
                step >= 1,
                xe == (x1 + step - 1) / (step as int),
        ;
        assert(0 <= ye <= y1 + step) by (nonlinear_arith)
            requires
                y1 >= 0,
                step >= 1,
                ye == (y1 + step - 1) / (step as int),
        ;
    }
    if i1 - i0 < 2 || j1 - j0 < 2 {
        return None;
    }
    Some(SampleWindow { level, step, half, i0, j0, w: (i1 - i0) as usize, h: (j1 - j0) as usize })
}

/// Division by a positive step, rounded down and up.
proof fn lemma_step_division(a: int, s: int)
    requires
        a >= 0,
        s >= 1,
    ensures
        (a / s) * s <= a,
        a - s < (a / s) * s,
        ((a + s - 1) / s) * s >= a,
        ((a + s - 1) / s - 1) * s < a,
        a / s >= 0,
        (a + s - 1) / s >= 0,
{
    let f = a / s;
    let c = (a + s - 1) / s;
    vstd::arithmetic::div_mod::lemma_fundamental_div_mod(a, s);
    vstd::arithmetic::div_mod::lemma_fundamental_div_mod(a + s - 1, s);
    assert(0 <= a % s < s) by {
        vstd::arithmetic::div_mod::lemma_mod_bound(a, s);
    }
    assert(0 <= (a + s - 1) % s < s) by {
        vstd::arithmetic::div_mod::lemma_mod_bound(a + s - 1, s);
    }
    assert(f * s == s * f) by (nonlinear_arith);
    assert(c * s == s * c) by (nonlinear_arith);
    assert((c - 1) * s == c * s - s) by (nonlinear_arith);
    assert(f >= 0) by (nonlinear_arith)
        requires
            s * f <= a,
            a - s < s * f,
            s >= 1,
            a >= 0,
    ;
    assert(c >= 0) by (nonlinear_arith)
        requires
            s * c >= a,
            s >= 1,
            a >= 0,
            s * c <= a + s - 1,
    ;
}

/// Of two multiples of a positive step, the smaller has the smaller factor.
proof fn lemma_step_order(p: int, q: int, s: int)
    requires
        s >= 1,
        p * s < q * s,
    ensures
        p < q,
{
    assert(p < q) by (nonlinear_arith)
        requires
            s >= 1,
            p * s < q * s,
    ;
}

/// The sample window covers the visible part of the selection box on the
/// canvas, at the level's step: there is a window exactly when that part is
/// not empty; its first column and row lie a sample before it, its last
/// ones reach past it, and it ends at most one sample past the canvas's
/// width and height.
pub proof fn law_sample_window_covers_the_visible_box(
    bbox: DocRect,
    visible: DocRect,
    width: u32,
    height: u32,
    level: u32,
)
    requires
        level <= 60,
        modest(bbox.0) && modest(bbox.1) && modest(bbox.2) && modest(bbox.3),
        modest(visible.0) && modest(visible.1) && modest(visible.2) && modest(visible.3),
        width < 0x4000_0000,
        height < 0x4000_0000,
    ensures
        ({
            let x0 = max(max(bbox.0 as int, visible.0 as int), 0);
            let y0 = max(max(bbox.1 as int, visible.1 as int), 0);
            let x1 = min(min(bbox.2 as int, visible.2 as int), width as int);
            let y1 = min(min(bbox.3 as int, visible.3 as int), height as int);
            &&& spec_sample_window(bbox, visible, width, height, level) is Some <==> (x0 < x1 && y0 < y1)
            &&& spec_sample_window(bbox, visible, width, height, level) matches Some(win) ==> {
                &&& win.level == level
                &&& win.step == pow2(level as nat)
                &&& win.half == if level > 0 { win.step / 2 } else { 0 }
                &&& (win.i0 + 1) * win.step <= x0 < (win.i0 + 2) * win.step
                &&& (win.j0 + 1) * win.step <= y0 < (win.j0 + 2) * win.step
                &&& (win.i0 + win.w - 2) * win.step < x1 <= (win.i0 + win.w - 1) * win.step
                &&& (win.j0 + win.h - 2) * win.step < y1 <= (win.j0 + win.h - 1) * win.step
                &&& (win.i0 + win.w - 2) * win.step < width
                &&& (win.j0 + win.h - 2) * win.step < height
            }
        }),
{
    let x0 = max(max(bbox.0 as int, visible.0 as int), 0);
    let y0 = max(max(bbox.1 as int, visible.1 as int), 0);
    let x1 = min(min(bbox.2 as int, visible.2 as int), width as int);
    let y1 = min(min(bbox.3 as int, visible.3 as int), height as int);
    let s = pow2(level as nat);
    lemma_pow2_range(level as nat);
    if x0 < x1 && y0 < y1 {
        lemma_step_division(x0, s);
        lemma_step_division(y0, s);
        lemma_step_division(x1, s);
        lemma_step_division(y1, s);
        lemma_step_division(width as int, s);
        lemma_step_division(height as int, s);
        let fx = x0 / s;
        let fy = y0 / s;
        let cx = (x1 + s - 1) / s;
        let cy = (y1 + s - 1) / s;
        let cw = spec_div_ceil(width as int, s);
        let ch = spec_div_ceil(height as int, s);
        // The box's far edge is on the canvas, so its column is one of the
        // canvas's; and it lies past the near edge.
        lemma_step_order(cx - 1, cw, s);
        lemma_step_order(cy - 1, ch, s);
        lemma_step_order(fx, cx, s);
        lemma_step_order(fy, cy, s);
        assert(min(cx, cw) == cx);
        assert(min(cy, ch) == cy);
        let i0 = fx - 1;
        let j0 = fy - 1;
        let i1 = cx + 1;
        let j1 = cy + 1;
        assert(i1 - i0 >= 2 && j1 - j0 >= 2);
        assert(0 <= fx <= x0) by (nonlinear_arith)
            requires
                fx * s <= x0,
                s >= 1,
                fx >= 0,
        ;
        assert(0 <= fy <= y0) by (nonlinear_arith)
            requires
                fy * s <= y0,
                s >= 1,
                fy >= 0,
        ;
        assert(cx <= cw && cw <= width as int) by (nonlinear_arith)
            requires
                cx - 1 < cw,
                (cw - 1) * s < width,
                s >= 1,
                cw >= 0,
        ;
        assert(cy <= ch && ch <= height as int) by (nonlinear_arith)
            requires
                cy - 1 < ch,
                (ch - 1) * s < height,
                s >= 1,
                ch >= 0,
        ;
        let win = spec_sample_window(bbox, visible, width, height, level)->0;
        assert(win.i0 == i0 && win.j0 == j0);
        assert(win.w == i1 - i0 && win.h == j1 - j0);
        assert(win.step == s);
        assert((win.i0 + win.w) * s == (cx + 1) * s);
        assert((cx + 1) * s == cx * s + s) by (nonlinear_arith);
        assert((win.j0 + win.h) * s == (cy + 1) * s);
        assert((cy + 1) * s == cy * s + s) by (nonlinear_arith);
        assert((win.i0 + win.w - 2) * s == (cx - 1) * s);
        assert((win.j0 + win.h - 2) * s == (cy - 1) * s);
        assert((win.i0 + win.w - 1) * s == cx * s);
        assert((win.j0 + win.h - 1) * s == cy * s);
        assert((win.i0 + 1) * s == fx * s);
        assert((win.j0 + 1) * s == fy * s);
        assert((win.i0 + 2) * s == fx * s + s) by (nonlinear_arith)
            requires
                win.i0 + 1 == fx,
        ;
        assert((win.j0 + 2) * s == fy * s + s) by (nonlinear_arith)
            requires
                win.j0 + 1 == fy,
        ;
        assert((cx - 1) * s <= (cw - 1) * s) by (nonlinear_arith)
            requires
                cx <= cw,
                s >= 1,
        ;
        assert((cy - 1) * s <= (ch - 1) * s) by (nonlinear_arith)
            requires
                cy <= ch,
                s >= 1,
        ;
    }
}

/// The products a window's positions are made of stay well inside `i64`.
pub open spec fn fits(v: int) -> bool {
    -0x1000_0000_0000_0000 <= v <= 0x1000_0000_0000_0000
}

/// Where a sample of the window is read, in document pixels: the centre of
/// level-L pixel `i0 + i` (and `j0 + j`), as the view samples it.
pub fn sample_position(window: &SampleWindow, i: usize, j: usize) -> (p: Point)
    requires
        modest(window.i0),
        modest(window.j0),
        1 <= window.step <= 0x1000_0000_0000_0000,
        0 <= window.half <= window.step,
        i <= 0x1000_0000,
        j <= 0x1000_0000,
        fits((window.i0 + i) * window.step),
        fits((window.j0 + j) * window.step),
    ensures
        p.0 == (window.i0 + i) * window.step + window.half,
        p.1 == (window.j0 + j) * window.step + window.half,
{
    let a = window.i0 + i as i64;
    let b = window.j0 + j as i64;
    (a * window.step + window.half, b * window.step + window.half)
}

/// A corner of the sample grid in document pixels: grid corner `(i, j)` is
/// where level-L pixel `(i0 + i, j0 + j)` starts.
pub fn corner_position(window: &SampleWindow, p: Point) -> (q: Point)
    requires
        modest(window.i0),
        modest(window.j0),
        0 <= p.0 <= 0x1000_0000,
        0 <= p.1 <= 0x1000_0000,
        fits((window.i0 + p.0) * window.step),
        fits((window.j0 + p.1) * window.step),
    ensures
        q.0 == (window.i0 + p.0) * window.step,
        q.1 == (window.j0 + p.1) * window.step,
{
    let a = window.i0 + p.0;
    let b = window.j0 + p.1;
    (a * window.step, b * window.step)
}

} // verus!
