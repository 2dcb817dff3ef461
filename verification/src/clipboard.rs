//! The clipboard's pixel logic.
//!
//! Copied pixels stay tiled: a copy keeps the layer's tiles and offset and
//! the canvas rectangle of its pixels with alpha above zero. A copy of at
//! most [`OS_LIMIT`] pixels on a side is also handed to the shell as straight
//! RGBA8 rows, and RGBA8 rows another program put on the system clipboard
//! come back as clipboard content at the canvas origin.
//!
//! The tiled image is held as plain values ([`Raster`]).
use vstd::prelude::*;

use crate::channels::{law_widening_round_trips, round8, spec_round8, spec_to16, to16};
use crate::raster::{filled, lemma_next_row, lemma_slot_index, tiles_for, Raster, Slot, TILE, TILE_VALUES};

verus! {

/// Largest side of a copy that also goes to the system clipboard.
pub const OS_LIMIT: u32 = 8192;

// ---------------------------------------------------------------------------
// Bounding boxes
// ---------------------------------------------------------------------------

/// A box `(x0, y0, x1, y1)`, exclusive at the far edges.
pub type Bounds = (int, int, int, int);

/// `b` is the bounding box of the points where `p` holds: `None` when there
/// are none; otherwise every such point is inside `b` and each edge of `b`
/// touches one.
pub open spec fn box_of(p: spec_fn(int, int) -> bool, b: Option<Bounds>) -> bool {
    match b {
        None => forall|x: int, y: int| !#[trigger] p(x, y),
        Some(r) => {
            &&& forall|x: int, y: int| #[trigger] p(x, y) ==> r.0 <= x < r.2 && r.1 <= y < r.3
            &&& exists|x: int, y: int| #[trigger] p(x, y) && x == r.0
            &&& exists|x: int, y: int| #[trigger] p(x, y) && y == r.1
            &&& exists|x: int, y: int| #[trigger] p(x, y) && x + 1 == r.2
            &&& exists|x: int, y: int| #[trigger] p(x, y) && y + 1 == r.3
        },
    }
}

/// The box grown to take in the point `(x, y)`.
pub open spec fn grown(b: Option<Bounds>, x: int, y: int) -> Bounds {
    match b {
        None => (x, y, x + 1, y + 1),
        Some(r) => (
            if x < r.0 { x } else { r.0 },
            if y < r.1 { y } else { r.1 },
            if x + 1 > r.2 { x + 1 } else { r.2 },
            if y + 1 > r.3 { y + 1 } else { r.3 },
        ),
    }
}

/// Two predicates that agree everywhere have the same box.
proof fn lemma_box_of_same(p: spec_fn(int, int) -> bool, q: spec_fn(int, int) -> bool, b: Option<Bounds>)
    requires
        box_of(p, b),
        forall|x: int, y: int| #[trigger] p(x, y) == q(x, y),
    ensures
        box_of(q, b),
{
    match b {
        None => {
            assert forall|x: int, y: int| !#[trigger] q(x, y) by {
                assert(p(x, y) == q(x, y));
            }
        },
        Some(r) => {
            assert forall|x: int, y: int| #[trigger] q(x, y) implies r.0 <= x < r.2 && r.1 <= y < r.3 by {
                assert(p(x, y) == q(x, y));
            }
            let (x, y) = choose|x: int, y: int| #[trigger] p(x, y) && x == r.0;
            assert(q(x, y) && x == r.0);
            let (x, y) = choose|x: int, y: int| #[trigger] p(x, y) && y == r.1;
            assert(q(x, y) && y == r.1);
            let (x, y) = choose|x: int, y: int| #[trigger] p(x, y) && x + 1 == r.2;
            assert(q(x, y) && x + 1 == r.2);
            let (x, y) = choose|x: int, y: int| #[trigger] p(x, y) && y + 1 == r.3;
            assert(q(x, y) && y + 1 == r.3);
        },
    }
}

/// Taking in one more point where `q` holds grows the box to [`grown`].
proof fn lemma_box_of_grown(p: spec_fn(int, int) -> bool, q: spec_fn(int, int) -> bool, b: Option<Bounds>, px: int, py: int)
    requires
        box_of(p, b),
        q(px, py),
        forall|x: int, y: int| #[trigger] q(x, y) == (p(x, y) || (x == px && y == py)),
    ensures
        box_of(q, Some(grown(b, px, py))),
{
    let g = grown(b, px, py);
    match b {
        None => {
            assert(q(px, py) && px == g.0);
            assert(q(px, py) && py == g.1);
            assert(q(px, py) && px + 1 == g.2);
            assert(q(px, py) && py + 1 == g.3);
        },
        Some(r) => {
            if px < r.0 {
                assert(q(px, py) && px == g.0);
            } else {
                let (x, y) = choose|x: int, y: int| #[trigger] p(x, y) && x == r.0;
                assert(q(x, y) && x == g.0);
            }
            if py < r.1 {
                assert(q(px, py) && py == g.1);
            } else {
                let (x, y) = choose|x: int, y: int| #[trigger] p(x, y) && y == r.1;
                assert(q(x, y) && y == g.1);
            }
            if px + 1 > r.2 {
                assert(q(px, py) && px + 1 == g.2);
            } else {
                let (x, y) = choose|x: int, y: int| #[trigger] p(x, y) && x + 1 == r.2;
                assert(q(x, y) && x + 1 == g.2);
            }
            if py + 1 > r.3 {
                assert(q(px, py) && py + 1 == g.3);
            } else {
                let (x, y) = choose|x: int, y: int| #[trigger] p(x, y) && y + 1 == r.3;
                assert(q(x, y) && y + 1 == g.3);
            }
        },
    }
}

/// The box of `b` as integers.
pub open spec fn wide(b: Option<(i64, i64, i64, i64)>) -> Option<Bounds> {
    match b {
        None => None,
        Some(r) => Some((r.0 as int, r.1 as int, r.2 as int, r.3 as int)),
    }
}

/// Grow the box `b` to take in the point `(x, y)`.
fn grow(b: Option<(i64, i64, i64, i64)>, x: i64, y: i64) -> (g: Option<(i64, i64, i64, i64)>)
    requires
        x < i64::MAX,
        y < i64::MAX,
    ensures
        wide(g) == Some(grown(wide(b), x as int, y as int)),
{
    match b {
        None => Some((x, y, x + 1, y + 1)),
        Some((x0, y0, x1, y1)) => Some((
            if x < x0 { x } else { x0 },
            if y < y0 { y } else { y0 },
            if x + 1 > x1 { x + 1 } else { x1 },
            if y + 1 > y1 { y + 1 } else { y1 },
        )),
    }
}

/// A predicate has at most one bounding box.
proof fn lemma_box_of_unique(p: spec_fn(int, int) -> bool, a: Option<Bounds>, b: Option<Bounds>)
    requires
        box_of(p, a),
        box_of(p, b),
    ensures
        a == b,
{
    match (a, b) {
        (Some(r), Some(s)) => {
            let (x, y) = choose|x: int, y: int| #[trigger] p(x, y) && x == r.0;
            let (x, y) = choose|x: int, y: int| #[trigger] p(x, y) && x == s.0;
            let (x, y) = choose|x: int, y: int| #[trigger] p(x, y) && y == r.1;
            let (x, y) = choose|x: int, y: int| #[trigger] p(x, y) && y == s.1;
            let (x, y) = choose|x: int, y: int| #[trigger] p(x, y) && x + 1 == r.2;
            let (x, y) = choose|x: int, y: int| #[trigger] p(x, y) && x + 1 == s.2;
            let (x, y) = choose|x: int, y: int| #[trigger] p(x, y) && y + 1 == r.3;
            let (x, y) = choose|x: int, y: int| #[trigger] p(x, y) && y + 1 == s.3;
        },
        (Some(r), None) => {
            let (x, y) = choose|x: int, y: int| #[trigger] p(x, y) && x == r.0;
        },
        (None, Some(s)) => {
            let (x, y) = choose|x: int, y: int| #[trigger] p(x, y) && x == s.0;
        },
        (None, None) => {},
    }
}

/// Moving every point by `(dx, dy)` moves the box with it.
proof fn lemma_box_of_shift(p: spec_fn(int, int) -> bool, q: spec_fn(int, int) -> bool, r: Bounds, dx: int, dy: int)
    requires
        box_of(p, Some(r)),
        forall|x: int, y: int| #[trigger] q(x, y) == p(x - dx, y - dy),
    ensures
        box_of(q, Some((r.0 + dx, r.1 + dy, r.2 + dx, r.3 + dy))),
{
    assert forall|x: int, y: int| #[trigger] q(x, y) implies r.0 + dx <= x < r.2 + dx && r.1 + dy <= y < r.3 + dy by {
        assert(p(x - dx, y - dy));
    }
    let (x, y) = choose|x: int, y: int| #[trigger] p(x, y) && x == r.0;
    assert(q(x + dx, y + dy) && x + dx == r.0 + dx);
    let (x, y) = choose|x: int, y: int| #[trigger] p(x, y) && y == r.1;
    assert(q(x + dx, y + dy) && y + dy == r.1 + dy);
    let (x, y) = choose|x: int, y: int| #[trigger] p(x, y) && x + 1 == r.2;
    assert(q(x + dx, y + dy) && x + dx + 1 == r.2 + dx);
    let (x, y) = choose|x: int, y: int| #[trigger] p(x, y) && y + 1 == r.3;
    assert(q(x + dx, y + dy) && y + dy + 1 == r.3 + dy);
}

// ---------------------------------------------------------------------------
// The box of the non-empty tiles
// ---------------------------------------------------------------------------

/// Whether `(a, b)` comes before `(c, d)` in row-major order.
pub open spec fn before(a: int, b: int, c: int, d: int) -> bool {
    b < d || (b == d && a < c)
}

impl Raster {
    /// Whether tile `(tx, ty)` is on the grid and holds pixels.
    pub open spec fn tile_filled(&self, tx: int, ty: int) -> bool {
        0 <= tx < self.cols() && 0 <= ty < self.rows() && filled(self.slot(tx, ty))
    }

    /// The box, in tiles, of the tiles that hold pixels.
    pub open spec fn tile_box(&self) -> Option<Bounds> {
        if exists|b: Bounds| box_of(|tx: int, ty: int| self.tile_filled(tx, ty), Some(b)) {
            Some(choose|b: Bounds| box_of(|tx: int, ty: int| self.tile_filled(tx, ty), Some(b)))
        } else {
            None
        }
    }
}

/// Whatever box the tiles have is [`Raster::tile_box`].
proof fn lemma_tile_box(image: &Raster, b: Option<Bounds>)
    requires
        box_of(|tx: int, ty: int| image.tile_filled(tx, ty), b),
    ensures
        image.tile_box() == b,
{
    let p = |tx: int, ty: int| image.tile_filled(tx, ty);
    match b {
        Some(r) => {
            let c = choose|c: Bounds| box_of(p, Some(c));
            lemma_box_of_unique(p, Some(c), b);
        },
        None => {
            if exists|c: Bounds| box_of(p, Some(c)) {
                let c = choose|c: Bounds| box_of(p, Some(c));
                lemma_box_of_unique(p, Some(c), b);
            }
        },
    }
}

/// The box, in tiles, of the tiles that hold pixels.
fn tile_bounds(image: &Raster) -> (tb: Option<(i64, i64, i64, i64)>)
    requires
        image.wf(),
    ensures
        box_of(|tx: int, ty: int| image.tile_filled(tx, ty), wide(tb)),
{
    let cols: u32 = image.width / TILE + if image.width % TILE == 0 { 0 } else { 1 };
    let rows: u32 = image.height / TILE + if image.height % TILE == 0 { 0 } else { 1 };
    assert(cols == image.cols() && rows == image.rows());
    let mut cur: Option<(i64, i64, i64, i64)> = None;
    let n = image.slots.len();
    let mut k: usize = 0;
    let mut ty: u32 = 0;
    while ty < rows
        invariant
            image.wf(),
            n == image.slots@.len(),
            cols == image.cols(),
            rows == image.rows(),
            ty <= rows,
            k == ty * cols,
            box_of(|x: int, y: int| image.tile_filled(x, y) && y < ty, wide(cur)),
        decreases rows - ty,
    {
        proof {
            lemma_next_row(ty as int, cols as int, rows as int);
            let p = |x: int, y: int| image.tile_filled(x, y) && y < ty;
            let q = |x: int, y: int| image.tile_filled(x, y) && before(x, y, 0, ty as int);
            lemma_box_of_same(p, q, wide(cur));
        }
        let mut tx: u32 = 0;
        while tx < cols
            invariant
                image.wf(),
                n == image.slots@.len(),
                cols == image.cols(),
                rows == image.rows(),
                ty < rows,
                tx <= cols,
                k == ty * cols + tx,
                (ty + 1) * cols == ty * cols + cols,
                (ty + 1) * cols <= cols * rows,
                box_of(|x: int, y: int| image.tile_filled(x, y) && before(x, y, tx as int, ty as int), wide(cur)),
            decreases cols - tx,
        {
            let ghost p = |x: int, y: int| image.tile_filled(x, y) && before(x, y, tx as int, ty as int);
            let ghost q = |x: int, y: int| image.tile_filled(x, y) && before(x, y, tx + 1, ty as int);
            assert(image.slot(tx as int, ty as int) == image.slots@[k as int]);
            let full = match &image.slots[k] {
                Slot::Empty => false,
                _ => true,
            };
            if full {
                proof {
                    lemma_box_of_grown(p, q, wide(cur), tx as int, ty as int);
                }
                cur = grow(cur, tx as i64, ty as i64);
            } else {
                proof {
                    lemma_box_of_same(p, q, wide(cur));
                }
            }
            k = k + 1;
            tx = tx + 1;
        }
        proof {
            let p = |x: int, y: int| image.tile_filled(x, y) && before(x, y, cols as int, ty as int);
            let q = |x: int, y: int| image.tile_filled(x, y) && y < ty + 1;
            lemma_box_of_same(p, q, wide(cur));
        }
        ty = ty + 1;
    }
    proof {
        let p = |x: int, y: int| image.tile_filled(x, y) && y < ty;
        let q = |x: int, y: int| image.tile_filled(x, y);
        lemma_box_of_same(p, q, wide(cur));
    }
    cur
}

// ---------------------------------------------------------------------------
// The box of the pixels with alpha
// ---------------------------------------------------------------------------

/// Whether tile `(tx, ty)` is on the edge of the box `tb` of tiles.
pub open spec fn on_border(tb: Bounds, tx: int, ty: int) -> bool {
    tx == tb.0 || tx + 1 == tb.2 || ty == tb.1 || ty + 1 == tb.3
}

impl Raster {
    /// Whether pixel `(x, y)` counts as having alpha and its tile is on the
    /// edge of the box `tb` of tiles.
    pub open spec fn counted(&self, tb: Bounds, x: int, y: int) -> bool {
        self.covered(x, y) && on_border(tb, x / 256, y / 256)
    }

    /// The pixels the clipboard's bounds are taken from: those with alpha
    /// in the tiles on the edge of the box of the tiles that hold pixels
    /// (a tile inside that box cannot move its edges).
    pub open spec fn alpha_pixel(&self, x: int, y: int) -> bool {
        match self.tile_box() {
            None => false,
            Some(tb) => self.counted(tb, x, y),
        }
    }
}

/// The box of `b` as integers.
pub open spec fn wide32(b: Option<(i32, i32, i32, i32)>) -> Option<Bounds> {
    match b {
        None => None,
        Some(r) => Some((r.0 as int, r.1 as int, r.2 as int, r.3 as int)),
    }
}

/// The boxes met while scanning stay on the image.
pub open spec fn on_image(b: Option<(i64, i64, i64, i64)>) -> bool {
    match b {
        None => true,
        Some(r) => 0 <= r.0 <= 0x8000_0000 && 0 <= r.1 <= 0x8000_0000 && 0 <= r.2 <= 0x8000_0000 && 0 <= r.3
            <= 0x8000_0000,
    }
}

/// Grow `cur` by the pixels of tile `(tx, ty)` (slot `k`) that count for
/// the tile box `tb`.
#[verifier::rlimit(60)]
fn scan_tile(image: &Raster, tb: Ghost<Bounds>, on_edge: bool, k: usize, tx: u32, ty: u32, cur: Option<(i64, i64, i64, i64)>) -> (res: Option<(i64, i64, i64, i64)>)
    requires
        image.wf(),
        tx < image.cols(),
        ty < image.rows(),
        k < image.slots@.len(),
        image.slots@[k as int] == image.slot(tx as int, ty as int),
        on_edge == on_border(tb@, tx as int, ty as int),
        on_image(cur),
        box_of(|x: int, y: int| image.counted(tb@, x, y) && before(x / 256, y / 256, tx as int, ty as int), wide(cur)),
    ensures
        on_image(res),
        box_of(
            |x: int, y: int|
                image.counted(tb@, x, y) && (before(x / 256, y / 256, tx as int, ty as int) || (x / 256 == tx
                    && y / 256 == ty)),
            wide(res),
        ),
{
    let ghost p0 = |x: int, y: int| image.counted(tb@, x, y) && before(x / 256, y / 256, tx as int, ty as int);
    let ghost done = |x: int, y: int|
        image.counted(tb@, x, y) && (before(x / 256, y / 256, tx as int, ty as int) || (x / 256 == tx && y / 256
            == ty));
    let full = match &image.slots[k] {
        Slot::Empty => false,
        _ => true,
    };
    if !full || !on_edge {
        proof {
            lemma_box_of_same(p0, done, wide(cur));
        }
        return cur;
    }
    let bx: u32 = tx * TILE;
    let by: u32 = ty * TILE;
    let vw: u32 = if image.width - bx < TILE { image.width - bx } else { TILE };
    let vh: u32 = if image.height - by < TILE { image.height - by } else { TILE };
    let mut cur = cur;
    let mut py: u32 = 0;
    proof {
        let q = |x: int, y: int|
            image.counted(tb@, x, y) && (before(x / 256, y / 256, tx as int, ty as int) || (x / 256 == tx && y
                / 256 == ty && before(x % 256, y % 256, 0, 0)));
        lemma_box_of_same(p0, q, wide(cur));
    }
    while py < vh
        invariant
            image.wf(),
            tx < image.cols(),
            ty < image.rows(),
            k < image.slots@.len(),
            image.slots@[k as int] == image.slot(tx as int, ty as int),
            filled(image.slot(tx as int, ty as int)),
            on_border(tb@, tx as int, ty as int),
            bx == tx * 256,
            by == ty * 256,
            vw == if image.width - bx < 256 { image.width - bx } else { 256 },
            vh == if image.height - by < 256 { image.height - by } else { 256 },
            py <= vh,
            on_image(cur),
            box_of(
                |x: int, y: int|
                    image.counted(tb@, x, y) && (before(x / 256, y / 256, tx as int, ty as int) || (x / 256 == tx
                        && y / 256 == ty && before(x % 256, y % 256, 0, py as int))),
                wide(cur),
            ),
        decreases vh - py,
    {
        let mut px: u32 = 0;
        while px < vw
            invariant
                image.wf(),
                tx < image.cols(),
                ty < image.rows(),
                k < image.slots@.len(),
                image.slots@[k as int] == image.slot(tx as int, ty as int),
                filled(image.slot(tx as int, ty as int)),
                on_border(tb@, tx as int, ty as int),
                bx == tx * 256,
                by == ty * 256,
                vw == if image.width - bx < 256 { image.width - bx } else { 256 },
                vh == if image.height - by < 256 { image.height - by } else { 256 },
                py < vh,
                px <= vw,
                on_image(cur),
                box_of(
                    |x: int, y: int|
                        image.counted(tb@, x, y) && (before(x / 256, y / 256, tx as int, ty as int) || (x / 256
                            == tx && y / 256 == ty && before(x % 256, y % 256, px as int, py as int))),
                    wide(cur),
                ),
            decreases vw - px,
        {
            let ghost p = |x: int, y: int|
                image.counted(tb@, x, y) && (before(x / 256, y / 256, tx as int, ty as int) || (x / 256 == tx
                    && y / 256 == ty && before(x % 256, y % 256, px as int, py as int)));
            let ghost q = |x: int, y: int|
                image.counted(tb@, x, y) && (before(x / 256, y / 256, tx as int, ty as int) || (x / 256 == tx
                    && y / 256 == ty && before(x % 256, y % 256, px + 1, py as int)));
            let (x, y) = (bx + px, by + py);
            assert(x / 256 == tx && x % 256 == px && y / 256 == ty && y % 256 == py);
            let alpha = match &image.slots[k] {
                Slot::Empty => false,
                Slot::Solid(_) => true,
                Slot::Data(d) => d[((py * TILE + px) * 4 + 3) as usize] > 0,
            };
            assert(alpha == image.counted(tb@, x as int, y as int));
            if alpha {
                proof {
                    lemma_box_of_grown(p, q, wide(cur), x as int, y as int);
                }
                cur = grow(cur, x as i64, y as i64);
            } else {
                proof {
                    lemma_box_of_same(p, q, wide(cur));
                }
            }
            px = px + 1;
        }
        proof {
            let p = |x: int, y: int|
                image.counted(tb@, x, y) && (before(x / 256, y / 256, tx as int, ty as int) || (x / 256 == tx
                    && y / 256 == ty && before(x % 256, y % 256, vw as int, py as int)));
            let q = |x: int, y: int|
                image.counted(tb@, x, y) && (before(x / 256, y / 256, tx as int, ty as int) || (x / 256 == tx
                    && y / 256 == ty && before(x % 256, y % 256, 0, py + 1)));
            lemma_box_of_same(p, q, wide(cur));
        }
        py = py + 1;
    }
    proof {
        let p = |x: int, y: int|
            image.counted(tb@, x, y) && (before(x / 256, y / 256, tx as int, ty as int) || (x / 256 == tx && y
                / 256 == ty && before(x % 256, y % 256, 0, vh as int)));
        lemma_box_of_same(p, done, wide(cur));
    }
    cur
}

/// The canvas rectangle `(x0, y0, x1, y1)` (exclusive) of the pixels with
/// alpha above zero, for an image placed at `offset`: the box of the
/// non-empty tiles, refined on its edge tiles ([`Raster::alpha_pixel`]).
/// `None` when there are none.
pub fn alpha_bounds(image: &Raster, offset: (i32, i32)) -> (bounds: Option<(i32, i32, i32, i32)>)
    requires
        image.wf(),
        offset.0 + image.width <= i32::MAX,
        offset.1 + image.height <= i32::MAX,
    ensures
        box_of(|x: int, y: int| image.alpha_pixel(x - offset.0, y - offset.1), wide32(bounds)),
{
    let tiles = tile_bounds(image);
    proof {
        lemma_tile_box(image, wide(tiles));
    }
    let (tx0, ty0, tx1, ty1) = match tiles {
        None => {
            proof {
                let q = |x: int, y: int| image.alpha_pixel(x - offset.0, y - offset.1);
                assert forall|x: int, y: int| !#[trigger] q(x, y) by {}
            }
            return None;
        },
        Some(b) => b,
    };
    let ghost tb: Bounds = (tx0 as int, ty0 as int, tx1 as int, ty1 as int);
    let cols: u32 = image.width / TILE + if image.width % TILE == 0 { 0 } else { 1 };
    let rows: u32 = image.height / TILE + if image.height % TILE == 0 { 0 } else { 1 };
    let n = image.slots.len();
    let mut cur: Option<(i64, i64, i64, i64)> = None;
    let mut k: usize = 0;
    let mut ty: u32 = 0;
    while ty < rows
        invariant
            image.wf(),
            n == image.slots@.len(),
            cols == image.cols(),
            rows == image.rows(),
            ty <= rows,
            k == ty * cols,
            tb == (tx0 as int, ty0 as int, tx1 as int, ty1 as int),
            on_image(cur),
            box_of(|x: int, y: int| image.counted(tb, x, y) && y / 256 < ty, wide(cur)),
        decreases rows - ty,
    {
        proof {
            lemma_next_row(ty as int, cols as int, rows as int);
            let p = |x: int, y: int| image.counted(tb, x, y) && y / 256 < ty;
            let q = |x: int, y: int| image.counted(tb, x, y) && before(x / 256, y / 256, 0, ty as int);
            lemma_box_of_same(p, q, wide(cur));
        }
        let mut tx: u32 = 0;
        while tx < cols
            invariant
                image.wf(),
                n == image.slots@.len(),
                cols == image.cols(),
                rows == image.rows(),
                ty < rows,
                tx <= cols,
                k == ty * cols + tx,
                (ty + 1) * cols == ty * cols + cols,
                (ty + 1) * cols <= cols * rows,
                tb == (tx0 as int, ty0 as int, tx1 as int, ty1 as int),
                on_image(cur),
                box_of(
                    |x: int, y: int| image.counted(tb, x, y) && before(x / 256, y / 256, tx as int, ty as int),
                    wide(cur),
                ),
            decreases cols - tx,
        {
            let on_edge = tx as i64 == tx0 || tx as i64 + 1 == tx1 || ty as i64 == ty0 || ty as i64 + 1 == ty1;
            cur = scan_tile(image, Ghost(tb), on_edge, k, tx, ty, cur);
            proof {
                let p = |x: int, y: int|
                    image.counted(tb, x, y) && (before(x / 256, y / 256, tx as int, ty as int) || (x / 256 == tx
                        && y / 256 == ty));
                let q = |x: int, y: int| image.counted(tb, x, y) && before(x / 256, y / 256, tx + 1, ty as int);
                lemma_box_of_same(p, q, wide(cur));
            }
            k = k + 1;
            tx = tx + 1;
        }
        proof {
            let p = |x: int, y: int| image.counted(tb, x, y) && before(x / 256, y / 256, cols as int, ty as int);
            let q = |x: int, y: int| image.counted(tb, x, y) && y / 256 < ty + 1;
            lemma_box_of_same(p, q, wide(cur));
        }
        ty = ty + 1;
    }
    let ghost all = |x: int, y: int| image.alpha_pixel(x, y);
    proof {
        let p = |x: int, y: int| image.counted(tb, x, y) && y / 256 < ty;
        lemma_box_of_same(p, all, wide(cur));
    }
    let ghost shifted = |x: int, y: int| image.alpha_pixel(x - offset.0, y - offset.1);
    match cur {
        None => {
            proof {
                assert forall|x: int, y: int| !#[trigger] shifted(x, y) by {
                    assert(!all(x - offset.0, y - offset.1));
                }
            }
            None
        },
        Some((x0, y0, x1, y1)) => {
            proof {
                lemma_box_of_shift(all, shifted, (x0 as int, y0 as int, x1 as int, y1 as int), offset.0 as int, offset.1 as int);
                let (x, y) = choose|x: int, y: int| #[trigger] all(x, y) && x + 1 == x1;
                let (x, y) = choose|x: int, y: int| #[trigger] all(x, y) && y + 1 == y1;
            }
            let (ox, oy) = (offset.0 as i64, offset.1 as i64);
            Some(((x0 + ox) as i32, (y0 + oy) as i32, (x1 + ox) as i32, (y1 + oy) as i32))
        },
    }
}

/// Every predicate that holds only on a `cols × rows` grid has a box; here,
/// the points of rows before `h` and of row `h` before column `w`.
proof fn lemma_box_exists(p: spec_fn(int, int) -> bool, cols: int, h: int, w: int) -> (b: Option<Bounds>)
    requires
        cols >= 0,
        h >= 0,
        0 <= w <= cols,
        forall|x: int, y: int| #[trigger] p(x, y) ==> 0 <= x < cols && 0 <= y,
    ensures
        box_of(|x: int, y: int| p(x, y) && before(x, y, w, h), b),
    decreases h, w,
{
    let here = |x: int, y: int| p(x, y) && before(x, y, w, h);
    if w == 0 && h == 0 {
        assert forall|x: int, y: int| !#[trigger] here(x, y) by {}
        None
    } else if w == 0 {
        let b = lemma_box_exists(p, cols, h - 1, cols);
        lemma_box_of_same(|x: int, y: int| p(x, y) && before(x, y, cols, h - 1), here, b);
        b
    } else {
        let prev = |x: int, y: int| p(x, y) && before(x, y, w - 1, h);
        let b = lemma_box_exists(p, cols, h, w - 1);
        if p(w - 1, h) {
            lemma_box_of_grown(prev, here, b, w - 1, h);
            Some(grown(b, w - 1, h))
        } else {
            lemma_box_of_same(prev, here, b);
            b
        }
    }
}

/// Whether tile `(tx, ty)` holds a pixel that counts as having alpha.
pub open spec fn tile_has_alpha(image: &Raster, tx: int, ty: int) -> bool {
    exists|x: int, y: int| #[trigger] image.covered(x, y) && x / 256 == tx && y / 256 == ty
}

/// The bounds are exact across tiles: when every tile that holds pixels
/// holds one with alpha, the box of the pixels [`alpha_bounds`] reads is
/// the box of all the pixels with alpha.
pub proof fn law_alpha_bounds_are_exact(image: &Raster, b: Option<Bounds>)
    requires
        image.wf(),
        forall|tx: int, ty: int| #[trigger] image.tile_filled(tx, ty) ==> tile_has_alpha(image, tx, ty),
        box_of(|x: int, y: int| image.alpha_pixel(x, y), b),
    ensures
        box_of(|x: int, y: int| image.covered(x, y), b),
{
    let alpha = |x: int, y: int| image.alpha_pixel(x, y);
    let covered = |x: int, y: int| image.covered(x, y);
    let tiles = |tx: int, ty: int| image.tile_filled(tx, ty);
    assert forall|x: int, y: int| #[trigger] image.covered(x, y) implies image.tile_filled(x / 256, y / 256) by {}
    match image.tile_box() {
        None => {
            let c = lemma_box_exists(tiles, image.cols(), image.rows(), 0);
            lemma_box_of_same(|x: int, y: int| tiles(x, y) && before(x, y, 0, image.rows()), tiles, c);
            lemma_tile_box(image, c);
            assert forall|x: int, y: int| !#[trigger] covered(x, y) by {
                if covered(x, y) {
                    assert(tiles(x / 256, y / 256));
                }
            }
            lemma_box_of_same(covered, alpha, None);
            lemma_box_of_unique(alpha, None, b);
        },
        Some(tb) => {
            assert(box_of(tiles, Some(tb)));
            match b {
                None => {
                    // The tile on the box's left edge holds a pixel that counts.
                    let (tx, ty) = choose|tx: int, ty: int| #[trigger] tiles(tx, ty) && tx == tb.0;
                    let (x, y) = choose|x: int, y: int| #[trigger] image.covered(x, y) && x / 256 == tx && y / 256 == ty;
                    assert(alpha(x, y));
                },
                Some(r) => {
                    let (lx, ly) = choose|tx: int, ty: int| #[trigger] tiles(tx, ty) && tx == tb.0;
                    let (ax, ay) = choose|x: int, y: int| #[trigger] image.covered(x, y) && x / 256 == lx && y / 256 == ly;
                    assert(alpha(ax, ay));
                    let (tx, ty) = choose|tx: int, ty: int| #[trigger] tiles(tx, ty) && ty == tb.1;
                    let (bx, by) = choose|x: int, y: int| #[trigger] image.covered(x, y) && x / 256 == tx && y / 256 == ty;
                    assert(alpha(bx, by));
                    let (tx, ty) = choose|tx: int, ty: int| #[trigger] tiles(tx, ty) && tx + 1 == tb.2;
                    let (cx, cy) = choose|x: int, y: int| #[trigger] image.covered(x, y) && x / 256 == tx && y / 256 == ty;
                    assert(alpha(cx, cy));
                    let (tx, ty) = choose|tx: int, ty: int| #[trigger] tiles(tx, ty) && ty + 1 == tb.3;
                    let (dx, dy) = choose|x: int, y: int| #[trigger] image.covered(x, y) && x / 256 == tx && y / 256 == ty;
                    assert(alpha(dx, dy));
                    assert forall|x: int, y: int| #[trigger] covered(x, y) implies r.0 <= x < r.2 && r.1 <= y < r.3 by {
                        assert(tiles(x / 256, y / 256));
                        if on_border(tb, x / 256, y / 256) {
                            assert(alpha(x, y));
                        }
                    }
                    let (x, y) = choose|x: int, y: int| #[trigger] alpha(x, y) && x == r.0;
                    assert(covered(x, y) && x == r.0);
                    let (x, y) = choose|x: int, y: int| #[trigger] alpha(x, y) && y == r.1;
                    assert(covered(x, y) && y == r.1);
                    let (x, y) = choose|x: int, y: int| #[trigger] alpha(x, y) && x + 1 == r.2;
                    assert(covered(x, y) && x + 1 == r.2);
                    let (x, y) = choose|x: int, y: int| #[trigger] alpha(x, y) && y + 1 == r.3;
                    assert(covered(x, y) && y + 1 == r.3);
                },
            }
        },
    }
}

// ---------------------------------------------------------------------------
// Clipboard content and the system clipboard
// ---------------------------------------------------------------------------

/// Copied pixels: the layer's tiles, its offset on the canvas, and the
/// canvas rectangle of its pixels with alpha (exclusive at the far edges).
pub struct ClipboardImage {
    pub image: Raster,
    pub offset: (i32, i32),
    pub bounds: (i32, i32, i32, i32),
}

/// The clipboard content a copy makes of `taken` (the copied pixels of a
/// layer at `offset`): `None` when none of them has alpha.
pub fn clip_of(taken: Raster, offset: (i32, i32)) -> (clip: Option<ClipboardImage>)
    requires
        taken.wf(),
        offset.0 + taken.width <= i32::MAX,
        offset.1 + taken.height <= i32::MAX,
    ensures
        match clip {
            None => forall|x: int, y: int| !#[trigger] taken.alpha_pixel(x, y),
            Some(c) => c.image == taken && c.offset == offset && box_of(
                |x: int, y: int| taken.alpha_pixel(x - offset.0, y - offset.1),
                wide32(Some(c.bounds)),
            ),
        },
{
    match alpha_bounds(&taken, offset) {
        None => {
            proof {
                let q = |x: int, y: int| taken.alpha_pixel(x - offset.0, y - offset.1);
                assert forall|x: int, y: int| !#[trigger] taken.alpha_pixel(x, y) by {
                    assert(!q(x + offset.0, y + offset.1));
                }
            }
            None
        },
        Some(bounds) => Some(ClipboardImage { image: taken, offset, bounds }),
    }
}

/// A channel value as a byte: rounded from 16 bits, or as it is.
pub open spec fn as_byte(v: u16, deep: bool) -> u8 {
    if deep {
        spec_round8(v)
    } else {
        v as u8
    }
}

/// Byte `c` of pixel `(x, y)` of the clipboard's RGBA8 rows: the image's
/// pixel under that point of the bounds, 0 off the image.
pub open spec fn os_byte(clip: &ClipboardImage, x: int, y: int, c: int) -> u8 {
    let ix = clip.bounds.0 + x - clip.offset.0;
    let iy = clip.bounds.1 + y - clip.offset.1;
    if clip.image.contains(ix, iy) {
        as_byte(clip.image.value(ix, iy, c), clip.image.deep)
    } else {
        0
    }
}

/// The clipboard's rows show the image's pixels under its bounds: byte `c`
/// of pixel `(x, y)` is channel `c` of the image's pixel at
/// `(bounds.0 + x − offset.0, bounds.1 + y − offset.1)`, as a byte, and 0
/// where that point is off the image — for any bounds and offset.
pub proof fn law_os_rows_show_the_pixels_under_the_bounds(clip: &ClipboardImage, x: int, y: int, c: int)
    ensures
        ({
            let px = clip.bounds.0 + x - clip.offset.0;
            let py = clip.bounds.1 + y - clip.offset.1;
            os_byte(clip, x, y, c) == if 0 <= px < clip.image.width && 0 <= py < clip.image.height {
                as_byte(clip.image.value(px, py, c), clip.image.deep)
            } else {
                0u8
            }
        }),
{
}

/// Moving the bounds moves what the rows show: bounds `(dx, dy)` further
/// along show at `(x, y)` what the first bounds show at `(x + dx, y + dy)`;
/// and an image moved by `(dx, dy)` shows at `(x, y)` what it showed at
/// `(x − dx, y − dy)`.
pub proof fn law_os_rows_follow_the_bounds(clip: &ClipboardImage, dx: int, dy: int, x: int, y: int, c: int)
    requires
        i32::MIN <= clip.bounds.0 + dx <= i32::MAX,
        i32::MIN <= clip.bounds.1 + dy <= i32::MAX,
        i32::MIN <= clip.bounds.2 + dx <= i32::MAX,
        i32::MIN <= clip.bounds.3 + dy <= i32::MAX,
        i32::MIN <= clip.offset.0 + dx <= i32::MAX,
        i32::MIN <= clip.offset.1 + dy <= i32::MAX,
    ensures
        ({
            let moved = ClipboardImage {
                image: clip.image,
                offset: clip.offset,
                bounds: (
                    (clip.bounds.0 + dx) as i32,
                    (clip.bounds.1 + dy) as i32,
                    (clip.bounds.2 + dx) as i32,
                    (clip.bounds.3 + dy) as i32,
                ),
            };
            os_byte(&moved, x, y, c) == os_byte(clip, x + dx, y + dy, c)
        }),
        ({
            let shifted = ClipboardImage {
                image: clip.image,
                offset: ((clip.offset.0 + dx) as i32, (clip.offset.1 + dy) as i32),
                bounds: clip.bounds,
            };
            os_byte(&shifted, x, y, c) == os_byte(clip, x - dx, y - dy, c)
        }),
{
}

/// Channel `c` of pixel `(x, y)` of `image`, as a byte.
fn byte_at(image: &Raster, x: u32, y: u32, c: usize) -> (b: u8)
    requires
        image.wf(),
        image.contains(x as int, y as int),
        c < 4,
    ensures
        b == as_byte(image.value(x as int, y as int, c as int), image.deep),
{
    let cols: u32 = image.width / TILE + if image.width % TILE == 0 { 0 } else { 1 };
    let (tx, ty) = (x / TILE, y / TILE);
    let n = image.slots.len();
    proof {
        lemma_slot_index(tx as int, ty as int, cols as int, image.rows());
    }
    let k = ty as usize * cols as usize + tx as usize;
    let v: u16 = match &image.slots[k] {
        Slot::Empty => 0,
        Slot::Solid(v) => v[c],
        Slot::Data(d) => d[(((y % TILE) * TILE + x % TILE) * 4) as usize + c],
    };
    if image.deep {
        round8(v)
    } else {
        v as u8
    }
}

/// The clipboard content as straight RGBA8 rows of its bounds, for the
/// system clipboard: `None` when the bounds are empty or more than
/// [`OS_LIMIT`] on a side (the pixels then stay internal).
pub fn os_pixels(clip: &ClipboardImage) -> (rows: Option<(u32, u32, Vec<u8>)>)
    requires
        clip.image.wf(),
        i32::MIN <= clip.bounds.2 - clip.bounds.0 <= i32::MAX,
        i32::MIN <= clip.bounds.3 - clip.bounds.1 <= i32::MAX,
    ensures
        rows is None <==> !(1 <= clip.bounds.2 - clip.bounds.0 <= OS_LIMIT && 1 <= clip.bounds.3 - clip.bounds.1
            <= OS_LIMIT),
        rows matches Some((w, h, out)) ==> {
            &&& w == clip.bounds.2 - clip.bounds.0
            &&& h == clip.bounds.3 - clip.bounds.1
            &&& out@.len() == w * h * 4
            &&& forall|x: int, y: int, c: int|
                0 <= x < w && 0 <= y < h && 0 <= c < 4 ==> #[trigger] out@[(y * w + x) * 4 + c] == os_byte(
                    clip,
                    x,
                    y,
                    c,
                )
        },
{
    let (x0, y0, x1, y1) = clip.bounds;
    let (dw, dh) = (x1 - x0, y1 - y0);
    if dw < 1 || dh < 1 || dw > OS_LIMIT as i32 || dh > OS_LIMIT as i32 {
        return None;
    }
    let (w, h) = (dw as u32, dh as u32);
    let image = &clip.image;
    let (ox, oy) = (clip.offset.0 as i64, clip.offset.1 as i64);
    let mut out: Vec<u8> = Vec::new();
    let mut y: u32 = 0;
    let mut row: usize = 0;
    while y < h
        invariant
            image == &clip.image,
            image.wf(),
            clip.bounds == (x0, y0, x1, y1),
            (ox, oy) == (clip.offset.0 as i64, clip.offset.1 as i64),
            w == x1 - x0,
            h == y1 - y0,
            1 <= w <= OS_LIMIT,
            1 <= h <= OS_LIMIT,
            y <= h,
            row == y * w,
            out@.len() == row * 4,
            forall|yy: int, xx: int, c: int|
                0 <= yy < y && 0 <= xx < w && 0 <= c < 4 ==> #[trigger] out@[(yy * w + xx) * 4 + c] == os_byte(
                    clip,
                    xx,
                    yy,
                    c,
                ),
        decreases h - y,
    {
        proof {
            assert((y + 1) * w == y * w + w) by (nonlinear_arith);
            assert((y + 1) * w <= OS_LIMIT * OS_LIMIT) by (nonlinear_arith)
                requires
                    y + 1 <= h <= OS_LIMIT,
                    w <= OS_LIMIT,
            ;
        }
        let iy = y0 as i64 + y as i64 - oy;
        let mut x: u32 = 0;
        while x < w
            invariant
                image == &clip.image,
                image.wf(),
                clip.bounds == (x0, y0, x1, y1),
                (ox, oy) == (clip.offset.0 as i64, clip.offset.1 as i64),
                w == x1 - x0,
                h == y1 - y0,
                1 <= w <= OS_LIMIT,
                1 <= h <= OS_LIMIT,
                y < h,
                x <= w,
                row == y * w,
                (y + 1) * w == y * w + w,
                (y + 1) * w <= OS_LIMIT * OS_LIMIT,
                iy == y0 + y - oy,
                out@.len() == (row + x) * 4,
                forall|yy: int, xx: int, c: int|
                    0 <= yy < y && 0 <= xx < w && 0 <= c < 4 ==> #[trigger] out@[(yy * w + xx) * 4 + c] == os_byte(
                        clip,
                        xx,
                        yy,
                        c,
                    ),
                forall|xx: int, c: int|
                    0 <= xx < x && 0 <= c < 4 ==> #[trigger] out@[(row + xx) * 4 + c] == os_byte(clip, xx, y as int, c),
            decreases w - x,
        {
            let ix = x0 as i64 + x as i64 - ox;
            let inside = 0 <= ix && ix < image.width as i64 && 0 <= iy && iy < image.height as i64;
            let ghost before_push = out@;
            let mut c: usize = 0;
            while c < 4
                invariant
                    image == &clip.image,
                    image.wf(),
                    clip.bounds == (x0, y0, x1, y1),
                    (ox, oy) == (clip.offset.0 as i64, clip.offset.1 as i64),
                    w == x1 - x0,
                    1 <= w <= OS_LIMIT,
                    y < h,
                    x < w,
                    c <= 4,
                    iy == y0 + y - oy,
                    ix == x0 + x - ox,
                    inside == image.contains(ix as int, iy as int),
                    out@.len() == before_push.len() + c,
                    before_push.len() == (row + x) * 4,
                    out@.subrange(0, before_push.len() as int) == before_push,
                    forall|d: int| 0 <= d < c ==> #[trigger] out@[before_push.len() + d] == os_byte(clip, x as int, y as int, d),
                decreases 4 - c,
            {
                let b = if inside {
                    byte_at(image, ix as u32, iy as u32, c)
                } else {
                    0
                };
                out.push(b);
                proof {
                    assert(out@.subrange(0, before_push.len() as int) =~= before_push);
                }
                c = c + 1;
            }
            proof {
                assert forall|yy: int, xx: int, c: int|
                    0 <= yy < y && 0 <= xx < w && 0 <= c < 4 implies #[trigger] out@[(yy * w + xx) * 4 + c] == os_byte(
                        clip,
                        xx,
                        yy,
                        c,
                    ) by {
                    assert((yy * w + xx) < row) by (nonlinear_arith)
                        requires
                            0 <= yy < y,
                            0 <= xx < w,
                            row == y * w,
                    ;
                    assert(out@[(yy * w + xx) * 4 + c] == before_push[(yy * w + xx) * 4 + c]);
                }
                assert forall|xx: int, c: int| 0 <= xx < x + 1 && 0 <= c < 4 implies #[trigger] out@[(row + xx) * 4 + c]
                    == os_byte(clip, xx, y as int, c) by {
                    if xx < x {
                        assert(out@[(row + xx) * 4 + c] == before_push[(row + xx) * 4 + c]);
                    } else {
                        assert(out@[(row + xx) * 4 + c] == out@[before_push.len() + c]);
                    }
                }
            }
            x = x + 1;
        }
        proof {
            assert forall|yy: int, xx: int, c: int|
                0 <= yy < y + 1 && 0 <= xx < w && 0 <= c < 4 implies #[trigger] out@[(yy * w + xx) * 4 + c] == os_byte(
                    clip,
                    xx,
                    yy,
                    c,
                ) by {
                if yy == y {
                    assert(yy * w + xx == row + xx);
                }
            }
        }
        row = row + w as usize;
        y = y + 1;
    }
    proof {
        assert(row == w * h) by (nonlinear_arith)
            requires
                row == y * w,
                y == h,
        ;
    }
    Some((w, h, out))
}

/// A byte of the system clipboard's rows as a channel value of a raster
/// of the given depth: widened to 16 bits, or as it is.
pub open spec fn from_byte(b: u8, deep: bool) -> u16 {
    if deep {
        spec_to16(b)
    } else {
        b as u16
    }
}

/// Value `i` of tile `(tx, ty)` of the raster made from `w × h` RGBA8 rows
/// `rgba`: the pixel's channel from the rows, 0 past their edges.
pub open spec fn tile_value(rgba: Seq<u8>, w: int, h: int, deep: bool, tx: int, ty: int, i: int) -> u16 {
    let x = tx * 256 + (i / 4) % 256;
    let y = ty * 256 + (i / 4) / 256;
    if x < w && y < h {
        from_byte(rgba[(y * w + x) * 4 + i % 4], deep)
    } else {
        0
    }
}

/// Tile `(tx, ty)` of the raster made from `w × h` RGBA8 rows `rgba`: the
/// rows' pixels under it ([`tile_value`]) when it is under the rows, empty
/// otherwise.
pub open spec fn tile_made(slot: Slot, rgba: Seq<u8>, w: int, h: int, deep: bool, tx: int, ty: int) -> bool {
    if tx * 256 < w && ty * 256 < h {
        match slot {
            Slot::Data(d) => d@.len() == TILE_VALUES && forall|i: int|
                0 <= i < TILE_VALUES ==> #[trigger] d@[i] == tile_value(rgba, w, h, deep, tx, ty, i),
            _ => false,
        }
    } else {
        slot is Empty
    }
}

/// What [`from_os`] makes of `w × h` RGBA8 rows `rgba`: a raster of that
/// size (at least one pixel), at the canvas origin, bounded by the rows,
/// a data tile under the rows and an empty one elsewhere, whose pixels are
/// the rows' (widened to 16 bits when `deep`).
pub open spec fn made_from(clip: &ClipboardImage, w: int, h: int, rgba: Seq<u8>, deep: bool) -> bool {
    &&& clip.image.wf()
    &&& clip.image.width == if w >= 1 { w } else { 1 }
    &&& clip.image.height == if h >= 1 { h } else { 1 }
    &&& clip.image.deep == deep
    &&& clip.offset == (0i32, 0i32)
    &&& clip.bounds == (0i32, 0i32, w as i32, h as i32)
    &&& forall|tx: int, ty: int|
        0 <= tx < clip.image.cols() && 0 <= ty < clip.image.rows() ==> tile_made(
            #[trigger] clip.image.slot(tx, ty),
            rgba,
            w,
            h,
            deep,
            tx,
            ty,
        )
    &&& forall|x: int, y: int, c: int|
        0 <= x < w && 0 <= y < h && 0 <= c < 4 ==> #[trigger] clip.image.value(x, y, c) == from_byte(
            rgba[(y * w + x) * 4 + c],
            deep,
        )
}

/// The values of tile `(tx, ty)` of the raster made from the rows.
fn tile_from_rows(rgba: &[u8], w: u32, h: u32, deep: bool, tx: u32, ty: u32) -> (d: Vec<u16>)
    requires
        rgba@.len() >= w * h * 4,
        tx * 256 < w,
        ty * 256 < h,
    ensures
        d@.len() == TILE_VALUES,
        forall|i: int| 0 <= i < TILE_VALUES ==> #[trigger] d@[i] == tile_value(rgba@, w as int, h as int, deep, tx as int, ty as int, i),
        !deep ==> forall|i: int| 0 <= i < TILE_VALUES ==> #[trigger] d@[i] <= 255,
{
    let mut d: Vec<u16> = Vec::new();
    let n = rgba.len();
    let mut i: usize = 0;
    while i < TILE_VALUES
        invariant
            n == rgba@.len(),
            rgba@.len() >= w * h * 4,
            tx * 256 < w,
            ty * 256 < h,
            i <= TILE_VALUES,
            d@.len() == i,
            forall|j: int| 0 <= j < i ==> #[trigger] d@[j] == tile_value(rgba@, w as int, h as int, deep, tx as int, ty as int, j),
            !deep ==> forall|j: int| 0 <= j < i ==> #[trigger] d@[j] <= 255,
        decreases TILE_VALUES - i,
    {
        let p = i / 4;
        let x = tx as u64 * 256 + (p % 256) as u64;
        let y = ty as u64 * 256 + (p / 256) as u64;
        let v: u16 = if x < w as u64 && y < h as u64 {
            proof {
                assert(y * w + x < w * h && y * w <= y * w + x) by (nonlinear_arith)
                    requires
                        x < w,
                        y < h,
                ;
            }
            let b = rgba[((y * w as u64 + x) * 4) as usize + i % 4];
            if deep {
                to16(b)
            } else {
                b as u16
            }
        } else {
            0
        };
        d.push(v);
        i = i + 1;
    }
    d
}

/// An image from the system clipboard (straight RGBA8, `w × h`) as
/// clipboard content at the canvas origin, 16-bit when `deep`.
pub fn from_os(w: u32, h: u32, rgba: &[u8], deep: bool) -> (clip: ClipboardImage)
    requires
        rgba@.len() >= w * h * 4,
        w <= i32::MAX,
        h <= i32::MAX,
    ensures
        made_from(&clip, w as int, h as int, rgba@, deep),
{
    let width: u32 = if w >= 1 { w } else { 1 };
    let height: u32 = if h >= 1 { h } else { 1 };
    let cols: u32 = width / TILE + if width % TILE == 0 { 0 } else { 1 };
    let rows: u32 = height / TILE + if height % TILE == 0 { 0 } else { 1 };
    let mut slots: Vec<Slot> = Vec::new();
    let mut ty: u32 = 0;
    while ty < rows
        invariant
            rgba@.len() >= w * h * 4,
            width == if w >= 1 { w } else { 1 },
            height == if h >= 1 { h } else { 1 },
            cols == tiles_for(width as int),
            rows == tiles_for(height as int),
            ty <= rows,
            slots@.len() == ty * cols,
            forall|k: int| 0 <= k < slots@.len() ==> match #[trigger] slots@[k] {
                Slot::Empty => true,
                Slot::Solid(_) => false,
                Slot::Data(d) => d@.len() == TILE_VALUES && (deep || forall|i: int|
                    0 <= i < TILE_VALUES ==> #[trigger] d@[i] <= 255),
            },
            forall|tx: int, yy: int|
                0 <= tx < cols && 0 <= yy < ty ==> tile_made(#[trigger] slots@[yy * cols + tx], rgba@, w as int, h as int, deep, tx, yy),
        decreases rows - ty,
    {
        proof {
            lemma_next_row(ty as int, cols as int, rows as int);
        }
        let mut tx: u32 = 0;
        while tx < cols
            invariant
                rgba@.len() >= w * h * 4,
                width == if w >= 1 { w } else { 1 },
                height == if h >= 1 { h } else { 1 },
                cols == tiles_for(width as int),
                rows == tiles_for(height as int),
                ty < rows,
                tx <= cols,
                slots@.len() == ty * cols + tx,
                (ty + 1) * cols == ty * cols + cols,
                ty * cols >= 0,
                forall|k: int| 0 <= k < slots@.len() ==> match #[trigger] slots@[k] {
                    Slot::Empty => true,
                    Slot::Solid(_) => false,
                    Slot::Data(d) => d@.len() == TILE_VALUES && (deep || forall|i: int|
                        0 <= i < TILE_VALUES ==> #[trigger] d@[i] <= 255),
                },
                forall|x: int, yy: int|
                    0 <= x < cols && 0 <= yy < ty ==> tile_made(#[trigger] slots@[yy * cols + x], rgba@, w as int, h as int, deep, x, yy),
                forall|x: int|
                    0 <= x < tx ==> tile_made(#[trigger] slots@[ty * cols + x], rgba@, w as int, h as int, deep, x, ty as int),
            decreases cols - tx,
        {
            let ghost before = slots@;
            if (tx as u64) * 256 < w as u64 && (ty as u64) * 256 < h as u64 {
                let d = tile_from_rows(rgba, w, h, deep, tx, ty);
                slots.push(Slot::Data(d));
            } else {
                slots.push(Slot::Empty);
            }
            proof {
                assert forall|x: int, yy: int|
                    0 <= x < cols && 0 <= yy < ty implies tile_made(#[trigger] slots@[yy * cols + x], rgba@, w as int, h as int, deep, x, yy) by {
                    lemma_slot_index(x, yy, cols as int, ty as int);
                    assert(slots@[yy * cols + x] == before[yy * cols + x]);
                }
                assert forall|x: int|
                    0 <= x < tx + 1 implies tile_made(#[trigger] slots@[ty * cols + x], rgba@, w as int, h as int, deep, x, ty as int) by {
                    if x < tx {
                        assert(slots@[ty * cols + x] == before[ty * cols + x]);
                    }
                }
            }
            tx = tx + 1;
        }
        ty = ty + 1;
    }
    let image = Raster { width, height, deep, slots };
    proof {
        assert(image.cols() == cols && image.rows() == rows);
        assert(slots@.len() == cols * rows) by (nonlinear_arith)
            requires
                slots@.len() == ty * cols,
                ty == rows,
        ;
        assert forall|x: int, y: int, c: int| 0 <= x < w && 0 <= y < h && 0 <= c < 4 implies #[trigger] image.value(x, y, c)
            == from_byte(rgba@[(y * w + x) * 4 + c], deep) by {
            let (tx, ty) = (x / 256, y / 256);
            let i = ((y % 256) * 256 + x % 256) * 4 + c;
            assert(tx * 256 < w && ty * 256 < h);
            assert(i / 4 == (y % 256) * 256 + x % 256 && i % 4 == c);
            assert((i / 4) % 256 == x % 256 && (i / 4) / 256 == y % 256);
            assert(0 <= ty * cols + tx) by {
                lemma_slot_index(tx, ty, cols as int, rows as int);
            }
            assert(tile_made(image.slot(tx, ty), rgba@, w as int, h as int, deep, tx, ty));
            assert(tile_value(rgba@, w as int, h as int, deep, tx, ty, i) == from_byte(rgba@[(y * w + x) * 4 + c], deep));
        }
        assert forall|tx: int, ty: int|
            0 <= tx < image.cols() && 0 <= ty < image.rows() implies tile_made(
            #[trigger] image.slot(tx, ty),
            rgba@,
            w as int,
            h as int,
            deep,
            tx,
            ty,
        ) by {}
    }
    ClipboardImage { image, offset: (0, 0), bounds: (0, 0, w as i32, h as i32) }
}

/// What the system clipboard is handed of a copy that came from it is what
/// it gave: the RGBA8 rows of [`from_os`]'s content, read back by
/// [`os_pixels`], are the rows it was made from.
pub proof fn law_os_rows_round_trip(clip: &ClipboardImage, w: int, h: int, rgba: Seq<u8>, deep: bool)
    requires
        made_from(clip, w, h, rgba, deep),
        1 <= w <= OS_LIMIT,
        1 <= h <= OS_LIMIT,
    ensures
        forall|x: int, y: int, c: int|
            0 <= x < w && 0 <= y < h && 0 <= c < 4 ==> #[trigger] os_byte(clip, x, y, c) == rgba[(y * w + x) * 4 + c],
{
    assert forall|x: int, y: int, c: int| 0 <= x < w && 0 <= y < h && 0 <= c < 4 implies #[trigger] os_byte(clip, x, y, c)
        == rgba[(y * w + x) * 4 + c] by {
        let b = rgba[(y * w + x) * 4 + c];
        assert(clip.image.value(x, y, c) == from_byte(b, deep));
        law_widening_round_trips(b);
    }
}

} // verus!
