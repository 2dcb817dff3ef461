//! Which mip tiles have to be computed before a mip tile can be used.
//!
//! A mip tile is computed from its four children on the level below, so
//! making one usable means computing, level by level going down, every tile
//! under it that has to be (re)computed (dirty, or dropped by the store)
//! and whose parent has to be too. The walk goes one level at a time: the
//! tiles needed on a level, and which of their children need computing,
//! give the tiles needed on the level below.
use vstd::prelude::*;

verus! {

/// The child `c` (0 to 3: top-left, top-right, bottom-left, bottom-right)
/// of tile `(tx, ty)` on the level below.
pub open spec fn child(t: (u32, u32), c: int) -> (int, int) {
    (2 * t.0 + c % 2, 2 * t.1 + c / 2)
}

/// The four tiles of the level below that a mip tile is computed from:
/// top-left, top-right, bottom-left, bottom-right.
pub fn children(tx: u32, ty: u32) -> (four: [(u32, u32); 4])
    requires
        tx < 0x8000_0000,
        ty < 0x8000_0000,
    ensures
        forall|c: int| 0 <= c < 4 ==> (#[trigger] four[c].0 as int, four[c].1 as int) == child((tx, ty), c),
{
    [(2 * tx, 2 * ty), (2 * tx + 1, 2 * ty), (2 * tx, 2 * ty + 1), (2 * tx + 1, 2 * ty + 1)]
}

/// Whether child `c` of the tile at `i` of `parents` is needed: it is on
/// the `cols × rows` grid below and has to be computed.
pub open spec fn wanted(parents: Seq<(u32, u32)>, cols: u32, rows: u32, stale: Seq<[bool; 4]>, i: int, c: int) -> bool {
    let t = child(parents[i], c);
    t.0 < cols && t.1 < rows && stale[i][c]
}

/// Child `c` of the tile at `i` when it is wanted, else nothing.
pub open spec fn wanted_child(parents: Seq<(u32, u32)>, cols: u32, rows: u32, stale: Seq<[bool; 4]>, i: int, c: int) -> Seq<
    (u32, u32),
> {
    if wanted(parents, cols, rows, stale, i, c) {
        seq![(child(parents[i], c).0 as u32, child(parents[i], c).1 as u32)]
    } else {
        Seq::empty()
    }
}

/// The tiles of the level below that have to be computed for `parents`
/// (the tiles of this level that do), in order: for each parent, its
/// wanted children, top-left first.
pub open spec fn needed_below(parents: Seq<(u32, u32)>, cols: u32, rows: u32, stale: Seq<[bool; 4]>) -> Seq<(u32, u32)>
    decreases parents.len(),
{
    if parents.len() == 0 {
        Seq::empty()
    } else {
        let i = parents.len() - 1;
        needed_below(parents.drop_last(), cols, rows, stale) + wanted_child(parents, cols, rows, stale, i, 0)
            + wanted_child(parents, cols, rows, stale, i, 1) + wanted_child(parents, cols, rows, stale, i, 2)
            + wanted_child(parents, cols, rows, stale, i, 3)
    }
}

/// The tiles of the level below that have to be computed for `parents`
/// (see [`needed_below`]); `stale[i]` tells which children of
/// `parents[i]` have to be computed.
pub fn tiles_below(parents: &Vec<(u32, u32)>, cols: u32, rows: u32, stale: &Vec<[bool; 4]>) -> (below: Vec<(u32, u32)>)
    requires
        stale@.len() == parents@.len(),
        forall|i: int| 0 <= i < parents@.len() ==> #[trigger] parents@[i].0 < 0x8000_0000 && parents@[i].1 < 0x8000_0000,
    ensures
        below@ == needed_below(parents@, cols, rows, stale@),
{
    let mut below: Vec<(u32, u32)> = Vec::new();
    let mut i: usize = 0;
    while i < parents.len()
        invariant
            stale@.len() == parents@.len(),
            forall|i: int| 0 <= i < parents@.len() ==> #[trigger] parents@[i].0 < 0x8000_0000 && parents@[i].1 < 0x8000_0000,
            i <= parents@.len(),
            below@ == needed_below(parents@.take(i as int), cols, rows, stale@),
        decreases parents@.len() - i,
    {
        let (tx, ty) = parents[i];
        let four = children(tx, ty);
        let ghost before = below@;
        let ghost prefix = parents@.take(i + 1);
        let mut c: usize = 0;
        while c < 4
            invariant
                stale@.len() == parents@.len(),
                i < parents@.len(),
                prefix == parents@.take(i + 1),
                (tx, ty) == parents@[i as int],
                forall|c: int| 0 <= c < 4 ==> (#[trigger] four[c].0 as int, four[c].1 as int) == child((tx, ty), c),
                c <= 4,
                below@ == before + (if c >= 1 { wanted_child(prefix, cols, rows, stale@, i as int, 0) } else { Seq::empty() })
                    + (if c >= 2 { wanted_child(prefix, cols, rows, stale@, i as int, 1) } else { Seq::empty() })
                    + (if c >= 3 { wanted_child(prefix, cols, rows, stale@, i as int, 2) } else { Seq::empty() })
                    + (if c >= 4 { wanted_child(prefix, cols, rows, stale@, i as int, 3) } else { Seq::empty() }),
            decreases 4 - c,
        {
            let (cx, cy) = four[c];
            if cx < cols && cy < rows && stale[i][c] {
                below.push((cx, cy));
            }
            proof {
                assert(prefix[i as int] == parents@[i as int]);
                let w = wanted_child(prefix, cols, rows, stale@, i as int, c as int);
                if c == 0 {
                    assert(below@ =~= before + w + Seq::empty() + Seq::empty() + Seq::empty());
                } else if c == 1 {
                    assert(below@ =~= before + wanted_child(prefix, cols, rows, stale@, i as int, 0) + w + Seq::empty()
                        + Seq::empty());
                } else if c == 2 {
                    assert(below@ =~= before + wanted_child(prefix, cols, rows, stale@, i as int, 0) + wanted_child(
                        prefix,
                        cols,
                        rows,
                        stale@,
                        i as int,
                        1,
                    ) + w + Seq::empty());
                } else {
                    assert(below@ =~= before + wanted_child(prefix, cols, rows, stale@, i as int, 0) + wanted_child(
                        prefix,
                        cols,
                        rows,
                        stale@,
                        i as int,
                        1,
                    ) + wanted_child(prefix, cols, rows, stale@, i as int, 2) + w);
                }
            }
            c = c + 1;
        }
        proof {
            assert(prefix.drop_last() =~= parents@.take(i as int));
        }
        i = i + 1;
    }
    proof {
        assert(parents@.take(parents@.len() as int) =~= parents@);
    }
    below
}

/// The tiles on the level below are exactly the wanted children of the
/// parents: a tile is listed when, and only when, it is child `c` of some
/// parent `i` that wants it.
pub proof fn lemma_needed_below_members(parents: Seq<(u32, u32)>, cols: u32, rows: u32, stale: Seq<[bool; 4]>)
    requires
        forall|i: int| 0 <= i < parents.len() ==> #[trigger] parents[i].0 < 0x8000_0000 && parents[i].1 < 0x8000_0000,
    ensures
        forall|t: (u32, u32)|
            needed_below(parents, cols, rows, stale).contains(t) <==> exists|i: int, c: int|
                0 <= i < parents.len() && 0 <= c < 4 && #[trigger] wanted(parents, cols, rows, stale, i, c) && (
                t.0 as int,
                t.1 as int,
            ) == child(parents[i], c),
    decreases parents.len(),
{
    if parents.len() > 0 {
        let init = parents.drop_last();
        let n = parents.len() - 1;
        lemma_needed_below_members(init, cols, rows, stale);
        let rest = needed_below(init, cols, rows, stale);
        let whole = needed_below(parents, cols, rows, stale);
        assert forall|i: int, c: int| 0 <= i < n && 0 <= c < 4 implies #[trigger] wanted(init, cols, rows, stale, i, c)
            == wanted(parents, cols, rows, stale, i, c) by {
            assert(init[i] == parents[i]);
        }
        assert forall|t: (u32, u32)|
            whole.contains(t) <==> exists|i: int, c: int|
                0 <= i < parents.len() && 0 <= c < 4 && #[trigger] wanted(parents, cols, rows, stale, i, c) && (
                t.0 as int,
                t.1 as int,
            ) == child(parents[i], c) by {
            let w0 = wanted_child(parents, cols, rows, stale, n, 0);
            let w1 = wanted_child(parents, cols, rows, stale, n, 1);
            let w2 = wanted_child(parents, cols, rows, stale, n, 2);
            let w3 = wanted_child(parents, cols, rows, stale, n, 3);
            assert(whole == rest + w0 + w1 + w2 + w3);
            if whole.contains(t) {
                let k = choose|k: int| 0 <= k < whole.len() && whole[k] == t;
                if k < rest.len() {
                    assert(rest[k] == t);
                    assert(rest.contains(t));
                    let (i, c) = choose|i: int, c: int|
                        0 <= i < init.len() && 0 <= c < 4 && #[trigger] wanted(init, cols, rows, stale, i, c) && (
                        t.0 as int,
                        t.1 as int,
                    ) == child(init[i], c);
                    assert(wanted(parents, cols, rows, stale, i, c) && init[i] == parents[i]);
                } else {
                    let m = k - rest.len();
                    if m < w0.len() {
                        assert(wanted(parents, cols, rows, stale, n, 0));
                    } else if m < w0.len() + w1.len() {
                        assert(wanted(parents, cols, rows, stale, n, 1));
                    } else if m < w0.len() + w1.len() + w2.len() {
                        assert(wanted(parents, cols, rows, stale, n, 2));
                    } else {
                        assert(wanted(parents, cols, rows, stale, n, 3));
                    }
                }
            }
            if exists|i: int, c: int|
                0 <= i < parents.len() && 0 <= c < 4 && #[trigger] wanted(parents, cols, rows, stale, i, c) && (
                t.0 as int,
                t.1 as int,
            ) == child(parents[i], c) {
                let (i, c) = choose|i: int, c: int|
                    0 <= i < parents.len() && 0 <= c < 4 && #[trigger] wanted(parents, cols, rows, stale, i, c) && (
                    t.0 as int,
                    t.1 as int,
                ) == child(parents[i], c);
                if i < n {
                    assert(wanted(init, cols, rows, stale, i, c));
                    assert(rest.contains(t));
                    let k = choose|k: int| 0 <= k < rest.len() && rest[k] == t;
                    assert(whole[k] == t);
                } else {
                    let p = parents[n];
                    assert(t == (child(p, c).0 as u32, child(p, c).1 as u32));
                    if c == 0 {
                        assert(whole[rest.len() as int] == t);
                    } else if c == 1 {
                        assert(whole[(rest.len() + w0.len()) as int] == t);
                    } else if c == 2 {
                        assert(whole[(rest.len() + w0.len() + w1.len()) as int] == t);
                    } else {
                        assert(whole[(rest.len() + w0.len() + w1.len() + w2.len()) as int] == t);
                    }
                }
            }
        }
    }
}

/// Whether tile `t` of level `l` has to be computed for mip tile `root` of
/// level `top` to become usable: it needs computing (`needs`: it is on its
/// level's grid, above level 0, and dirty or dropped), and so does every
/// tile above it up to `root`.
pub open spec fn under_needed(needs: spec_fn(int, (int, int)) -> bool, top: int, root: (int, int), l: int, t: (int, int)) -> bool
    decreases top - l,
{
    if l >= top {
        l == top && t == root && needs(l, t)
    } else {
        needs(l, t) && under_needed(needs, top, root, l + 1, (t.0 / 2, t.1 / 2))
    }
}

/// The walk down the pyramid computes exactly what is needed: when
/// `parents` are the tiles of level `l + 1` that have to be computed for
/// `root`, and `stale` tells which of their children need
/// computing, [`tiles_below`] lists exactly the tiles of level `l` that
/// have to be computed for `root`.
pub proof fn law_the_walk_lists_exactly_the_needed_tiles(
    needs: spec_fn(int, (int, int)) -> bool,
    top: int,
    root: (int, int),
    l: int,
    parents: Seq<(u32, u32)>,
    cols: u32,
    rows: u32,
    stale: Seq<[bool; 4]>,
)
    requires
        0 <= l < top,
        forall|i: int| 0 <= i < parents.len() ==> #[trigger] parents[i].0 < 0x8000_0000 && parents[i].1 < 0x8000_0000,
        forall|i: int|
            0 <= i < parents.len() ==> under_needed(needs, top, root, l + 1, (#[trigger] parents[i].0 as int, parents[i].1 as int)),
        forall|t: (int, int)|
            #[trigger] under_needed(needs, top, root, l + 1, t) ==> exists|i: int|
                0 <= i < parents.len() && (#[trigger] parents[i].0 as int, parents[i].1 as int) == t,
        forall|i: int, c: int| 0 <= i < parents.len() && 0 <= c < 4 ==> #[trigger] stale[i][c] == needs(l, child(parents[i], c)),
        forall|t: (int, int)| #[trigger] needs(l, t) ==> 0 <= t.0 < cols && 0 <= t.1 < rows,
    ensures
        forall|t: (u32, u32)|
            needed_below(parents, cols, rows, stale).contains(t) <==> under_needed(needs, top, root, l, (t.0 as int, t.1 as int)),
{
    lemma_needed_below_members(parents, cols, rows, stale);
    assert forall|t: (u32, u32)|
        needed_below(parents, cols, rows, stale).contains(t) <==> under_needed(needs, top, root, l, (t.0 as int, t.1 as int)) by {
        let tt = (t.0 as int, t.1 as int);
        if needed_below(parents, cols, rows, stale).contains(t) {
            let (i, c) = choose|i: int, c: int|
                0 <= i < parents.len() && 0 <= c < 4 && #[trigger] wanted(parents, cols, rows, stale, i, c) && (
                t.0 as int,
                t.1 as int,
            ) == child(parents[i], c);
            let p = (parents[i].0 as int, parents[i].1 as int);
            assert(stale[i][c] == needs(l, child(parents[i], c)));
            assert((tt.0 / 2, tt.1 / 2) == p);
            assert(under_needed(needs, top, root, l + 1, p));
        }
        if under_needed(needs, top, root, l, tt) {
            let p = (tt.0 / 2, tt.1 / 2);
            assert(under_needed(needs, top, root, l + 1, p));
            let i = choose|i: int| 0 <= i < parents.len() && (#[trigger] parents[i].0 as int, parents[i].1 as int) == p;
            let c = tt.0 % 2 + 2 * (tt.1 % 2);
            assert(child(parents[i], c) == tt);
            assert(stale[i][c] == needs(l, child(parents[i], c)));
            assert(wanted(parents, cols, rows, stale, i, c));
        }
    }
}

} // verus!
