//! Layer thumbnails for the Layers panel: the box a thumbnail fits in, the
//! mip level it is read from, and the thumbnail of a solid fill.
//!
//! A thumbnail is the layer alone, in the document frame, fitted into a
//! `size × size` box, RGBA8 straight. It is rendered from the deepest mip
//! level that still has at least `size` pixels along the document's longer
//! side, so only a handful of tiles are read whatever the document size.
use vstd::prelude::*;

use crate::channels::{spec_to8, to8};

verus! {

/// A rendered thumbnail.
#[derive(Debug, PartialEq, Eq)]
pub struct Thumbnail {
    pub width: u32,
    pub height: u32,
    /// `width × height × 4` bytes, RGBA8, straight alpha.
    pub pixels: Vec<u8>,
}

/// `a / b` rounded up.
pub open spec fn ceil_div(a: int, b: int) -> int {
    (a + b - 1) / b
}

/// `a` or 1, whichever is larger.
pub open spec fn at_least_one(a: int) -> int {
    if a < 1 {
        1
    } else {
        a
    }
}

/// The thumbnail box for a `doc_w × doc_h` document: the longer side is
/// `size` (at least 1), the other is scaled in proportion and rounded up, and
/// is at least 1.
pub open spec fn spec_fitted(doc_w: u32, doc_h: u32, size: u32) -> (int, int) {
    let s = at_least_one(size as int);
    if doc_w >= doc_h {
        (s, at_least_one(ceil_div(doc_h * s, doc_w as int)))
    } else {
        (at_least_one(ceil_div(doc_w * s, doc_h as int)), s)
    }
}

/// The thumbnail box for a `doc_w × doc_h` document: the longer side is `size`.
pub fn fitted(doc_w: u32, doc_h: u32, size: u32) -> (fit: (u32, u32))
    requires
        doc_w > 0 || doc_h > 0,
    ensures
        fit.0 == spec_fitted(doc_w, doc_h, size).0,
        fit.1 == spec_fitted(doc_w, doc_h, size).1,
{
    let size = if size < 1 { 1 } else { size };
    if doc_w >= doc_h {
        let (w, h, s) = (doc_w as u64, doc_h as u64, size as u64);
        proof {
            assert(h * s <= w * s) by (nonlinear_arith)
                requires
                    h <= w,
            ;
            assert(w * s <= 0xffff_ffff * 0xffff_ffff) by (nonlinear_arith)
                requires
                    w <= 0xffff_ffff,
                    s <= 0xffff_ffff,
            ;
            assert((h * s + w - 1) / (w as int) <= s) by (nonlinear_arith)
                requires
                    h <= w,
                    w > 0,
            ;
        }
        let other = ((h * s + w - 1) / w) as u32;
        (size, if other < 1 { 1 } else { other })
    } else {
        let (w, h, s) = (doc_w as u64, doc_h as u64, size as u64);
        proof {
            assert(w * s <= h * s) by (nonlinear_arith)
                requires
                    w <= h,
            ;
            assert(h * s <= 0xffff_ffff * 0xffff_ffff) by (nonlinear_arith)
                requires
                    h <= 0xffff_ffff,
                    s <= 0xffff_ffff,
            ;
            assert((w * s + h - 1) / (h as int) <= s) by (nonlinear_arith)
                requires
                    w <= h,
                    h > 0,
            ;
        }
        let other = ((w * s + h - 1) / h) as u32;
        (if other < 1 { 1 } else { other }, size)
    }
}

/// The fitted box keeps the document's aspect: its longer side is the
/// requested size (at least 1), no side is empty, and the shorter side is the
/// proportional length rounded up, so it is never more than one pixel off.
pub proof fn law_fitted_keeps_aspect(doc_w: u32, doc_h: u32, size: u32)
    requires
        doc_w > 0 || doc_h > 0,
    ensures
        ({
            let (tw, th) = spec_fitted(doc_w, doc_h, size);
            let s = at_least_one(size as int);
            &&& tw >= 1 && th >= 1
            &&& tw <= s && th <= s
            &&& (doc_w >= doc_h ==> tw == s && th * doc_w >= doc_h * s && (th == 1 || (th - 1)
                * doc_w < doc_h * s))
            &&& (doc_w < doc_h ==> th == s && tw * doc_h >= doc_w * s && (tw == 1 || (tw - 1)
                * doc_h < doc_w * s))
        }),
{
    let s = at_least_one(size as int);
    let (w, h) = (doc_w as int, doc_h as int);
    if w >= h {
        let q = ceil_div(h * s, w);
        assert(q * w >= h * s && (q - 1) * w < h * s && q <= s && q >= 0) by (nonlinear_arith)
            requires
                q == (h * s + w - 1) / w,
                w > 0,
                h <= w,
                h >= 0,
                s >= 1,
        ;
        assert(1 * w >= h * s || q >= 1) by (nonlinear_arith)
            requires
                q * w >= h * s,
                w > 0,
                q >= 0,
        ;
    } else {
        let q = ceil_div(w * s, h);
        assert(q * h >= w * s && (q - 1) * h < w * s && q <= s && q >= 0) by (nonlinear_arith)
            requires
                q == (w * s + h - 1) / h,
                h > 0,
                w < h,
                w >= 0,
                s >= 1,
        ;
        assert(1 * h >= w * s || q >= 1) by (nonlinear_arith)
            requires
                q * h >= w * s,
                h > 0,
                q >= 0,
        ;
    }
}

/// `2` to the `k`.
pub open spec fn pow2(k: nat) -> int
    decreases k,
{
    if k == 0 {
        1
    } else {
        2 * pow2((k - 1) as nat)
    }
}

/// Whether mip level `k` of a document whose longer side is `longer` still
/// has at least `want` pixels along that side.
pub open spec fn level_has(longer: int, want: int, k: nat) -> bool {
    ceil_div(longer, pow2(k)) >= want
}

/// Powers of two grow with the exponent.
pub proof fn lemma_pow2_mono(a: nat, b: nat)
    requires
        a <= b,
    ensures
        1 <= pow2(a) <= pow2(b),
    decreases b,
{
    if b > a {
        lemma_pow2_mono(a, (b - 1) as nat);
    } else if a > 0 {
        lemma_pow2_mono((a - 1) as nat, (a - 1) as nat);
    }
}

/// Exponents add: `2^(a + b) = 2^a · 2^b`.
pub proof fn lemma_pow2_adds(a: nat, b: nat)
    ensures
        pow2(a + b) == pow2(a) * pow2(b),
    decreases a,
{
    if a > 0 {
        lemma_pow2_adds((a - 1) as nat, b);
        assert(pow2(a + b) == 2 * pow2((a - 1 + b) as nat));
        assert(2 * (pow2((a - 1) as nat) * pow2(b)) == (2 * pow2((a - 1) as nat)) * pow2(b)) by (nonlinear_arith);
    }
}

/// Powers of two up to the 32nd fit in 33 bits.
proof fn lemma_pow2_bound(k: nat)
    requires
        k <= 32,
    ensures
        2 <= pow2(k) * 2 <= 0x2_0000_0000,
{
    lemma_pow2_mono(k, 32);
    assert(pow2(2) == 4) by {
        reveal_with_fuel(pow2, 3);
    }
    assert(pow2(10) == 0x400) by {
        reveal_with_fuel(pow2, 11);
    }
    lemma_pow2_adds(10, 10);
    lemma_pow2_adds(20, 10);
    lemma_pow2_adds(30, 2);
    assert(pow2(32) == 0x1_0000_0000);
}

/// The level a thumbnail of `want` pixels is read from: the deepest of the
/// image's `levels` levels, going down from level 0, whose longer side still
/// has `want` pixels.
pub open spec fn spec_thumbnail_level(longer: int, want: int, levels: int, level: int) -> bool {
    &&& 0 <= level
    &&& (level == 0 || level < levels)
    &&& forall|k: nat| 1 <= k <= level ==> level_has(longer, want, k)
    &&& (level + 1 >= levels || !level_has(longer, want, (level + 1) as nat))
}

/// Deepest level whose longer side still has at least as many pixels as
/// the thumbnail's longer side (`tw × th` for a `doc_w × doc_h` document with
/// `levels` mip levels).
pub fn thumbnail_level(doc_w: u32, doc_h: u32, tw: u32, th: u32, levels: usize) -> (level: usize)
    requires
        levels <= 32,
    ensures
        spec_thumbnail_level(
            (if doc_w >= doc_h { doc_w } else { doc_h }) as int,
            (if tw >= th { tw } else { th }) as int,
            levels as int,
            level as int,
        ),
{
    let longer = (if doc_w >= doc_h { doc_w } else { doc_h }) as u64;
    let want = (if tw >= th { tw } else { th }) as u64;
    let mut level: usize = 0;
    let mut d: u64 = 2;
    proof {
        assert(pow2(1) == 2 * pow2(0));
    }
    while level + 1 < levels && (longer + d - 1) / d >= want
        invariant
            levels <= 32,
            level < 32,
            d as int == pow2((level + 1) as nat),
            2 <= d <= 0x1_0000_0000,
            longer <= 0xffff_ffff,
            forall|k: nat| 1 <= k <= level ==> level_has(longer as int, want as int, k),
            level == 0 || level < levels,
        decreases levels - level,
    {
        proof {
            assert(pow2((level + 2) as nat) == 2 * pow2((level + 1) as nat));
            assert(level_has(longer as int, want as int, (level + 1) as nat));
            lemma_pow2_bound((level + 2) as nat);
        }
        level = level + 1;
        d = d * 2;
    }
    level
}

/// The thumbnail of a solid fill layer: the fill colour, in 8 bits, on every
/// pixel of the fitted box.
pub fn solid_thumbnail(rgba: [u16; 4], doc_w: u32, doc_h: u32, size: u32) -> (thumb: Thumbnail)
    requires
        doc_w > 0 || doc_h > 0,
        spec_fitted(doc_w, doc_h, size).0 * spec_fitted(doc_w, doc_h, size).1 <= u32::MAX,
        4 * spec_fitted(doc_w, doc_h, size).0 * spec_fitted(doc_w, doc_h, size).1 <= usize::MAX,
    ensures
        thumb.width == spec_fitted(doc_w, doc_h, size).0,
        thumb.height == spec_fitted(doc_w, doc_h, size).1,
        thumb.pixels@.len() == 4 * thumb.width * thumb.height,
        forall|i: int|
            0 <= i < thumb.pixels@.len() ==> #[trigger] thumb.pixels@[i] == spec_to8(rgba[i % 4]),
{
    let (tw, th) = fitted(doc_w, doc_h, size);
    proof {
        assert(4 * (tw * th) == 4 * tw * th) by (nonlinear_arith);
    }
    let px: [u8; 4] = [to8(rgba[0]), to8(rgba[1]), to8(rgba[2]), to8(rgba[3])];
    let count = tw * th;
    let mut pixels: Vec<u8> = Vec::new();
    let mut n: u32 = 0;
    while n < count
        invariant
            count == tw * th,
            4 * count <= usize::MAX,
            n <= count,
            pixels@.len() == 4 * n,
            forall|i: int| 0 <= i < pixels@.len() ==> #[trigger] pixels@[i] == spec_to8(rgba[i % 4]),
            px[0] == spec_to8(rgba[0]) && px[1] == spec_to8(rgba[1]) && px[2] == spec_to8(rgba[2]) && px[3] == spec_to8(rgba[3]),
        decreases count - n,
    {
        let ghost before = pixels@;
        pixels.push(px[0]);
        pixels.push(px[1]);
        pixels.push(px[2]);
        pixels.push(px[3]);
        proof {
            let base = 4 * n as int;
            assert(base % 4 == 0 && (base + 1) % 4 == 1 && (base + 2) % 4 == 2 && (base + 3) % 4 == 3);
            assert forall|i: int| 0 <= i < pixels@.len() implies #[trigger] pixels@[i] == spec_to8(rgba[i % 4]) by {
                if i < base {
                    assert(pixels@[i] == before[i]);
                }
            }
        }
        n = n + 1;
    }
    proof {
        assert(4 * (tw * th) == 4 * tw * th) by (nonlinear_arith);
    }
    Thumbnail { width: tw, height: th, pixels }
}

} // verus!
