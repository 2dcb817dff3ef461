//! What the render thread keeps per planned tile, and the mip pyramid's
//! depth the viewport plans with.
use vstd::prelude::*;

use crate::raster::TILE;
use crate::thumbs::{ceil_div, lemma_pow2_adds, pow2};

verus! {

/// The slot a planned tile that composited to nothing is drawn from: none.
pub const EMPTY_SLOT: u32 = 0xffff_ffff;

/// Whether a planned tile is composited.
#[derive(Clone, Copy, Debug, PartialEq, Eq, Structural)]
pub enum Ready {
    /// Composited into this atlas slot.
    Slot(u32),
    /// Composited to nothing.
    Empty,
}

/// The atlas slot a plan draws a tile from: its slot, or [`EMPTY_SLOT`] for
/// a tile that composited to nothing (the plan then skips it).
pub fn slot_of(ready: Ready) -> (slot: u32)
    ensures
        slot == match ready {
            Ready::Slot(s) => s,
            Ready::Empty => EMPTY_SLOT,
        },
{
    match ready {
        Ready::Slot(slot) => slot,
        Ready::Empty => EMPTY_SLOT,
    }
}

/// Mip levels of a `width × height` image: halve (rounding up) until both
/// sides fit in one tile.
pub open spec fn spec_level_count(width: int, height: int) -> int
    decreases width + height,
{
    if width <= TILE && height <= TILE || width < 0 || height < 0 {
        1
    } else {
        1 + spec_level_count(ceil_div(width, 2), ceil_div(height, 2))
    }
}

/// There is always at least one level.
proof fn lemma_level_count_positive(width: int, height: int)
    ensures
        spec_level_count(width, height) >= 1,
    decreases width + height,
{
    if !(width <= TILE && height <= TILE || width < 0 || height < 0) {
        lemma_level_count_positive(ceil_div(width, 2), ceil_div(height, 2));
    }
}

/// An image whose sides are at most `256 · 2^k` has at most `k + 1` levels.
proof fn lemma_level_count_bound(width: int, height: int, k: nat)
    requires
        0 <= width <= 256 * pow2(k),
        0 <= height <= 256 * pow2(k),
    ensures
        spec_level_count(width, height) <= k + 1,
    decreases k,
{
    if !(width <= TILE && height <= TILE) {
        assert(k >= 1);
        let j = (k - 1) as nat;
        assert(pow2(k) == 2 * pow2(j));
        lemma_level_count_bound(ceil_div(width, 2), ceil_div(height, 2), j);
    }
}

/// Mip levels of a `width × height` document (the rule of the tiled image).
pub fn level_count(width: u32, height: u32) -> (levels: usize)
    ensures
        levels == spec_level_count(width as int, height as int),
        1 <= levels <= 25,
{
    let (mut w, mut h): (u32, u32) = (width, height);
    let mut levels: usize = 1;
    proof {
        assert(pow2(4) == 16) by {
            reveal_with_fuel(pow2, 5);
        }
        assert(pow2(10) == 0x400) by {
            reveal_with_fuel(pow2, 11);
        }
        lemma_pow2_adds(10, 10);
        lemma_pow2_adds(20, 4);
        assert(pow2(24) == 16777216);
        lemma_level_count_bound(width as int, height as int, 24);
        lemma_level_count_positive(width as int, height as int);
    }
    while w > TILE || h > TILE
        invariant
            levels + spec_level_count(w as int, h as int) == 1 + spec_level_count(
                width as int,
                height as int,
            ),
            1 <= levels,
            spec_level_count(width as int, height as int) <= 25,
        decreases w + h,
    {
        proof {
            lemma_level_count_positive(w as int, h as int);
        }
        let nw = w / 2 + w % 2;
        let nh = h / 2 + h % 2;
        w = nw;
        h = nh;
        levels = levels + 1;
    }
    levels
}

} // verus!
