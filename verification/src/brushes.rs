//! Sampled brush tips as the brush library stores them: the tip's size and
//! its 8-bit grey pixels in base64.
use vstd::prelude::*;

use vstd::utf8::encode_utf8;

use crate::b64::{decode, spec_decode};

verus! {

/// A sampled tip's pixels.
#[derive(Debug, PartialEq, Eq)]
pub struct TipData {
    pub width: u32,
    pub height: u32,
    /// 8-bit grey, base64.
    pub gray: String,
}

/// The grey pixels a tip registers with the brush engine: its decoded
/// base64, when that holds at least `width × height` bytes; `None` (a round
/// tip instead) otherwise.
pub fn tip_pixels(tip: &TipData) -> (gray: Option<Vec<u8>>)
    requires
        tip.width * tip.height <= u32::MAX,
    ensures
        gray is Some <==> spec_decode(encode_utf8(tip.gray@)).len() >= tip.width * tip.height,
        gray matches Some(g) ==> g@ == spec_decode(encode_utf8(tip.gray@)),
{
    let gray = decode(tip.gray.as_str());
    if gray.len() < tip.width as usize * tip.height as usize {
        None
    } else {
        Some(gray)
    }
}

} // verus!
