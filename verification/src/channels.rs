//! Channel values between 8 and 16 bits: what thumbnails, patterns and the
//! system clipboard exchange.
use vstd::prelude::*;

verus! {

/// The 8-bit value of a 16-bit channel, truncating: `v / 257`.
pub open spec fn spec_to8(v: u16) -> u8 {
    (v / 257) as u8
}

/// The 16-bit value of an 8-bit channel: `v · 257`, so 0 and 255 map to the
/// ends of the 16-bit range.
pub open spec fn spec_to16(v: u8) -> u16 {
    (v * 257) as u16
}

/// The 8-bit value of a 16-bit channel, rounded to nearest:
/// `(v · 255 + 32767) / 65535`.
pub open spec fn spec_round8(v: u16) -> u8 {
    ((v * 255 + 32767) / 65535) as u8
}

/// The 8-bit value of a 16-bit channel, truncating.
pub fn to8(v: u16) -> (b: u8)
    ensures
        b == spec_to8(v),
{
    (v / 257) as u8
}

/// The 16-bit value of an 8-bit channel.
pub fn to16(v: u8) -> (w: u16)
    ensures
        w == spec_to16(v),
        w as int == v as int * 257,
{
    (v as u16) * 257
}

/// The 8-bit value of a 16-bit channel, rounded to nearest.
pub fn round8(v: u16) -> (b: u8)
    ensures
        b == spec_round8(v),
{
    proof {
        assert(v * 255 + 32767 <= 65535 * 255 + 32767);
        assert((v * 255 + 32767) / 65535 <= 255) by (nonlinear_arith)
            requires
                v <= 65535,
        ;
    }
    ((v as u32 * 255 + 32767) / 65535) as u8
}

/// An 8-bit value widened to 16 bits comes back unchanged through either
/// narrowing: widening loses nothing.
pub proof fn law_widening_round_trips(v: u8)
    ensures
        spec_to8(spec_to16(v)) == v,
        spec_round8(spec_to16(v)) == v,
{
    assert((v * 257) as u16 == v * 257);
    assert(((v * 257) * 255 + 32767) / 65535 == v) by (nonlinear_arith)
        requires
            v <= 255,
    ;
}

/// Narrowing keeps the order of values.
pub proof fn law_narrowing_is_monotone(a: u16, b: u16)
    requires
        a <= b,
    ensures
        spec_to8(a) <= spec_to8(b),
        spec_round8(a) <= spec_round8(b),
{
    assert(a / 257 <= b / 257) by (nonlinear_arith)
        requires
            a <= b,
    ;
    assert((a * 255 + 32767) / 65535 <= (b * 255 + 32767) / 65535) by (nonlinear_arith)
        requires
            a <= b,
    ;
    assert((b * 255 + 32767) / 65535 <= 255) by (nonlinear_arith)
        requires
            b <= 65535,
    ;
}

} // verus!
