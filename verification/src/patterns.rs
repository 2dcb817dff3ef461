//! The pattern library's storage form: patterns are kept as 16-bit RGBA and
//! stored as 8-bit straight RGBA (base64 in the library file).
use vstd::prelude::*;
use vstd::string::StringExecFns;

use crate::channels::{spec_to16, spec_to8, to16, to8};

verus! {

/// A pattern's pixels in storage form: four 8-bit channels per pixel, each
/// the truncated 8-bit value of the 16-bit one.
pub open spec fn spec_to8_pixels(pixels: Seq<[u16; 4]>) -> Seq<u8> {
    Seq::new(4 * pixels.len(), |i: int| spec_to8(pixels[i / 4][i % 4]))
}

/// A pattern's pixels in storage form.
pub fn to8_pixels(pixels: &Vec<[u16; 4]>) -> (bytes: Vec<u8>)
    requires
        4 * pixels@.len() <= usize::MAX,
    ensures
        bytes@ == spec_to8_pixels(pixels@),
{
    let mut bytes: Vec<u8> = Vec::new();
    let mut i: usize = 0;
    while i < pixels.len()
        invariant
            i <= pixels@.len(),
            4 * pixels@.len() <= usize::MAX,
            bytes@.len() == 4 * i,
            forall|j: int| 0 <= j < 4 * i ==> bytes@[j] == spec_to8(pixels@[j / 4][j % 4]),
        decreases pixels@.len() - i,
    {
        let p = pixels[i];
        let ghost before = bytes@;
        bytes.push(to8(p[0]));
        bytes.push(to8(p[1]));
        bytes.push(to8(p[2]));
        bytes.push(to8(p[3]));
        proof {
            let base = 4 * i as int;
            assert(base / 4 == i && base % 4 == 0);
            assert((base + 1) / 4 == i && (base + 1) % 4 == 1);
            assert((base + 2) / 4 == i && (base + 2) % 4 == 2);
            assert((base + 3) / 4 == i && (base + 3) % 4 == 3);
            assert forall|j: int| 0 <= j < 4 * (i + 1) implies bytes@[j] == spec_to8(
                pixels@[j / 4][j % 4],
            ) by {
                if j < base {
                    assert(bytes@[j] == before[j]);
                }
            }
        }
        i = i + 1;
    }
    proof {
        assert(bytes@ =~= spec_to8_pixels(pixels@));
    }
    bytes
}

/// Whether `width × height` 8-bit pixels can make a pattern: both sides
/// non-zero, neither above `max_side`, and `rgba` holds enough bytes.
pub open spec fn accepts(width: u32, height: u32, rgba_len: int, max_side: u32) -> bool {
    width != 0 && height != 0 && width <= max_side && height <= max_side && rgba_len >= width
        * height * 4
}

/// The pixels of a pattern from 8-bit straight RGBA: the first
/// `width × height` pixels of `rgba`, each channel widened to 16 bits.
pub open spec fn spec_from8_pixels(rgba: Seq<u8>, count: int) -> Seq<[u16; 4]> {
    Seq::new(
        count as nat,
        |p: int|
            [
                spec_to16(rgba[4 * p]),
                spec_to16(rgba[4 * p + 1]),
                spec_to16(rgba[4 * p + 2]),
                spec_to16(rgba[4 * p + 3]),
            ],
    )
}

/// A pattern's pixels from 8-bit straight RGBA (`width × height`); `None`
/// when the size is refused or `rgba` is too short.
pub fn from8_pixels(width: u32, height: u32, rgba: &[u8], max_side: u32) -> (pixels: Option<
    Vec<[u16; 4]>,
>)
    requires
        max_side as int * max_side as int * 4 <= u32::MAX,
    ensures
        pixels is Some <==> accepts(width, height, rgba@.len() as int, max_side),
        pixels matches Some(p) ==> p@ == spec_from8_pixels(rgba@, width * height),
{
    if width == 0 || height == 0 || width > max_side || height > max_side {
        return None;
    }
    proof {
        assert(width * height * 4 <= max_side * max_side * 4) by (nonlinear_arith)
            requires
                width <= max_side,
                height <= max_side,
        ;
    }
    if rgba.len() < (width * height * 4) as usize {
        return None;
    }
    let count = (width * height) as usize;
    let n = rgba.len();
    proof {
        assert(width * height * 4 == 4 * (width * height)) by (nonlinear_arith);
    }
    let mut pixels: Vec<[u16; 4]> = Vec::new();
    let mut p: usize = 0;
    while p < count
        invariant
            count == width * height,
            4 * count <= n,
            n == rgba@.len(),
            p <= count,
            pixels@ == spec_from8_pixels(rgba@, p as int),
        decreases count - p,
    {
        let px = [to16(rgba[4 * p]), to16(rgba[4 * p + 1]), to16(rgba[4 * p + 2]), to16(rgba[4 * p + 3])];
        pixels.push(px);
        proof {
            assert(pixels@ =~= spec_from8_pixels(rgba@, p + 1));
        }
        p = p + 1;
    }
    Some(pixels)
}

/// Storing a pattern made from 8-bit pixels gives those pixels back: the
/// library round-trips what it imports.
pub proof fn law_patterns_round_trip(rgba: Seq<u8>, count: int)
    requires
        0 <= count,
        4 * count <= rgba.len(),
    ensures
        spec_to8_pixels(spec_from8_pixels(rgba, count)) == rgba.take(4 * count),
{
    let back = spec_to8_pixels(spec_from8_pixels(rgba, count));
    assert forall|i: int| 0 <= i < 4 * count implies back[i] == rgba[i] by {
        let p = i / 4;
        let k = i % 4;
        assert(4 * p + k == i);
        crate::channels::law_widening_round_trips(rgba[i]);
    }
    assert(back =~= rgba.take(4 * count));
}

// ---------------------------------------------------------------------------
// PNG files as patterns
// ---------------------------------------------------------------------------

/// The PNG colour type of grey samples with alpha (the format's number).
pub const PNG_GRAY_ALPHA: u8 = 4;

/// The PNG colour type of RGBA samples (the format's number).
pub const PNG_RGBA: u8 = 6;

/// What the `png` crate's decoder makes of the file `data`, read with 8-bit
/// samples and an alpha channel, on a machine whose addresses have
/// `address_bits` bits: its error's text; no frame when the decoded frame's
/// size does not fit in an address; or the first frame's width, height,
/// colour type and samples (row-major). The decoder refuses a file whose
/// rows or frame do not fit in an address, so the result depends on the
/// address width as well as on the bytes.
pub uninterp spec fn png_frame(data: Seq<u8>, address_bits: u32) -> Result<Option<(u32, u32, u8, Seq<u8>)>, Seq<char>>;

/// A decoded frame as plain values.
pub open spec fn frame_view(frame: Result<Option<(u32, u32, u8, Vec<u8>)>, String>) -> Result<
    Option<(u32, u32, u8, Seq<u8>)>,
    Seq<char>,
> {
    match frame {
        Err(e) => Err(e@),
        Ok(None) => Ok(None),
        Ok(Some((w, h, c, samples))) => Ok(Some((w, h, c, samples@))),
    }
}

/// Decodes a PNG file with `png::Decoder` (transformations
/// `normalize_to_color8() | ALPHA`), `Reader::output_buffer_size` and
/// `Reader::next_frame`. The contract only says that the result is the one
/// the decoder gives for these bytes on this machine ([`png_frame`] at the
/// width of `usize`); what the decoder computes is not stated.
#[verifier::external_body]
fn decode_png(data: &[u8]) -> (frame: Result<Option<(u32, u32, u8, Vec<u8>)>, String>)
    ensures
        frame_view(frame) == png_frame(data@, usize::BITS),
{
    let mut decoder = png::Decoder::new(std::io::Cursor::new(data));
    decoder.set_transformations(png::Transformations::normalize_to_color8() | png::Transformations::ALPHA);
    let mut reader = decoder.read_info().map_err(|e| e.to_string())?;
    let Some(size) = reader.output_buffer_size() else {
        return Ok(None);
    };
    let mut samples = vec![0u8; size];
    let info = reader.next_frame(&mut samples).map_err(|e| e.to_string())?;
    Ok(Some((info.width, info.height, info.color_type as u8, samples)))
}

/// Why a PNG file gives no pattern pixels.
#[derive(Debug, PartialEq, Eq)]
pub enum PngError {
    /// The decoder refused the file; its message.
    Decode(String),
    /// The decoded frame would not fit in memory.
    TooLarge,
    /// The decoder handed back fewer samples than the frame's size needs.
    Truncated,
    /// A colour type other than RGBA or grey with alpha.
    Unsupported(u8),
}

/// Samples per pixel of the colour types a pattern is made from.
pub open spec fn samples_per_pixel(color: u8) -> int {
    if color == PNG_GRAY_ALPHA {
        2
    } else {
        4
    }
}

/// The 8-bit straight RGBA of a `w × h` frame of colour type `color`: RGBA
/// samples as they are, grey spread over the three colour channels.
pub open spec fn frame_rgba(w: int, h: int, color: u8, samples: Seq<u8>) -> Seq<u8> {
    if color == PNG_GRAY_ALPHA {
        Seq::new((w * h * 4) as nat, |i: int| if i % 4 == 3 { samples[2 * (i / 4) + 1] } else { samples[2 * (i / 4)] })
    } else {
        samples.take(w * h * 4)
    }
}

/// The RGBA of a decoded frame (see [`frame_rgba`]), for one of the two
/// colour types a pattern is made from.
pub fn rgba_of_frame(w: u32, h: u32, color: u8, samples: &Vec<u8>) -> (rgba: Vec<u8>)
    requires
        color == PNG_GRAY_ALPHA || color == PNG_RGBA,
        w * h * 4 <= usize::MAX,
        samples@.len() >= w * h * samples_per_pixel(color),
    ensures
        rgba@ == frame_rgba(w as int, h as int, color, samples@),
{
    proof {
        assert(w * h <= w * h * 4) by (nonlinear_arith);
    }
    let count = w as usize * h as usize;
    let mut out: Vec<u8> = Vec::new();
    if color == PNG_RGBA {
        let total = count * 4;
        let mut i: usize = 0;
        while i < total
            invariant
                count == w * h,
                total == count * 4,
                count * 4 <= samples@.len(),
                i <= count * 4,
                out@ == samples@.take(i as int),
            decreases total - i,
        {
            out.push(samples[i]);
            proof {
                assert(out@ =~= samples@.take(i + 1));
            }
            i = i + 1;
        }
    } else {
        let mut p: usize = 0;
        while p < count
            invariant
                count == w * h,
                count * 4 <= usize::MAX,
                count * 2 <= samples@.len(),
                color == PNG_GRAY_ALPHA,
                p <= count,
                out@.len() == p * 4,
                forall|i: int| 0 <= i < p * 4 ==> #[trigger] out@[i] == if i % 4 == 3 {
                    samples@[2 * (i / 4) + 1]
                } else {
                    samples@[2 * (i / 4)]
                },
            decreases count - p,
        {
            let (g, a) = (samples[2 * p], samples[2 * p + 1]);
            out.push(g);
            out.push(g);
            out.push(g);
            out.push(a);
            p = p + 1;
        }
    }
    proof {
        assert(out@ =~= frame_rgba(w as int, h as int, color, samples@));
    }
    out
}

/// What a decoded frame gives as pattern pixels: the decoder's error; too
/// large when there is no frame; an unsupported colour type; truncated when
/// the samples fall short of the frame (or its RGBA would not fit in
/// memory); else the frame's width, height and RGBA ([`frame_rgba`]).
pub open spec fn rgba_outcome(
    frame: Result<Option<(u32, u32, u8, Seq<u8>)>, Seq<char>>,
    decoded: Result<(u32, u32, Vec<u8>), PngError>,
) -> bool {
    match frame {
        Err(e) => decoded matches Err(PngError::Decode(m)) && m@ == e,
        Ok(None) => decoded == Err::<(u32, u32, Vec<u8>), PngError>(PngError::TooLarge),
        Ok(Some((w, h, c, samples))) => if c != PNG_GRAY_ALPHA && c != PNG_RGBA {
            decoded == Err::<(u32, u32, Vec<u8>), PngError>(PngError::Unsupported(c))
        } else if samples.len() < w * h * samples_per_pixel(c) || w * h * 4 > usize::MAX {
            decoded == Err::<(u32, u32, Vec<u8>), PngError>(PngError::Truncated)
        } else {
            decoded matches Ok((dw, dh, rgba)) && dw == w && dh == h && rgba@ == frame_rgba(
                w as int,
                h as int,
                c,
                samples,
            )
        },
    }
}

/// The pattern pixels of a frame as the decoder handed it back: its width,
/// height, colour type and samples, or the decoder's error text (see
/// [`rgba_outcome`]).
pub fn frame_to_rgba(frame: Result<Option<(u32, u32, u8, Vec<u8>)>, String>) -> (decoded: Result<
    (u32, u32, Vec<u8>),
    PngError,
>)
    ensures
        rgba_outcome(frame_view(frame), decoded),
{
    match frame {
        Err(message) => Err(PngError::Decode(message)),
        Ok(None) => Err(PngError::TooLarge),
        Ok(Some((w, h, color, samples))) => {
            if color != PNG_GRAY_ALPHA && color != PNG_RGBA {
                return Err(PngError::Unsupported(color));
            }
            let per: u128 = if color == PNG_GRAY_ALPHA { 2 } else { 4 };
            proof {
                assert(w * h <= 0xffff_ffff * 0xffff_ffff) by (nonlinear_arith)
                    requires
                        w <= 0xffff_ffff,
                        h <= 0xffff_ffff,
                ;
            }
            let count = w as u128 * h as u128;
            if count * 4 > usize::MAX as u128 || (samples.len() as u128) < count * per {
                return Err(PngError::Truncated);
            }
            let rgba = rgba_of_frame(w, h, color, &samples);
            Ok((w, h, rgba))
        },
    }
}

/// A PNG file's first frame as 8-bit straight RGBA: its width, height and
/// pixels ([`frame_rgba`]), or why there are none ([`rgba_outcome`] of what
/// the decoder makes of the file here).
pub fn png_rgba(data: &[u8]) -> (decoded: Result<(u32, u32, Vec<u8>), PngError>)
    ensures
        rgba_outcome(png_frame(data@, usize::BITS), decoded),
{
    frame_to_rgba(decode_png(data))
}

// ---------------------------------------------------------------------------
// The generated defaults
// ---------------------------------------------------------------------------

/// A generated pattern: its name, its side and its `side × side` pixels,
/// row-major.
pub struct GeneratedPattern {
    pub name: String,
    pub side: u32,
    pub pixels: Vec<[u16; 4]>,
}

/// The library's defaults when there is no library file: a checkerboard,
/// dots, diagonal lines and a brick wall, by their number (0 to 3).
pub open spec fn default_name(k: int) -> Seq<char> {
    if k == 0 {
        "Checkerboard"@
    } else if k == 1 {
        "Dots"@
    } else if k == 2 {
        "Diagonal Lines"@
    } else {
        "Bricks"@
    }
}

/// The side of default pattern `k`.
pub open spec fn default_side(k: int) -> u32 {
    if k == 0 {
        32
    } else if k == 1 {
        24
    } else if k == 2 {
        16
    } else {
        64
    }
}

/// Pixel `(x, y)` of default pattern `k`: 16-pixel squares of white and
/// grey; dark dots of radius 5 about the tile's centre (11.5, 11.5) on
/// white; dark lines three pixels wide every 16 along the diagonal; bricks
/// of 32 × 16 with 2-pixel mortar, every other row shifted by half a brick.
pub open spec fn default_pixel(k: int, x: int, y: int) -> [u16; 4] {
    let white: [u16; 4] = [65535, 65535, 65535, 65535];
    let grey: [u16; 4] = [40000, 40000, 40000, 65535];
    let dark: [u16; 4] = [12000, 12000, 12000, 65535];
    if k == 0 {
        if (x / 16 + y / 16) % 2 == 0 { white } else { grey }
    } else if k == 1 {
        if (2 * x - 23) * (2 * x - 23) + (2 * y - 23) * (2 * y - 23) < 100 { dark } else { white }
    } else if k == 2 {
        if (x + y) % 16 < 3 { dark } else { white }
    } else {
        let shift: int = if (y / 16) % 2 == 0 { 0 } else { 16 };
        if y % 16 < 2 || (x + shift) % 32 < 2 {
            [52000, 52000, 50000, 65535]
        } else {
            [42000, 16000, 11000, 65535]
        }
    }
}

/// Pixel `(x, y)` of default pattern `k`.
fn default_pixel_at(k: u32, x: u32, y: u32) -> (px: [u16; 4])
    requires
        k < 4,
        x < 64,
        y < 64,
    ensures
        px == default_pixel(k as int, x as int, y as int),
{
    let white: [u16; 4] = [65535, 65535, 65535, 65535];
    let grey: [u16; 4] = [40000, 40000, 40000, 65535];
    let dark: [u16; 4] = [12000, 12000, 12000, 65535];
    if k == 0 {
        if (x / 16 + y / 16) % 2 == 0 { white } else { grey }
    } else if k == 1 {
        let (dx, dy) = (2 * x as i64 - 23, 2 * y as i64 - 23);
        assert(0 <= dx * dx <= 105 * 105 && 0 <= dy * dy <= 105 * 105) by (nonlinear_arith)
            requires
                -23 <= dx <= 105,
                -23 <= dy <= 105,
        ;
        if dx * dx + dy * dy < 100 { dark } else { white }
    } else if k == 2 {
        if (x + y) % 16 < 3 { dark } else { white }
    } else {
        let shift: u32 = if (y / 16) % 2 == 0 { 0 } else { 16 };
        if y % 16 < 2 || (x + shift) % 32 < 2 {
            [52000, 52000, 50000, 65535]
        } else {
            [42000, 16000, 11000, 65535]
        }
    }
}

/// Default pattern `k`.
fn default_pattern(k: u32) -> (pattern: GeneratedPattern)
    requires
        k < 4,
    ensures
        pattern.name@ == default_name(k as int),
        pattern.side == default_side(k as int),
        pattern.pixels@.len() == pattern.side * pattern.side,
        forall|x: int, y: int|
            0 <= x < pattern.side && 0 <= y < pattern.side ==> #[trigger] pattern.pixels@[y * pattern.side + x]
                == default_pixel(k as int, x, y),
{
    let side: u32 = if k == 0 {
        32
    } else if k == 1 {
        24
    } else if k == 2 {
        16
    } else {
        64
    };
    let name = if k == 0 {
        String::from_str("Checkerboard")
    } else if k == 1 {
        String::from_str("Dots")
    } else if k == 2 {
        String::from_str("Diagonal Lines")
    } else {
        String::from_str("Bricks")
    };
    let mut pixels: Vec<[u16; 4]> = Vec::new();
    let mut y: u32 = 0;
    while y < side
        invariant
            k < 4,
            side == default_side(k as int),
            y <= side,
            pixels@.len() == y * side,
            forall|xx: int, yy: int|
                0 <= xx < side && 0 <= yy < y ==> #[trigger] pixels@[yy * side + xx] == default_pixel(k as int, xx, yy),
        decreases side - y,
    {
        let mut x: u32 = 0;
        while x < side
            invariant
                k < 4,
                side == default_side(k as int),
                y < side,
                x <= side,
                pixels@.len() == y * side + x,
                forall|xx: int, yy: int|
                    0 <= xx < side && 0 <= yy < y ==> #[trigger] pixels@[yy * side + xx] == default_pixel(k as int, xx, yy),
                forall|xx: int| 0 <= xx < x ==> #[trigger] pixels@[y * side + xx] == default_pixel(k as int, xx, y as int),
            decreases side - x,
        {
            let ghost before = pixels@;
            pixels.push(default_pixel_at(k, x, y));
            proof {
                assert forall|xx: int, yy: int|
                    0 <= xx < side && 0 <= yy < y implies #[trigger] pixels@[yy * side + xx] == default_pixel(
                        k as int,
                        xx,
                        yy,
                    ) by {
                    assert(yy * side + xx < y * side) by (nonlinear_arith)
                        requires
                            0 <= xx < side,
                            0 <= yy < y,
                    ;
                    assert(pixels@[yy * side + xx] == before[yy * side + xx]);
                }
                assert forall|xx: int| 0 <= xx < x + 1 implies #[trigger] pixels@[y * side + xx] == default_pixel(
                    k as int,
                    xx,
                    y as int,
                ) by {
                    if xx < x {
                        assert(pixels@[y * side + xx] == before[y * side + xx]);
                    }
                }
            }
            x = x + 1;
        }
        proof {
            assert((y + 1) * side == y * side + side) by (nonlinear_arith);
        }
        y = y + 1;
    }
    GeneratedPattern { name, side, pixels }
}

/// The library's generated defaults, in order: the checkerboard, the dots,
/// the diagonal lines and the bricks (see [`default_pixel`]).
pub fn default_patterns() -> (patterns: Vec<GeneratedPattern>)
    ensures
        patterns@.len() == 4,
        forall|k: int|
            0 <= k < 4 ==> {
                let p = #[trigger] patterns@[k];
                &&& p.name@ == default_name(k)
                &&& p.side == default_side(k)
                &&& p.pixels@.len() == p.side * p.side
                &&& forall|x: int, y: int|
                    0 <= x < p.side && 0 <= y < p.side ==> #[trigger] p.pixels@[y * p.side + x] == default_pixel(k, x, y)
            },
{
    let mut patterns: Vec<GeneratedPattern> = Vec::new();
    let mut k: u32 = 0;
    while k < 4
        invariant
            k <= 4,
            patterns@.len() == k,
            forall|j: int|
                0 <= j < k ==> {
                    let p = #[trigger] patterns@[j];
                    &&& p.name@ == default_name(j)
                    &&& p.side == default_side(j)
                    &&& p.pixels@.len() == p.side * p.side
                    &&& forall|x: int, y: int|
                        0 <= x < p.side && 0 <= y < p.side ==> #[trigger] p.pixels@[y * p.side + x] == default_pixel(j, x, y)
                },
        decreases 4 - k,
    {
        patterns.push(default_pattern(k));
        k = k + 1;
    }
    patterns
}

} // verus!
