//! The options of an export of the flattened document: the defaults for a
//! document and a file format, the Export As dialog's choices on top, and
//! whether the bottom layer makes the whole canvas opaque.
use vstd::prelude::*;

use crate::raster::{lemma_slot_index, Raster, Slot, TILE};

verus! {

/// The file format, from the export path's extension.
#[derive(Clone, Copy, Debug, PartialEq, Eq, Structural)]
pub enum Format {
    Tiff,
    Png,
    Jpeg,
}

/// JPEG chroma subsampling.
#[derive(Clone, Copy, Debug, PartialEq, Eq, Structural)]
pub enum Chroma {
    /// 4:4:4.
    Full,
    /// 4:2:0.
    Half,
}

/// How the document is written (the encoder's own settings besides the
/// document's resolution and colour profile).
#[derive(Clone, Copy, Debug, PartialEq, Eq, Structural)]
pub struct ExportSettings {
    pub format: Format,
    /// Bits per channel: 8 or 16.
    pub bits: u8,
    /// Whether the alpha channel is written.
    pub alpha: bool,
    /// JPEG quality, 0..=100.
    pub quality: u8,
    pub chroma: Chroma,
    /// Whether the pixels are converted to CMYK on the way out.
    pub cmyk: bool,
}

/// Options of the Export As dialog.
#[derive(Debug, PartialEq, Eq)]
pub struct ExportChoice {
    /// Write 8 bits per channel even for a 16-bit document.
    pub eight_bit: bool,
    /// `None` = automatic (alpha only when the document is not opaque).
    pub transparency: Option<bool>,
    /// JPEG quality, 0..=100.
    pub quality: u8,
    /// JPEG 4:2:0 chroma subsampling instead of 4:4:4.
    pub chroma_half: bool,
    /// Convert to CMYK with the profile at this path (TIFF only).
    pub cmyk: Option<String>,
}

/// The default settings for a document of the given depth written as
/// `format`: JPEG is 8-bit and has no alpha (the pixels are flattened onto
/// white); the others keep the document's depth and keep transparency
/// unless the document is `opaque`; quality 90, full chroma, no CMYK.
pub fn default_settings(format: Format, sixteen_bit: bool, opaque: bool) -> (settings: ExportSettings)
    ensures
        settings.format == format,
        settings.bits == if format == Format::Jpeg || !sixteen_bit { 8u8 } else { 16u8 },
        settings.alpha == (!opaque && format != Format::Jpeg),
        settings.quality == 90,
        settings.chroma == Chroma::Full,
        !settings.cmyk,
{
    let jpeg = format == Format::Jpeg;
    let bits: u8 = if jpeg || !sixteen_bit { 8 } else { 16 };
    ExportSettings { format, bits, alpha: !opaque && !jpeg, quality: 90, chroma: Chroma::Full, cmyk: false }
}

/// Apply the Export As dialog's choices to the default settings: 8-bit on
/// request, transparency on or off (automatic: off for an `opaque`
/// document; never for JPEG, which has no alpha, nor for CMYK), the JPEG
/// quality (at most 100) and chroma, and the CMYK conversion when the
/// dialog asked for one (`cmyk_ready`: its profile was read and the
/// conversion set up). `None` keeps the defaults.
pub fn apply_choice(settings: ExportSettings, choice: Option<&ExportChoice>, opaque: bool, cmyk_ready: bool) -> (out: ExportSettings)
    requires
        choice matches Some(c) ==> (c.cmyk is Some <==> cmyk_ready),
    ensures
        match choice {
            None => out == settings,
            Some(c) => {
                &&& out.format == settings.format
                &&& out.bits == if c.eight_bit { 8u8 } else { settings.bits }
                &&& out.cmyk == (settings.cmyk || cmyk_ready)
                &&& out.alpha == (!out.cmyk && settings.format != Format::Jpeg && match c.transparency {
                    Some(t) => t,
                    None => !opaque,
                })
                &&& out.quality == if c.quality <= 100 { c.quality } else { 100u8 }
                &&& out.chroma == if c.chroma_half { Chroma::Half } else { Chroma::Full }
            },
        },
{
    let c = match choice {
        None => return settings,
        Some(c) => c,
    };
    let mut out = settings;
    if cmyk_ready {
        out.cmyk = true;
        out.alpha = false;
    }
    if c.eight_bit {
        out.bits = 8;
    }
    let jpeg = out.format == Format::Jpeg;
    let wanted = match c.transparency {
        Some(t) => t,
        None => !opaque,
    };
    out.alpha = !jpeg && wanted;
    out.quality = if c.quality <= 100 { c.quality } else { 100 };
    out.chroma = if c.chroma_half { Chroma::Half } else { Chroma::Full };
    if out.cmyk {
        out.alpha = false;
    }
    out
}

/// The alpha of an opaque pixel at the raster's depth.
pub open spec fn full_alpha(deep: bool) -> u16 {
    if deep {
        65535
    } else {
        255
    }
}

/// Whether `image`, placed at the canvas origin, covers the `doc_w ×
/// doc_h` canvas with opaque pixels: it is at least the canvas's size and
/// every canvas pixel has full alpha (an empty tile has none).
pub open spec fn covers_opaquely(image: &Raster, doc_w: int, doc_h: int) -> bool {
    &&& image.width >= doc_w
    &&& image.height >= doc_h
    &&& forall|x: int, y: int|
        0 <= x < doc_w && 0 <= y < doc_h ==> #[trigger] image.value(x, y, 3) == full_alpha(image.deep)
}

/// Whether the canvas pixels of tile `(tx, ty)` (slot `k`) all have full
/// alpha.
fn tile_opaque(image: &Raster, k: usize, tx: u32, ty: u32, doc_w: u32, doc_h: u32) -> (opaque: bool)
    requires
        image.wf(),
        image.width >= doc_w,
        image.height >= doc_h,
        tx * 256 < doc_w,
        ty * 256 < doc_h,
        k < image.slots@.len(),
        image.slots@[k as int] == image.slot(tx as int, ty as int),
    ensures
        opaque == forall|x: int, y: int|
            0 <= x < doc_w && 0 <= y < doc_h && x / 256 == tx && y / 256 == ty ==> #[trigger] image.value(x, y, 3)
                == full_alpha(image.deep),
{
    let full: u16 = if image.deep { 65535 } else { 255 };
    let (bx, by) = (tx * TILE, ty * TILE);
    let vw: u32 = if doc_w - bx < TILE { doc_w - bx } else { TILE };
    let vh: u32 = if doc_h - by < TILE { doc_h - by } else { TILE };
    match &image.slots[k] {
        Slot::Empty => {
            assert(image.value(bx as int, by as int, 3) == 0);
            false
        },
        Slot::Solid(v) => {
            if v[3] == full {
                true
            } else {
                assert(image.value(bx as int, by as int, 3) != full_alpha(image.deep));
                false
            }
        },
        Slot::Data(d) => {
            let mut r: u32 = 0;
            while r < vh
                invariant
                    image.wf(),
                    k < image.slots@.len(),
                    image.slots@[k as int] == image.slot(tx as int, ty as int),
                    image.slots@[k as int] == Slot::Data(*d),
                    d@.len() == 262144,
                    full == full_alpha(image.deep),
                    bx == tx * 256,
                    by == ty * 256,
                    bx < doc_w,
                    by < doc_h,
                    vw == if doc_w - bx < 256 { doc_w - bx } else { 256 },
                    vh == if doc_h - by < 256 { doc_h - by } else { 256 },
                    r <= vh,
                    forall|x: int, y: int|
                        0 <= x < doc_w && 0 <= y < doc_h && x / 256 == tx && y / 256 == ty && y % 256 < r
                            ==> #[trigger] image.value(x, y, 3) == full,
                decreases vh - r,
            {
                let mut c: u32 = 0;
                while c < vw
                    invariant
                        image.wf(),
                        k < image.slots@.len(),
                        image.slots@[k as int] == image.slot(tx as int, ty as int),
                        image.slots@[k as int] == Slot::Data(*d),
                        d@.len() == 262144,
                        full == full_alpha(image.deep),
                        bx == tx * 256,
                        by == ty * 256,
                        bx < doc_w,
                        by < doc_h,
                        vw == if doc_w - bx < 256 { doc_w - bx } else { 256 },
                        vh == if doc_h - by < 256 { doc_h - by } else { 256 },
                        r < vh,
                        c <= vw,
                        forall|x: int, y: int|
                            0 <= x < doc_w && 0 <= y < doc_h && x / 256 == tx && y / 256 == ty && (y % 256 < r || (
                            y % 256 == r && x % 256 < c)) ==> #[trigger] image.value(x, y, 3) == full,
                    decreases vw - c,
                {
                    let (x, y) = (bx + c, by + r);
                    assert(x / 256 == tx && x % 256 == c && y / 256 == ty && y % 256 == r);
                    if d[((r * TILE + c) * 4 + 3) as usize] != full {
                        assert(image.value(x as int, y as int, 3) != full);
                        return false;
                    }
                    c = c + 1;
                }
                r = r + 1;
            }
            true
        },
    }
}

/// Whether `image`, placed at the canvas origin, covers the `doc_w ×
/// doc_h` canvas with opaque pixels (see [`covers_opaquely`]). It reads
/// only the tiles over the canvas, and of them only the canvas pixels.
pub fn opaque_cover(image: &Raster, doc_w: u32, doc_h: u32) -> (opaque: bool)
    requires
        image.wf(),
    ensures
        opaque == covers_opaquely(image, doc_w as int, doc_h as int),
{
    if image.width < doc_w || image.height < doc_h {
        return false;
    }
    let cols: u32 = image.width / TILE + if image.width % TILE == 0 { 0 } else { 1 };
    let tiles_x: u32 = doc_w / TILE + if doc_w % TILE == 0 { 0 } else { 1 };
    let tiles_y: u32 = doc_h / TILE + if doc_h % TILE == 0 { 0 } else { 1 };
    let n = image.slots.len();
    let full: u16 = if image.deep { 65535 } else { 255 };
    let mut ty: u32 = 0;
    while ty < tiles_y
        invariant
            image.wf(),
            n == image.slots@.len(),
            image.width >= doc_w,
            image.height >= doc_h,
            cols == image.cols(),
            tiles_x == (doc_w + 255) / 256,
            tiles_y == (doc_h + 255) / 256,
            full == full_alpha(image.deep),
            ty <= tiles_y,
            forall|x: int, y: int|
                0 <= x < doc_w && 0 <= y < doc_h && y / 256 < ty ==> #[trigger] image.value(x, y, 3) == full,
        decreases tiles_y - ty,
    {
        let mut tx: u32 = 0;
        while tx < tiles_x
            invariant
                image.wf(),
                n == image.slots@.len(),
                image.width >= doc_w,
                image.height >= doc_h,
                cols == image.cols(),
                tiles_x == (doc_w + 255) / 256,
                tiles_y == (doc_h + 255) / 256,
                full == full_alpha(image.deep),
                ty < tiles_y,
                tx <= tiles_x,
                forall|x: int, y: int|
                    0 <= x < doc_w && 0 <= y < doc_h && (y / 256 < ty || (y / 256 == ty && x / 256 < tx))
                        ==> #[trigger] image.value(x, y, 3) == full,
            decreases tiles_x - tx,
        {
            proof {
                lemma_slot_index(tx as int, ty as int, cols as int, image.rows());
            }
            let k = ty as usize * cols as usize + tx as usize;
            if !tile_opaque(image, k, tx, ty, doc_w, doc_h) {
                return false;
            }
            tx = tx + 1;
        }
        ty = ty + 1;
    }
    true
}

/// What the opacity test reads of a root layer's content.
pub enum LayerContent {
    /// A solid colour fill, by its alpha.
    SolidFill { alpha: u16 },
    /// Pixels placed at `offset`.
    Pixel { offset: (i32, i32), image: Raster },
    /// Any other kind of layer.
    Other,
}

/// What the opacity test reads of a root layer: whether it is visible,
/// whether its opacity and fill are both full (the caller compares those
/// numbers), whether it has a mask, and its content.
pub struct RootLayer {
    pub visible: bool,
    pub full_strength: bool,
    pub has_mask: bool,
    pub content: LayerContent,
}

/// Whether `layer` makes the canvas opaque by itself: full opacity and
/// fill, no mask, and an opaque solid colour or pixels at the origin that
/// cover the canvas opaquely.
pub open spec fn covers_canvas(layer: RootLayer, doc_w: int, doc_h: int) -> bool {
    &&& layer.full_strength
    &&& !layer.has_mask
    &&& match layer.content {
        LayerContent::SolidFill { alpha } => alpha == 65535,
        LayerContent::Pixel { offset, image } => offset == (0i32, 0i32) && covers_opaquely(
            &image,
            doc_w,
            doc_h,
        ),
        LayerContent::Other => false,
    }
}

/// Whether the composite of the root layers `layers` (bottom → top) is
/// certainly opaque everywhere: there is a visible layer, and the bottom
/// visible one covers the canvas (see [`covers_canvas`]). Every layer above
/// then keeps alpha at full, whatever its blend mode.
pub open spec fn spec_opaque_background(layers: Seq<RootLayer>, doc_w: int, doc_h: int) -> bool {
    exists|i: int|
        0 <= i < layers.len() && #[trigger] layers[i].visible && (forall|j: int|
            0 <= j < i ==> !layers[j].visible) && covers_canvas(layers[i], doc_w, doc_h)
}

/// Whether the composite of the root layers is certainly opaque everywhere
/// (see [`spec_opaque_background`]).
pub fn opaque_background(layers: &Vec<RootLayer>, doc_w: u32, doc_h: u32) -> (opaque: bool)
    requires
        forall|i: int|
            0 <= i < layers@.len() ==> (#[trigger] layers@[i].content matches LayerContent::Pixel {
                image,
                ..
            } ==> image.wf()),
    ensures
        opaque == spec_opaque_background(layers@, doc_w as int, doc_h as int),
{
    let mut i: usize = 0;
    while i < layers.len()
        invariant
            i <= layers@.len(),
            forall|j: int| 0 <= j < i ==> !layers@[j].visible,
            forall|j: int|
                0 <= j < layers@.len() ==> (#[trigger] layers@[j].content matches LayerContent::Pixel {
                    image,
                    ..
                } ==> image.wf()),
        decreases layers@.len() - i,
    {
        if layers[i].visible {
            let layer = &layers[i];
            let ghost k = i as int;
            let covers = if !layer.full_strength || layer.has_mask {
                false
            } else {
                match &layer.content {
                    LayerContent::SolidFill { alpha } => *alpha == 65535,
                    LayerContent::Pixel { offset, image } => {
                        proof {
                            assert(layers@[k].content matches LayerContent::Pixel { .. });
                        }
                        offset.0 == 0 && offset.1 == 0 && opaque_cover(image, doc_w, doc_h)
                    },
                    LayerContent::Other => false,
                }
            };
            proof {
                assert(covers == covers_canvas(layers@[k], doc_w as int, doc_h as int));
                if !covers {
                    assert forall|m: int|
                        0 <= m < layers@.len() && #[trigger] layers@[m].visible && (forall|j: int|
                            0 <= j < m ==> !layers@[j].visible) implies !covers_canvas(
                        layers@[m],
                        doc_w as int,
                        doc_h as int,
                    ) by {
                        if m > k {
                            assert(!layers@[k].visible);
                        }
                    }
                }
            }
            return covers;
        }
        i = i + 1;
    }
    false
}

} // verus!
