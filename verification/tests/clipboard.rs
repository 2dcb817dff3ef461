use fx_engine::clipboard::{alpha_bounds, clip_of, from_os, os_pixels, ClipboardImage, OS_LIMIT};
use fx_engine::export::{opaque_background, opaque_cover, LayerContent, RootLayer};
use fx_engine::raster::{Raster, Slot, TILE, TILE_VALUES};

/// An empty `width × height` raster.
fn raster(width: u32, height: u32, deep: bool) -> Raster {
    let cols = width.div_ceil(TILE) as usize;
    let rows = height.div_ceil(TILE) as usize;
    let mut slots = Vec::new();
    for _ in 0..cols * rows {
        slots.push(Slot::Empty);
    }
    Raster { width, height, deep, slots }
}

fn alpha_at(px: u32, py: u32, alpha: u16) -> Slot {
    let mut d = vec![0u16; TILE_VALUES];
    d[((py * TILE + px) * 4 + 3) as usize] = alpha;
    Slot::Data(d)
}

#[test]
fn alpha_bounds_are_exact_across_tiles() {
    let mut image = raster(1000, 600, false);
    let cols = 4;
    image.slots[0] = alpha_at(20, 10, 255);
    image.slots[2 * cols + 3] = alpha_at(7, 5, 1);
    image.slots[cols + 1] = Slot::Solid([1, 2, 3, 4]);
    assert_eq!(alpha_bounds(&image, (100, -50)), Some((120, -40, 100 + 3 * 256 + 8, -50 + 2 * 256 + 6)));
}

#[test]
fn a_copy_round_trips_through_rgba8() {
    let rgba: Vec<u8> = (0..300 * 2).flat_map(|i| [(i % 256) as u8, 7, 9, 255]).collect();
    let clip = from_os(300, 2, &rgba, true);
    let (w, h, back) = os_pixels(&clip).unwrap();
    assert_eq!((w, h), (300, 2));
    assert_eq!(back, rgba);
}

#[test]
fn an_eight_bit_copy_round_trips_too() {
    let rgba: Vec<u8> = (0..5 * 3).flat_map(|i| [i as u8, 200, 0, 128]).collect();
    let clip = from_os(5, 3, &rgba, false);
    assert_eq!(clip.bounds, (0, 0, 5, 3));
    assert_eq!(clip.offset, (0, 0));
    assert_eq!(os_pixels(&clip).unwrap(), (5, 3, rgba));
}

#[test]
fn sixteen_bit_pixels_are_rounded_to_bytes() {
    let mut image = raster(2, 1, true);
    let mut d = vec![0u16; TILE_VALUES];
    d[0..4].copy_from_slice(&[65535, 32768, 128, 0]);
    d[4..8].copy_from_slice(&[257, 514, 0, 65535]);
    image.slots[0] = Slot::Data(d);
    let clip = ClipboardImage { image, offset: (0, 0), bounds: (0, 0, 2, 1) };
    let (_, _, rows) = os_pixels(&clip).unwrap();
    assert_eq!(rows, vec![255, 128, 0, 0, 1, 2, 0, 255]);
}

#[test]
fn pixels_off_the_image_are_transparent() {
    let mut image = raster(1, 1, false);
    image.slots[0] = Slot::Solid([10, 20, 30, 40]);
    let clip = ClipboardImage { image, offset: (5, 5), bounds: (4, 5, 6, 6) };
    assert_eq!(os_pixels(&clip).unwrap(), (2, 1, vec![0, 0, 0, 0, 10, 20, 30, 40]));
}

#[test]
fn large_or_empty_copies_stay_internal() {
    let image = raster(1, 1, false);
    let clip = ClipboardImage { image, offset: (0, 0), bounds: (0, 0, OS_LIMIT as i32 + 1, 1) };
    assert!(os_pixels(&clip).is_none());
    let clip = ClipboardImage { image: clip.image, offset: (0, 0), bounds: (3, 0, 3, 1) };
    assert!(os_pixels(&clip).is_none());
}

#[test]
fn nothing_with_alpha_copies_nothing() {
    let image = raster(300, 300, false);
    assert_eq!(alpha_bounds(&image, (0, 0)), None);
    assert!(clip_of(image, (0, 0)).is_none());
    let mut image = raster(300, 300, false);
    image.slots[3] = alpha_at(0, 0, 0);
    assert_eq!(alpha_bounds(&image, (0, 0)), None);
    let mut image = raster(300, 300, false);
    image.slots[3] = alpha_at(4, 9, 7);
    let clip = clip_of(image, (1, 2)).unwrap();
    assert_eq!(clip.bounds, (256 + 4 + 1, 256 + 9 + 2, 256 + 5 + 1, 256 + 10 + 2));
    assert_eq!(clip.offset, (1, 2));
}

#[test]
fn a_solid_tile_counts_as_a_whole_within_the_image() {
    let mut image = raster(300, 260, false);
    image.slots[3] = Slot::Solid([0, 0, 0, 0]);
    assert_eq!(alpha_bounds(&image, (0, 0)), Some((256, 256, 300, 260)));
}

/// A 300 × 200 Rgba8 image: opaque inside, transparent beyond the canvas in
/// the edge tile (as an import leaves it), with one pixel of alpha `hole`.
fn opaque_image(hole: u16) -> Raster {
    let mut image = raster(300, 200, false);
    image.slots[0] = Slot::Solid([10, 20, 30, 255]);
    let mut d = vec![0u16; TILE_VALUES];
    for y in 0..200usize {
        for x in 0..44usize {
            d[(y * 256 + x) * 4..][..4].copy_from_slice(&[1, 2, 3, 255]);
        }
    }
    d[(199 * 256 + 43) * 4 + 3] = hole;
    image.slots[1] = Slot::Data(d);
    image
}

#[test]
fn opaque_only_when_every_canvas_pixel_is() {
    assert!(opaque_cover(&opaque_image(255), 300, 200));
    assert!(!opaque_cover(&opaque_image(254), 300, 200));
    // A smaller image leaves canvas pixels uncovered.
    assert!(!opaque_cover(&opaque_image(255), 301, 200));
    // An empty tile over the canvas is transparent.
    let mut holed = opaque_image(255);
    holed.slots[0] = Slot::Empty;
    assert!(!opaque_cover(&holed, 300, 200));
    // A solid tile with partial alpha is not opaque.
    let mut faint = opaque_image(255);
    faint.slots[0] = Slot::Solid([10, 20, 30, 254]);
    assert!(!opaque_cover(&faint, 300, 200));
}

fn root(visible: bool, content: LayerContent) -> RootLayer {
    RootLayer { visible, full_strength: true, has_mask: false, content }
}

#[test]
fn the_bottom_visible_layer_decides_opacity() {
    let pixels = |hole| LayerContent::Pixel { offset: (0, 0), image: opaque_image(hole) };
    assert!(opaque_background(&vec![root(true, pixels(255))], 300, 200));
    assert!(!opaque_background(&vec![root(true, pixels(254))], 300, 200));
    // A hidden layer does not count; the first visible one does.
    assert!(opaque_background(&vec![root(false, pixels(254)), root(true, pixels(255))], 300, 200));
    assert!(!opaque_background(&vec![root(true, pixels(254)), root(true, pixels(255))], 300, 200));
    // Solid fills by their alpha; other kinds never.
    assert!(opaque_background(&vec![root(true, LayerContent::SolidFill { alpha: 65535 })], 300, 200));
    assert!(!opaque_background(&vec![root(true, LayerContent::SolidFill { alpha: 65534 })], 300, 200));
    assert!(!opaque_background(&vec![root(true, LayerContent::Other)], 300, 200));
    // Moved pixels, a mask or less than full strength are not opaque.
    let moved = LayerContent::Pixel { offset: (1, 0), image: opaque_image(255) };
    assert!(!opaque_background(&vec![root(true, moved)], 300, 200));
    let masked = RootLayer { has_mask: true, ..root(true, pixels(255)) };
    assert!(!opaque_background(&vec![masked], 300, 200));
    let faint = RootLayer { full_strength: false, ..root(true, pixels(255)) };
    assert!(!opaque_background(&vec![faint], 300, 200));
    // No visible layer at all.
    assert!(!opaque_background(&vec![root(false, pixels(255))], 300, 200));
    assert!(!opaque_background(&Vec::new(), 300, 200));
}
