use fx_engine::patterns::{frame_to_rgba, from8_pixels, png_rgba, PngError};

fn encode(width: u32, height: u32, color: png::ColorType, data: &[u8]) -> Vec<u8> {
    let mut out = Vec::new();
    {
        let mut encoder = png::Encoder::new(&mut out, width, height);
        encoder.set_color(color);
        encoder.set_depth(png::BitDepth::Eight);
        let mut writer = encoder.write_header().unwrap();
        writer.write_image_data(data).unwrap();
    }
    out
}

#[test]
fn an_rgba_png_gives_its_pixels() {
    let pixels = [1, 2, 3, 4, 250, 251, 252, 253];
    let file = encode(2, 1, png::ColorType::Rgba, &pixels);
    assert_eq!(png_rgba(&file), Ok((2, 1, pixels.to_vec())));
}

#[test]
fn grey_with_alpha_is_spread_over_the_colour_channels() {
    let file = encode(2, 1, png::ColorType::GrayscaleAlpha, &[10, 20, 30, 40]);
    assert_eq!(png_rgba(&file), Ok((2, 1, vec![10, 10, 10, 20, 30, 30, 30, 40])));
}

#[test]
fn opaque_files_get_an_alpha_channel() {
    let grey = encode(2, 1, png::ColorType::Grayscale, &[7, 9]);
    assert_eq!(png_rgba(&grey), Ok((2, 1, vec![7, 7, 7, 255, 9, 9, 9, 255])));
    let rgb = encode(1, 1, png::ColorType::Rgb, &[5, 6, 7]);
    assert_eq!(png_rgba(&rgb), Ok((1, 1, vec![5, 6, 7, 255])));
}

#[test]
fn a_file_that_is_not_a_png_is_refused() {
    assert!(matches!(png_rgba(b"not a png"), Err(PngError::Decode(_))));
}

#[test]
fn an_imported_png_becomes_pattern_pixels() {
    let file = encode(1, 2, png::ColorType::Rgba, &[0, 128, 255, 255, 1, 1, 1, 1]);
    let (w, h, rgba) = png_rgba(&file).unwrap();
    let pixels = from8_pixels(w, h, &rgba, 8192).unwrap();
    assert_eq!(pixels, vec![[0, 128 * 257, 65535, 65535], [257, 257, 257, 257]]);
    assert!(from8_pixels(w, h, &rgba, 1).is_none(), "larger than the largest side");
}

#[test]
fn a_decoded_frame_becomes_rgba_or_says_why_not() {
    assert_eq!(frame_to_rgba(Err("bad".to_string())), Err(PngError::Decode("bad".to_string())));
    assert_eq!(frame_to_rgba(Ok(None)), Err(PngError::TooLarge));
    assert_eq!(frame_to_rgba(Ok(Some((1, 1, 2, vec![1, 2, 3])))), Err(PngError::Unsupported(2)));
    assert_eq!(frame_to_rgba(Ok(Some((2, 1, 6, vec![1, 2, 3, 4])))), Err(PngError::Truncated));
    assert_eq!(frame_to_rgba(Ok(Some((1, 1, 4, vec![9, 200])))), Ok((1, 1, vec![9, 9, 9, 200])));
    assert_eq!(frame_to_rgba(Ok(Some((1, 1, 6, vec![1, 2, 3, 4, 5])))), Ok((1, 1, vec![1, 2, 3, 4])));
}
