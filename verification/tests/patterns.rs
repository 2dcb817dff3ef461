use fx_engine::patterns::{default_patterns, from8_pixels, to8_pixels};

/// The recipes of the default patterns, as floating-point drawing code.
fn recipe(k: usize, x: u32, y: u32) -> [u16; 4] {
    let white = [65535, 65535, 65535, 65535];
    let grey = [40000, 40000, 40000, 65535];
    let dark = [12000, 12000, 12000, 65535];
    match k {
        0 => {
            if (x / 16 + y / 16) % 2 == 0 {
                white
            } else {
                grey
            }
        }
        1 => {
            let (dx, dy) = (f64::from(x) - 11.5, f64::from(y) - 11.5);
            if dx * dx + dy * dy < 25.0 {
                dark
            } else {
                white
            }
        }
        2 => {
            if (x + y) % 16 < 3 {
                dark
            } else {
                white
            }
        }
        _ => {
            let shift = if (y / 16) % 2 == 0 { 0 } else { 16 };
            if y % 16 < 2 || (x + shift) % 32 < 2 {
                [52000, 52000, 50000, 65535]
            } else {
                [42000, 16000, 11000, 65535]
            }
        }
    }
}

#[test]
fn the_default_patterns_follow_their_recipes() {
    let patterns = default_patterns();
    let names: Vec<&str> = patterns.iter().map(|p| p.name.as_str()).collect();
    assert_eq!(names, ["Checkerboard", "Dots", "Diagonal Lines", "Bricks"]);
    assert_eq!(patterns.iter().map(|p| p.side).collect::<Vec<_>>(), [32, 24, 16, 64]);
    for (k, p) in patterns.iter().enumerate() {
        assert_eq!(p.pixels.len() as u32, p.side * p.side);
        for y in 0..p.side {
            for x in 0..p.side {
                assert_eq!(p.pixels[(y * p.side + x) as usize], recipe(k, x, y), "{} at ({x}, {y})", p.name);
            }
        }
    }
}

#[test]
fn stored_patterns_round_trip_through_eight_bits() {
    let rgba: Vec<u8> = (0..2 * 3 * 4).map(|i| (i * 10) as u8).collect();
    let pixels = from8_pixels(2, 3, &rgba, 64).unwrap();
    assert_eq!(to8_pixels(&pixels), rgba);
    assert!(from8_pixels(0, 3, &rgba, 64).is_none());
    assert!(from8_pixels(3, 3, &rgba, 64).is_none(), "too few bytes");
}
