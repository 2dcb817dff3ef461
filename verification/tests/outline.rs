use fx_engine::outline::{
    corner_position, div_ceil, document_bounds, join, outline, sample_position, sample_window, simplify, DocRect,
};

const TILE: u32 = 256;

/// A selection as the tests build it: a coverage predicate on document
/// pixels, and the tiles that hold any covered pixel.
struct Sel {
    size: (u32, u32),
    covered: Box<dyn Fn(i64, i64) -> bool>,
    tiles: Vec<(u32, u32)>,
}

fn disc(size: (u32, u32), centre: (f64, f64), radius: f64) -> Sel {
    let covered = move |x: i64, y: i64| {
        let (dx, dy) = (x as f64 + 0.5 - centre.0, y as f64 + 0.5 - centre.1);
        dx * dx + dy * dy <= radius * radius
    };
    let mut tiles = Vec::new();
    for ty in 0..size.1.div_ceil(TILE) {
        for tx in 0..size.0.div_ceil(TILE) {
            let mut any = false;
            for py in 0..TILE {
                for px in 0..TILE {
                    if covered(i64::from(tx * TILE + px), i64::from(ty * TILE + py)) {
                        any = true;
                    }
                }
            }
            if any {
                tiles.push((tx, ty));
            }
        }
    }
    Sel { size, covered: Box::new(covered), tiles }
}

/// The outline as the view draws it: polylines in document pixels.
fn contour(selection: &Sel, level: u32, visible: DocRect) -> Vec<(Vec<(f64, f64)>, bool)> {
    let Some(bbox) = document_bounds(&selection.tiles, (0, 0)) else {
        return Vec::new();
    };
    let Some(window) = sample_window(bbox, visible, selection.size.0, selection.size.1, level) else {
        return Vec::new();
    };
    let (w, h) = (window.w, window.h);
    let mut inside = vec![false; w * h];
    for j in 0..h {
        for i in 0..w {
            let (x, y) = sample_position(&window, i, j);
            let on_canvas = x >= 0 && y >= 0 && x < i64::from(selection.size.0) && y < i64::from(selection.size.1);
            inside[j * w + i] = on_canvas && (selection.covered)(x, y);
        }
    }
    let mut items = Vec::new();
    for (points, closed) in outline(&inside, w, h) {
        if points.len() < 2 {
            continue;
        }
        let document = points
            .iter()
            .map(|&p| {
                let (x, y) = corner_position(&window, p);
                (x as f64, y as f64)
            })
            .collect();
        items.push((document, closed));
    }
    items
}

#[test]
fn a_disc_gives_one_closed_polyline() {
    let selection = disc((600, 600), (300.0, 300.0), 100.0);
    let overlay = contour(&selection, 0, (0, 0, 600, 600));
    assert_eq!(overlay.len(), 1, "{:?}", overlay);
    let (points, closed) = &overlay[0];
    assert!(*closed, "the disc's outline is a closed loop");
    assert!(points.len() >= 8, "a circle is approximated by many points");
    for (x, y) in points {
        let d = ((x - 300.0).powi(2) + (y - 300.0).powi(2)).sqrt();
        assert!((d - 100.0).abs() <= 2.0, "point ({x}, {y}) at distance {d}");
    }
}

#[test]
fn a_full_canvas_selection_has_one_loop_and_an_empty_one_none() {
    let full = Sel { size: (512, 512), covered: Box::new(|x, y| x < 256 && y < 256), tiles: vec![(0, 0)] };
    assert_eq!(contour(&full, 0, (0, 0, 512, 512)).len(), 1);
    let empty = Sel { size: (512, 512), covered: Box::new(|_, _| false), tiles: Vec::new() };
    assert!(contour(&empty, 0, (0, 0, 512, 512)).is_empty());
}

#[test]
fn a_higher_level_costs_fewer_samples_but_stays_a_loop() {
    let selection = disc((2048, 2048), (1024.0, 1024.0), 500.0);
    let fine = contour(&selection, 0, (0, 0, 2048, 2048));
    let coarse = contour(&selection, 3, (0, 0, 2048, 2048));
    assert_eq!(fine.len(), 1);
    assert_eq!(coarse.len(), 1);
    assert!(coarse[0].0.len() < fine[0].0.len(), "the coarse contour is simpler");
}

#[test]
fn a_square_outline_is_its_four_corners() {
    // A 2 × 2 block inside a 4 × 4 grid.
    let mut inside = vec![false; 16];
    for (i, j) in [(1, 1), (2, 1), (1, 2), (2, 2)] {
        inside[j * 4 + i] = true;
    }
    let chains = outline(&inside, 4, 4);
    assert_eq!(chains.len(), 1);
    let (points, closed) = &chains[0];
    assert!(*closed);
    for corner in [(1, 1), (1, 3), (3, 1), (3, 3)] {
        assert!(points.contains(&corner), "{points:?}");
    }
    // Only the run through the start point may keep a middle point.
    assert!(points.len() <= 5, "{points:?}");
}

#[test]
fn nothing_inside_gives_no_outline() {
    assert!(outline(&vec![false; 9], 3, 3).is_empty());
}

#[test]
fn an_open_run_joins_into_one_chain() {
    let segments = vec![((0, 0), (1, 0)), ((2, 0), (1, 0)), ((2, 0), (2, 1))];
    let chains = join(&segments, 3, 2);
    assert_eq!(chains.len(), 1);
    let (points, closed) = &chains[0];
    assert!(!*closed);
    assert_eq!(points.len(), 3);
    let ends = [points[0], points[2]];
    assert!(ends.contains(&(0, 0)) && ends.contains(&(2, 1)));
    assert_eq!(points[1], (2, 0));
}

#[test]
fn collinear_points_collapse() {
    assert_eq!(simplify(vec![(0, 0), (1, 0), (2, 0), (3, 0), (3, 1), (3, 2)]), vec![(0, 0), (3, 0), (3, 2)]);
    assert_eq!(simplify(vec![(5, 5)]), vec![(5, 5)]);
    // Steps of different lengths along one direction still collapse.
    assert_eq!(simplify(vec![(0, 0), (1, 0), (3, 0)]), vec![(0, 0), (3, 0)]);
    // Turning back is a change of direction.
    assert_eq!(simplify(vec![(0, 0), (1, 0), (0, 0)]), vec![(0, 0), (1, 0), (0, 0)]);
    // A diagonal run becomes two points too.
    assert_eq!(simplify(vec![(0, 0), (1, 1), (2, 2), (3, 3)]), vec![(0, 0), (3, 3)]);
    assert_eq!(simplify(Vec::new()), Vec::<(i64, i64)>::new());
}

#[test]
fn bounds_cover_the_tiles_and_their_offset() {
    assert_eq!(document_bounds(&Vec::new(), (0, 0)), None);
    assert_eq!(document_bounds(&vec![(1, 0), (0, 2)], (10, -5)), Some((10, -5, 522, 763)));
}

#[test]
fn division_rounds_up() {
    assert_eq!(div_ceil(0, 4), 0);
    assert_eq!(div_ceil(1, 4), 1);
    assert_eq!(div_ceil(8, 4), 2);
    assert_eq!(div_ceil(9, 4), 3);
}

#[test]
fn the_sample_window_is_the_visible_box_grown_by_one() {
    let window = sample_window((256, 0, 512, 256), (0, 0, 1000, 1000), 600, 600, 3).unwrap();
    assert_eq!((window.step, window.half), (8, 4));
    assert_eq!((window.i0, window.j0), (31, -1));
    assert_eq!((window.w, window.h), (34, 34));
    assert_eq!(sample_position(&window, 0, 0), (31 * 8 + 4, -8 + 4));
    assert_eq!(corner_position(&window, (2, 3)), (33 * 8, 16));
    assert!(sample_window((0, 0, 100, 100), (200, 200, 300, 300), 600, 600, 0).is_none());
}

#[test]
fn a_straight_run_joins_into_one_open_chain_of_its_ends() {
    let segments = vec![((0, 0), (1, 0)), ((1, 0), (2, 0)), ((2, 0), (3, 0))];
    let chains = join(&segments, 3, 1);
    assert!(
        chains == vec![(vec![(0, 0), (3, 0)], false)] || chains == vec![(vec![(3, 0), (0, 0)], false)],
        "{chains:?}"
    );
}

#[test]
fn a_unit_square_joins_into_one_closed_loop() {
    let segments = vec![((0, 0), (1, 0)), ((0, 1), (1, 1)), ((0, 0), (0, 1)), ((1, 0), (1, 1))];
    let chains = join(&segments, 1, 1);
    assert_eq!(chains.len(), 1);
    let (points, closed) = &chains[0];
    assert!(*closed);
    assert_eq!(points.len(), 4);
    let ring = [(0, 0), (1, 0), (1, 1), (0, 1)];
    let at = ring.iter().position(|p| *p == points[0]).unwrap();
    let forward: Vec<(i64, i64)> = (0..4).map(|k| ring[(at + k) % 4]).collect();
    let backward: Vec<(i64, i64)> = (0..4).map(|k| ring[(at + 4 - k) % 4]).collect();
    assert!(*points == forward || *points == backward, "{points:?}");
}

#[test]
fn an_outline_without_open_ends_joins_into_closed_loops_only() {
    // Two separate blocks, whole inside the grid: every corner has an even
    // number of boundary segments.
    let mut inside = vec![false; 7 * 4];
    for (i, j) in [(1, 1), (2, 1), (1, 2), (2, 2), (5, 1), (5, 2)] {
        inside[j * 7 + i] = true;
    }
    let chains = outline(&inside, 7, 4);
    assert_eq!(chains.len(), 2);
    assert!(chains.iter().all(|(_, closed)| *closed), "{chains:?}");
}

#[test]
fn a_walk_goes_on_through_a_crossing() {
    // Two squares that share the corner (1, 1): the walks go on through the
    // crossing, so the figure eight comes back as closed loops.
    let segments = vec![
        ((0, 0), (1, 0)),
        ((1, 0), (1, 1)),
        ((1, 1), (0, 1)),
        ((0, 1), (0, 0)),
        ((1, 1), (2, 1)),
        ((2, 1), (2, 2)),
        ((2, 2), (1, 2)),
        ((1, 2), (1, 1)),
    ];
    let chains = join(&segments, 2, 2);
    assert!(!chains.is_empty() && chains.len() <= 2, "{chains:?}");
    assert!(chains.iter().all(|(_, closed)| *closed), "{chains:?}");
}
