use fx_engine::mips::{children, tiles_below};

#[test]
fn a_mip_tile_is_made_of_four_children() {
    assert_eq!(children(3, 5), [(6, 10), (7, 10), (6, 11), (7, 11)]);
    assert_eq!(children(0, 0), [(0, 0), (1, 0), (0, 1), (1, 1)]);
}

#[test]
fn the_walk_goes_down_to_the_stale_children_on_the_grid() {
    // Level below: 3 × 3 tiles. Parent (1, 1) has one child on the grid.
    let parents = vec![(0, 0), (1, 1)];
    let stale = vec![[true, false, false, true], [true, true, true, true]];
    assert_eq!(tiles_below(&parents, 3, 3, &stale), vec![(0, 0), (1, 1), (2, 2)]);
    // Nothing stale, nothing to compute.
    assert!(tiles_below(&parents, 3, 3, &vec![[false; 4]; 2]).is_empty());
    assert!(tiles_below(&Vec::new(), 3, 3, &Vec::new()).is_empty());
}
