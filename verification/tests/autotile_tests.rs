use worldgen::autotile::{compute_corner_index, compute_tile_index, propagate, Direction};

#[test]
fn edge_masks_reproduce_the_table() {
    assert_eq!(compute_tile_index(0b1111, 0b0000, (0, 1)), 0b0110);
    assert_eq!(compute_tile_index(0b0000, 0b1111, (0, 1)), 0b1001);
    assert_eq!(compute_tile_index(0b1111, 0b0000, (1, 0)), 0b0101);
    assert_eq!(compute_tile_index(0b0000, 0b1111, (1, 0)), 0b1010);
    assert_eq!(compute_tile_index(0b1111, 0b0000, (0, -1)), 0b0011);
    assert_eq!(compute_tile_index(0b0000, 0b1111, (0, -1)), 0b1100);
    assert_eq!(compute_tile_index(0b1111, 0b0000, (-1, 0)), 0b1010);
    assert_eq!(compute_tile_index(0b0000, 0b1111, (-1, 0)), 0b0101);
}

#[test]
fn corner_masks_reproduce_the_table() {
    assert_eq!(compute_corner_index(0b1111, 0b0000, (-1, 1)), 0b1000);
    assert_eq!(compute_corner_index(0b0000, 0b1111, (-1, 1)), 0b0111);
    assert_eq!(compute_corner_index(0b1111, 0b0000, (1, 1)), 0b0100);
    assert_eq!(compute_corner_index(0b0000, 0b1111, (1, 1)), 0b1011);
    assert_eq!(compute_corner_index(0b1111, 0b0000, (-1, -1)), 0b0010);
    assert_eq!(compute_corner_index(0b0000, 0b1111, (-1, -1)), 0b1101);
    assert_eq!(compute_corner_index(0b1111, 0b0000, (1, -1)), 0b0001);
    assert_eq!(compute_corner_index(0b0000, 0b1111, (1, -1)), 0b1110);
}

#[test]
fn propagate_twice_changes_nothing_more() {
    let once = propagate(0b1010, 0b0101, Direction::North);
    let twice = propagate(0b1010, once, Direction::North);
    assert_eq!(once, twice);
}
