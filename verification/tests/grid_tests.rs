use floodfill::{Grid, GridError, Tile};

#[test]
fn new_grid_is_all_empty() {
    let g = Grid::new(4, 3).unwrap();
    assert_eq!(g.width(), 4);
    assert_eq!(g.height(), 3);
    for y in 0..3 {
        for x in 0..4 {
            assert_eq!(g.get(x, y).unwrap(), Tile::Empty);
        }
    }
}

#[test]
fn new_rejects_zero_width() {
    assert_eq!(Grid::new(0, 5).unwrap_err(), GridError::InvalidDimensions);
}

#[test]
fn new_rejects_zero_height() {
    assert_eq!(Grid::new(5, 0).unwrap_err(), GridError::InvalidDimensions);
}

#[test]
fn set_then_get_roundtrip() {
    let mut g = Grid::new(3, 3).unwrap();
    g.set(2, 1, Tile::Wall).unwrap();
    assert_eq!(g.get(2, 1).unwrap(), Tile::Wall);
    assert_eq!(g.get(1, 2).unwrap(), Tile::Empty);
    g.set(2, 1, Tile::Empty).unwrap();
    assert_eq!(g.get(2, 1).unwrap(), Tile::Empty);
}

#[test]
fn get_out_of_bounds() {
    let g = Grid::new(3, 2).unwrap();
    assert_eq!(g.get(3, 0).unwrap_err(), GridError::OutOfBounds);
    assert_eq!(g.get(0, 2).unwrap_err(), GridError::OutOfBounds);
}

#[test]
fn set_out_of_bounds_leaves_grid_unchanged() {
    let mut g = Grid::new(2, 2).unwrap();
    assert_eq!(g.set(2, 0, Tile::Wall).unwrap_err(), GridError::OutOfBounds);
    assert_eq!(g.set(0, 7, Tile::Wall).unwrap_err(), GridError::OutOfBounds);
    for y in 0..2 {
        for x in 0..2 {
            assert_eq!(g.get(x, y).unwrap(), Tile::Empty);
        }
    }
}

#[test]
fn replace_tiles_swaps_contents() {
    let mut g = Grid::new(2, 2).unwrap();
    let replacement = vec![
        vec![Tile::Wall, Tile::Empty],
        vec![Tile::Filled, Tile::Wall],
    ];
    g.replace_tiles(replacement).unwrap();
    assert_eq!(g.get(0, 0).unwrap(), Tile::Wall);
    assert_eq!(g.get(1, 0).unwrap(), Tile::Empty);
    assert_eq!(g.get(0, 1).unwrap(), Tile::Filled);
    assert_eq!(g.get(1, 1).unwrap(), Tile::Wall);
}

#[test]
fn replace_tiles_rejects_wrong_row_count() {
    let mut g = Grid::new(2, 2).unwrap();
    let replacement = vec![vec![Tile::Empty, Tile::Empty]];
    assert_eq!(
        g.replace_tiles(replacement).unwrap_err(),
        GridError::DimensionMismatch
    );
    assert_eq!(g.get(0, 0).unwrap(), Tile::Empty);
}

#[test]
fn replace_tiles_rejects_wrong_row_width() {
    let mut g = Grid::new(2, 2).unwrap();
    let replacement = vec![
        vec![Tile::Empty, Tile::Empty],
        vec![Tile::Empty, Tile::Empty, Tile::Empty],
    ];
    assert_eq!(
        g.replace_tiles(replacement).unwrap_err(),
        GridError::DimensionMismatch
    );
}
