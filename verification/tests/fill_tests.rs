use floodfill::{flood_fill, Grid, GridError, Tile};

fn grid_from(rows: Vec<Vec<Tile>>) -> Grid {
    let mut g = Grid::new(rows[0].len(), rows.len()).unwrap();
    g.replace_tiles(rows).unwrap();
    g
}

#[test]
fn zero_steps_converts_exactly_the_origin() {
    // 3x3, all Empty, origin (1,1), zero budget: only the seed happens.
    let g = Grid::new(3, 3).unwrap();
    let tiles = flood_fill(&g, 1, 1, 0).unwrap();
    for y in 0..3 {
        for x in 0..3 {
            if (x, y) == (1, 1) {
                assert_eq!(tiles[y][x], Tile::Filled);
            } else {
                assert_eq!(tiles[y][x], Tile::Empty);
            }
        }
    }
}

#[test]
fn zero_steps_corner_origin() {
    let g = Grid::new(2, 2).unwrap();
    let tiles = flood_fill(&g, 0, 1, 0).unwrap();
    assert_eq!(tiles[1][0], Tile::Filled);
    assert_eq!(tiles[0][0], Tile::Empty);
    assert_eq!(tiles[0][1], Tile::Empty);
    assert_eq!(tiles[1][1], Tile::Empty);
}

#[test]
fn generous_budget_fills_a_row() {
    // 3x1 row of Empty, origin (0,0), budget 10: the whole row fills.
    let g = Grid::new(3, 1).unwrap();
    let tiles = flood_fill(&g, 0, 0, 10).unwrap();
    assert_eq!(tiles[0], vec![Tile::Filled, Tile::Filled, Tile::Filled]);
}

#[test]
fn wall_blocks_propagation() {
    // 3x1 row with a Wall in the middle: the fill never crosses it.
    let g = grid_from(vec![vec![Tile::Empty, Tile::Wall, Tile::Empty]]);
    let tiles = flood_fill(&g, 0, 0, 10).unwrap();
    assert_eq!(tiles[0], vec![Tile::Filled, Tile::Wall, Tile::Empty]);
}

#[test]
fn out_of_bounds_origin_fails_and_grid_is_untouched() {
    // Origin x equal to the width is already outside the grid.
    let g = Grid::new(3, 3).unwrap();
    assert_eq!(flood_fill(&g, 3, 0, 5).unwrap_err(), GridError::OutOfBounds);
    assert_eq!(flood_fill(&g, 0, 3, 5).unwrap_err(), GridError::OutOfBounds);
    for y in 0..3 {
        for x in 0..3 {
            assert_eq!(g.get(x, y).unwrap(), Tile::Empty);
        }
    }
}

#[test]
fn output_dimensions_match_input_dimensions() {
    let g = Grid::new(5, 4).unwrap();
    let tiles = flood_fill(&g, 2, 2, 7).unwrap();
    assert_eq!(tiles.len(), 4);
    for row in &tiles {
        assert_eq!(row.len(), 5);
    }
}

#[test]
fn walls_survive_a_full_flood() {
    let g = grid_from(vec![
        vec![Tile::Empty, Tile::Wall, Tile::Empty],
        vec![Tile::Wall, Tile::Empty, Tile::Empty],
        vec![Tile::Empty, Tile::Empty, Tile::Wall],
    ]);
    let tiles = flood_fill(&g, 1, 1, 1000).unwrap();
    assert_eq!(tiles[0][1], Tile::Wall);
    assert_eq!(tiles[1][0], Tile::Wall);
    assert_eq!(tiles[2][2], Tile::Wall);
}

#[test]
fn already_filled_tiles_stay_filled() {
    let g = grid_from(vec![
        vec![Tile::Filled, Tile::Wall],
        vec![Tile::Wall, Tile::Empty],
    ]);
    // The origin is a Wall here, so only pre-existing Filled tiles propagate.
    let tiles = flood_fill(&g, 0, 1, 3).unwrap();
    assert_eq!(tiles[0][0], Tile::Filled);
}

#[test]
fn filled_origin_is_not_reseeded() {
    let g = grid_from(vec![vec![Tile::Filled]]);
    let tiles = flood_fill(&g, 0, 0, 0).unwrap();
    assert_eq!(tiles[0][0], Tile::Filled);
}

#[test]
fn seed_is_free_but_the_visit_cost_is_flat() {
    // 1x4 row, origin (0,0), budget 2. The seed is free; the first round
    // converts (1,0) for one unit and charges one flat unit for visiting
    // the origin cell, which exhausts the budget before a second round.
    let g = Grid::new(4, 1).unwrap();
    let tiles = flood_fill(&g, 0, 0, 2).unwrap();
    assert_eq!(
        tiles[0],
        vec![Tile::Filled, Tile::Filled, Tile::Empty, Tile::Empty]
    );
}

#[test]
fn final_round_can_overshoot_the_budget() {
    // A Filled cell flanked by two Empty cells, budget 1: the round in
    // progress completes, so both neighbors convert — one more conversion
    // than the nominal budget.
    let g = grid_from(vec![vec![Tile::Empty, Tile::Filled, Tile::Empty]]);
    let tiles = flood_fill(&g, 1, 0, 1).unwrap();
    assert_eq!(tiles[0], vec![Tile::Filled, Tile::Filled, Tile::Filled]);
}

#[test]
fn negative_budget_only_seeds() {
    let g = Grid::new(2, 1).unwrap();
    let tiles = flood_fill(&g, 0, 0, -3).unwrap();
    assert_eq!(tiles[0], vec![Tile::Filled, Tile::Empty]);
}

#[test]
fn wall_origin_with_no_filled_tiles_changes_nothing() {
    let g = grid_from(vec![vec![Tile::Wall, Tile::Empty]]);
    let tiles = flood_fill(&g, 0, 0, 9).unwrap();
    assert_eq!(tiles[0], vec![Tile::Wall, Tile::Empty]);
}

#[test]
fn fill_result_installs_back_into_the_grid() {
    let mut g = Grid::new(3, 2).unwrap();
    let tiles = flood_fill(&g, 0, 0, 100).unwrap();
    g.replace_tiles(tiles).unwrap();
    for y in 0..2 {
        for x in 0..3 {
            assert_eq!(g.get(x, y).unwrap(), Tile::Filled);
        }
    }
}

#[test]
fn fill_spreads_in_all_four_directions() {
    let g = Grid::new(3, 3).unwrap();
    let tiles = flood_fill(&g, 1, 1, 4).unwrap();
    // One round: the seeded center converts left, right, up, down.
    assert_eq!(tiles[1][0], Tile::Filled);
    assert_eq!(tiles[1][2], Tile::Filled);
    assert_eq!(tiles[0][1], Tile::Filled);
    assert_eq!(tiles[2][1], Tile::Filled);
    assert_eq!(tiles[1][1], Tile::Filled);
    assert_eq!(tiles[0][0], Tile::Empty);
    assert_eq!(tiles[0][2], Tile::Empty);
    assert_eq!(tiles[2][0], Tile::Empty);
    assert_eq!(tiles[2][2], Tile::Empty);
}
