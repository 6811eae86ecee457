use gridtone::grid::{Grid, SIDE};
use gridtone::sim::{
    get_next_pos, get_prev_pos, index_to_pos, life, life_seed, mover, mover_seed, pos_to_index,
    rain, rain_step,
};

#[test]
fn pos_index_roundtrip() {
    assert_eq!(index_to_pos(0), (0, 0));
    assert_eq!(index_to_pos(31), (31, 0));
    assert_eq!(index_to_pos(32), (0, 1));
    assert_eq!(index_to_pos(1023), (31, 31));
    for i in 0..(SIDE * SIDE) {
        assert_eq!(pos_to_index(index_to_pos(i)), i);
    }
}

#[test]
fn mover_positions_follow_raster_order() {
    assert_eq!(get_prev_pos(0), (0, 0));
    assert_eq!(get_next_pos(0), (0, 0));
    assert_eq!(get_prev_pos(1), (0, 0));
    assert_eq!(get_next_pos(1), (1, 0));
    assert_eq!(get_next_pos(32), (0, 1));
    // the walk wraps after SIDE * SIDE ticks
    assert_eq!(get_next_pos(1024), (0, 0));
    assert_eq!(get_prev_pos(1024), (31, 31));
}

#[test]
fn mover_keeps_single_alive_cell() {
    let mut grid = Grid::new();
    mover_seed(&mut grid);
    assert_eq!(grid.count_alive_cells(), 1);
    for tick in 1..100u64 {
        mover(&mut grid, tick);
        assert_eq!(grid.count_alive_cells(), 1);
        let (x, y) = get_next_pos(tick);
        assert!(grid.get_cell(x, y).unwrap().alive);
    }
}

#[test]
fn mover_same_position_is_a_noop() {
    let mut grid = Grid::new();
    mover_seed(&mut grid);
    // before the first tick the previous and next positions coincide
    mover(&mut grid, 0);
    assert_eq!(grid.count_alive_cells(), 1);
    assert!(grid.get_cell(0, 0).unwrap().alive);
}

#[test]
fn rain_spawns_on_row_zero_and_falls() {
    let mut grid = Grid::new();
    rain_step(&mut grid, 5);
    assert_eq!(grid.count_alive_cells(), 1);
    assert!(grid.get_cell(5, 0).unwrap().alive);

    rain_step(&mut grid, 7);
    assert_eq!(grid.count_alive_cells(), 2);
    assert!(grid.get_cell(5, 1).unwrap().alive);
    assert!(grid.get_cell(7, 0).unwrap().alive);
    assert!(!grid.get_cell(5, 0).unwrap().alive);
}

#[test]
fn rain_discards_drops_at_bottom_edge() {
    let mut grid = Grid::new();
    grid.set_cell_params(3, SIDE - 1, Some(true), None, None);
    rain_step(&mut grid, 0);
    // the bottom drop fell off; only the fresh spawn remains
    assert_eq!(grid.count_alive_cells(), 1);
    assert!(grid.get_cell(0, 0).unwrap().alive);
}

#[test]
fn rain_does_not_spawn_when_full() {
    let mut grid = Grid::new();
    // fill rows 1 and 2 completely: 2 * SIDE falling drops
    for x in 0..SIDE {
        grid.set_cell_params(x, 1, Some(true), None, None);
        grid.set_cell_params(x, 2, Some(true), None, None);
    }
    rain_step(&mut grid, 4);
    // no new drop on row 0, everything moved one row down
    assert_eq!(grid.count_alive_cells(), 2 * SIDE as usize);
    for x in 0..SIDE {
        assert!(!grid.get_cell(x, 0).unwrap().alive);
        assert!(!grid.get_cell(x, 1).unwrap().alive);
        assert!(grid.get_cell(x, 2).unwrap().alive);
        assert!(grid.get_cell(x, 3).unwrap().alive);
    }
}

#[test]
fn rain_alive_count_grows_by_at_most_one() {
    let mut grid = Grid::new();
    let mut previous: usize = 0;
    for _ in 0..80 {
        rain(&mut grid);
        let count = grid.count_alive_cells();
        assert!(count <= previous + 1);
        previous = count;
    }
}

#[test]
fn rain_random_spawn_lands_on_row_zero() {
    for _ in 0..20 {
        let mut grid = Grid::new();
        rain(&mut grid);
        assert_eq!(grid.count_alive_cells(), 1);
        let indexes = grid.get_enabled_cells_indexes();
        assert!(indexes[0] < SIDE as usize);
    }
}

#[test]
fn life_dead_center_with_three_neighbours_becomes_alive() {
    let mut grid = Grid::new();
    grid.set_cell_params(9, 9, Some(true), None, None);
    grid.set_cell_params(10, 9, Some(true), None, None);
    grid.set_cell_params(11, 9, Some(true), None, None);
    life(&mut grid);
    assert!(grid.get_cell(10, 10).unwrap().alive);
}

#[test]
fn life_isolated_cell_dies() {
    let mut grid = Grid::new();
    grid.set_cell_params(5, 5, Some(true), None, None);
    life(&mut grid);
    assert!(!grid.get_cell(5, 5).unwrap().alive);
    assert_eq!(grid.count_alive_cells(), 0);
}

#[test]
fn life_cell_with_one_neighbour_dies() {
    let mut grid = Grid::new();
    grid.set_cell_params(5, 5, Some(true), None, None);
    grid.set_cell_params(5, 6, Some(true), None, None);
    life(&mut grid);
    assert!(!grid.get_cell(5, 5).unwrap().alive);
    assert!(!grid.get_cell(5, 6).unwrap().alive);
}

#[test]
fn life_blinker_oscillates() {
    let mut grid = Grid::new();
    grid.set_cell_params(9, 10, Some(true), None, None);
    grid.set_cell_params(10, 10, Some(true), None, None);
    grid.set_cell_params(11, 10, Some(true), None, None);
    life(&mut grid);
    // the horizontal bar flips to a vertical one
    assert!(!grid.get_cell(9, 10).unwrap().alive);
    assert!(!grid.get_cell(11, 10).unwrap().alive);
    assert!(grid.get_cell(10, 9).unwrap().alive);
    assert!(grid.get_cell(10, 10).unwrap().alive);
    assert!(grid.get_cell(10, 11).unwrap().alive);
    assert_eq!(grid.count_alive_cells(), 3);
}

#[test]
fn life_step_is_deterministic() {
    let mut first = Grid::new();
    let mut second = Grid::new();
    for (x, y) in [(3, 4), (4, 4), (5, 4), (4, 5), (20, 20), (20, 21), (21, 20), (0, 0), (1, 1)] {
        first.set_cell_params(x, y, Some(true), None, None);
        second.set_cell_params(x, y, Some(true), None, None);
    }
    life(&mut first);
    life(&mut second);
    for x in 0..SIDE {
        for y in 0..SIDE {
            assert_eq!(first.get_cell(x, y), second.get_cell(x, y));
        }
    }
}

#[test]
fn life_keeps_marked_and_active() {
    let mut grid = Grid::new();
    grid.set_cell_params(6, 6, None, Some(true), Some(true));
    grid.set_cell_params(8, 8, Some(true), None, None);
    life(&mut grid);
    let cell = grid.get_cell(6, 6).unwrap();
    assert!(cell.marked && cell.active);
}

#[test]
fn life_seed_on_empty_grid_sets_cells_alive() {
    let mut grid = Grid::new();
    life_seed(&mut grid);
    let count = grid.count_alive_cells();
    assert!(count >= 1);
    assert!(count <= (SIDE * SIDE / 2) as usize);
}

#[test]
fn life_seed_only_adds_alive_cells() {
    let mut grid = Grid::new();
    grid.set_cell_params(0, 0, Some(true), Some(true), None);
    life_seed(&mut grid);
    assert!(grid.get_cell(0, 0).unwrap().alive);
    assert!(grid.get_cell(0, 0).unwrap().marked);
    let count = grid.count_alive_cells();
    assert!(count >= 1);
    assert!(count <= 1 + (SIDE * SIDE / 2) as usize);
}
