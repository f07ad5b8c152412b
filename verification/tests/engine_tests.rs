use life_engine::engine::{get_updates, should_stop, tick, update_at_indexes};
use life_engine::grid::Grid;
use life_engine::topology::neighbors_of;

/// Every live coordinate of the board, in row-major order.
fn alive_cells(grid: &Grid) -> Vec<(usize, usize)> {
    let mut live = Vec::new();
    for r in 0..grid.height() {
        for c in 0..grid.width() {
            if grid.get(r, c).unwrap().is_alive {
                live.push((r, c));
            }
        }
    }
    live
}

/// Recount every cell's live neighbors from scratch and compare with the
/// running counts the engine maintains.
fn assert_counts_consistent(grid: &Grid, wrapping: bool) {
    for r in 0..grid.height() {
        for c in 0..grid.width() {
            let mut expected = 0u8;
            for (nr, nc) in neighbors_of(r, c, grid.height(), grid.width(), wrapping) {
                if grid.get(nr, nc).unwrap().is_alive {
                    expected += 1;
                }
            }
            assert_eq!(grid.get(r, c).unwrap().neighbors, expected, "at ({}, {})", r, c);
        }
    }
}

#[test]
fn new_grid_is_dead_with_zero_counts() {
    let grid = Grid::new(4, 6);
    assert_eq!(grid.height(), 4);
    assert_eq!(grid.width(), 6);
    for r in 0..4 {
        for c in 0..6 {
            let cell = grid.get(r, c).unwrap();
            assert!(!cell.is_alive);
            assert_eq!(cell.neighbors, 0);
            assert_eq!(cell.ypos, r);
            assert_eq!(cell.xpos, c);
        }
    }
    assert!(grid.get(4, 0).is_none());
    assert!(grid.get(0, 6).is_none());
}

#[test]
fn toggle_flips_and_reports_the_new_state() {
    let mut grid = Grid::new(3, 3);
    assert_eq!(grid.toggle(1, 1), Some(true));
    assert!(grid.get(1, 1).unwrap().is_alive);
    assert_eq!(grid.toggle(1, 1), Some(false));
    assert!(!grid.get(1, 1).unwrap().is_alive);
    assert_eq!(grid.toggle(3, 0), None);
    assert_eq!(grid.toggle(0, 3), None);
}

#[test]
fn corner_has_three_neighbors_bounded() {
    let n = neighbors_of(0, 0, 5, 5, false);
    assert_eq!(n.len(), 3);
    assert!(n.contains(&(0, 1)));
    assert!(n.contains(&(1, 0)));
    assert!(n.contains(&(1, 1)));
}

#[test]
fn corner_has_eight_neighbors_wrapping() {
    let n = neighbors_of(0, 0, 5, 5, true);
    assert_eq!(n.len(), 8);
    for p in [(4, 4), (4, 0), (4, 1), (0, 4), (1, 4), (0, 1), (1, 0), (1, 1)] {
        assert!(n.contains(&p), "missing {:?}", p);
    }
}

#[test]
fn degenerate_wrapping_band_is_deduplicated() {
    // On a 2 x 2 wrapping board each cell has the 3 other cells as
    // neighbors, each counted once.
    let n = neighbors_of(0, 0, 2, 2, true);
    assert_eq!(n.len(), 3);
    for p in [(0, 1), (1, 0), (1, 1)] {
        assert!(n.contains(&p), "missing {:?}", p);
    }
}

#[test]
fn out_of_bounds_flip_is_absorbed() {
    let mut grid = Grid::new(5, 5);
    update_at_indexes(&mut grid, &vec![(7, 9)], false);
    for r in 0..5 {
        for c in 0..5 {
            let cell = grid.get(r, c).unwrap();
            assert!(!cell.is_alive);
            assert_eq!(cell.neighbors, 0);
        }
    }
}

#[test]
fn wrapping_corner_toggle_updates_all_eight_counts() {
    let mut grid = Grid::new(5, 5);
    update_at_indexes(&mut grid, &vec![(0, 0)], true);
    assert!(grid.get(0, 0).unwrap().is_alive);
    for (r, c) in [(4, 4), (4, 0), (4, 1), (0, 4), (1, 4), (0, 1), (1, 0), (1, 1)] {
        assert_eq!(grid.get(r, c).unwrap().neighbors, 1, "at ({}, {})", r, c);
    }
    // No other cell, the toggled one included, gains a count.
    let mut touched = 0;
    for r in 0..5 {
        for c in 0..5 {
            if grid.get(r, c).unwrap().neighbors != 0 {
                touched += 1;
            }
        }
    }
    assert_eq!(touched, 8);
    assert_eq!(grid.get(0, 0).unwrap().neighbors, 0);
}

#[test]
fn bounded_corner_toggle_updates_three_counts() {
    let mut grid = Grid::new(5, 5);
    update_at_indexes(&mut grid, &vec![(0, 0)], false);
    for (r, c) in [(0, 1), (1, 0), (1, 1)] {
        assert_eq!(grid.get(r, c).unwrap().neighbors, 1, "at ({}, {})", r, c);
    }
    let mut touched = 0;
    for r in 0..5 {
        for c in 0..5 {
            if grid.get(r, c).unwrap().neighbors != 0 {
                touched += 1;
            }
        }
    }
    assert_eq!(touched, 3);
}

#[test]
fn empty_grid_schedules_nothing_forever() {
    let mut grid = Grid::new(5, 5);
    let mut flips: Vec<(usize, usize)> = Vec::new();
    for _ in 0..3 {
        flips = tick(&mut grid, &flips, false);
        assert!(flips.is_empty());
        assert!(alive_cells(&grid).is_empty());
    }
}

#[test]
fn blinker_oscillates() {
    let mut grid = Grid::new(5, 5);
    update_at_indexes(&mut grid, &vec![(2, 1), (2, 2), (2, 3)], false);
    assert_eq!(alive_cells(&grid), vec![(2, 1), (2, 2), (2, 3)]);
    assert_counts_consistent(&grid, false);

    let flips = get_updates(&grid);
    update_at_indexes(&mut grid, &flips, false);
    assert_eq!(alive_cells(&grid), vec![(1, 2), (2, 2), (3, 2)]);
    assert_counts_consistent(&grid, false);

    let flips = get_updates(&grid);
    update_at_indexes(&mut grid, &flips, false);
    assert_eq!(alive_cells(&grid), vec![(2, 1), (2, 2), (2, 3)]);
    assert_counts_consistent(&grid, false);
}

#[test]
fn block_is_a_still_life() {
    let mut grid = Grid::new(4, 4);
    update_at_indexes(&mut grid, &vec![(1, 1), (1, 2), (2, 1), (2, 2)], false);
    assert_counts_consistent(&grid, false);
    for _ in 0..3 {
        let flips = get_updates(&grid);
        assert!(flips.is_empty());
        update_at_indexes(&mut grid, &flips, false);
        assert_eq!(alive_cells(&grid), vec![(1, 1), (1, 2), (2, 1), (2, 2)]);
    }
}

#[test]
fn double_toggle_in_one_batch_cancels() {
    let mut grid = Grid::new(5, 5);
    update_at_indexes(&mut grid, &vec![(2, 2), (2, 2)], false);
    assert!(alive_cells(&grid).is_empty());
    assert_counts_consistent(&grid, false);
}

#[test]
fn counts_stay_consistent_through_wrapping_ticks() {
    // A glider on a wrapping board exercises edge wrapping tick by tick.
    let mut grid = Grid::new(6, 6);
    let mut flips = vec![(0, 1), (1, 2), (2, 0), (2, 1), (2, 2)];
    for _ in 0..8 {
        flips = tick(&mut grid, &flips, true);
        assert_counts_consistent(&grid, true);
    }
    assert_eq!(alive_cells(&grid).len(), 5);
}

#[test]
fn should_stop_on_quit_or_escape() {
    assert!(should_stop('q' as i32));
    assert!(should_stop(27));
    assert!(!should_stop('a' as i32));
    assert!(!should_stop(0));
}
