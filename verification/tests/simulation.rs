use game_of_life::game::Game;
use game_of_life::grid::Grid;

fn set_cells(grid: &mut Grid, cells: &[(usize, usize)]) {
    for &(x, y) in cells {
        grid.set(x, y, true);
    }
}

fn grid_from(width: usize, height: usize, cells: &[(usize, usize)]) -> Grid {
    let mut g = Grid::new(width, height);
    set_cells(&mut g, cells);
    g
}

/// A blinker with room on every side, so the torus edges play no part:
/// a horizontal triplet in the middle of a 5x5 grid.
fn blinker_game() -> Game {
    let mut game = Game::new(5, 5);
    set_cells(&mut game.current_state.grid, &[(2, 1), (2, 2), (2, 3)]);
    game
}

#[test]
fn blinker_oscillates() {
    let mut game = blinker_game();
    let horizontal = game.current_state.grid.clone();
    let vertical = grid_from(5, 5, &[(1, 2), (2, 2), (3, 2)]);
    game.update();
    assert!(game.current_state.grid.equals(&vertical));
    assert_eq!(game.current_state.generation, 1);
    game.update();
    assert!(game.current_state.grid.equals(&horizontal));
    assert_eq!(game.current_state.generation, 2);
}

#[test]
fn blinker_cycle_found_after_two_steps() {
    let mut game = blinker_game();
    assert_eq!(game.run_until_loop(10), Some(0));
    assert_eq!(game.current_state.generation, 2);
    assert!(!game.is_empty());
}

#[test]
fn cap_reached_before_cycle_gives_none() {
    let mut game = blinker_game();
    assert_eq!(game.run_until_loop(1), None);
    assert_eq!(game.current_state.generation, 1);
}

#[test]
fn revert_restores_initial_state_after_cycle() {
    let mut game = blinker_game();
    let initial = game.current_state.grid.clone();
    assert_eq!(game.run_until_loop(10), Some(0));
    // Step a few more times past the detection before rewinding.
    game.tick();
    game.tick();
    game.revert_to_initial();
    assert_eq!(game.current_state.generation, 0);
    assert!(game.current_state.grid.equals(&initial));
}

#[test]
fn revert_to_recorded_generation() {
    let mut game = blinker_game();
    let vertical = grid_from(5, 5, &[(1, 2), (2, 2), (3, 2)]);
    assert_eq!(game.run_until_loop(10), Some(0));
    game.revert_to(1);
    assert_eq!(game.current_state.generation, 1);
    assert!(game.current_state.grid.equals(&vertical));
}

#[test]
fn revert_to_unknown_generation_is_a_no_op() {
    let mut game = blinker_game();
    game.run_until_loop(10);
    let generation = game.current_state.generation;
    let grid = game.current_state.grid.clone();
    game.revert_to(99);
    assert_eq!(game.current_state.generation, generation);
    assert!(game.current_state.grid.equals(&grid));
}

#[test]
fn revert_with_empty_history_is_a_no_op() {
    let mut game = blinker_game();
    game.revert_to_initial();
    assert_eq!(game.current_state.generation, 0);
    game.revert_to(0);
    assert_eq!(game.current_state.generation, 0);
}

#[test]
fn all_dead_grid_cycles_immediately() {
    for max in [1, 2, 7] {
        let mut game = Game::new(4, 4);
        assert_eq!(game.run_until_loop(max), Some(0));
        assert_eq!(game.current_state.generation, 1);
        assert!(game.is_empty());
    }
}

#[test]
fn degenerate_grid_cycles_immediately() {
    let mut game = Game::new(0, 0);
    assert!(game.is_empty());
    assert_eq!(game.run_until_loop(5), Some(0));
}

#[test]
fn history_generations_rise_by_one_from_zero() {
    // A full row on a 3-wide torus takes two steps (full grid, then empty
    // grid) before anything repeats.
    let mut game = Game::new(3, 3);
    set_cells(&mut game.current_state.grid, &[(1, 0), (1, 1), (1, 2)]);
    assert_eq!(game.tick(), None);
    assert_eq!(game.tick(), None);
    // Two steps with no cycle found: generations 0 and 1 are on record.
    assert_eq!(game.previous_states.len(), 2);
    for (i, state) in game.previous_states.iter().enumerate() {
        assert_eq!(state.generation, i);
    }
    // The third step produces the empty grid again: a period-1 repeat of the
    // state recorded one step earlier.
    assert_eq!(game.tick(), Some(2));
    assert_eq!(game.previous_states.len(), 3);
}

#[test]
fn reset_clears_history_and_grid() {
    let mut game = blinker_game();
    game.run_until_loop(10);
    game.reset();
    assert_eq!(game.current_state.generation, 0);
    assert_eq!(game.previous_states.len(), 0);
    assert!(game.is_empty());
    assert_eq!(game.current_state.grid.data.len(), 5);
}

#[test]
fn randomize_changes_only_cells() {
    let mut game = Game::new(6, 4);
    game.tick();
    let recorded = game.previous_states.len();
    game.randomize();
    assert_eq!(game.current_state.generation, 1);
    assert_eq!(game.previous_states.len(), recorded);
    assert_eq!(game.current_state.grid.data.len(), 4);
    for row in &game.current_state.grid.data {
        assert_eq!(row.len(), 6);
    }
}

#[test]
fn queries_read_the_current_state() {
    let mut game = blinker_game();
    assert_eq!(game.current_generation(), 0);
    assert!(!game.current_grid().is_empty());
    game.update();
    assert_eq!(game.current_generation(), 1);
}

/// The pulsar: a period-3 oscillator. Its repeat must be reported at the
/// true period, not truncated to a period-1 or period-2 near-miss.
#[test]
fn period_three_cycle_is_not_truncated() {
    let offsets: [(i32, i32); 48] = [
        (-6, -4), (-6, -3), (-6, -2), (-6, 2), (-6, 3), (-6, 4),
        (-4, -6), (-4, -1), (-4, 1), (-4, 6),
        (-3, -6), (-3, -1), (-3, 1), (-3, 6),
        (-2, -6), (-2, -1), (-2, 1), (-2, 6),
        (-1, -4), (-1, -3), (-1, -2), (-1, 2), (-1, 3), (-1, 4),
        (1, -4), (1, -3), (1, -2), (1, 2), (1, 3), (1, 4),
        (2, -6), (2, -1), (2, 1), (2, 6),
        (3, -6), (3, -1), (3, 1), (3, 6),
        (4, -6), (4, -1), (4, 1), (4, 6),
        (6, -4), (6, -3), (6, -2), (6, 2), (6, 3), (6, 4),
    ];
    let mut game = Game::new(21, 21);
    for &(dx, dy) in &offsets {
        let x = (10 + dx) as usize;
        let y = (10 + dy) as usize;
        game.current_state.grid.set(x, y, true);
    }
    let start = game.current_state.grid.clone();
    // The first two steps find nothing: the grid differs from every
    // recorded one.
    assert_eq!(game.tick(), None);
    assert!(!game.current_state.grid.equals(&start));
    assert_eq!(game.tick(), None);
    assert!(!game.current_state.grid.equals(&start));
    // The third step closes the loop back to generation 0.
    assert_eq!(game.tick(), Some(0));
    assert!(game.current_state.grid.equals(&start));
}

/// On a 3-wide torus a full live row is its own left and right neighbor:
/// every dead cell then touches three live cells, so the rule fills the
/// grid, which dies of overcrowding one step later and stays empty.
#[test]
fn full_row_on_narrow_torus_fills_then_dies() {
    let mut game = Game::new(3, 3);
    set_cells(&mut game.current_state.grid, &[(1, 0), (1, 1), (1, 2)]);
    game.update();
    let full = grid_from(
        3,
        3,
        &[
            (0, 0), (0, 1), (0, 2),
            (1, 0), (1, 1), (1, 2),
            (2, 0), (2, 1), (2, 2),
        ],
    );
    assert!(game.current_state.grid.equals(&full));
    game.update();
    assert!(game.is_empty());
}
