use life_board::game::{Game, GameError};

fn live_cells(g: &Game) -> Vec<(usize, usize)> {
    let mut v = Vec::new();
    for x in 0..g.get_width() {
        for y in 0..g.get_height() {
            if g.get_cell(x, y) {
                v.push((x, y));
            }
        }
    }
    v
}

#[test]
fn new_board_is_all_dead() {
    let g = Game::new(3, 2);
    assert_eq!(g.get_width(), 3);
    assert_eq!(g.get_height(), 2);
    assert_eq!(live_cells(&g), vec![]);
    assert_eq!(g.get_cursor(), None);
}

#[test]
fn set_cell_marks_alive() {
    let mut g = Game::new(3, 3);
    assert!(g.set_cell(1, 2).is_ok());
    assert!(g.get_cell(1, 2));
    assert_eq!(live_cells(&g), vec![(1, 2)]);
}

#[test]
fn set_cell_out_of_bounds_changes_nothing() {
    let mut g = Game::new(3, 3);
    assert!(matches!(g.set_cell(3, 0), Err(GameError::OutOfBounds)));
    assert!(matches!(g.set_cell(0, 3), Err(GameError::OutOfBounds)));
    assert_eq!(live_cells(&g), vec![]);
}

#[test]
fn cursor_ops_fail_without_cursor() {
    let mut g = Game::new(3, 3);
    assert!(matches!(g.move_cursor('w'), Err(GameError::CursorIsNone)));
    assert!(matches!(g.swap_cell(), Err(GameError::CursorIsNone)));
    assert!(g.set_cursor(1, 1).is_ok());
    assert!(g.move_cursor('w').is_ok());
    assert!(g.swap_cell().is_ok());
}

#[test]
fn set_cursor_out_of_bounds_keeps_cursor() {
    let mut g = Game::new(2, 2);
    assert!(matches!(g.set_cursor(2, 0), Err(GameError::OutOfBounds)));
    assert_eq!(g.get_cursor(), None);
    assert!(g.set_cursor(1, 1).is_ok());
    assert!(matches!(g.set_cursor(0, 5), Err(GameError::OutOfBounds)));
    assert_eq!(g.get_cursor(), Some((1, 1)));
}

#[test]
fn move_cursor_clamps_at_edges() {
    let mut g = Game::new(3, 3);
    g.set_cursor(0, 1).unwrap();
    assert!(g.move_cursor('a').is_ok());
    assert_eq!(g.get_cursor(), Some((0, 1)));
    g.set_cursor(1, 0).unwrap();
    assert!(g.move_cursor('w').is_ok());
    assert_eq!(g.get_cursor(), Some((1, 0)));
    g.set_cursor(2, 1).unwrap();
    assert!(g.move_cursor('d').is_ok());
    assert_eq!(g.get_cursor(), Some((2, 1)));
    g.set_cursor(1, 2).unwrap();
    assert!(g.move_cursor('s').is_ok());
    assert_eq!(g.get_cursor(), Some((1, 2)));
}

#[test]
fn move_cursor_steps_one_cell() {
    let mut g = Game::new(3, 3);
    g.set_cursor(1, 1).unwrap();
    g.move_cursor('w').unwrap();
    assert_eq!(g.get_cursor(), Some((1, 0)));
    g.move_cursor('s').unwrap();
    g.move_cursor('s').unwrap();
    assert_eq!(g.get_cursor(), Some((1, 2)));
    g.move_cursor('a').unwrap();
    assert_eq!(g.get_cursor(), Some((0, 2)));
    g.move_cursor('d').unwrap();
    assert_eq!(g.get_cursor(), Some((1, 2)));
}

#[test]
fn move_cursor_rejects_unknown_symbol() {
    let mut g = Game::new(3, 3);
    g.set_cursor(1, 1).unwrap();
    assert!(matches!(g.move_cursor('q'), Err(GameError::InvalidDirection)));
    assert_eq!(g.get_cursor(), Some((1, 1)));
}

#[test]
fn swap_cell_toggles_under_cursor() {
    let mut g = Game::new(3, 3);
    g.set_cursor(2, 0).unwrap();
    g.swap_cell().unwrap();
    assert!(g.get_cell(2, 0));
    g.swap_cell().unwrap();
    assert!(!g.get_cell(2, 0));
}

#[test]
fn remove_cursor_clears_it() {
    let mut g = Game::new(2, 2);
    g.set_cursor(1, 0).unwrap();
    g.remove_cursor();
    assert_eq!(g.get_cursor(), None);
    assert!(matches!(g.swap_cell(), Err(GameError::CursorIsNone)));
}

#[test]
fn step_on_dead_board_stays_dead() {
    let mut g = Game::new(4, 5);
    g.step_game();
    assert_eq!(live_cells(&g), vec![]);
    let mut tiny = Game::new(1, 1);
    tiny.step_game();
    assert_eq!(live_cells(&tiny), vec![]);
}

#[test]
fn isolated_cell_dies() {
    let mut g = Game::new(3, 3);
    g.set_cell(1, 1).unwrap();
    g.step_game();
    assert_eq!(live_cells(&g), vec![]);
}

#[test]
fn block_is_stable() {
    let mut g = Game::new(4, 4);
    for (x, y) in [(1, 1), (1, 2), (2, 1), (2, 2)] {
        g.set_cell(x, y).unwrap();
    }
    g.step_game();
    assert_eq!(live_cells(&g), vec![(1, 1), (1, 2), (2, 1), (2, 2)]);
}

#[test]
fn blinker_has_period_two() {
    let mut g = Game::new(5, 5);
    for (x, y) in [(1, 2), (2, 2), (3, 2)] {
        g.set_cell(x, y).unwrap();
    }
    g.step_game();
    assert_eq!(live_cells(&g), vec![(2, 1), (2, 2), (2, 3)]);
    g.step_game();
    assert_eq!(live_cells(&g), vec![(1, 2), (2, 2), (3, 2)]);
}

#[test]
fn birth_with_three_neighbors() {
    let mut g = Game::new(3, 3);
    for (x, y) in [(0, 0), (1, 0), (0, 1)] {
        g.set_cell(x, y).unwrap();
    }
    g.step_game();
    assert_eq!(live_cells(&g), vec![(0, 0), (0, 1), (1, 0), (1, 1)]);
}

#[test]
fn overcrowded_cell_dies() {
    let mut g = Game::new(3, 3);
    for (x, y) in [(1, 1), (0, 1), (2, 1), (1, 0), (1, 2)] {
        g.set_cell(x, y).unwrap();
    }
    g.step_game();
    assert!(!g.get_cell(1, 1));
}

#[test]
fn step_keeps_cursor_and_dimensions() {
    let mut g = Game::new(4, 3);
    g.set_cursor(3, 2).unwrap();
    g.set_cell(0, 0).unwrap();
    g.step_game();
    assert_eq!(g.get_width(), 4);
    assert_eq!(g.get_height(), 3);
    assert_eq!(g.get_cursor(), Some((3, 2)));
}

#[test]
fn edge_cells_are_not_toroidal() {
    // A corner cell and the opposite corner are not neighbors.
    let mut g = Game::new(3, 3);
    for (x, y) in [(0, 0), (2, 2), (2, 0)] {
        g.set_cell(x, y).unwrap();
    }
    g.step_game();
    // Each live cell had only one live neighbor; the center gains three.
    assert_eq!(live_cells(&g), vec![(1, 1)]);
}
