use life_board::game::{Game, GameError};

fn live_cells(g: &Game) -> Vec<(usize, usize)> {
    let mut v = Vec::new();
    for x in 0..g.get_width() {
        for y in 0..g.get_height() {
            if g.get_cell(x, y) {
                v.push((x, y));
            }
        }
    }
    v
}

#[test]
fn to_string_of_empty_board_is_header_only() {
    let g = Game::new(3, 2);
    assert_eq!(g.to_string(), "3x2\n");
}

#[test]
fn to_string_lists_cells_column_major() {
    let mut g = Game::new(3, 2);
    g.set_cell(2, 0).unwrap();
    g.set_cell(0, 1).unwrap();
    g.set_cell(2, 1).unwrap();
    assert_eq!(g.to_string(), "3x2\n0,1\n2,0\n2,1\n");
}

#[test]
fn to_string_renders_multi_digit_dimensions() {
    let mut g = Game::new(12, 10);
    g.set_cell(11, 9).unwrap();
    assert_eq!(g.to_string(), "12x10\n11,9\n");
}

#[test]
fn from_string_builds_the_described_board() {
    let g = Game::from_string(String::from("3x3\n1,1\n2,0\n")).unwrap();
    assert_eq!(g.get_width(), 3);
    assert_eq!(g.get_height(), 3);
    assert_eq!(live_cells(&g), vec![(1, 1), (2, 0)]);
    assert_eq!(g.get_cursor(), None);
}

#[test]
fn from_string_accepts_header_alone() {
    let g = Game::from_string(String::from("4x1")).unwrap();
    assert_eq!(g.get_width(), 4);
    assert_eq!(g.get_height(), 1);
    assert_eq!(live_cells(&g), vec![]);
}

#[test]
fn from_string_tolerates_field_whitespace() {
    let g = Game::from_string(String::from("  2 x 2 \n 1 , 1 \n")).unwrap();
    assert_eq!(g.get_width(), 2);
    assert_eq!(g.get_height(), 2);
    assert_eq!(live_cells(&g), vec![(1, 1)]);
}

#[test]
fn from_string_tolerates_crlf_lines() {
    let g = Game::from_string(String::from("2x2\r\n0,1\r\n")).unwrap();
    assert_eq!(live_cells(&g), vec![(0, 1)]);
}

#[test]
fn from_string_rejects_zero_dimensions() {
    assert!(matches!(
        Game::from_string(String::from("0x5")),
        Err(GameError::ZeroDimension)
    ));
    assert!(matches!(
        Game::from_string(String::from("5x0")),
        Err(GameError::ZeroDimension)
    ));
}

#[test]
fn from_string_rejects_out_of_bounds_cell() {
    assert!(matches!(
        Game::from_string(String::from("3x3\n5,5")),
        Err(GameError::OutOfBounds)
    ));
    assert!(matches!(
        Game::from_string(String::from("3x3\n3,0")),
        Err(GameError::OutOfBounds)
    ));
}

#[test]
fn from_string_rejects_bad_header() {
    assert!(matches!(
        Game::from_string(String::from("abcx5")),
        Err(GameError::FormatError)
    ));
    assert!(matches!(
        Game::from_string(String::from("33")),
        Err(GameError::FormatError)
    ));
    assert!(matches!(
        Game::from_string(String::from("3x3x3")),
        Err(GameError::FormatError)
    ));
}

#[test]
fn from_string_rejects_bad_cell_line() {
    assert!(matches!(
        Game::from_string(String::from("3x3\nfoo")),
        Err(GameError::FormatError)
    ));
    assert!(matches!(
        Game::from_string(String::from("3x3\n1;2")),
        Err(GameError::FormatError)
    ));
    assert!(matches!(
        Game::from_string(String::from("3x3\n\n1,1")),
        Err(GameError::FormatError)
    ));
}

#[test]
fn from_string_rejects_empty_input() {
    assert!(matches!(
        Game::from_string(String::from("")),
        Err(GameError::FormatError)
    ));
    assert!(matches!(
        Game::from_string(String::from("  \n  ")),
        Err(GameError::FormatError)
    ));
}

#[test]
fn from_string_rejects_oversized_number() {
    // One more than the largest usize on a 64-bit machine.
    assert!(matches!(
        Game::from_string(String::from("18446744073709551616x2")),
        Err(GameError::FormatError)
    ));
}

#[test]
fn round_trip_preserves_board() {
    let mut g = Game::new(7, 4);
    for (x, y) in [(0, 0), (3, 2), (6, 3), (2, 1), (2, 2)] {
        g.set_cell(x, y).unwrap();
    }
    let text = g.to_string();
    let back = Game::from_string(text).unwrap();
    assert_eq!(back.get_width(), g.get_width());
    assert_eq!(back.get_height(), g.get_height());
    assert_eq!(live_cells(&back), live_cells(&g));
}

#[test]
fn round_trip_of_empty_board() {
    let g = Game::new(1, 1);
    let back = Game::from_string(g.to_string()).unwrap();
    assert_eq!(back.get_width(), 1);
    assert_eq!(back.get_height(), 1);
    assert_eq!(live_cells(&back), vec![]);
}

#[test]
fn to_string_ignores_cursor() {
    let mut g = Game::new(2, 2);
    g.set_cell(1, 0).unwrap();
    g.set_cursor(0, 1).unwrap();
    assert_eq!(g.to_string(), "2x2\n1,0\n");
}

#[test]
fn canonical_text_reloads_to_identical_text() {
    let text = String::from("4x3\n0,2\n1,0\n3,1\n");
    let g = Game::from_string(text.clone()).unwrap();
    assert_eq!(g.to_string(), text);
}

#[test]
fn round_trip_ignores_listing_order() {
    // The live-cell set is order-independent: a hand-written file with
    // the same cells in another order loads to the same board.
    let g1 = Game::from_string(String::from("3x3\n2,2\n0,0\n1,1\n")).unwrap();
    let g2 = Game::from_string(String::from("3x3\n0,0\n1,1\n2,2\n")).unwrap();
    assert_eq!(live_cells(&g1), live_cells(&g2));
}
