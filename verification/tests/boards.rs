use nonogram::board::{Board, Cell, RowClue};
use nonogram::solve;

#[test]
fn clue_text_is_read() {
    assert_eq!(
        RowClue::parse("8.1,1.1,3,1"),
        Some(vec![RowClue::Single(8), RowClue::Group(vec![1, 1]), RowClue::Group(vec![1, 3, 1])])
    );
    assert_eq!(RowClue::parse("0"), Some(vec![RowClue::Single(0)]));
    assert_eq!(RowClue::parse("255,0"), Some(vec![RowClue::Group(vec![255, 0])]));
}

#[test]
fn numbers_may_have_a_sign_and_leading_zeros() {
    assert_eq!(RowClue::parse("+5"), Some(vec![RowClue::Single(5)]));
    assert_eq!(RowClue::parse("007.+0010,000000000000000000255"), Some(vec![
        RowClue::Single(7),
        RowClue::Group(vec![10, 255]),
    ]));
}

#[test]
fn malformed_clue_text_is_refused() {
    for text in [
        "", ".", "1.", ".1", "1..2", ",", "1,", ",1", "1,,2", "a", "1a", "1 ", " 1", "1, 2", "256",
        "1000", "99999999999999999999999", "-1", "+", "++1", "+-1", "1+", "1.2,x.3", "\u{661}",
        "1\n",
    ] {
        assert_eq!(RowClue::parse(text), None, "{:?}", text);
    }
}

#[test]
fn board_has_a_row_for_each_row_clue() {
    let board = Board::parse("1.1.1", "1.2").unwrap();
    assert_eq!(board.height(), 3);
    assert_eq!(board.width(), 2);
    assert_eq!(board.total_cells(), 6);
    assert_eq!(board.unresolved_cells(), 6);
    assert_eq!(board.render(), "??\n??\n??\n");
    assert_eq!(board.get(2, 1), Some(Cell::Unknown));
    assert_eq!(board.get(3, 0), None);
    assert_eq!(board.get(0, 2), None);
}

#[test]
fn board_is_refused_with_either_text_malformed() {
    assert!(Board::parse("1.x", "1.1").is_none());
    assert!(Board::parse("1.1", "").is_none());
    assert!(Board::parse("1,", "1,").is_none());
}

#[test]
fn rows_are_solved_with_row_clues() {
    // three rows of two cells: only the columns are as long as their clue
    let mut board = Board::parse("1.1.1", "3.0").unwrap();
    board.low_hanging();
    assert_eq!(board.render(), "* \n* \n* \n");
    let mut board = Board::parse("2.0.2", "1.1").unwrap();
    board.low_hanging();
    assert_eq!(board.render(), "**\n  \n**\n");
}

#[test]
fn columns_are_written_after_rows() {
    let mut board = Board::parse("2.2", "0.1").unwrap();
    board.low_hanging();
    assert_eq!(board.render(), " *\n *\n");
    assert_eq!(board.get(0, 0), Some(Cell::Blocked));
    assert_eq!(board.get(0, 1), Some(Cell::Filled));
}

#[test]
fn fast_path_twice_is_fast_path_once_on_a_board() {
    for (rows, cols) in [
        ("2.2", "0.1"),
        ("3.1,1.3", "3.1,1.3"),
        ("1.0.1", "2,0"),
        ("2,1.1.3", "1,1.1.2,1.1"),
        ("0.3.1", "3.1.0"),
    ] {
        let mut board = Board::parse(rows, cols).unwrap();
        board.low_hanging();
        let once = board.render();
        board.low_hanging();
        assert_eq!(board.render(), once);
    }
}

#[test]
fn step_refines_rows_then_columns() {
    let mut board = Board::parse("2,1.1.3", "1,1.1.2,1.1").unwrap();
    board.solve_step();
    let first = board.render();
    assert_eq!(board.unresolved_cells(), 2);
    board.solve_step();
    assert_eq!(board.render(), first);
    assert_eq!(first, "** *\n ?? \n*** \n");
}

#[test]
fn step_keeps_resolved_cells() {
    let mut board = Board::parse(
        "8.1,1.1,1.1,1,1.1,1.1,1.1,3,1.1,5.1,2.8,1",
        "10.1,1.1,1.1,1,2,1.1,2,1.1,1,2,1.1,1,1.10.1.1",
    )
    .unwrap();
    board.low_hanging();
    for _ in 0..4 {
        let before = board.render();
        let unknown = board.unresolved_cells();
        board.solve_step();
        let after = board.render();
        assert_eq!(after.len(), before.len());
        for (b, a) in before.chars().zip(after.chars()) {
            if b != '?' {
                assert_eq!(a, b);
            }
        }
        assert!(board.unresolved_cells() <= unknown);
    }
}

#[test]
fn export_fails_while_a_cell_is_unknown() {
    let board = Board::parse("1.1", "1.1").unwrap();
    assert_eq!(board.export(), None);
    let mut board = Board::parse("2,1.1.3", "1,1.1.2,1.1").unwrap();
    board.solve_step();
    assert_eq!(board.unresolved_cells(), 2);
    assert_eq!(board.export(), None);
}

#[test]
fn export_gives_the_filled_cells() {
    let mut board = Board::parse("3.1,1.3", "3.1,1.3").unwrap();
    board.low_hanging();
    assert_eq!(
        board.export(),
        Some(vec![vec![true, true, true], vec![true, false, true], vec![true, true, true]])
    );
    let mut board = Board::parse("1.1.1", "3.0").unwrap();
    board.low_hanging();
    assert_eq!(board.export(), Some(vec![vec![true, false], vec![true, false], vec![true, false]]));
}

#[test]
fn solve_refuses_malformed_text() {
    assert!(solve("1.x", "1.1").is_none());
    assert!(solve("1.1", "1.").is_none());
    assert!(solve("", "").is_none());
}

#[test]
fn solve_of_one_cell() {
    let (board, steps) = solve("1", "1").unwrap();
    assert_eq!(steps, 1);
    assert_eq!(board.export(), Some(vec![vec![true]]));
}

#[test]
fn solve_by_the_fast_path_alone() {
    let (board, steps) = solve("5.1,1,1.5", "3.1,1.3.1,1.3").unwrap();
    assert_eq!(steps, 1);
    assert_eq!(board.render(), "*****\n* * *\n*****\n");
    assert_eq!(
        board.export(),
        Some(vec![
            vec![true, true, true, true, true],
            vec![true, false, true, false, true],
            vec![true, true, true, true, true],
        ])
    );
}

#[test]
fn solve_needs_a_step_to_see_that_nothing_moves() {
    let (board, steps) = solve("2.1", "1.2").unwrap();
    assert_eq!(steps, 2);
    assert_eq!(board.export(), Some(vec![vec![true, true], vec![false, true]]));
}

#[test]
fn solve_stops_on_an_open_puzzle() {
    let (board, steps) = solve("1,1.1,1.1,1.1,1.1,1", "1,1.1,1.1,1.1,1.1,1").unwrap();
    assert_eq!(steps, 1);
    assert_eq!(board.unresolved_cells(), 25);
    assert_eq!(board.export(), None);
    let (board, steps) = solve("2,1.1.3", "1,1.1.2,1.1").unwrap();
    assert_eq!(steps, 2);
    assert_eq!(board.render(), "** *\n ?? \n*** \n");
    assert_eq!(board.export(), None);
}

#[test]
fn solve_of_a_ten_by_ten_puzzle() {
    let (board, steps) = solve(
        "8.1,1.1,1.1,1,1.1,1.1,1.1,3,1.1,5.1,2.8,1",
        "10.1,1.1,1.1,1,2,1.1,2,1.1,1,2,1.1,1,1.10.1.1",
    )
    .unwrap();
    assert_eq!(steps, 3);
    let expected = [
        "********  ",
        "*      *  ",
        "*      *  ",
        "*  * * * ?",
        "*      *  ",
        "*      *  ",
        "*  *** *  ",
        "*  *****  ",
        "*      ** ",
        "******** *",
    ];
    let mut text = String::new();
    for row in expected {
        text.push_str(row);
        text.push('\n');
    }
    assert_eq!(board.render(), text);
    assert_eq!(board.unresolved_cells(), 1);
    assert_eq!(board.total_cells(), 100);
    assert_eq!(board.export(), None);
}

/// Three rows and two columns of a puzzle in the corner of an empty board.
fn corner_puzzle(height: usize, width: usize) -> (String, String) {
    let rows = format!("1.1.1{}", ".0".repeat(height - 3));
    let cols = format!("1.2{}", ".0".repeat(width - 2));
    (rows, cols)
}

#[test]
fn solve_goes_on_after_a_step_that_resolves_a_thousandth() {
    // 1 cell of 1000 in the first and second step, none in the third
    let (rows, cols) = corner_puzzle(25, 40);
    let (board, steps) = solve(&rows, &cols).unwrap();
    assert_eq!(board.total_cells(), 1000);
    assert_eq!(steps, 3);
    assert_eq!(board.unresolved_cells(), 4);
    assert_eq!(board.get(1, 0), Some(Cell::Blocked));
    assert_eq!(board.get(1, 1), Some(Cell::Filled));
}

#[test]
fn solve_stops_after_a_step_that_resolves_less_than_a_thousandth() {
    // 1 cell of 1001 in the first step
    let (rows, cols) = corner_puzzle(13, 77);
    let (mut board, steps) = solve(&rows, &cols).unwrap();
    assert_eq!(board.total_cells(), 1001);
    assert_eq!(steps, 1);
    assert_eq!(board.unresolved_cells(), 5);
    assert_eq!(board.get(1, 0), Some(Cell::Unknown));
    assert_eq!(board.get(1, 1), Some(Cell::Filled));
    // one more step would have resolved another cell
    board.solve_step();
    assert_eq!(board.unresolved_cells(), 4);
    assert_eq!(board.get(1, 0), Some(Cell::Blocked));
}

/// Five rows and four columns of a puzzle that steps resolve, in the corner
/// of an empty board.
fn solvable_corner_puzzle(height: usize, width: usize) -> (String, String) {
    let rows = format!("1,1.1.2.1.1{}", ".0".repeat(height - 5));
    let cols = format!("1.1,2.2.1{}", ".0".repeat(width - 4));
    (rows, cols)
}

#[test]
fn solve_resolves_a_puzzle_that_steps_resolve() {
    let (rows, cols) = solvable_corner_puzzle(25, 40);
    let (board, steps) = solve(&rows, &cols).unwrap();
    assert_eq!(board.total_cells(), 1000);
    assert_eq!(steps, 6);
    assert_eq!(board.unresolved_cells(), 0);
    let grid = board.export().unwrap();
    assert_eq!(grid.len(), 25);
    let corner = [" * *", "  * ", " ** ", " *  ", "*   "];
    for (r, row) in grid.iter().enumerate() {
        assert_eq!(row.len(), 40);
        for (c, filled) in row.iter().enumerate() {
            let expected = r < 5 && c < 4 && corner[r].as_bytes()[c] == b'*';
            assert_eq!(*filled, expected, "row {} column {}", r, c);
        }
    }
}

#[test]
fn solve_may_stop_short_on_a_board_of_more_than_a_thousand_cells() {
    // the first step resolves 1 cell of 1001
    let (rows, cols) = solvable_corner_puzzle(13, 77);
    let (board, steps) = solve(&rows, &cols).unwrap();
    assert_eq!(board.total_cells(), 1001);
    assert_eq!(steps, 1);
    assert_eq!(board.unresolved_cells(), 19);
    assert_eq!(board.get(3, 1), Some(Cell::Filled));
    assert_eq!(board.export(), None);
}

#[test]
fn solve_with_single_runs_weighs_no_placement_against_the_end() {
    let (board, steps) = solve("1.2", "1.2").unwrap();
    assert_eq!(steps, 1);
    assert_eq!(board.render(), "?*\n**\n");
    assert_eq!(board.export(), None);
    let (board, steps) = solve("1.1", "1.1").unwrap();
    assert_eq!(steps, 2);
    assert_eq!(board.render(), "* \n* \n");
    assert_eq!(board.export(), Some(vec![vec![true, false], vec![true, false]]));
}
