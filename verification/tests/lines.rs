use nonogram::board::{Cell, RowClue};
use nonogram::solver::{low_hanging, solver};

fn line(text: &str) -> Vec<Cell> {
    text.chars()
        .map(|c| match c {
            '*' => Cell::Filled,
            '.' => Cell::Blocked,
            '?' => Cell::Unknown,
            other => panic!("no cell is written {:?}", other),
        })
        .collect()
}

fn solved(text: &str, clue: &RowClue) -> Vec<Cell> {
    let mut row = line(text);
    solver(&mut row, clue);
    row
}

fn hung(text: &str, clue: &RowClue) -> Vec<Cell> {
    let mut row = line(text);
    low_hanging(&mut row, clue);
    row
}

#[test]
fn zero_clue_blocks_the_line() {
    assert_eq!(hung("????", &RowClue::Single(0)), line("...."));
    assert_eq!(hung("*?.*", &RowClue::Single(0)), line("...."));
}

#[test]
fn zero_clue_on_an_empty_line() {
    assert_eq!(hung("", &RowClue::Single(0)), line(""));
}

#[test]
fn single_run_as_long_as_the_line_fills_it() {
    assert_eq!(hung("????", &RowClue::Single(4)), line("****"));
    assert_eq!(hung(".?*?", &RowClue::Single(4)), line("****"));
}

#[test]
fn forced_group_is_written() {
    assert_eq!(hung("???????", &RowClue::Group(vec![2, 1, 2])), line("**.*.**"));
}

#[test]
fn forced_group_overwrites_what_was_known() {
    assert_eq!(hung(".......", &RowClue::Group(vec![2, 1, 2])), line("**.*.**"));
}

#[test]
fn forced_group_with_an_empty_run() {
    assert_eq!(hung("???", &RowClue::Group(vec![0, 2])), line(".**"));
    assert_eq!(hung("???", &RowClue::Group(vec![2, 0])), line("**."));
}

#[test]
fn forced_group_of_one_run() {
    assert_eq!(hung("???", &RowClue::Group(vec![3])), line("***"));
}

#[test]
fn fast_path_leaves_a_free_line_alone() {
    assert_eq!(hung("?????", &RowClue::Single(3)), line("?????"));
    assert_eq!(hung("?*.??", &RowClue::Single(3)), line("?*.??"));
    assert_eq!(hung("????????", &RowClue::Group(vec![2, 1, 2])), line("????????"));
    assert_eq!(hung("??????", &RowClue::Group(vec![2, 1, 2])), line("??????"));
    assert_eq!(hung("?*?", &RowClue::Group(vec![])), line("?*?"));
    assert_eq!(hung("", &RowClue::Group(vec![])), line(""));
}

#[test]
fn fast_path_with_runs_longer_than_a_byte_in_sum() {
    let clue = RowClue::Group(vec![200, 100]);
    let mut row = vec![Cell::Unknown; 301];
    low_hanging(&mut row, &clue);
    assert_eq!(row.len(), 301);
    assert!(row[..200].iter().all(|c| *c == Cell::Filled));
    assert_eq!(row[200], Cell::Blocked);
    assert!(row[201..].iter().all(|c| *c == Cell::Filled));
    let mut short = vec![Cell::Unknown; 45];
    low_hanging(&mut short, &clue);
    assert!(short.iter().all(|c| *c == Cell::Unknown));
}

#[test]
fn fast_path_twice_is_fast_path_once() {
    for clue in [
        RowClue::Single(0),
        RowClue::Single(3),
        RowClue::Single(5),
        RowClue::Group(vec![3, 1]),
        RowClue::Group(vec![1, 1]),
    ] {
        let once = hung("?*.??", &clue);
        let mut twice = once.clone();
        low_hanging(&mut twice, &clue);
        assert_eq!(twice, once);
    }
}

#[test]
fn single_run_of_three_in_five() {
    // the run is tried at the offsets 0 and 1
    assert_eq!(solved("?????", &RowClue::Single(3)), line("?**?."));
}

#[test]
fn single_run_of_three_in_ten_stagnates() {
    let clue = RowClue::Single(3);
    let first = solved("??????????", &clue);
    assert_eq!(first, line("?????????."));
    let mut second = first.clone();
    solver(&mut second, &clue);
    assert_eq!(second, first);
}

#[test]
fn single_run_around_a_filled_cell() {
    assert_eq!(solved("?*???", &RowClue::Single(2)), line("?*?.."));
}

#[test]
fn single_run_with_one_candidate_is_written() {
    assert_eq!(solved("????", &RowClue::Single(3)), line("***."));
}

#[test]
fn single_run_without_candidate_keeps_the_line() {
    assert_eq!(solved("*?*", &RowClue::Single(1)), line("*?*"));
    assert_eq!(solved("???", &RowClue::Single(3)), line("???"));
    assert_eq!(solved("???", &RowClue::Single(5)), line("???"));
    assert_eq!(solved("", &RowClue::Single(0)), line(""));
}

#[test]
fn single_run_is_not_tried_against_the_end() {
    // the last offset is left out for a single run, not for a group of one
    assert_eq!(solved("??*", &RowClue::Single(1)), line("??*"));
    assert_eq!(solved("??*", &RowClue::Group(vec![1])), line("..*"));
}

#[test]
fn single_run_may_be_placed_where_only_the_end_was_left() {
    // the placement against the end is not weighed, so the other decides
    assert_eq!(solved(".??", &RowClue::Single(1)), line(".*."));
    assert_eq!(solved("???", &RowClue::Single(2)), line("**."));
    assert_eq!(solved("???*", &RowClue::Single(2)), line("???*"));
}

#[test]
fn single_empty_run_in_the_solver() {
    assert_eq!(solved("????", &RowClue::Single(0)), line("...."));
    assert_eq!(solved("?*??", &RowClue::Single(0)), line("?*??"));
}

#[test]
fn group_consensus() {
    assert_eq!(solved("?????", &RowClue::Group(vec![2, 1])), line("?*???"));
    assert_eq!(solved("?????", &RowClue::Group(vec![1, 1])), line("?????"));
    assert_eq!(solved("????????", &RowClue::Group(vec![2, 1, 2])), line("?*????*?"));
}

#[test]
fn group_with_one_candidate_is_written() {
    assert_eq!(solved("????.", &RowClue::Group(vec![2, 1])), line("**.*."));
    assert_eq!(solved("???????", &RowClue::Group(vec![2, 1, 2])), line("**.*.**"));
    assert_eq!(solved("??*?????", &RowClue::Group(vec![2, 1, 2])), line(".**.*.**"));
}

#[test]
fn group_without_candidate_keeps_the_line() {
    assert_eq!(solved("?????", &RowClue::Group(vec![3, 3])), line("?????"));
    assert_eq!(solved(".....", &RowClue::Group(vec![1, 1])), line("....."));
    assert_eq!(solved("?*?", &RowClue::Group(vec![])), line("?*?"));
    assert_eq!(solved("", &RowClue::Group(vec![1, 1])), line(""));
}

#[test]
fn group_of_one_run_reaches_the_end_of_the_line() {
    assert_eq!(solved("?????", &RowClue::Group(vec![3])), line("??*??"));
}

#[test]
fn group_keeps_every_run_apart_from_the_next() {
    assert_eq!(solved("???", &RowClue::Group(vec![0, 2])), line(".**"));
    assert_eq!(solved("??", &RowClue::Group(vec![0, 2])), line("??"));
}

#[test]
fn group_with_runs_that_overflow_a_byte_in_sum() {
    let clue = RowClue::Group(vec![200, 100]);
    let mut row = vec![Cell::Unknown; 302];
    solver(&mut row, &clue);
    // the two placements differ in the cells 0, 200, 201 and 301
    assert_eq!(row[0], Cell::Unknown);
    assert!(row[1..200].iter().all(|c| *c == Cell::Filled));
    assert_eq!(row[200], Cell::Unknown);
    assert_eq!(row[201], Cell::Unknown);
    assert!(row[202..301].iter().all(|c| *c == Cell::Filled));
    assert_eq!(row[301], Cell::Unknown);
}

#[test]
fn solver_keeps_resolved_cells() {
    let clues = [
        RowClue::Single(2),
        RowClue::Single(0),
        RowClue::Group(vec![1, 2]),
        RowClue::Group(vec![2, 2]),
    ];
    for text in ["?*?.??", "*????.", "..**..", "?.?*?*", "******"] {
        for clue in &clues {
            let before = line(text);
            let after = solved(text, clue);
            assert_eq!(after.len(), before.len());
            for (b, a) in before.iter().zip(after.iter()) {
                if *b != Cell::Unknown {
                    assert_eq!(a, b);
                }
            }
        }
    }
}

#[test]
fn solver_twice_is_solver_once() {
    let clues = [RowClue::Single(2), RowClue::Group(vec![1, 2]), RowClue::Group(vec![2, 1, 1])];
    for text in ["???????", "?*?.???", "*??????", "???.???"] {
        for clue in &clues {
            let once = solved(text, clue);
            let mut twice = once.clone();
            solver(&mut twice, clue);
            assert_eq!(twice, once);
        }
    }
}

#[test]
fn meet_keeps_what_both_say() {
    assert_eq!(Cell::Filled.meet(Cell::Filled), Cell::Filled);
    assert_eq!(Cell::Blocked.meet(Cell::Blocked), Cell::Blocked);
    assert_eq!(Cell::Filled.meet(Cell::Blocked), Cell::Unknown);
    assert_eq!(Cell::Blocked.meet(Cell::Filled), Cell::Unknown);
    assert_eq!(Cell::Unknown.meet(Cell::Filled), Cell::Unknown);
    assert_eq!(Cell::Blocked.meet(Cell::Unknown), Cell::Unknown);
    assert_eq!(Cell::Unknown.meet(Cell::Unknown), Cell::Unknown);
}

#[test]
fn narrow_reports_a_contradiction() {
    assert_eq!(Cell::Unknown.narrow(Cell::Filled), Some(Cell::Filled));
    assert_eq!(Cell::Unknown.narrow(Cell::Blocked), Some(Cell::Blocked));
    assert_eq!(Cell::Unknown.narrow(Cell::Unknown), Some(Cell::Unknown));
    assert_eq!(Cell::Filled.narrow(Cell::Unknown), Some(Cell::Filled));
    assert_eq!(Cell::Filled.narrow(Cell::Filled), Some(Cell::Filled));
    assert_eq!(Cell::Blocked.narrow(Cell::Blocked), Some(Cell::Blocked));
    assert_eq!(Cell::Filled.narrow(Cell::Blocked), None);
    assert_eq!(Cell::Blocked.narrow(Cell::Filled), None);
}

#[test]
fn glyphs_are_distinct() {
    assert_eq!(Cell::Unknown.glyph(), '?');
    assert_eq!(Cell::Filled.glyph(), '*');
    assert_eq!(Cell::Blocked.glyph(), ' ');
}
