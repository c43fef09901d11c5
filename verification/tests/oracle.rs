use nonogram::board::{Cell, RowClue};
use nonogram::solver::{low_hanging, solver};

/// Every line of `n` cells over the three cell values.
fn all_lines(n: usize) -> Vec<Vec<Cell>> {
    let mut lines = vec![Vec::new()];
    for _ in 0..n {
        let mut longer = Vec::new();
        for line in &lines {
            for cell in [Cell::Unknown, Cell::Filled, Cell::Blocked] {
                let mut next = line.clone();
                next.push(cell);
                longer.push(next);
            }
        }
        lines = longer;
    }
    lines
}

/// Every line of `n` cells that leaves no cell unknown.
fn full_lines(n: usize) -> Vec<Vec<Cell>> {
    all_lines(n).into_iter().filter(|line| !line.contains(&Cell::Unknown)).collect()
}

/// The lengths of the maximal runs of filled cells, in order.
fn runs_of(line: &[Cell]) -> Vec<u8> {
    let mut runs = Vec::new();
    let mut current = 0u8;
    for cell in line {
        if *cell == Cell::Filled {
            current += 1;
        } else if current > 0 {
            runs.push(current);
            current = 0;
        }
    }
    if current > 0 {
        runs.push(current);
    }
    runs
}

fn fits(known: &[Cell], cand: &[Cell]) -> bool {
    known.iter().zip(cand).all(|(k, c)| *k == Cell::Unknown || k == c)
}

/// Full lines that show exactly the runs of the clue; all runs are positive.
fn placements(n: usize, runs: &[u8]) -> Vec<Vec<Cell>> {
    full_lines(n).into_iter().filter(|line| runs_of(line) == runs).collect()
}

/// The candidates that the solver weighs: for a single run, the placements
/// that leave the last cell of the line free.
fn weighed(n: usize, clue: &RowClue) -> Vec<Vec<Cell>> {
    match clue {
        RowClue::Single(k) => placements(n, &[*k])
            .into_iter()
            .filter(|line| line.last() != Some(&Cell::Filled))
            .collect(),
        RowClue::Group(runs) => placements(n, runs),
    }
}

fn expected(known: &[Cell], clue: &RowClue) -> Vec<Cell> {
    let candidates: Vec<Vec<Cell>> =
        weighed(known.len(), clue).into_iter().filter(|c| fits(known, c)).collect();
    if candidates.is_empty() {
        return known.to_vec();
    }
    (0..known.len())
        .map(|i| {
            if known[i] != Cell::Unknown {
                known[i]
            } else if candidates.iter().all(|c| c[i] == candidates[0][i]) {
                candidates[0][i]
            } else {
                Cell::Unknown
            }
        })
        .collect()
}

fn clues() -> Vec<RowClue> {
    vec![
        RowClue::Single(1),
        RowClue::Single(2),
        RowClue::Single(3),
        RowClue::Single(4),
        RowClue::Group(vec![1]),
        RowClue::Group(vec![3]),
        RowClue::Group(vec![1, 1]),
        RowClue::Group(vec![2, 1]),
        RowClue::Group(vec![1, 2]),
        RowClue::Group(vec![2, 2]),
        RowClue::Group(vec![1, 1, 1]),
        RowClue::Group(vec![1, 2, 1]),
    ]
}

#[test]
fn solver_gives_the_consensus_of_all_candidates() {
    for n in 0..=6 {
        for known in all_lines(n) {
            for clue in clues() {
                let mut row = known.clone();
                solver(&mut row, &clue);
                assert_eq!(row, expected(&known, &clue), "{:?} with {:?}", known, clue);
            }
        }
    }
}

#[test]
fn solver_commits_only_to_what_a_legal_placement_holds() {
    for n in 0..=6 {
        for known in all_lines(n) {
            for clue in clues() {
                let mut row = known.clone();
                solver(&mut row, &clue);
                if row == known {
                    continue;
                }
                let runs = match &clue {
                    RowClue::Single(k) => vec![*k],
                    RowClue::Group(runs) => runs.clone(),
                };
                let witness = placements(n, &runs).into_iter().any(|p| {
                    fits(&known, &p)
                        && row.iter().zip(&p).all(|(r, c)| *r == Cell::Unknown || r == c)
                });
                assert!(witness, "{:?} with {:?} gave {:?}", known, clue, row);
            }
        }
    }
}

#[test]
fn solver_is_stable_after_one_pass() {
    for n in 0..=6 {
        for known in all_lines(n) {
            for clue in clues() {
                let mut once = known.clone();
                solver(&mut once, &clue);
                let mut twice = once.clone();
                solver(&mut twice, &clue);
                assert_eq!(twice, once, "{:?} with {:?}", known, clue);
            }
        }
    }
}

#[test]
fn fast_path_writes_exactly_the_forced_lines() {
    for n in 0..=6 {
        for known in all_lines(n) {
            for clue in clues().into_iter().chain([RowClue::Single(0), RowClue::Single(6)]) {
                let mut row = known.clone();
                low_hanging(&mut row, &clue);
                let forced = match &clue {
                    RowClue::Single(0) => Some(vec![Cell::Blocked; n]),
                    RowClue::Single(k) if usize::from(*k) == n => Some(vec![Cell::Filled; n]),
                    RowClue::Single(_) => None,
                    RowClue::Group(runs) => {
                        let all = placements(n, runs);
                        let cells: usize = runs.iter().map(|r| usize::from(*r)).sum();
                        let tight = cells + runs.len() - 1;
                        if tight == n {
                            assert_eq!(all.len(), 1);
                            Some(all[0].clone())
                        } else {
                            None
                        }
                    },
                };
                assert_eq!(row, forced.unwrap_or(known.clone()), "{:?} with {:?}", known, clue);
            }
        }
    }
}
