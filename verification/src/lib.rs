//! A solver for nonogram puzzles that works by consensus, without guessing:
//! each line is refined to what all the candidates that the solver weighs
//! for it have in common, rows and columns in turn, until a step brings no
//! more progress.
//!
//! A group of runs is weighed in every legal placement. A single run is
//! slid over the offsets that leave the last cell of the line free, so the
//! consensus can hold a cell that a placement against the end of the line
//! contradicts: blocked, unknown, unknown with a run of 1 becomes blocked,
//! filled, blocked.

use vstd::prelude::*;
use vstd::string::StringSliceAdditionalSpecFns;

pub mod board;
pub mod grammar;
pub mod grid;
pub mod laws;
pub mod line;
pub mod solver;

pub use board::Board;

use crate::grammar::{axis, lemma_split_nonempty, LINE_SEPARATOR};
use crate::grid::{
    lemma_unknown_bound, lemma_unknown_narrows, opening, unknown_cells, BoardView, Pass,
};
use crate::line::LineClue;

verus! {

/// The board after the fast path has run on the opening board of the clues.
pub open spec fn prepared(row_clues: Seq<LineClue>, col_clues: Seq<LineClue>) -> BoardView {
    opening(row_clues, col_clues).with_grid(opening(row_clues, col_clues).swept(Pass::FastPath))
}

/// The most steps that solving takes: each step but the last resolves a
/// thousandth of the cells or more.
pub const MAX_STEPS: u32 = 1001;

/// Whether a step that took the number of unknown cells from `before` to
/// `after`, out of `total` cells, changed their share by less than a
/// thousandth.
fn stalled(total: u128, before: u128, after: u128) -> (r: bool)
    ensures
        r == ((if before >= after {
            before - after
        } else {
            after - before
        }) * 1000 < total),
{
    let change = if before >= after {
        before - after
    } else {
        after - before
    };
    total > 0 && change <= (total - 1) / 1000
}

/// Solves the puzzle that the two clue texts describe, as far as the
/// consensus of the candidates reaches: builds the board, runs the fast
/// path once, then repeats the solver's step until one changes the share
/// of unknown cells by less than a thousandth. Returns the board with the number of steps taken, or
/// `None` where a clue text is malformed.
pub fn solve(clues_row: &str, clues_col: &str) -> (r: Option<(Board, u32)>)
    ensures
        match r {
            Some((board, steps)) => {
                &&& axis(clues_row.spec_bytes()) is Some
                &&& axis(clues_col.spec_bytes()) is Some
                &&& board.wf()
                &&& ({
                    let start = prepared(
                        axis(clues_row.spec_bytes())->0,
                        axis(clues_col.spec_bytes())->0,
                    );
                    &&& board@ == start.with_grid(start.stepped(steps as nat))
                    &&& 1 <= steps <= MAX_STEPS
                    &&& start.stalls_at(steps as nat)
                    &&& forall|k: nat| 1 <= k < steps ==> !start.stalls_at(k)
                })
            },
            None => axis(clues_row.spec_bytes()) is None || axis(clues_col.spec_bytes()) is None,
        },
{
    let mut board = match Board::parse(clues_row, clues_col) {
        Some(board) => board,
        None => {
            return None;
        },
    };
    board.low_hanging();
    let ghost start = board@;
    let total = board.total_cells();
    let first = board.unresolved_cells();
    let mut unresolved = first;
    let mut steps: u32 = 0;
    proof {
        lemma_split_nonempty(clues_row.spec_bytes(), LINE_SEPARATOR);
        lemma_split_nonempty(clues_col.spec_bytes(), LINE_SEPARATOR);
        assert(total >= 1) by (nonlinear_arith)
            requires
                total == start.row_clues.len() * start.col_clues.len(),
                start.row_clues.len() >= 1,
                start.col_clues.len() >= 1,
        ;
        lemma_unknown_bound(start.grid, start.col_clues.len());
        assert(steps * total == 0) by (nonlinear_arith)
            requires
                steps == 0,
        ;
    }
    loop
        invariant_except_break
            unresolved == unknown_cells(board@.grid),
            steps <= 1000,
            steps * total <= 1000 * (first - unresolved),
            forall|k: nat| 1 <= k <= steps ==> !start.stalls_at(k),
        invariant
            start.wf(),
            board.wf(),
            total == start.cells(),
            total >= 1,
            first <= total,
            unresolved <= first,
            board@ == start.with_grid(start.stepped(steps as nat)),
        ensures
            1 <= steps <= MAX_STEPS,
            start.stalls_at(steps as nat),
            forall|k: nat| 1 <= k < steps ==> !start.stalls_at(k),
        decreases unresolved,
    {
        let ghost before = board@.grid;
        board.solve_step();
        steps += 1;
        let now = board.unresolved_cells();
        proof {
            // a step resolves cells and opens none
            lemma_unknown_narrows(before, board@.grid);
        }
        if stalled(total, unresolved, now) {
            break ;
        }
        proof {
            assert(steps * total <= 1000 * (first - now)) by (nonlinear_arith)
                requires
                    (steps - 1) * total <= 1000 * (first - unresolved),
                    (unresolved - now) * 1000 >= total,
            ;
            assert(steps <= 1000) by (nonlinear_arith)
                requires
                    steps * total <= 1000 * (first - now),
                    first <= total,
                    now >= 0,
                    total >= 1,
            ;
        }
        unresolved = now;
    }
    Some((board, steps))
}

} // verus!
