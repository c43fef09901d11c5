//! What holds of the solver as a whole, proved from the models of the line
//! and of the grid.

use crate::board::Cell;
use crate::grid::{
    after_rows, column, lemma_on_line_len, lemma_resolved, lemma_step_narrows, lemma_stepped_wf,
    lemma_unknown_narrows, narrows, resolved, unknown_cells, BoardView, Pass,
};
use crate::line::{
    agreed, compatible, forced, forcing, has_candidate, is_candidate, is_placement, is_slide, laid,
    legal, lemma_forced_len, lemma_tight_only, lemma_tight_span, pattern, placement, refined,
    refined_cell, slid, LineClue,
};
use vstd::prelude::*;

verus! {

/// Running the fast path on a line twice gives what running it once gives.
pub proof fn law_fast_path_idempotent(line: Seq<Cell>, clue: LineClue)
    ensures
        forced(forced(line, clue), clue) == forced(line, clue),
{
    lemma_forced_len(line, clue);
}

/// What the fast path writes is the only legal placement of the clue's
/// runs in the line, whatever was known before.
pub proof fn law_forced_is_the_only_placement(n: nat, clue: LineClue, cand: Seq<Cell>)
    requires
        forcing(n, clue),
        is_placement(n, clue.runs(), cand),
    ensures
        cand == pattern(n, clue),
{
    let runs = clue.runs();
    let gaps = choose|gaps: Seq<nat>| #[trigger]
        legal(n, runs, gaps) && cand == placement(n, runs, gaps);
    match clue {
        LineClue::Single(_) => {
            assert(laid(runs.drop_last(), gaps.drop_last()) =~= Seq::<Cell>::empty());
        },
        LineClue::Group(_) => {
            lemma_tight_only(runs, gaps);
            lemma_tight_span(runs);
        },
    }
}

/// Running the fast path on a board twice gives the grid that running it
/// once gives.
pub proof fn law_board_fast_path_idempotent(view: BoardView)
    requires
        view.wf(),
    ensures
        view.with_grid(view.swept(Pass::FastPath)).swept(Pass::FastPath) == view.swept(
            Pass::FastPath,
        ),
{
    let once = view.swept(Pass::FastPath);
    let rows = after_rows(Pass::FastPath, view.grid, view.row_clues);
    let again = view.with_grid(once);
    let rows_again = after_rows(Pass::FastPath, once, view.row_clues);
    let twice = again.swept(Pass::FastPath);
    let height = view.grid.len();
    let width = view.col_clues.len();
    assert forall|r: int| 0 <= r < height implies (#[trigger] rows[r]).len() == width
        && rows_again[r].len() == width by {
        lemma_on_line_len(Pass::FastPath, view.grid[r], view.row_clues[r]);
        lemma_on_line_len(Pass::FastPath, once[r], view.row_clues[r]);
    }
    assert forall|r: int, c: int| 0 <= r < height && 0 <= c < width implies #[trigger] twice[r][c]
        == once[r][c] by {
        let clue = view.col_clues[c];
        lemma_on_line_len(Pass::FastPath, column(rows, c), clue);
        lemma_on_line_len(Pass::FastPath, column(rows_again, c), clue);
        if !forcing(height, clue) && !forcing(width, view.row_clues[r]) {
            // neither pass writes the cell
            assert(rows_again[r] == once[r]);
        }
    }
    assert forall|r: int| 0 <= r < height implies #[trigger] twice[r] =~= once[r] by {
        assert forall|c: int| 0 <= c < width implies twice[r][c] == once[r][c] by {}
    }
}

/// The solver changes no resolved cell of a line.
pub proof fn law_solver_narrows(known: Seq<Cell>, clue: LineClue)
    ensures
        refined(known, clue).len() == known.len(),
        forall|i: int|
            0 <= i < known.len() && known[i] != Cell::Unknown ==> refined(known, clue)[i]
                == known[i],
{
}

/// Through any number of steps of the solver, a cell that is filled or
/// blocked stays as it is.
pub proof fn law_steps_narrow(view: BoardView, steps: nat)
    requires
        view.wf(),
    ensures
        narrows(view.grid, view.stepped(steps)),
    decreases steps,
{
    if steps > 0 {
        let before = view.stepped((steps - 1) as nat);
        law_steps_narrow(view, (steps - 1) as nat);
        lemma_stepped_wf(view, (steps - 1) as nat);
        lemma_step_narrows(view.with_grid(before));
        let after = view.stepped(steps);
        assert forall|r: int, c: int|
            0 <= r < view.grid.len() && 0 <= c < view.grid[r].len() && view.grid[r][c]
                != Cell::Unknown implies #[trigger] after[r][c] == view.grid[r][c] by {
            assert(before[r][c] == view.grid[r][c]);
        }
    }
}

/// A slide of a single run is a legal placement of it.
pub proof fn lemma_slide_is_placement(n: nat, k: nat, cand: Seq<Cell>)
    requires
        is_slide(n, k, cand),
    ensures
        is_placement(n, seq![k], cand),
{
    let i = choose|i: nat| i + k < n && cand == #[trigger] slid(n, k, i);
    let runs = seq![k];
    let gaps = seq![i];
    assert(laid(runs.drop_last(), gaps.drop_last()) =~= Seq::<Cell>::empty());
    assert(legal(n, runs, gaps));
}

/// Whatever the solver commits to is consistent with a legal placement:
/// either it leaves the line as it was, or some legal placement of the
/// clue's runs contradicts nothing that was known before and holds every
/// resolved cell of the new line.
pub proof fn law_consensus_sound(known: Seq<Cell>, clue: LineClue)
    ensures
        refined(known, clue) == known || exists|cand: Seq<Cell>|
            {
                &&& #[trigger] is_placement(known.len(), clue.runs(), cand)
                &&& compatible(known, cand)
                &&& forall|i: int|
                    0 <= i < known.len() && refined(known, clue)[i] != Cell::Unknown ==> refined(
                        known,
                        clue,
                    )[i] == cand[i]
            },
{
    if has_candidate(known, clue) {
        let cand = choose|cand: Seq<Cell>| #[trigger] is_candidate(known, clue, cand);
        match clue {
            LineClue::Single(k) => {
                lemma_slide_is_placement(known.len(), k, cand);
            },
            LineClue::Group(_) => {},
        }
        assert(is_placement(known.len(), clue.runs(), cand));
    } else {
        assert(refined(known, clue) =~= known);
    }
}

/// Every candidate holds each resolved cell of the refined line: the
/// solver commits only to what no candidate contradicts.
pub proof fn law_consensus_holds_in_every_candidate(
    known: Seq<Cell>,
    clue: LineClue,
    cand: Seq<Cell>,
)
    requires
        is_candidate(known, clue, cand),
    ensures
        is_candidate(refined(known, clue), clue, cand),
{
}

/// A second pass of the solver with nothing new known changes nothing.
pub proof fn law_solver_idempotent(known: Seq<Cell>, clue: LineClue)
    ensures
        refined(refined(known, clue), clue) == refined(known, clue),
{
    let once = refined(known, clue);
    assert forall|cand: Seq<Cell>| is_candidate(once, clue, cand) == is_candidate(
        known,
        clue,
        cand,
    ) by {
        if is_candidate(known, clue, cand) {
            law_consensus_holds_in_every_candidate(known, clue, cand);
        }
        if is_candidate(once, clue, cand) {
            assert forall|i: int| 0 <= i < known.len() implies (#[trigger] known[i]).accepts(
                cand[i],
            ) by {
                assert(once[i].accepts(cand[i]));
            }
        }
    }
    assert(has_candidate(once, clue) == has_candidate(known, clue)) by {
        if has_candidate(known, clue) {
            let cand = choose|cand: Seq<Cell>| #[trigger] is_candidate(known, clue, cand);
            assert(is_candidate(once, clue, cand));
        }
        if has_candidate(once, clue) {
            let cand = choose|cand: Seq<Cell>| #[trigger] is_candidate(once, clue, cand);
            assert(is_candidate(known, clue, cand));
        }
    }
    assert forall|i: int| 0 <= i < known.len() implies refined_cell(once, clue, i) == once[i] by {
        if once[i] == Cell::Unknown {
            assert(agreed(once, clue, i, Cell::Filled) == agreed(known, clue, i, Cell::Filled));
            assert(agreed(once, clue, i, Cell::Blocked) == agreed(known, clue, i, Cell::Blocked));
        }
    }
}

/// On a board of at most a thousand cells, solving stops only where a
/// step changes nothing; so if any number of steps resolves every cell,
/// the board on which solving stops has every cell resolved, and can be
/// exported.
pub proof fn law_solving_reaches_what_steps_reach(view: BoardView, stop: nat, enough: nat)
    requires
        view.wf(),
        view.cells() <= 1000,
        stop >= 1,
        view.stalls_at(stop),
        resolved(view.stepped(enough)),
    ensures
        resolved(view.stepped(stop)),
        view.stepped(stop) == view.stepped((stop - 1) as nat),
{
    lemma_resolved(view.stepped(enough));
    lemma_resolved(view.stepped(stop));
    let last = (stop - 1) as nat;
    lemma_stepped_wf(view, last);
    lemma_step_narrows(view.with_grid(view.stepped(last)));
    lemma_unknown_narrows(view.stepped(last), view.stepped(stop));
    if enough <= stop {
        lemma_unknown_falls(view, enough, stop);
    } else {
        lemma_fixed_point(view, last, enough);
    }
}

/// Later steps have no more unknown cells than earlier ones.
pub proof fn lemma_unknown_falls(view: BoardView, earlier: nat, later: nat)
    requires
        view.wf(),
        earlier <= later,
    ensures
        unknown_cells(view.stepped(later)) <= unknown_cells(view.stepped(earlier)),
    decreases later - earlier,
{
    if earlier < later {
        let before = (later - 1) as nat;
        lemma_unknown_falls(view, earlier, before);
        lemma_stepped_wf(view, before);
        lemma_step_narrows(view.with_grid(view.stepped(before)));
        lemma_unknown_narrows(view.stepped(before), view.stepped(later));
    }
}

/// Once a step changes nothing, no later step does.
pub proof fn lemma_fixed_point(view: BoardView, fixed: nat, later: nat)
    requires
        view.stepped(fixed + 1) == view.stepped(fixed),
        fixed <= later,
    ensures
        view.stepped(later) == view.stepped(fixed),
    decreases later - fixed,
{
    if fixed < later {
        lemma_fixed_point(view, fixed, (later - 1) as nat);
    }
}

} // verus!
