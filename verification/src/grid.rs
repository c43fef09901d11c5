//! The mathematical model of the grid and of a pass over it.

use crate::board::Cell;
use crate::line::{forced, lemma_forced_len, refined, stretch, LineClue};
use vstd::prelude::*;

verus! {

/// How a pass treats each line.
#[derive(Debug, Clone, Copy, PartialEq, Eq, Structural)]
pub enum Pass {
    /// Only lines that their clue fills completely are written.
    FastPath,
    /// Every line takes the consensus of its candidates.
    Consensus,
}

impl Pass {
    /// The line after the pass has treated it.
    pub open spec fn on_line(self, line: Seq<Cell>, clue: LineClue) -> Seq<Cell> {
        match self {
            Pass::FastPath => forced(line, clue),
            Pass::Consensus => refined(line, clue),
        }
    }
}

/// A pass keeps the length of a line.
pub proof fn lemma_on_line_len(pass: Pass, line: Seq<Cell>, clue: LineClue)
    ensures
        pass.on_line(line, clue).len() == line.len(),
{
    lemma_forced_len(line, clue);
}

/// Column `c` of the grid, from the top row down.
pub open spec fn column(grid: Seq<Seq<Cell>>, c: int) -> Seq<Cell> {
    Seq::new(grid.len(), |r: int| grid[r][c])
}

/// The grid has `width` cells in every row.
pub open spec fn rectangular(grid: Seq<Seq<Cell>>, width: nat) -> bool {
    forall|r: int| 0 <= r < grid.len() ==> (#[trigger] grid[r]).len() == width
}

/// The grid after every row was treated with its clue.
pub open spec fn after_rows(pass: Pass, grid: Seq<Seq<Cell>>, clues: Seq<LineClue>) -> Seq<
    Seq<Cell>,
> {
    Seq::new(grid.len(), |r: int| pass.on_line(grid[r], clues[r]))
}

/// The grid after every column was treated with its clue.
pub open spec fn after_columns(pass: Pass, grid: Seq<Seq<Cell>>, clues: Seq<LineClue>) -> Seq<
    Seq<Cell>,
> {
    Seq::new(
        grid.len(),
        |r: int| Seq::new(clues.len(), |c: int| pass.on_line(column(grid, c), clues[c])[r]),
    )
}

/// A grid with its clues: one clue for each row and one for each column.
pub struct BoardView {
    pub row_clues: Seq<LineClue>,
    pub col_clues: Seq<LineClue>,
    pub grid: Seq<Seq<Cell>>,
}

impl BoardView {
    /// The grid has one row for each row clue and, in each row, one cell
    /// for each column clue.
    pub open spec fn wf(self) -> bool {
        &&& self.grid.len() == self.row_clues.len()
        &&& rectangular(self.grid, self.col_clues.len())
    }

    /// The grid after one pass: all rows, then all columns.
    pub open spec fn swept(self, pass: Pass) -> Seq<Seq<Cell>> {
        after_columns(pass, after_rows(pass, self.grid, self.row_clues), self.col_clues)
    }

    /// The grid after `steps` steps of the solver.
    pub open spec fn stepped(self, steps: nat) -> Seq<Seq<Cell>>
        decreases steps,
    {
        if steps == 0 {
            self.grid
        } else {
            self.with_grid(self.stepped((steps - 1) as nat)).swept(Pass::Consensus)
        }
    }

    /// The number of cells of the grid.
    pub open spec fn cells(self) -> nat {
        self.row_clues.len() * self.col_clues.len()
    }

    /// Step number `step`, counted from 1, changes the share of unknown
    /// cells by less than a thousandth.
    pub open spec fn stalls_at(self, step: nat) -> bool {
        let before = unknown_cells(self.stepped((step - 1) as nat));
        let after = unknown_cells(self.stepped(step));
        (if before >= after {
            before - after
        } else {
            after - before
        }) * 1000 < self.cells()
    }

    /// The same clues around another grid.
    pub open spec fn with_grid(self, grid: Seq<Seq<Cell>>) -> BoardView {
        BoardView { row_clues: self.row_clues, col_clues: self.col_clues, grid }
    }
}

/// The grid of `height` rows and `width` columns of which nothing is known.
pub open spec fn blank(height: nat, width: nat) -> Seq<Seq<Cell>> {
    Seq::new(height, |r: int| stretch(Cell::Unknown, width))
}

/// The number of unknown cells of a line.
pub open spec fn unknown_in(line: Seq<Cell>) -> nat
    decreases line.len(),
{
    if line.len() == 0 {
        0
    } else {
        unknown_in(line.drop_last()) + if line.last() == Cell::Unknown {
            1nat
        } else {
            0nat
        }
    }
}

/// The number of unknown cells of a grid.
pub open spec fn unknown_cells(grid: Seq<Seq<Cell>>) -> nat
    decreases grid.len(),
{
    if grid.len() == 0 {
        0
    } else {
        unknown_cells(grid.drop_last()) + unknown_in(grid.last())
    }
}

/// No cell of the grid is unknown.
pub open spec fn resolved(grid: Seq<Seq<Cell>>) -> bool {
    forall|r: int, c: int|
        0 <= r < grid.len() && 0 <= c < grid[r].len() ==> #[trigger] grid[r][c] != Cell::Unknown
}

/// The grid as truth values: `true` where a cell is filled.
pub open spec fn filled_cells(grid: Seq<Seq<Cell>>) -> Seq<Seq<bool>> {
    Seq::new(grid.len(), |r: int| Seq::new(grid[r].len(), |c: int| grid[r][c] == Cell::Filled))
}

/// The text of a line: one glyph for each cell.
pub open spec fn glyphs(line: Seq<Cell>) -> Seq<char> {
    line.map_values(|cell: Cell| cell.glyph_spec())
}

/// The text of a grid: the glyphs of each row, each followed by a line
/// feed.
pub open spec fn rendered(grid: Seq<Seq<Cell>>) -> Seq<char>
    decreases grid.len(),
{
    if grid.len() == 0 {
        Seq::empty()
    } else {
        rendered(grid.drop_last()) + glyphs(grid.last()) + seq!['\n']
    }
}

/// The board on which solving starts: every cell unknown.
pub open spec fn opening(row_clues: Seq<LineClue>, col_clues: Seq<LineClue>) -> BoardView {
    BoardView { row_clues, col_clues, grid: blank(row_clues.len(), col_clues.len()) }
}

/// `after` has the shape of `before` and keeps each of its resolved cells.
pub open spec fn narrows(before: Seq<Seq<Cell>>, after: Seq<Seq<Cell>>) -> bool {
    &&& after.len() == before.len()
    &&& forall|r: int| 0 <= r < before.len() ==> (#[trigger] after[r]).len() == before[r].len()
    &&& forall|r: int, c: int|
        0 <= r < before.len() && 0 <= c < before[r].len() && before[r][c] != Cell::Unknown
            ==> #[trigger] after[r][c] == before[r][c]
}

/// A pass leaves a well-formed board well-formed.
pub proof fn lemma_swept_wf(view: BoardView, pass: Pass)
    requires
        view.wf(),
    ensures
        view.with_grid(view.swept(pass)).wf(),
{
}

/// A step of the solver changes no resolved cell.
pub proof fn lemma_step_narrows(view: BoardView)
    requires
        view.wf(),
    ensures
        narrows(view.grid, view.swept(Pass::Consensus)),
{
    let rows = after_rows(Pass::Consensus, view.grid, view.row_clues);
    let both = view.swept(Pass::Consensus);
    assert forall|r: int, c: int|
        0 <= r < view.grid.len() && 0 <= c < view.grid[r].len() && view.grid[r][c]
            != Cell::Unknown implies #[trigger] both[r][c] == view.grid[r][c] by {
        assert(rows[r][c] == view.grid[r][c]);
    }
}

/// A line that keeps its resolved cells has no more unknown cells.
pub proof fn lemma_unknown_in_narrows(before: Seq<Cell>, after: Seq<Cell>)
    requires
        after.len() == before.len(),
        forall|i: int|
            0 <= i < before.len() && before[i] != Cell::Unknown ==> after[i] == before[i],
    ensures
        unknown_in(after) <= unknown_in(before),
        unknown_in(after) == unknown_in(before) ==> after == before,
    decreases before.len(),
{
    if before.len() > 0 {
        lemma_unknown_in_narrows(before.drop_last(), after.drop_last());
        if unknown_in(after) == unknown_in(before) {
            assert(after =~= after.drop_last().push(after.last()));
        }
    } else {
        assert(after =~= before);
    }
}

/// A grid that keeps its resolved cells has no more unknown cells, and as
/// many only where nothing changed.
pub proof fn lemma_unknown_narrows(before: Seq<Seq<Cell>>, after: Seq<Seq<Cell>>)
    requires
        narrows(before, after),
    ensures
        unknown_cells(after) <= unknown_cells(before),
        unknown_cells(after) == unknown_cells(before) ==> after == before,
    decreases before.len(),
{
    if before.len() > 0 {
        assert(narrows(before.drop_last(), after.drop_last())) by {
            assert forall|r: int, c: int|
                0 <= r < before.drop_last().len() && 0 <= c < before.drop_last()[r].len()
                    && before.drop_last()[r][c] != Cell::Unknown implies (
            #[trigger] after.drop_last()[r][c]) == before.drop_last()[r][c] by {
                assert(after[r][c] == before[r][c]);
            }
            assert forall|r: int| 0 <= r < before.drop_last().len() implies (
            #[trigger] after.drop_last()[r]).len() == before.drop_last()[r].len() by {
                assert(after[r].len() == before[r].len());
            }
        }
        lemma_unknown_narrows(before.drop_last(), after.drop_last());
        let last = before.len() - 1;
        assert forall|i: int|
            0 <= i < before.last().len() && before.last()[i]
                != Cell::Unknown implies after.last()[i] == before.last()[i] by {
            assert(after[last][i] == before[last][i]);
        }
        lemma_unknown_in_narrows(before.last(), after.last());
        if unknown_cells(after) == unknown_cells(before) {
            assert(after =~= after.drop_last().push(after.last()));
        }
    } else {
        assert(after =~= before);
    }
}

/// A line has no more unknown cells than cells.
pub proof fn lemma_unknown_in_bound(line: Seq<Cell>)
    ensures
        unknown_in(line) <= line.len(),
    decreases line.len(),
{
    if line.len() > 0 {
        lemma_unknown_in_bound(line.drop_last());
    }
}

/// A grid has no more unknown cells than cells.
pub proof fn lemma_unknown_bound(grid: Seq<Seq<Cell>>, width: nat)
    requires
        rectangular(grid, width),
    ensures
        unknown_cells(grid) <= grid.len() * width,
    decreases grid.len(),
{
    if grid.len() > 0 {
        assert(rectangular(grid.drop_last(), width)) by {
            assert forall|r: int| 0 <= r < grid.drop_last().len() implies (
            #[trigger] grid.drop_last()[r]).len() == width by {
                assert(grid[r].len() == width);
            }
        }
        lemma_unknown_bound(grid.drop_last(), width);
        lemma_unknown_in_bound(grid.last());
        assert((grid.len() - 1) * width + width == grid.len() * width) by (nonlinear_arith);
    } else {
        assert(grid.len() * width == 0) by (nonlinear_arith)
            requires
                grid.len() == 0,
        ;
    }
}

/// A line has no unknown cell exactly where their number is 0.
pub proof fn lemma_line_resolved(line: Seq<Cell>)
    ensures
        unknown_in(line) == 0 <==> forall|i: int| 0 <= i < line.len() ==> line[i] != Cell::Unknown,
    decreases line.len(),
{
    if line.len() > 0 {
        lemma_line_resolved(line.drop_last());
        if unknown_in(line) == 0 {
            assert forall|i: int| 0 <= i < line.len() implies line[i] != Cell::Unknown by {
                if i < line.len() - 1 {
                    assert(line.drop_last()[i] == line[i]);
                }
            }
        } else if line.last() != Cell::Unknown {
            let i = choose|i: int|
                0 <= i < line.drop_last().len() && line.drop_last()[i] == Cell::Unknown;
            assert(line[i] == Cell::Unknown);
        }
    }
}

/// A grid is resolved exactly where the number of its unknown cells is 0.
pub proof fn lemma_resolved(grid: Seq<Seq<Cell>>)
    ensures
        resolved(grid) <==> unknown_cells(grid) == 0,
    decreases grid.len(),
{
    if grid.len() > 0 {
        let above = grid.drop_last();
        lemma_resolved(above);
        lemma_line_resolved(grid.last());
        if resolved(grid) {
            assert(resolved(above)) by {
                assert forall|r: int, c: int|
                    0 <= r < above.len() && 0 <= c < above[r].len() implies #[trigger] above[r][c]
                    != Cell::Unknown by {
                    assert(grid[r][c] != Cell::Unknown);
                }
            }
            assert forall|i: int| 0 <= i < grid.last().len() implies grid.last()[i]
                != Cell::Unknown by {
                assert(grid[grid.len() - 1][i] != Cell::Unknown);
            }
        }
        if unknown_cells(grid) == 0 {
            assert forall|r: int, c: int|
                0 <= r < grid.len() && 0 <= c < grid[r].len() implies #[trigger] grid[r][c]
                != Cell::Unknown by {
                if r < grid.len() - 1 {
                    assert(above[r][c] != Cell::Unknown);
                } else {
                    assert(grid.last()[c] != Cell::Unknown);
                }
            }
        }
    }
}

/// Steps leave a well-formed board well-formed.
pub proof fn lemma_stepped_wf(view: BoardView, steps: nat)
    requires
        view.wf(),
    ensures
        view.with_grid(view.stepped(steps)).wf(),
    decreases steps,
{
    if steps > 0 {
        lemma_stepped_wf(view, (steps - 1) as nat);
        lemma_swept_wf(view.with_grid(view.stepped((steps - 1) as nat)), Pass::Consensus);
    }
}

} // verus!
