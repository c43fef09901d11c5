//! Cells, clues and the board that holds them.

use crate::grammar::{axis, parse_axis};
use crate::grid::{
    after_columns, after_rows, blank, column, filled_cells, glyphs, lemma_on_line_len,
    lemma_step_narrows, narrows, rendered, resolved, unknown_cells, unknown_in, BoardView, Pass,
};
use crate::line::{stretch, LineClue};
use crate::solver::{low_hanging, solver};
use vstd::prelude::*;
use vstd::string::StringSliceAdditionalSpecFns;

verus! {

/// The length of one run of filled cells.
pub type Clue = u8;

/// What is known of one cell of the grid.
#[derive(Debug, Clone, Copy, PartialEq, Eq, Structural)]
pub enum Cell {
    Unknown,
    Filled,
    Blocked,
}

impl Cell {
    /// Whether a cell known as `self` can hold `proposed`.
    pub open spec fn accepts(self, proposed: Cell) -> bool {
        self == Cell::Unknown || self == proposed
    }

    /// What two candidates say together of one cell: their common value, or
    /// `Unknown` where they differ.
    pub open spec fn meet_spec(self, other: Cell) -> Cell {
        if self == other {
            self
        } else {
            Cell::Unknown
        }
    }

    /// What becomes of a cell known as `self` when `deduced` is learnt of it:
    /// `None` where the two contradict each other.
    pub open spec fn narrow_spec(self, deduced: Cell) -> Option<Cell> {
        if self == Cell::Unknown {
            Some(deduced)
        } else if deduced == Cell::Unknown || deduced == self {
            Some(self)
        } else {
            None
        }
    }

    /// The common value of two candidates at one cell.
    pub fn meet(self, other: Cell) -> (r: Cell)
        ensures
            r == self.meet_spec(other),
    {
        match (self, other) {
            (Cell::Filled, Cell::Filled) => Cell::Filled,
            (Cell::Blocked, Cell::Blocked) => Cell::Blocked,
            (Cell::Unknown, _) | (_, Cell::Unknown) => Cell::Unknown,
            (Cell::Blocked, Cell::Filled) | (Cell::Filled, Cell::Blocked) => Cell::Unknown,
        }
    }

    /// Narrows a cell by a deduction; `None` reports a contradiction.
    pub fn narrow(self, deduced: Cell) -> (r: Option<Cell>)
        ensures
            r == self.narrow_spec(deduced),
    {
        match (self, deduced) {
            (Cell::Unknown, v) | (v, Cell::Unknown) => Some(v),
            (Cell::Filled, Cell::Filled) => Some(Cell::Filled),
            (Cell::Blocked, Cell::Blocked) => Some(Cell::Blocked),
            (Cell::Blocked, Cell::Filled) | (Cell::Filled, Cell::Blocked) => None,
        }
    }

    /// The glyph that stands for the cell in text.
    pub open spec fn glyph_spec(self) -> char {
        match self {
            Cell::Unknown => '?',
            Cell::Filled => '*',
            Cell::Blocked => ' ',
        }
    }

    /// The glyph that stands for the cell in text.
    pub fn glyph(self) -> (c: char)
        ensures
            c == self.glyph_spec(),
    {
        match self {
            Cell::Unknown => '?',
            Cell::Filled => '*',
            Cell::Blocked => ' ',
        }
    }
}

/// The run lengths of a group as numbers.
pub open spec fn run_lengths(clues: Seq<Clue>) -> Seq<nat> {
    clues.map_values(|c: Clue| c as nat)
}

/// The clue of one row or column.
#[derive(Debug, PartialEq, Eq)]
pub enum RowClue {
    /// One run of the given length; 0 stands for an empty line.
    Single(Clue),
    /// Several runs in order, each kept apart from the next.
    Group(Vec<Clue>),
}

impl View for RowClue {
    type V = LineClue;

    open spec fn view(&self) -> LineClue {
        match *self {
            RowClue::Single(k) => LineClue::Single(k as nat),
            RowClue::Group(v) => LineClue::Group(run_lengths(v@)),
        }
    }
}

/// The models of a list of clues.
pub open spec fn clue_views(clues: Seq<RowClue>) -> Seq<LineClue> {
    clues.map_values(|c: RowClue| c@)
}

impl RowClue {
    /// Reads the clues of one axis from text: the clues are separated by
    /// `.`, the runs of a clue by `,`. A clue of one run is a `Single`, one
    /// of more runs a `Group`. Returns `None` where any part is not a number
    /// from 0 to 255.
    pub fn parse(input: &str) -> (r: Option<Vec<RowClue>>)
        ensures
            match r {
                Some(clues) => axis(input.spec_bytes()) == Some(clue_views(clues@)),
                None => axis(input.spec_bytes()) is None,
            },
    {
        parse_axis(input.as_bytes())
    }
}

/// A puzzle: the clues of its rows and columns, and what is known of its
/// cells.
pub struct Board {
    clue_row: Vec<RowClue>,
    clue_col: Vec<RowClue>,
    board: Vec<Vec<Cell>>,
}

/// The rows of a grid as sequences of cells.
pub open spec fn row_views(rows: Seq<Vec<Cell>>) -> Seq<Seq<Cell>> {
    rows.map_values(|row: Vec<Cell>| row@)
}

impl View for Board {
    type V = BoardView;

    closed spec fn view(&self) -> BoardView {
        BoardView {
            row_clues: clue_views(self.clue_row@),
            col_clues: clue_views(self.clue_col@),
            grid: row_views(self.board@),
        }
    }
}

impl Board {
    /// The grid has one row for each row clue and, in each row, one cell
    /// for each column clue.
    pub open spec fn wf(&self) -> bool {
        self@.wf()
    }

    /// `wf`, said of the fields.
    spec fn shaped(&self) -> bool {
        &&& self.board.len() == self.clue_row.len()
        &&& forall|r: int|
            0 <= r < self.board.len() ==> (#[trigger] self.board[r])@.len() == self.clue_col.len()
    }

    /// `wf` and `shaped` say the same.
    proof fn lemma_shaped(&self)
        ensures
            self.wf() <==> self.shaped(),
    {
        if self.wf() {
            assert forall|r: int| 0 <= r < self.board.len() implies (
            #[trigger] self.board[r])@.len() == self.clue_col.len() by {
                assert(self@.grid[r] == self.board[r]@);
            }
        }
        if self.shaped() {
            assert forall|r: int| 0 <= r < self@.grid.len() implies (#[trigger] self@.grid[r]).len()
                == self@.col_clues.len() by {
                assert(self@.grid[r] == self.board[r]@);
            }
        }
    }

    /// Treats every row with its clue.
    fn sweep_rows(&mut self, pass: Pass)
        requires
            old(self).wf(),
        ensures
            final(self).wf(),
            final(self)@ == old(self)@.with_grid(
                after_rows(pass, old(self)@.grid, old(self)@.row_clues),
            ),
    {
        proof {
            self.lemma_shaped();
        }
        let mut r: usize = 0;
        while r < self.board.len()
            invariant
                r <= self.board.len(),
                self.clue_row == old(self).clue_row,
                self.clue_col == old(self).clue_col,
                self.board.len() == old(self).board.len(),
                old(self).shaped(),
                self.shaped(),
                forall|p: int|
                    0 <= p < r ==> (#[trigger] self.board[p])@ == pass.on_line(
                        old(self).board[p]@,
                        old(self).clue_row[p]@,
                    ),
                forall|p: int|
                    r <= p < self.board.len() ==> (#[trigger] self.board[p])@ == old(
                        self,
                    ).board[p]@,
            decreases self.board.len() - r,
        {
            proof {
                lemma_on_line_len(pass, self.board[r as int]@, self.clue_row[r as int]@);
            }
            match pass {
                Pass::FastPath => low_hanging(&mut self.board[r], &self.clue_row[r]),
                Pass::Consensus => solver(&mut self.board[r], &self.clue_row[r]),
            }
            r += 1;
        }
        proof {
            self.lemma_shaped();
            assert(self@.grid =~= after_rows(pass, old(self)@.grid, old(self)@.row_clues));
        }
    }

    /// Treats every column with its clue.
    fn sweep_columns(&mut self, pass: Pass)
        requires
            old(self).wf(),
        ensures
            final(self).wf(),
            final(self)@ == old(self)@.with_grid(
                after_columns(pass, old(self)@.grid, old(self)@.col_clues),
            ),
    {
        proof {
            self.lemma_shaped();
        }
        let height = self.board.len();
        let mut line: Vec<Cell> = Vec::with_capacity(height);
        let mut c: usize = 0;
        while c < self.clue_col.len()
            invariant
                c <= self.clue_col.len(),
                self.clue_row == old(self).clue_row,
                self.clue_col == old(self).clue_col,
                height == self.board.len() == old(self).board.len(),
                old(self).shaped(),
                self.shaped(),
                forall|r: int, q: int|
                    0 <= r < height && 0 <= q < c ==> (#[trigger] self.board[r]@[q])
                        == pass.on_line(column(old(self)@.grid, q), old(self).clue_col[q]@)[r],
                forall|r: int, q: int|
                    0 <= r < height && c <= q < self.clue_col.len() ==> (
                    #[trigger] self.board[r]@[q]) == old(self).board[r]@[q],
            decreases self.clue_col.len() - c,
        {
            let ghost mid = self.board@;
            line.clear();
            let mut r: usize = 0;
            while r < height
                invariant
                    r <= height == self.board.len(),
                    c < self.clue_col.len(),
                    self.shaped(),
                    self.board@ == mid,
                    line@.len() == r,
                    forall|p: int| 0 <= p < r ==> line[p] == (#[trigger] self.board[p])@[c as int],
                decreases height - r,
            {
                line.push(self.board[r][c]);
                r += 1;
            }
            proof {
                assert(line@ =~= column(old(self)@.grid, c as int)) by {
                    assert forall|p: int| 0 <= p < height implies line[p] == column(
                        old(self)@.grid,
                        c as int,
                    )[p] by {
                        assert(self.board[p]@[c as int] == old(self).board[p]@[c as int]);
                    }
                }
                lemma_on_line_len(pass, line@, self.clue_col[c as int]@);
            }
            match pass {
                Pass::FastPath => low_hanging(&mut line, &self.clue_col[c]),
                Pass::Consensus => solver(&mut line, &self.clue_col[c]),
            }
            r = 0;
            while r < height
                invariant
                    r <= height == self.board.len() == mid.len(),
                    c < self.clue_col.len(),
                    self.clue_row == old(self).clue_row,
                    self.clue_col == old(self).clue_col,
                    self.shaped(),
                    line@.len() == height,
                    forall|p: int|
                        0 <= p < height ==> (#[trigger] mid[p])@.len() == self.clue_col.len(),
                    forall|p: int, q: int|
                        0 <= p < height && 0 <= q < self.clue_col.len() ==> (
                        #[trigger] self.board[p]@[q]) == (if q == c && p < r {
                            line[p]
                        } else {
                            mid[p]@[q]
                        }),
                decreases height - r,
            {
                self.board[r][c] = line[r];
                r += 1;
            }
            c += 1;
        }
        proof {
            self.lemma_shaped();
            assert(self@.grid =~= after_columns(pass, old(self)@.grid, old(self)@.col_clues)) by {
                assert forall|r: int| 0 <= r < height implies #[trigger] self@.grid[r]
                    =~= after_columns(pass, old(self)@.grid, old(self)@.col_clues)[r] by {
                    assert forall|q: int| 0 <= q < self.clue_col.len() implies self.board[r]@[q]
                        == pass.on_line(
                        column(old(self)@.grid, q),
                        old(self)@.col_clues[q],
                    )[r] by {}
                }
            }
        }
    }

    /// Builds the puzzle from the text of its row clues and of its column
    /// clues, with every cell unknown. The grid has one row for each row
    /// clue and one column for each column clue.
    pub fn parse(clue_row: &str, clue_col: &str) -> (r: Option<Board>)
        ensures
            match r {
                Some(board) => {
                    &&& board.wf()
                    &&& axis(clue_row.spec_bytes()) == Some(board@.row_clues)
                    &&& axis(clue_col.spec_bytes()) == Some(board@.col_clues)
                    &&& board@.grid == blank(board@.row_clues.len(), board@.col_clues.len())
                },
                None => axis(clue_row.spec_bytes()) is None || axis(clue_col.spec_bytes()) is None,
            },
    {
        let clue_row = match RowClue::parse(clue_row) {
            Some(clues) => clues,
            None => {
                return None;
            },
        };
        let clue_col = match RowClue::parse(clue_col) {
            Some(clues) => clues,
            None => {
                return None;
            },
        };
        let height = clue_row.len();
        let width = clue_col.len();
        let mut board: Vec<Vec<Cell>> = Vec::with_capacity(height);
        let mut r: usize = 0;
        while r < height
            invariant
                r <= height,
                board.len() == r,
                forall|p: int| 0 <= p < r ==> (#[trigger] board[p])@ == stretch(
                    Cell::Unknown,
                    width as nat,
                ),
            decreases height - r,
        {
            let mut row: Vec<Cell> = Vec::with_capacity(width);
            let mut c: usize = 0;
            while c < width
                invariant
                    c <= width,
                    row@ == stretch(Cell::Unknown, c as nat),
                decreases width - c,
            {
                row.push(Cell::Unknown);
                c += 1;
            }
            board.push(row);
            r += 1;
        }
        let board = Board { clue_row, clue_col, board };
        proof {
            board.lemma_shaped();
        }
        Some(board)
    }

    /// The number of rows.
    pub fn height(&self) -> (n: usize)
        ensures
            n == self@.grid.len(),
    {
        self.board.len()
    }

    /// The number of columns.
    pub fn width(&self) -> (n: usize)
        ensures
            n == self@.col_clues.len(),
    {
        self.clue_col.len()
    }

    /// The cell in row `row` and column `col`, `None` outside the grid.
    pub fn get(&self, row: usize, col: usize) -> (r: Option<Cell>)
        ensures
            r == (if row < self@.grid.len() && col < self@.grid[row as int].len() {
                Some(self@.grid[row as int][col as int])
            } else {
                None
            }),
    {
        if row < self.board.len() && col < self.board[row].len() {
            Some(self.board[row][col])
        } else {
            None
        }
    }

    /// The fast path: every row, then every column, is written where its
    /// clue leaves it no freedom.
    pub fn low_hanging(&mut self)
        requires
            old(self).wf(),
        ensures
            final(self).wf(),
            final(self)@ == old(self)@.with_grid(old(self)@.swept(Pass::FastPath)),
    {
        self.sweep_rows(Pass::FastPath);
        self.sweep_columns(Pass::FastPath);
    }

    /// One step of the solver: every row, then every column, takes the
    /// consensus of its candidates.
    pub fn solve_step(&mut self)
        requires
            old(self).wf(),
        ensures
            final(self).wf(),
            final(self)@ == old(self)@.with_grid(old(self)@.swept(Pass::Consensus)),
            narrows(old(self)@.grid, final(self)@.grid),
    {
        proof {
            lemma_step_narrows(self@);
        }
        self.sweep_rows(Pass::Consensus);
        self.sweep_columns(Pass::Consensus);
    }

    /// The grid as truth values, `true` for a filled cell, where every cell
    /// is resolved; `None` where any cell is still unknown.
    pub fn export(&self) -> (r: Option<Vec<Vec<bool>>>)
        ensures
            match r {
                Some(rows) => resolved(self@.grid) && rows.deep_view() == filled_cells(self@.grid),
                None => !resolved(self@.grid),
            },
    {
        let mut rows: Vec<Vec<bool>> = Vec::with_capacity(self.board.len());
        let mut r: usize = 0;
        while r < self.board.len()
            invariant
                r <= self.board.len(),
                rows.len() == r,
                forall|p: int, q: int|
                    0 <= p < r && 0 <= q < self.board[p]@.len() ==> (#[trigger] self.board[p]@[q])
                        != Cell::Unknown,
                forall|p: int|
                    0 <= p < r ==> (#[trigger] rows[p])@ == filled_cells(self@.grid)[p],
            decreases self.board.len() - r,
        {
            let row = &self.board[r];
            let mut export_row: Vec<bool> = Vec::with_capacity(row.len());
            let mut c: usize = 0;
            while c < row.len()
                invariant
                    c <= row.len(),
                    r < self.board.len(),
                    row@ == self.board[r as int]@,
                    self@.grid[r as int] == row@,
                    export_row@.len() == c,
                    forall|q: int| 0 <= q < c ==> row[q] != Cell::Unknown,
                    forall|q: int| 0 <= q < c ==> export_row[q] == (row[q] == Cell::Filled),
                decreases row.len() - c,
            {
                match row[c] {
                    Cell::Filled => export_row.push(true),
                    Cell::Blocked => export_row.push(false),
                    Cell::Unknown => {
                        proof {
                            assert(self@.grid[r as int][c as int] == Cell::Unknown);
                        }
                        return None;
                    },
                }
                c += 1;
            }
            proof {
                assert(export_row@ =~= filled_cells(self@.grid)[r as int]);
            }
            rows.push(export_row);
            r += 1;
        }
        proof {
            assert forall|p: int, q: int|
                0 <= p < self@.grid.len() && 0 <= q < self@.grid[p].len() implies (
            #[trigger] self@.grid[p][q]) != Cell::Unknown by {
                assert(self@.grid[p] == self.board[p]@);
            }
            assert(rows.deep_view() =~~= filled_cells(self@.grid));
        }
        Some(rows)
    }

    /// The number of cells that are still unknown.
    pub fn unresolved_cells(&self) -> (n: u128)
        ensures
            n == unknown_cells(self@.grid),
    {
        let mut count: u128 = 0;
        let mut r: usize = 0;
        while r < self.board.len()
            invariant
                r <= self.board.len(),
                count == unknown_cells(self@.grid.take(r as int)),
                count <= r * 0xffff_ffff_ffff_ffff,
            decreases self.board.len() - r,
        {
            let row = &self.board[r];
            let ghost above = count;
            let mut c: usize = 0;
            while c < row.len()
                invariant
                    c <= row.len(),
                    count == above + unknown_in(row@.take(c as int)),
                    above <= r * 0xffff_ffff_ffff_ffff,
                    r < 0xffff_ffff_ffff_ffff,
                    count <= above + c,
                decreases row.len() - c,
            {
                proof {
                    assert(row@.take(c + 1).drop_last() =~= row@.take(c as int));
                }
                if row[c] == Cell::Unknown {
                    count += 1;
                }
                c += 1;
            }
            proof {
                assert(row@.take(c as int) =~= row@);
                assert(self@.grid.take(r + 1).drop_last() =~= self@.grid.take(r as int));
            }
            r += 1;
        }
        proof {
            assert(self@.grid.take(r as int) =~= self@.grid);
        }
        count
    }

    /// The number of cells of the grid.
    pub fn total_cells(&self) -> (n: u128)
        ensures
            n == self@.row_clues.len() * self@.col_clues.len(),
    {
        let height = self.clue_row.len() as u128;
        let width = self.clue_col.len() as u128;
        assert(height * width <= 0xffff_ffff_ffff_ffff * 0xffff_ffff_ffff_ffff) by (nonlinear_arith)
            requires
                0 <= height <= 0xffff_ffff_ffff_ffff,
                0 <= width <= 0xffff_ffff_ffff_ffff,
        ;
        height * width
    }

    /// The grid as text: one line for each row, with `*` for a filled cell,
    /// a blank for a blocked one and `?` for an unknown one.
    pub fn render(&self) -> (text: String)
        ensures
            text@ == rendered(self@.grid),
    {
        let mut text = String::new();
        let mut r: usize = 0;
        proof {
            reveal_strlit("?");
            reveal_strlit("*");
            reveal_strlit(" ");
            reveal_strlit("\n");
        }
        while r < self.board.len()
            invariant
                r <= self.board.len(),
                text@ == rendered(self@.grid.take(r as int)),
                "?"@ == seq!['?'],
                "*"@ == seq!['*'],
                " "@ == seq![' '],
                "\n"@ == seq!['\n'],
            decreases self.board.len() - r,
        {
            let row = &self.board[r];
            let ghost above = text@;
            let mut c: usize = 0;
            while c < row.len()
                invariant
                    c <= row.len(),
                    text@ == above + glyphs(row@.take(c as int)),
                    "?"@ == seq!['?'],
                    "*"@ == seq!['*'],
                    " "@ == seq![' '],
                decreases row.len() - c,
            {
                let glyph = match row[c] {
                    Cell::Unknown => "?",
                    Cell::Filled => "*",
                    Cell::Blocked => " ",
                };
                text.append(glyph);
                proof {
                    assert(glyphs(row@.take(c + 1)) =~= glyphs(row@.take(c as int)) + seq![
                        row[c as int].glyph_spec(),
                    ]);
                }
                c += 1;
            }
            text.append("\n");
            proof {
                assert(self@.grid.take(r + 1).drop_last() =~= self@.grid.take(r as int));
            }
            r += 1;
        }
        proof {
            assert(self@.grid.take(r as int) =~= self@.grid);
        }
        text
    }
}

} // verus!
