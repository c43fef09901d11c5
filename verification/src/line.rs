//! The mathematical model of one line: arrangements of runs, the candidates
//! a clue admits against what is already known, and their consensus.

use crate::board::Cell;
use vstd::prelude::*;

verus! {

/// One line's clue: a single run, or an ordered group of runs.
pub enum LineClue {
    Single(nat),
    Group(Seq<nat>),
}

impl LineClue {
    /// The run lengths of the clue, in order.
    pub open spec fn runs(self) -> Seq<nat> {
        match self {
            LineClue::Single(k) => seq![k],
            LineClue::Group(runs) => runs,
        }
    }
}

/// `k` cells, all equal to `cell`.
pub open spec fn stretch(cell: Cell, k: nat) -> Seq<Cell> {
    Seq::new(k, |i: int| cell)
}

/// The cells written when run `j` follows `gaps[j]` blocked cells, for every
/// `j` in order: gap, run, gap, run, and so on, ending with the last run.
pub open spec fn laid(runs: Seq<nat>, gaps: Seq<nat>) -> Seq<Cell>
    decreases runs.len(),
{
    if runs.len() == 0 || gaps.len() != runs.len() {
        Seq::empty()
    } else {
        laid(runs.drop_last(), gaps.drop_last()) + stretch(Cell::Blocked, gaps.last()) + stretch(
            Cell::Filled,
            runs.last(),
        )
    }
}

/// Every run but the first is kept apart from its predecessor.
pub open spec fn spaced(gaps: Seq<nat>) -> bool {
    forall|j: int| 1 <= j < gaps.len() ==> #[trigger] gaps[j] >= 1
}

/// `gaps` places all of `runs` inside a line of `n` cells.
pub open spec fn legal(n: nat, runs: Seq<nat>, gaps: Seq<nat>) -> bool {
    &&& runs.len() >= 1
    &&& gaps.len() == runs.len()
    &&& spaced(gaps)
    &&& laid(runs, gaps).len() <= n
}

/// The full line of `n` cells that `gaps` gives: the runs as laid, then
/// blocked cells up to the end.
pub open spec fn placement(n: nat, runs: Seq<nat>, gaps: Seq<nat>) -> Seq<Cell> {
    laid(runs, gaps) + stretch(Cell::Blocked, (n - laid(runs, gaps).len()) as nat)
}

/// A single run of `k` cells at offset `i` in a line of `n` cells.
pub open spec fn slid(n: nat, k: nat, i: nat) -> Seq<Cell> {
    stretch(Cell::Blocked, i) + stretch(Cell::Filled, k) + stretch(
        Cell::Blocked,
        (n - k - i) as nat,
    )
}

/// `cand` has the length of `known` and contradicts none of its resolved cells.
pub open spec fn compatible(known: Seq<Cell>, cand: Seq<Cell>) -> bool {
    &&& cand.len() == known.len()
    &&& forall|i: int| 0 <= i < known.len() ==> (#[trigger] known[i]).accepts(cand[i])
}

/// `cand` is the single run of `k` cells at one of the offsets `i` with
/// `i + k` below the line's length: the run is never tried against the
/// end of the line.
pub open spec fn is_slide(n: nat, k: nat, cand: Seq<Cell>) -> bool {
    exists|i: nat| i + k < n && cand == #[trigger] slid(n, k, i)
}

/// `cand` is one of the legal placements of `runs` in a line of `n` cells.
pub open spec fn is_placement(n: nat, runs: Seq<nat>, cand: Seq<Cell>) -> bool {
    exists|gaps: Seq<nat>| #[trigger] legal(n, runs, gaps) && cand == placement(n, runs, gaps)
}

/// `cand` is one of the full lines that the solver weighs for `clue` against
/// `known`: a slide of the single run, or a legal placement of the group,
/// that contradicts no resolved cell.
pub open spec fn is_candidate(known: Seq<Cell>, clue: LineClue, cand: Seq<Cell>) -> bool {
    &&& compatible(known, cand)
    &&& match clue {
        LineClue::Single(k) => is_slide(known.len(), k, cand),
        LineClue::Group(runs) => is_placement(known.len(), runs, cand),
    }
}

/// At least one candidate exists.
pub open spec fn has_candidate(known: Seq<Cell>, clue: LineClue) -> bool {
    exists|cand: Seq<Cell>| #[trigger] is_candidate(known, clue, cand)
}

/// Every candidate holds `value` at position `i`.
pub open spec fn agreed(known: Seq<Cell>, clue: LineClue, i: int, value: Cell) -> bool {
    forall|cand: Seq<Cell>| #[trigger] is_candidate(known, clue, cand) ==> cand[i] == value
}

/// What the solver leaves at position `i`: a resolved cell stays; an unknown
/// cell takes the value on which all candidates agree, if there is a
/// candidate at all and they do agree.
pub open spec fn refined_cell(known: Seq<Cell>, clue: LineClue, i: int) -> Cell {
    if known[i] != Cell::Unknown {
        known[i]
    } else if !has_candidate(known, clue) {
        Cell::Unknown
    } else if agreed(known, clue, i, Cell::Filled) {
        Cell::Filled
    } else if agreed(known, clue, i, Cell::Blocked) {
        Cell::Blocked
    } else {
        Cell::Unknown
    }
}

/// The line after one pass of the solver.
pub open spec fn refined(known: Seq<Cell>, clue: LineClue) -> Seq<Cell> {
    Seq::new(known.len(), |i: int| refined_cell(known, clue, i))
}

/// The least number of cells that `runs` take when each is preceded by one
/// blocked cell: their sum and their count.
pub open spec fn least(runs: Seq<nat>) -> nat
    decreases runs.len(),
{
    if runs.len() == 0 {
        0
    } else {
        least(runs.drop_last()) + 1 + runs.last()
    }
}

/// The gaps of the tightest arrangement: none before the first run, one
/// before each other.
pub open spec fn tight(count: nat) -> Seq<nat> {
    Seq::new(count, |j: int| if j == 0 { 0nat } else { 1nat })
}

/// The clue leaves the line of `n` cells no freedom: a single run is empty
/// or as long as the line; the runs of a group, with one blocked cell
/// between neighbours, take exactly `n` cells.
pub open spec fn forcing(n: nat, clue: LineClue) -> bool {
    match clue {
        LineClue::Single(k) => k == 0 || k == n,
        LineClue::Group(runs) => least(runs) == n + 1,
    }
}

/// The one arrangement of a forcing clue: all blocked, all filled, or the
/// runs with one blocked cell between neighbours.
pub open spec fn pattern(n: nat, clue: LineClue) -> Seq<Cell> {
    match clue {
        LineClue::Single(k) => if k == 0 {
            stretch(Cell::Blocked, n)
        } else {
            stretch(Cell::Filled, n)
        },
        LineClue::Group(runs) => laid(runs, tight(runs.len())),
    }
}

/// The line after the fast path: the pattern where the clue is forcing,
/// else the line as it was.
pub open spec fn forced(known: Seq<Cell>, clue: LineClue) -> Seq<Cell> {
    if forcing(known.len(), clue) {
        pattern(known.len(), clue)
    } else {
        known
    }
}

/// The cells of an arrangement are filled or blocked.
pub proof fn lemma_laid_resolved(runs: Seq<nat>, gaps: Seq<nat>)
    ensures
        forall|i: int| 0 <= i < laid(runs, gaps).len() ==> laid(runs, gaps)[i] != Cell::Unknown,
    decreases runs.len(),
{
    if runs.len() > 0 && gaps.len() == runs.len() {
        lemma_laid_resolved(runs.drop_last(), gaps.drop_last());
    }
}

/// A candidate leaves no cell open.
pub proof fn lemma_candidate_resolved(known: Seq<Cell>, clue: LineClue, cand: Seq<Cell>)
    requires
        is_candidate(known, clue, cand),
    ensures
        forall|i: int| 0 <= i < cand.len() ==> cand[i] != Cell::Unknown,
{
    if let LineClue::Group(runs) = clue {
        let gaps = choose|gaps: Seq<nat>| #[trigger]
            legal(known.len(), runs, gaps) && cand == placement(known.len(), runs, gaps);
        lemma_laid_resolved(runs, gaps);
    }
}

/// `least` adds up over a split of the runs.
pub proof fn lemma_least_split(runs: Seq<nat>, at: int)
    requires
        0 <= at <= runs.len(),
    ensures
        least(runs) == least(runs.take(at)) + least(runs.skip(at)),
    decreases runs.len(),
{
    if at == runs.len() {
        assert(runs.take(at) =~= runs);
    } else {
        lemma_least_split(runs.drop_last(), at);
        assert(runs.drop_last().take(at) =~= runs.take(at));
        assert(runs.drop_last().skip(at) =~= runs.skip(at).drop_last());
    }
}

/// `least`, read from the front.
pub proof fn lemma_least_front(runs: Seq<nat>)
    requires
        runs.len() >= 1,
    ensures
        least(runs) == 1 + runs[0] + least(runs.skip(1)),
{
    lemma_least_split(runs, 1);
    assert(least(runs.take(1)) == least(runs.take(1).drop_last()) + 1 + runs.take(1).last());
}

/// Laying one more run appends its gap and its cells.
pub proof fn lemma_laid_step(runs: Seq<nat>, gaps: Seq<nat>, j: int)
    requires
        gaps.len() == runs.len(),
        0 <= j < runs.len(),
    ensures
        laid(runs.take(j + 1), gaps.take(j + 1)) == laid(runs.take(j), gaps.take(j)) + stretch(
            Cell::Blocked,
            gaps[j],
        ) + stretch(Cell::Filled, runs[j]),
{
    assert(runs.take(j + 1).drop_last() =~= runs.take(j));
    assert(gaps.take(j + 1).drop_last() =~= gaps.take(j));
}

/// What is laid for the first `m` runs is the start of what is laid for all.
pub proof fn lemma_laid_prefix(runs: Seq<nat>, gaps: Seq<nat>, m: int)
    requires
        gaps.len() == runs.len(),
        0 <= m <= runs.len(),
    ensures
        laid(runs.take(m), gaps.take(m)).len() <= laid(runs, gaps).len(),
        forall|i: int|
            0 <= i < laid(runs.take(m), gaps.take(m)).len() ==> laid(runs, gaps)[i] == laid(
                runs.take(m),
                gaps.take(m),
            )[i],
    decreases runs.len(),
{
    if m == runs.len() {
        assert(runs.take(m) =~= runs);
        assert(gaps.take(m) =~= gaps);
    } else {
        lemma_laid_prefix(runs.drop_last(), gaps.drop_last(), m);
        assert(runs.drop_last().take(m) =~= runs.take(m));
        assert(gaps.drop_last().take(m) =~= gaps.take(m));
    }
}

/// Gaps stay spaced when the last is left out.
pub proof fn lemma_spaced_without_last(gaps: Seq<nat>)
    requires
        spaced(gaps),
        gaps.len() >= 1,
    ensures
        spaced(gaps.drop_last()),
{
    assert forall|j: int| 1 <= j < gaps.drop_last().len() implies #[trigger] gaps.drop_last()[j]
        >= 1 by {
        assert(gaps[j] >= 1);
    }
}

/// After the first `m` runs, the others still need their cells and one
/// blocked cell each.
pub proof fn lemma_room(runs: Seq<nat>, gaps: Seq<nat>, m: int)
    requires
        gaps.len() == runs.len(),
        spaced(gaps),
        1 <= m <= runs.len(),
    ensures
        laid(runs.take(m), gaps.take(m)).len() + least(runs.skip(m)) <= laid(runs, gaps).len(),
    decreases runs.len(),
{
    if m == runs.len() {
        assert(runs.take(m) =~= runs);
        assert(gaps.take(m) =~= gaps);
    } else {
        lemma_spaced_without_last(gaps);
        lemma_room(runs.drop_last(), gaps.drop_last(), m);
        assert(runs.drop_last().take(m) =~= runs.take(m));
        assert(gaps.drop_last().take(m) =~= gaps.take(m));
        assert(runs.drop_last().skip(m) =~= runs.skip(m).drop_last());
    }
}

/// The shape of a legal placement around run `j`: what precedes it, its
/// gap, its cells, and the room that the later runs need.
pub proof fn lemma_window(n: nat, runs: Seq<nat>, gaps: Seq<nat>, j: int)
    requires
        legal(n, runs, gaps),
        0 <= j < runs.len(),
    ensures
        placement(n, runs, gaps).len() == n,
        ({
            let before = laid(runs.take(j), gaps.take(j));
            let line = placement(n, runs, gaps);
            let start = before.len() + gaps[j];
            let end = start + runs[j];
            &&& end + least(runs.skip(j + 1)) <= n
            &&& forall|i: int| 0 <= i < before.len() ==> line[i] == before[i]
            &&& forall|i: int| before.len() <= i < start ==> line[i] == Cell::Blocked
            &&& forall|i: int| start <= i < end ==> line[i] == Cell::Filled
            &&& j == runs.len() - 1 ==> forall|i: int| end <= i < n ==> line[i] == Cell::Blocked
        }),
{
    lemma_laid_step(runs, gaps, j);
    lemma_laid_prefix(runs, gaps, j);
    lemma_laid_prefix(runs, gaps, j + 1);
    lemma_room(runs, gaps, j + 1);
    let before = laid(runs.take(j), gaps.take(j));
    let upto = laid(runs.take(j + 1), gaps.take(j + 1));
    let line = placement(n, runs, gaps);
    assert forall|i: int| 0 <= i < upto.len() implies line[i] == upto[i] by {}
    assert forall|i: int| 0 <= i < before.len() implies line[i] == before[i] by {
        assert(upto[i] == before[i]);
    }
    if j == runs.len() - 1 {
        assert(runs.take(j + 1) =~= runs);
    }
}

/// No placement is legal in a line shorter than the runs and their
/// separators.
pub proof fn lemma_legal_needs_room(n: nat, runs: Seq<nat>, gaps: Seq<nat>)
    requires
        legal(n, runs, gaps),
    ensures
        least(runs) <= n + 1,
{
    lemma_window(n, runs, gaps, 0);
    lemma_least_front(runs);
}

/// The tightest arrangement takes one cell less than `least`.
pub proof fn lemma_tight_span(runs: Seq<nat>)
    requires
        runs.len() >= 1,
    ensures
        laid(runs, tight(runs.len())).len() + 1 == least(runs),
    decreases runs.len(),
{
    let gaps = tight(runs.len());
    assert(gaps.drop_last() =~= tight(runs.drop_last().len()));
    if runs.len() == 1 {
        assert(laid(runs.drop_last(), gaps.drop_last()).len() == 0);
        assert(least(runs.drop_last()) == 0);
    } else {
        lemma_tight_span(runs.drop_last());
    }
}

/// The fast path keeps the length of a line.
pub proof fn lemma_forced_len(known: Seq<Cell>, clue: LineClue)
    ensures
        forced(known, clue).len() == known.len(),
{
    if let LineClue::Group(runs) = clue {
        if forcing(known.len(), clue) {
            lemma_tight_span(runs);
        }
    }
}

/// Gaps that take no more room than the tightest are the tightest.
pub proof fn lemma_tight_only(runs: Seq<nat>, gaps: Seq<nat>)
    requires
        runs.len() >= 1,
        gaps.len() == runs.len(),
        spaced(gaps),
        laid(runs, gaps).len() + 1 <= least(runs),
    ensures
        gaps == tight(runs.len()),
    decreases runs.len(),
{
    if runs.len() == 1 {
        assert(laid(runs.drop_last(), gaps.drop_last()).len() == 0);
    } else {
        let fewer = runs.drop_last();
        let before = gaps.drop_last();
        lemma_spaced_without_last(gaps);
        lemma_legal_needs_room(laid(fewer, before).len(), fewer, before);
        lemma_tight_only(fewer, before);
        assert(gaps =~= tight(runs.len())) by {
            assert forall|j: int| 0 <= j < gaps.len() implies gaps[j] == tight(runs.len())[j] by {
                if j < gaps.len() - 1 {
                    assert(gaps[j] == before[j]);
                }
            }
        }
    }
}

/// Two legal placements of runs of one cell or more that agree on the
/// gaps before run `j` and give the same line have the same gaps.
pub proof fn lemma_same_line_same_gaps(
    n: nat,
    runs: Seq<nat>,
    one: Seq<nat>,
    other: Seq<nat>,
    j: int,
)
    requires
        legal(n, runs, one),
        legal(n, runs, other),
        forall|t: int| 0 <= t < runs.len() ==> #[trigger] runs[t] >= 1,
        placement(n, runs, one) == placement(n, runs, other),
        0 <= j <= runs.len(),
        one.take(j) == other.take(j),
    ensures
        one == other,
    decreases runs.len() - j,
{
    if j == runs.len() {
        assert(one.take(j) =~= one);
        assert(other.take(j) =~= other);
    } else {
        lemma_window(n, runs, one, j);
        lemma_window(n, runs, other, j);
        let before = laid(runs.take(j), one.take(j)).len() as int;
        // the run starts where the smaller gap ends, inside the larger gap
        if one[j] < other[j] {
            assert(placement(n, runs, one)[before + one[j]] == Cell::Filled);
            assert(placement(n, runs, other)[before + one[j]] == Cell::Blocked);
        } else if other[j] < one[j] {
            assert(placement(n, runs, other)[before + other[j]] == Cell::Filled);
            assert(placement(n, runs, one)[before + other[j]] == Cell::Blocked);
        }
        assert(one.take(j + 1) =~= other.take(j + 1)) by {
            assert forall|t: int| 0 <= t < j implies (#[trigger] one[t]) == other[t] by {
                assert(one.take(j)[t] == one[t]);
                assert(other.take(j)[t] == other[t]);
            }
        }
        lemma_same_line_same_gaps(n, runs, one, other, j + 1);
    }
}

/// Different legal placements of runs of one cell or more give different
/// lines.
pub proof fn lemma_placements_differ(n: nat, runs: Seq<nat>, one: Seq<nat>, other: Seq<nat>)
    requires
        legal(n, runs, one),
        legal(n, runs, other),
        forall|t: int| 0 <= t < runs.len() ==> #[trigger] runs[t] >= 1,
        one != other,
    ensures
        placement(n, runs, one) != placement(n, runs, other),
{
    if placement(n, runs, one) == placement(n, runs, other) {
        assert(one.take(0) =~= other.take(0));
        lemma_same_line_same_gaps(n, runs, one, other, 0);
    }
}

} // verus!
