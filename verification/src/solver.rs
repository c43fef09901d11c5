//! The line solver: the fast path for lines that their clue fills, and the
//! consensus of all candidates for the others.

use crate::board::{run_lengths, Cell, Clue, RowClue};
use crate::line::{
    agreed, compatible, forced, is_candidate, is_placement, is_slide, laid, least, legal,
    lemma_candidate_resolved, lemma_laid_step, lemma_least_front, lemma_least_split,
    lemma_legal_needs_room, lemma_placements_differ, lemma_window, placement, refined,
    refined_cell, slid, spaced, stretch, tight, LineClue,
};
use vstd::prelude::*;

verus! {

/// No cell of `line[from..to]` is known as `value`.
spec fn free(line: Seq<Cell>, from: int, to: int, value: Cell) -> bool {
    forall|i: int| from <= i < to ==> line[i] != value
}

/// Whether no cell of `line[from..to]` is known as `value`.
fn none_in(line: &Vec<Cell>, from: usize, to: usize, value: Cell) -> (r: bool)
    requires
        from <= to <= line.len(),
    ensures
        r == free(line@, from as int, to as int, value),
{
    let mut i = from;
    while i < to
        invariant
            from <= i <= to <= line.len(),
            forall|p: int| from <= p < i ==> line[p] != value,
        decreases to - i,
    {
        if line[i] == value {
            return false;
        }
        i += 1;
    }
    true
}

/// Appends `count` cells equal to `value`.
fn extend(row: &mut Vec<Cell>, value: Cell, count: usize)
    ensures
        final(row)@ == old(row)@ + stretch(value, count as nat),
{
    let mut i: usize = 0;
    while i < count
        invariant
            i <= count,
            row@ == old(row)@ + stretch(value, i as nat),
        decreases count - i,
    {
        row.push(value);
        i += 1;
    }
}

/// A copy of the line.
fn copy_line(v: &Vec<Cell>) -> (r: Vec<Cell>)
    ensures
        r@ == v@,
{
    v.clone()
}

/// Whether `cand` stands in `options` at index `from` or later.
spec fn listed(options: Seq<Vec<Cell>>, from: int, cand: Seq<Cell>) -> bool {
    exists|k: int| from <= k < options.len() && (#[trigger] options[k])@ == cand
}

/// The value that the first `upto` options share at position `i`, or
/// `Unknown` where they differ.
spec fn common(options: Seq<Vec<Cell>>, upto: int, i: int) -> Cell {
    if forall|k: int| 0 <= k < upto ==> (#[trigger] options[k])@[i] == options[0]@[i] {
        options[0]@[i]
    } else {
        Cell::Unknown
    }
}

/// The cell-wise consensus of all options.
fn consensus(options: &Vec<Vec<Cell>>, Ghost(n): Ghost<nat>) -> (r: Vec<Cell>)
    requires
        options.len() >= 1,
        forall|k: int| 0 <= k < options.len() ==> (#[trigger] options[k])@.len() == n,
    ensures
        r@.len() == n,
        forall|i: int| 0 <= i < n ==> r[i] == common(options@, options.len() as int, i),
{
    let mut combined = copy_line(&options[0]);
    let mut k: usize = 1;
    while k < options.len()
        invariant
            1 <= k <= options.len(),
            combined@.len() == n,
            forall|t: int| 0 <= t < options.len() ==> (#[trigger] options[t])@.len() == n,
            forall|i: int| 0 <= i < n ==> combined[i] == common(options@, k as int, i),
        decreases options.len() - k,
    {
        let other = &options[k];
        let mut i: usize = 0;
        while i < combined.len()
            invariant
                1 <= k < options.len(),
                i <= combined@.len() == n,
                other@ == options[k as int]@,
                other@.len() == n,
                forall|p: int| 0 <= p < i ==> combined[p] == common(options@, k + 1, p),
                forall|p: int| i <= p < n ==> combined[p] == common(options@, k as int, p),
            decreases combined.len() - i,
        {
            let merged = combined[i].meet(other[i]);
            combined.set(i, merged);
            i += 1;
        }
        k += 1;
    }
    combined
}

/// What the consensus of a sound and complete list of candidates makes of
/// one cell.
proof fn lemma_settle_cell(known: Seq<Cell>, clue: LineClue, options: Seq<Vec<Cell>>, i: int)
    requires
        0 <= i < known.len(),
        options.len() >= 1,
        forall|k: int|
            0 <= k < options.len() ==> is_candidate(known, clue, (#[trigger] options[k])@),
        forall|c: Seq<Cell>| #[trigger] is_candidate(known, clue, c) ==> listed(options, 0, c),
    ensures
        known[i].narrow_spec(common(options, options.len() as int, i)) == Some(
            refined_cell(known, clue, i),
        ),
{
    let all = options.len() as int;
    assert forall|k: int| 0 <= k < all implies (#[trigger] options[k])@[i] != Cell::Unknown
        && known[i].accepts(options[k]@[i]) by {
        lemma_candidate_resolved(known, clue, options[k]@);
    }
    if known[i] == Cell::Unknown && !agreed(known, clue, i, Cell::Filled) && !agreed(
        known,
        clue,
        i,
        Cell::Blocked,
    ) {
        // one candidate is blocked here and one is filled: both are listed
        let c1 = choose|c: Seq<Cell>|
            #[trigger] is_candidate(known, clue, c) && c[i] != Cell::Filled;
        let c2 = choose|c: Seq<Cell>|
            #[trigger] is_candidate(known, clue, c) && c[i] != Cell::Blocked;
        let k1 = choose|k: int| 0 <= k < options.len() && (#[trigger] options[k])@ == c1;
        let k2 = choose|k: int| 0 <= k < options.len() && (#[trigger] options[k])@ == c2;
        assert(options[k1]@[i] != options[k2]@[i]);
    }
}

/// Writes into `row` what the candidates settle: nothing where there is
/// none; the candidate itself where it is the only one; else their
/// consensus, by which each cell of the row is narrowed.
fn settle(row: &mut Vec<Cell>, options: Vec<Vec<Cell>>, Ghost(clue): Ghost<LineClue>)
    requires
        forall|k: int|
            0 <= k < options.len() ==> is_candidate(old(row)@, clue, (#[trigger] options[k])@),
        forall|c: Seq<Cell>| #[trigger] is_candidate(old(row)@, clue, c) ==> listed(options@, 0, c),
    ensures
        final(row)@ == refined(old(row)@, clue),
{
    let mut options = options;
    if options.len() == 0 {
        proof {
            // what is a candidate is listed, and nothing is
            assert forall|c: Seq<Cell>| !#[trigger] is_candidate(row@, clue, c) by {
                assert(is_candidate(row@, clue, c) ==> listed(options@, 0, c));
            }
        }
        return ;
    }
    if options.len() == 1 {
        proof {
            let only = options[0]@;
            assert forall|i: int| 0 <= i < row@.len() implies only[i] == refined_cell(
                row@,
                clue,
                i,
            ) by {
                lemma_settle_cell(row@, clue, options@, i);
            }
        }
        *row = options.remove(0);
        return ;
    }
    let combined = consensus(&options, Ghost(row@.len()));
    let mut i: usize = 0;
    while i < row.len()
        invariant
            i <= row@.len() == old(row)@.len() == combined@.len(),
            options.len() >= 1,
            forall|k: int|
                0 <= k < options.len() ==> is_candidate(old(row)@, clue, (#[trigger] options[k])@),
            forall|c: Seq<Cell>|
                #[trigger] is_candidate(old(row)@, clue, c) ==> listed(options@, 0, c),
            forall|p: int|
                0 <= p < combined@.len() ==> combined[p] == common(
                    options@,
                    options.len() as int,
                    p,
                ),
            forall|p: int| 0 <= p < i ==> row[p] == refined_cell(old(row)@, clue, p),
            forall|p: int| i <= p < row@.len() ==> row[p] == old(row)[p],
        decreases row.len() - i,
    {
        proof {
            lemma_settle_cell(old(row)@, clue, options@, i as int);
        }
        // a resolved cell that the consensus contradicts would mean that a
        // candidate was listed against what is known: there is none
        let narrowed = row[i].narrow(combined[i]).expect("consensus contradicts a resolved cell");
        row.set(i, narrowed);
        i += 1;
    }
}

/// A longer list still holds what the shorter one held.
proof fn lemma_listed_grows(
    before: Seq<Vec<Cell>>,
    after: Seq<Vec<Cell>>,
    from: int,
    cand: Seq<Cell>,
)
    requires
        0 <= from,
        listed(before, from, cand),
        before.len() <= after.len(),
        forall|k: int| 0 <= k < before.len() ==> before[k] == after[k],
    ensures
        listed(after, from, cand),
{
    let k = choose|k: int| from <= k < before.len() && (#[trigger] before[k])@ == cand;
    assert(after[k]@ == cand);
}

/// Resolves a line that holds one run of `clue` cells, by sliding the run
/// over the line and keeping what all fitting offsets have in common.
fn single_row_solver(row: &mut Vec<Cell>, clue: Clue)
    ensures
        final(row)@ == refined(old(row)@, LineClue::Single(clue as nat)),
{
    let n = row.len();
    let run = clue as usize;
    let ghost known = row@;
    let ghost model = LineClue::Single(clue as nat);
    let mut possible: Vec<Vec<Cell>> = Vec::new();
    if run < n {
        let spacing = n - run;
        let mut i: usize = 0;
        while i < spacing
            invariant
                row@ == known,
                n == known.len(),
                run == clue,
                run < n,
                spacing == n - run,
                i <= spacing,
                model == LineClue::Single(clue as nat),
                forall|k: int|
                    0 <= k < possible.len() ==> is_candidate(
                        known,
                        model,
                        (#[trigger] possible[k])@,
                    ),
                forall|o: nat|
                    o < i && compatible(known, #[trigger] slid(n as nat, clue as nat, o))
                        ==> listed(possible@, 0, slid(n as nat, clue as nat, o)),
            decreases spacing - i,
        {
            let ghost before = possible@;
            let ghost here = slid(n as nat, clue as nat, i as nat);
            // i blocked cells, then the run, then blocked cells to the end
            if none_in(row, 0, i, Cell::Filled) && none_in(row, i, i + run, Cell::Blocked)
                && none_in(row, i + run, n, Cell::Filled) {
                let mut examined = Vec::with_capacity(n);
                extend(&mut examined, Cell::Blocked, i);
                extend(&mut examined, Cell::Filled, run);
                extend(&mut examined, Cell::Blocked, n - run - i);
                proof {
                    assert(examined@ =~= here);
                    assert(is_slide(known.len(), clue as nat, here));
                }
                possible.push(examined);
                proof {
                    assert(possible[possible.len() - 1]@ == here);
                }
            }
            proof {
                assert forall|o: nat|
                    o < i + 1 && compatible(
                        known,
                        #[trigger] slid(n as nat, clue as nat, o),
                    ) implies listed(possible@, 0, slid(n as nat, clue as nat, o)) by {
                    if o < i {
                        lemma_listed_grows(before, possible@, 0, slid(n as nat, clue as nat, o));
                    }
                }
            }
            i += 1;
        }
    }
    settle(row, possible, Ghost(model));
}

/// The blocked cells that run `next` needs before it at the least.
spec fn lead(next: int) -> nat {
    if next == 0 {
        0
    } else {
        1
    }
}

/// `gaps` is a legal placement that begins with `chosen` and contradicts
/// nothing known.
#[verifier::opaque]
spec fn continues(known: Seq<Cell>, runs: Seq<nat>, chosen: Seq<nat>, gaps: Seq<nat>) -> bool {
    &&& legal(known.len(), runs, gaps)
    &&& chosen.len() <= gaps.len()
    &&& gaps.take(chosen.len() as int) =~= chosen
    &&& compatible(known, placement(known.len(), runs, gaps))
}

/// The next gap of a placement that continues `chosen` is at least the
/// lead and leaves room for the runs that follow.
proof fn lemma_gap_bounds(known: Seq<Cell>, runs: Seq<nat>, chosen: Seq<nat>, gaps: Seq<nat>)
    requires
        continues(known, runs, chosen, gaps),
        chosen.len() < runs.len(),
    ensures
        lead(chosen.len() as int) <= gaps[chosen.len() as int],
        laid(runs.take(chosen.len() as int), chosen).len() + gaps[chosen.len() as int]
            + runs[chosen.len() as int] + least(runs.skip(chosen.len() as int + 1)) <= known.len(),
{
    reveal(continues);
    lemma_window(known.len(), runs, gaps, chosen.len() as int);
}

/// No placement continues `chosen` with a gap whose cells, or those of
/// the run behind it, or of the rest behind the last run, are known
/// otherwise.
proof fn lemma_refused(known: Seq<Cell>, runs: Seq<nat>, chosen: Seq<nat>, gap: nat)
    requires
        chosen.len() < runs.len(),
        ({
            let at = laid(runs.take(chosen.len() as int), chosen).len() as int;
            let start = at + gap;
            let end = start + runs[chosen.len() as int];
            ||| !free(known, at, start, Cell::Filled)
            ||| !free(known, start, end, Cell::Blocked)
            ||| chosen.len() == runs.len() - 1 && !free(
                known,
                end,
                known.len() as int,
                Cell::Filled,
            )
        }),
    ensures
        forall|gaps: Seq<nat>| #[trigger]
            continues(known, runs, chosen, gaps) ==> gaps[chosen.len() as int] != gap,
{
    reveal(continues);
    assert forall|gaps: Seq<nat>| #[trigger]
        continues(known, runs, chosen, gaps) implies gaps[chosen.len() as int] != gap by {
        if gaps[chosen.len() as int] == gap {
            lemma_window(known.len(), runs, gaps, chosen.len() as int);
        }
    }
}

/// With the last gap chosen, one placement continues, and it is the one
/// laid.
proof fn lemma_last_gap(known: Seq<Cell>, runs: Seq<nat>, chosen: Seq<nat>, gap: nat)
    requires
        chosen.len() + 1 == runs.len(),
        spaced(chosen),
        gap >= lead(chosen.len() as int),
        laid(runs, chosen.push(gap)).len() <= known.len(),
        compatible(known, placement(known.len(), runs, chosen.push(gap))),
    ensures
        continues(known, runs, chosen, chosen.push(gap)),
        forall|gaps: Seq<nat>| #[trigger]
            continues(known, runs, chosen, gaps) && gaps[chosen.len() as int] == gap ==> gaps
                == chosen.push(gap),
{
    reveal(continues);
    let grown = chosen.push(gap);
    assert(grown.take(chosen.len() as int) =~= chosen);
    assert forall|gaps: Seq<nat>| #[trigger]
        continues(known, runs, chosen, gaps) && gaps[chosen.len() as int] == gap implies gaps
        == grown by {
        assert(gaps =~= grown);
    }
}

/// The placements that continue `chosen` with `gap` are those that
/// continue `chosen` and `gap`.
proof fn lemma_deeper(
    known: Seq<Cell>,
    runs: Seq<nat>,
    chosen: Seq<nat>,
    gap: nat,
    gaps: Seq<nat>,
)
    requires
        chosen.len() < runs.len(),
    ensures
        continues(known, runs, chosen.push(gap), gaps) <==> continues(known, runs, chosen, gaps)
            && gaps[chosen.len() as int] == gap,
{
    reveal(continues);
    let grown = chosen.push(gap);
    let next = chosen.len() as int;
    if continues(known, runs, grown, gaps) {
        assert(gaps.take(next + 1)[next] == grown[next]);
        assert(gaps.take(next) =~= gaps.take(next + 1).take(next));
        assert(grown.take(next) =~= chosen);
    }
    if continues(known, runs, chosen, gaps) && gaps[next] == gap {
        assert(gaps.take(next + 1) =~= grown);
    }
}

/// The gaps found up to one value of the next gap, and those found with
/// the value that follows, are together those found up to that value.
proof fn lemma_found_more(
    known: Seq<Cell>,
    runs: Seq<nat>,
    chosen: Seq<nat>,
    gap: nat,
    before: Seq<Seq<nat>>,
    added: Seq<Seq<nat>>,
)
    requires
        forall|k: int|
            0 <= k < before.len() ==> continues(known, runs, chosen, #[trigger] before[k])
                && before[k][chosen.len() as int] < gap,
        forall|k: int|
            0 <= k < added.len() ==> continues(known, runs, chosen, #[trigger] added[k])
                && added[k][chosen.len() as int] == gap,
        before.no_duplicates(),
        added.no_duplicates(),
        forall|gaps: Seq<nat>| #[trigger]
            continues(known, runs, chosen, gaps) && gaps[chosen.len() as int] < gap
                ==> before.contains(gaps),
        forall|gaps: Seq<nat>| #[trigger]
            continues(known, runs, chosen, gaps) && gaps[chosen.len() as int] == gap
                ==> added.contains(gaps),
    ensures
        forall|k: int|
            0 <= k < (before + added).len() ==> continues(
                known,
                runs,
                chosen,
                #[trigger] (before + added)[k],
            ) && (before + added)[k][chosen.len() as int] < gap + 1,
        (before + added).no_duplicates(),
        forall|gaps: Seq<nat>| #[trigger]
            continues(known, runs, chosen, gaps) && gaps[chosen.len() as int] < gap + 1 ==> (
            before + added).contains(gaps),
{
    let found = before + added;
    assert forall|gaps: Seq<nat>| #[trigger]
        continues(known, runs, chosen, gaps) && gaps[chosen.len() as int] < gap
            + 1 implies found.contains(gaps) by {
        if gaps[chosen.len() as int] < gap {
            let k = choose|k: int| 0 <= k < before.len() && before[k] == gaps;
            assert(found[k] == gaps);
        } else {
            let k = choose|k: int| 0 <= k < added.len() && added[k] == gaps;
            assert(found[before.len() + k] == gaps);
        }
    }
    assert forall|i: int, j: int|
        0 <= i < found.len() && 0 <= j < found.len() && i != j implies found[i] != found[j] by {
        if i < before.len() && j < before.len() {
            assert(before[i] != before[j]);
        } else if i >= before.len() && j >= before.len() {
            assert(added[i - before.len()] != added[j - before.len()]);
        } else {
            assert(found[i][chosen.len() as int] != found[j][chosen.len() as int]);
        }
    }
}

/// Appends to `options` every placement of the runs from `next` on that
/// fits behind the cells laid in `previous` and contradicts nothing known
/// in `current`: one line for each way to choose the remaining gaps, each
/// way once, and nothing else. What the list held before stays in front.
/// `spare` is the number of blocked cells that may still be given away
/// beyond the one that each later run needs before it. The gaps of the
/// lines appended are returned, in the order of the lines.
fn recursive_option_finder(
    clues: &Vec<Clue>,
    next: usize,
    spare: usize,
    previous: &Vec<Cell>,
    current: &Vec<Cell>,
    options: &mut Vec<Vec<Cell>>,
    Ghost(chosen): Ghost<Seq<nat>>,
) -> (found: Ghost<Seq<Seq<nat>>>)
    requires
        next < clues.len(),
        chosen.len() == next,
        spaced(chosen),
        previous@ == laid(run_lengths(clues@).take(next as int), chosen),
        forall|i: int| 0 <= i < previous.len() ==> (#[trigger] current[i]).accepts(previous[i]),
        previous.len() + lead(next as int) + clues[next as int] + least(
            run_lengths(clues@).skip(next + 1),
        ) + spare == current.len(),
    ensures
        final(options).len() == old(options).len() + found@.len(),
        forall|k: int| 0 <= k < old(options).len() ==> final(options)[k] == old(options)[k],
        forall|k: int|
            0 <= k < found@.len() ==> continues(
                current@,
                run_lengths(clues@),
                chosen,
                #[trigger] found@[k],
            ),
        forall|k: int|
            0 <= k < found@.len() ==> (#[trigger] final(options)[old(options).len() + k])@
                == placement(current@.len(), run_lengths(clues@), found@[k]),
        found@.no_duplicates(),
        forall|gaps: Seq<nat>| #[trigger]
            continues(current@, run_lengths(clues@), chosen, gaps) ==> found@.contains(gaps),
        (forall|t: int| 0 <= t < clues.len() ==> #[trigger] clues[t] >= 1) ==> forall|
            i: int,
            j: int,
        |
            old(options).len() <= i < j < final(options).len() ==> (#[trigger] final(options)[i])@
                != (#[trigger] final(options)[j])@,
    decreases clues.len() - next,
{
    let n = current.len();
    let run = clues[next] as usize;
    let first: usize = if next == 0 {
        0
    } else {
        1
    };
    let at = previous.len();
    let ghost runs = run_lengths(clues@);
    let ghost known = current@;
    let ghost floor = old(options).len() as int;
    let ghost mut found: Seq<Seq<nat>> = Seq::empty();
    let mut extra: usize = 0;
    proof {
        assert forall|gaps: Seq<nat>| #[trigger]
            continues(known, runs, chosen, gaps) implies gaps[next as int] >= first by {
            lemma_gap_bounds(known, runs, chosen, gaps);
        }
    }
    loop
        invariant_except_break
            forall|k: int|
                0 <= k < found.len() ==> (#[trigger] found[k])[next as int] < first + extra,
            forall|gaps: Seq<nat>| #[trigger]
                continues(known, runs, chosen, gaps) && gaps[next as int] < first + extra
                    ==> found.contains(gaps),
        invariant
            extra <= spare,
            n == current.len(),
            at == previous.len(),
            run == clues[next as int],
            first == lead(next as int),
            runs == run_lengths(clues@),
            known == current@,
            floor == old(options).len(),
            next < clues.len(),
            chosen.len() == next,
            spaced(chosen),
            previous@ == laid(runs.take(next as int), chosen),
            forall|i: int| 0 <= i < at ==> (#[trigger] current[i]).accepts(previous[i]),
            at + first + run + least(runs.skip(next + 1)) + spare == n,
            options.len() == floor + found.len(),
            forall|k: int| 0 <= k < floor ==> options[k] == old(options)[k],
            forall|k: int|
                0 <= k < found.len() ==> continues(known, runs, chosen, #[trigger] found[k]),
            forall|k: int|
                0 <= k < found.len() ==> (#[trigger] options[floor + k])@ == placement(
                    n as nat,
                    runs,
                    found[k],
                ),
            found.no_duplicates(),
        ensures
            forall|gaps: Seq<nat>| #[trigger]
                continues(known, runs, chosen, gaps) ==> found.contains(gaps),
        decreases spare - extra,
    {
        let gap = first + extra;
        let start = at + gap;
        let end = start + run;
        let ghost before = found;
        let ghost listed_before = options@;
        let ghost grown = chosen.push(gap as nat);
        let ghost mut added: Seq<Seq<nat>> = Seq::empty();
        // the spacer must not cover a filled cell, nor the run a blocked one
        if none_in(current, at, start, Cell::Filled) && none_in(
            current,
            start,
            end,
            Cell::Blocked,
        ) {
            let mut row = copy_line(previous);
            extend(&mut row, Cell::Blocked, gap);
            extend(&mut row, Cell::Filled, run);
            proof {
                lemma_laid_step(runs.take(next + 1), grown, next as int);
                assert(runs.take(next + 1).take(next as int) =~= runs.take(next as int));
                assert(grown.take(next as int) =~= chosen);
                assert(row@ == laid(runs.take(next + 1), grown));
            }
            if next + 1 == clues.len() {
                // the last run: the rest of the line is blocked
                if none_in(current, end, n, Cell::Filled) {
                    extend(&mut row, Cell::Blocked, n - end);
                    proof {
                        assert(runs.take(next + 1) =~= runs);
                        assert(row@ == placement(n as nat, runs, grown));
                        assert(compatible(known, row@));
                        lemma_last_gap(known, runs, chosen, gap as nat);
                        added = seq![grown];
                    }
                    options.push(row);
                } else {
                    proof {
                        lemma_refused(known, runs, chosen, gap as nat);
                    }
                }
                proof {
                    assert forall|gaps: Seq<nat>| #[trigger]
                        continues(known, runs, chosen, gaps) && gaps[next as int]
                            == gap implies added.contains(gaps) by {
                        assert(added[0] == gaps);
                    }
                }
            } else {
                proof {
                    lemma_least_front(runs.skip(next + 1));
                    assert(runs.skip(next + 1).skip(1) =~= runs.skip(next + 2));
                }
                let deeper = recursive_option_finder(
                    clues,
                    next + 1,
                    spare - extra,
                    &row,
                    current,
                    options,
                    Ghost(grown),
                );
                proof {
                    added = deeper@;
                    assert forall|gaps: Seq<nat>| #[trigger]
                        continues(known, runs, chosen, gaps) && gaps[next as int]
                            == gap implies added.contains(gaps) by {
                        lemma_deeper(known, runs, chosen, gap as nat, gaps);
                    }
                    assert forall|k: int| 0 <= k < added.len() implies continues(
                        known,
                        runs,
                        chosen,
                        #[trigger] added[k],
                    ) && added[k][next as int] == gap by {
                        lemma_deeper(known, runs, chosen, gap as nat, added[k]);
                    }
                }
            }
        } else {
            proof {
                lemma_refused(known, runs, chosen, gap as nat);
            }
        }
        proof {
            lemma_found_more(known, runs, chosen, gap as nat, before, added);
            found = before + added;
            let mid = listed_before.len() as int;
            assert forall|k: int| 0 <= k < found.len() implies (#[trigger] options[floor + k])@
                == placement(n as nat, runs, found[k]) by {
                if k < before.len() {
                    assert(options[floor + k] == listed_before[floor + k]);
                    assert(found[k] == before[k]);
                } else {
                    let j = k - before.len();
                    assert(found[k] == added[j]);
                    assert(options[mid + j]@ == placement(n as nat, runs, added[j]));
                }
            }
        }
        if extra == spare {
            proof {
                assert forall|gaps: Seq<nat>| #[trigger]
                    continues(known, runs, chosen, gaps) implies gaps[next as int] < first + extra
                    + 1 by {
                    lemma_gap_bounds(known, runs, chosen, gaps);
                }
            }
            break ;
        }
        extra += 1;
    }
    proof {
        if forall|t: int| 0 <= t < clues.len() ==> #[trigger] clues[t] >= 1 {
            // different gaps give different lines
            assert forall|i: int, j: int| floor <= i < j < options.len() implies (
            #[trigger] options[i])@ != (#[trigger] options[j])@ by {
                let a = found[i - floor];
                let b = found[j - floor];
                assert(options[floor + (i - floor)]@ == placement(n as nat, runs, a));
                assert(options[floor + (j - floor)]@ == placement(n as nat, runs, b));
                assert(continues(known, runs, chosen, a) && continues(known, runs, chosen, b));
                reveal(continues);
                assert forall|t: int| 0 <= t < runs.len() implies #[trigger] runs[t] >= 1 by {
                    assert(clues[t] >= 1);
                }
                lemma_placements_differ(n as nat, runs, a, b);
            }
        }
    }
    Ghost(found)
}

/// The cells of a line of `n` cells that the runs and their separators
/// leave free, or `None` where there are no runs or they do not fit.
fn spare_cells(clues: &Vec<Clue>, n: usize) -> (r: Option<usize>)
    ensures
        match r {
            Some(spare) => clues.len() >= 1 && least(run_lengths(clues@)) + spare == n + 1,
            None => clues.len() == 0 || least(run_lengths(clues@)) > n + 1,
        },
{
    if clues.len() == 0 {
        return None;
    }
    let ghost runs = run_lengths(clues@);
    let mut used: usize = 0;
    let mut t: usize = 0;
    while t < clues.len()
        invariant
            t <= clues.len(),
            runs == run_lengths(clues@),
            used <= n,
            t == 0 ==> used == 0,
            t >= 1 ==> used + 1 == least(runs.take(t as int)),
        decreases clues.len() - t,
    {
        let separator: usize = if t == 0 {
            0
        } else {
            1
        };
        let run = clues[t] as usize;
        proof {
            assert(runs.take(t + 1).drop_last() =~= runs.take(t as int));
            assert(least(runs.take(t + 1)) == least(runs.take(t as int)) + 1 + run);
            lemma_least_split(runs, t + 1);
        }
        if n - used < separator || n - used - separator < run {
            return None;
        }
        used = used + separator + run;
        t += 1;
    }
    proof {
        assert(runs.take(t as int) =~= runs);
    }
    Some(n - used)
}

/// Resolves a line that holds several runs, by listing every placement of
/// them that contradicts nothing known and keeping what all have in common.
fn multi_row_solver(row: &mut Vec<Cell>, clue: &Vec<Clue>)
    ensures
        final(row)@ == refined(old(row)@, LineClue::Group(run_lengths(clue@))),
{
    let ghost runs = run_lengths(clue@);
    let ghost known = row@;
    let mut options: Vec<Vec<Cell>> = Vec::new();
    match spare_cells(clue, row.len()) {
        Some(spare) => {
            let empty: Vec<Cell> = Vec::with_capacity(row.len());
            proof {
                lemma_least_front(runs);
            }
            let found = recursive_option_finder(
                clue,
                0,
                spare,
                &empty,
                row,
                &mut options,
                Ghost(Seq::empty()),
            );
            proof {
                reveal(continues);
                assert forall|k: int| 0 <= k < options.len() implies is_candidate(
                    known,
                    LineClue::Group(runs),
                    (#[trigger] options[k])@,
                ) by {
                    assert(continues(known, runs, Seq::<nat>::empty(), found@[k]));
                    assert(options[0 + k]@ == placement(known.len(), runs, found@[k]));
                    assert(is_placement(known.len(), runs, options[k]@));
                }
                assert forall|c: Seq<Cell>| #[trigger]
                    is_candidate(known, LineClue::Group(runs), c) implies listed(
                    options@,
                    0,
                    c,
                ) by {
                    let gaps = choose|gaps: Seq<nat>| #[trigger]
                        legal(known.len(), runs, gaps) && c == placement(known.len(), runs, gaps);
                    assert(gaps.take(0) =~= Seq::<nat>::empty());
                    assert(continues(known, runs, Seq::<nat>::empty(), gaps));
                    let k = choose|k: int| 0 <= k < found@.len() && found@[k] == gaps;
                    assert(options[0 + k]@ == c);
                }
            }
        },
        None => {
            proof {
                assert forall|c: Seq<Cell>| #[trigger]
                    is_candidate(known, LineClue::Group(runs), c) implies listed(
                    options@,
                    0,
                    c,
                ) by {
                    let gaps = choose|gaps: Seq<nat>| #[trigger]
                        legal(known.len(), runs, gaps) && c == placement(known.len(), runs, gaps);
                    lemma_legal_needs_room(known.len(), runs, gaps);
                }
            }
        },
    }
    settle(row, options, Ghost(LineClue::Group(runs)));
}

/// Refines a line by its clue: every cell on which all candidates agree is
/// resolved, and no resolved cell changes.
pub fn solver(row: &mut Vec<Cell>, clue: &RowClue)
    ensures
        final(row)@ == refined(old(row)@, clue@),
        final(row)@.len() == old(row)@.len(),
        forall|i: int|
            0 <= i < old(row)@.len() && old(row)@[i] != Cell::Unknown ==> final(row)@[i] == old(
                row,
            )@[i],
{
    match clue {
        RowClue::Single(clue) => single_row_solver(row, *clue),
        RowClue::Group(group) => multi_row_solver(row, group),
    }
}

/// Sets every cell of the line to `value`.
fn fill(row: &mut Vec<Cell>, value: Cell)
    ensures
        final(row)@ == stretch(value, old(row)@.len()),
{
    let mut i: usize = 0;
    while i < row.len()
        invariant
            i <= row@.len() == old(row)@.len(),
            forall|p: int| 0 <= p < i ==> row[p] == value,
        decreases row.len() - i,
    {
        row.set(i, value);
        i += 1;
    }
}

/// The runs with one blocked cell between neighbours and nothing around.
fn tiled(clues: &Vec<Clue>) -> (r: Vec<Cell>)
    ensures
        r@ == laid(run_lengths(clues@), tight(clues@.len())),
{
    let ghost runs = run_lengths(clues@);
    let ghost gaps = tight(clues@.len());
    let mut out: Vec<Cell> = Vec::new();
    let mut t: usize = 0;
    while t < clues.len()
        invariant
            t <= clues.len(),
            runs == run_lengths(clues@),
            gaps == tight(clues@.len()),
            out@ == laid(runs.take(t as int), gaps.take(t as int)),
        decreases clues.len() - t,
    {
        proof {
            lemma_laid_step(runs, gaps, t as int);
        }
        if t != 0 {
            out.push(Cell::Blocked);
        }
        extend(&mut out, Cell::Filled, clues[t] as usize);
        t += 1;
    }
    proof {
        assert(runs.take(t as int) =~= runs);
        assert(gaps.take(t as int) =~= gaps);
    }
    out
}

/// The fast path: writes the whole line where the clue leaves it no
/// freedom, and leaves it alone otherwise.
pub fn low_hanging(row: &mut Vec<Cell>, clue: &RowClue)
    ensures
        final(row)@ == forced(old(row)@, clue@),
{
    match clue {
        RowClue::Single(v) => {
            if *v == 0 {
                fill(row, Cell::Blocked);
            } else if *v as usize == row.len() {
                fill(row, Cell::Filled);
            }
        },
        RowClue::Group(clues) => {
            // the runs and their separators fill the line exactly
            if let Some(0) = spare_cells(clues, row.len()) {
                *row = tiled(clues);
            }
        },
    }
}

} // verus!
