//! The text form of clues: lines separated by `.`, the runs of a line by
//! `,`, each run a decimal number that fits in a byte.

use crate::board::{clue_views, run_lengths, Clue, RowClue};
use crate::line::LineClue;
use vstd::prelude::*;

verus! {

/// Separates the clues of an axis: `.`
pub const LINE_SEPARATOR: u8 = 0x2e;

/// Separates the runs of one clue: `,`
pub const VALUE_SEPARATOR: u8 = 0x2c;

/// The sign that may precede a number: `+`.
pub const PLUS: u8 = 0x2b;

/// The digit `0`; the other digits follow it in order.
pub const ZERO: u8 = 0x30;

/// The digit `9`.
pub const NINE: u8 = 0x39;

/// The pieces of `text` between the occurrences of `sep`. There is always
/// at least one piece; a separator at either end gives an empty piece.
pub open spec fn split(text: Seq<u8>, sep: u8) -> Seq<Seq<u8>>
    decreases text.len(),
{
    if text.len() == 0 {
        seq![Seq::empty()]
    } else {
        let before = split(text.drop_last(), sep);
        if text.last() == sep {
            before.push(Seq::empty())
        } else {
            before.drop_last().push(before.last().push(text.last()))
        }
    }
}

/// The byte is a decimal digit.
pub open spec fn is_digit(byte: u8) -> bool {
    ZERO <= byte <= NINE
}

/// The number that decimal digits spell.
pub open spec fn digits_value(digits: Seq<u8>) -> nat
    decreases digits.len(),
{
    if digits.len() == 0 {
        0
    } else {
        10 * digits_value(digits.drop_last()) + (if is_digit(digits.last()) {
            (digits.last() - ZERO) as nat
        } else {
            0
        })
    }
}

/// The run length that digits spell: there is at least one, all are
/// decimal digits, and their value is at most 255.
pub open spec fn unsigned(digits: Seq<u8>) -> Option<nat> {
    if digits.len() > 0 && (forall|i: int| 0 <= i < digits.len() ==> is_digit(#[trigger] digits[i]))
        && digits_value(digits) <= 255 {
        Some(digits_value(digits))
    } else {
        None
    }
}

/// The run length that `text` spells: an optional `+`, then digits.
pub open spec fn number(text: Seq<u8>) -> Option<nat> {
    if text.len() > 0 && text[0] == PLUS {
        unsigned(text.skip(1))
    } else {
        unsigned(text)
    }
}

/// The clue that one line of text spells: a single run where it holds one
/// number, a group where it holds more.
pub open spec fn line_clue(text: Seq<u8>) -> Option<LineClue> {
    let items = split(text, VALUE_SEPARATOR);
    if forall|i: int| 0 <= i < items.len() ==> number(#[trigger] items[i]) is Some {
        let values = items.map_values(|item: Seq<u8>| number(item)->0);
        Some(
            if values.len() == 1 {
                LineClue::Single(values[0])
            } else {
                LineClue::Group(values)
            },
        )
    } else {
        None
    }
}

/// The clues that the text of one axis spells, `None` where any line of it
/// is malformed.
pub open spec fn axis(text: Seq<u8>) -> Option<Seq<LineClue>> {
    let lines = split(text, LINE_SEPARATOR);
    if forall|i: int| 0 <= i < lines.len() ==> line_clue(#[trigger] lines[i]) is Some {
        Some(lines.map_values(|line: Seq<u8>| line_clue(line)->0))
    } else {
        None
    }
}

/// The pieces put together again, with `sep` between neighbours.
pub open spec fn joined(pieces: Seq<Seq<u8>>, sep: u8) -> Seq<u8>
    decreases pieces.len(),
{
    if pieces.len() == 0 {
        Seq::empty()
    } else if pieces.len() == 1 {
        pieces[0]
    } else {
        joined(pieces.drop_last(), sep).push(sep) + pieces.last()
    }
}

/// Splitting loses nothing and leaves no separator: the pieces, joined,
/// give the text again, and no piece holds `sep`.
pub proof fn lemma_split_joined(text: Seq<u8>, sep: u8)
    ensures
        joined(split(text, sep), sep) == text,
        forall|i: int, j: int|
            0 <= i < split(text, sep).len() && 0 <= j < split(text, sep)[i].len() ==> split(
                text,
                sep,
            )[i][j] != sep,
    decreases text.len(),
{
    if text.len() == 0 {
        assert(joined(split(text, sep), sep) =~= text);
    } else {
        let short = text.drop_last();
        let before = split(short, sep);
        lemma_split_joined(short, sep);
        lemma_split_nonempty(short, sep);
        if text.last() == sep {
            assert(before.push(Seq::empty()).drop_last() =~= before);
        } else {
            let last = before.last().push(text.last());
            let pieces = before.drop_last().push(last);
            assert(pieces.drop_last() =~= before.drop_last());
            if before.len() == 1 {
                assert(joined(before, sep) == before[0]);
            } else {
                assert(joined(pieces, sep) =~= (joined(before.drop_last(), sep).push(sep)
                    + before.last()).push(text.last()));
            }
            assert forall|i: int, j: int|
                0 <= i < pieces.len() && 0 <= j < pieces[i].len() implies pieces[i][j] != sep by {
                if i < pieces.len() - 1 {
                    assert(pieces[i] == before[i]);
                } else if j < before.last().len() {
                    assert(pieces[i][j] == before[before.len() - 1][j]);
                }
            }
        }
    }
}

/// A text has at least one piece.
pub proof fn lemma_split_nonempty(text: Seq<u8>, sep: u8)
    ensures
        split(text, sep).len() >= 1,
    decreases text.len(),
{
    if text.len() > 0 {
        lemma_split_nonempty(text.drop_last(), sep);
    }
}

/// A clue read from text is a group only where it has two runs or more.
pub proof fn lemma_group_has_two_runs(text: Seq<u8>)
    ensures
        line_clue(text) matches Some(LineClue::Group(runs)) ==> runs.len() >= 2,
{
    lemma_split_nonempty(text, VALUE_SEPARATOR);
}

/// More digits spell no smaller a number.
proof fn lemma_value_grows(digits: Seq<u8>, upto: int)
    requires
        0 <= upto <= digits.len(),
    ensures
        digits_value(digits.take(upto)) <= digits_value(digits),
    decreases digits.len(),
{
    if upto == digits.len() {
        assert(digits.take(upto) =~= digits);
    } else {
        lemma_value_grows(digits.drop_last(), upto);
        assert(digits.drop_last().take(upto) =~= digits.take(upto));
    }
}

/// The byte strings that the vectors hold.
pub open spec fn piece_views(pieces: Seq<Vec<u8>>) -> Seq<Seq<u8>> {
    pieces.map_values(|piece: Vec<u8>| piece@)
}

/// Cuts `text` at every occurrence of `sep`.
fn split_bytes(text: &[u8], sep: u8) -> (pieces: Vec<Vec<u8>>)
    ensures
        piece_views(pieces@) == split(text@, sep),
{
    let mut pieces: Vec<Vec<u8>> = Vec::new();
    let mut piece: Vec<u8> = Vec::new();
    let mut i: usize = 0;
    while i < text.len()
        invariant
            i <= text.len(),
            piece_views(pieces@).push(piece@) == split(text@.take(i as int), sep),
        decreases text.len() - i,
    {
        let byte = text[i];
        proof {
            assert(text@.take(i + 1).drop_last() =~= text@.take(i as int));
        }
        let ghost done = piece_views(pieces@);
        if byte == sep {
            pieces.push(piece);
            piece = Vec::new();
            proof {
                assert(piece_views(pieces@) =~= done.push(pieces[pieces.len() - 1]@));
            }
        } else {
            let ghost short = piece@;
            piece.push(byte);
            proof {
                assert(done.push(short).drop_last() =~= done);
            }
        }
        i += 1;
    }
    pieces.push(piece);
    proof {
        assert(text@.take(i as int) =~= text@);
    }
    pieces
}

/// Reads the digits of one run length, which begin at `start`.
fn parse_digits(text: &[u8], start: usize) -> (r: Option<Clue>)
    requires
        start <= text.len(),
    ensures
        match r {
            Some(value) => unsigned(text@.skip(start as int)) == Some(value as nat),
            None => unsigned(text@.skip(start as int)) is None,
        },
{
    let ghost digits = text@.skip(start as int);
    if start == text.len() {
        return None;
    }
    let mut value: u16 = 0;
    let mut i: usize = start;
    while i < text.len()
        invariant
            start <= i <= text.len(),
            digits == text@.skip(start as int),
            value <= 255,
            value == digits_value(digits.take(i - start)),
            forall|p: int| 0 <= p < i - start ==> is_digit(#[trigger] digits[p]),
        decreases text.len() - i,
    {
        let byte = text[i];
        if byte < ZERO || byte > NINE {
            proof {
                assert(!is_digit(digits[i - start]));
            }
            return None;
        }
        proof {
            assert(digits.take(i - start + 1).drop_last() =~= digits.take(i - start));
        }
        value = value * 10 + (byte - ZERO) as u16;
        if value > 255 {
            proof {
                lemma_value_grows(digits, i - start + 1);
            }
            return None;
        }
        i += 1;
    }
    proof {
        assert(digits.take(i - start) =~= digits);
    }
    Some(value as u8)
}

/// Reads one run length.
fn parse_number(text: &[u8]) -> (r: Option<Clue>)
    ensures
        match r {
            Some(value) => number(text@) == Some(value as nat),
            None => number(text@) is None,
        },
{
    if text.len() > 0 && text[0] == PLUS {
        parse_digits(text, 1)
    } else {
        proof {
            assert(text@.skip(0) =~= text@);
        }
        parse_digits(text, 0)
    }
}

/// Reads the clue of one line.
fn parse_clue(text: &[u8]) -> (r: Option<RowClue>)
    ensures
        match r {
            Some(clue) => line_clue(text@) == Some(clue@),
            None => line_clue(text@) is None,
        },
{
    let items = split_bytes(text, VALUE_SEPARATOR);
    let ghost spelled = split(text@, VALUE_SEPARATOR);
    let mut values: Vec<Clue> = Vec::new();
    let mut i: usize = 0;
    while i < items.len()
        invariant
            i <= items.len(),
            piece_views(items@) == spelled,
            spelled == split(text@, VALUE_SEPARATOR),
            values.len() == i,
            forall|p: int|
                0 <= p < i ==> number(#[trigger] spelled[p]) == Some(values[p] as nat),
        decreases items.len() - i,
    {
        proof {
            assert(spelled[i as int] == items[i as int]@);
        }
        match parse_number(items[i].as_slice()) {
            Some(value) => values.push(value),
            None => {
                return None;
            },
        }
        i += 1;
    }
    proof {
        assert(run_lengths(values@) =~= spelled.map_values(|item: Seq<u8>| number(item)->0));
    }
    if values.len() == 1 {
        Some(RowClue::Single(values[0]))
    } else {
        Some(RowClue::Group(values))
    }
}

/// Reads the clues of one axis.
pub(crate) fn parse_axis(text: &[u8]) -> (r: Option<Vec<RowClue>>)
    ensures
        match r {
            Some(clues) => axis(text@) == Some(clue_views(clues@)),
            None => axis(text@) is None,
        },
{
    let lines = split_bytes(text, LINE_SEPARATOR);
    let ghost spelled = split(text@, LINE_SEPARATOR);
    let mut clues: Vec<RowClue> = Vec::new();
    let mut i: usize = 0;
    while i < lines.len()
        invariant
            i <= lines.len(),
            piece_views(lines@) == spelled,
            spelled == split(text@, LINE_SEPARATOR),
            clues.len() == i,
            forall|p: int| 0 <= p < i ==> line_clue(#[trigger] spelled[p]) == Some(clues[p]@),
        decreases lines.len() - i,
    {
        proof {
            assert(spelled[i as int] == lines[i as int]@);
        }
        match parse_clue(lines[i].as_slice()) {
            Some(clue) => clues.push(clue),
            None => {
                return None;
            },
        }
        i += 1;
    }
    proof {
        assert(clue_views(clues@) =~= spelled.map_values(|line: Seq<u8>| line_clue(line)->0));
    }
    Some(clues)
}

} // verus!
