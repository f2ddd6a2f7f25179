//! Reading a board from puzzle text and writing a solved board as text.

use crate::board::{all_fixed, nine_bits, SudokuBoard};
use crate::cell::{lemma_bits_or, lemma_bits_zero, SudokuCell};
use vstd::prelude::*;

verus! {

/// Why a board could not be read or written.
#[derive(Clone, Copy, PartialEq, Eq, Structural, Debug)]
pub enum CodecError {
    /// The text does not hold exactly 81 cells, or the board is not 81 cells long.
    MalformedInput,
    /// Some cell does not hold exactly one candidate.
    UnfixedCell,
}

/// The digit that a given-cell character stands for, or 0 for any other character.
pub open spec fn char_digit(c: char) -> int {
    if c == '1' { 1 }
    else if c == '2' { 2 }
    else if c == '3' { 3 }
    else if c == '4' { 4 }
    else if c == '5' { 5 }
    else if c == '6' { 6 }
    else if c == '7' { 7 }
    else if c == '8' { 8 }
    else if c == '9' { 9 }
    else { 0 }
}

/// The character of digit `d` (1..=9).
pub open spec fn digit_char(d: int) -> char {
    if d == 1 { '1' }
    else if d == 2 { '2' }
    else if d == 3 { '3' }
    else if d == 4 { '4' }
    else if d == 5 { '5' }
    else if d == 6 { '6' }
    else if d == 7 { '7' }
    else if d == 8 { '8' }
    else { '9' }
}

/// `0` and `.` mark an unknown cell.
pub open spec fn is_unknown_char(c: char) -> bool {
    c == '0' || c == '.'
}

/// A character that stands for a cell; all others are ignored.
pub open spec fn is_cell_char(c: char) -> bool {
    is_unknown_char(c) || char_digit(c) != 0
}

/// The characters of `s` that stand for cells, in order.
pub open spec fn recognized(s: Seq<char>) -> Seq<char>
    decreases s.len(),
{
    if s.len() == 0 {
        Seq::empty()
    } else if is_cell_char(s.last()) {
        recognized(s.drop_last()).push(s.last())
    } else {
        recognized(s.drop_last())
    }
}

/// The cell that a recognized character stands for.
pub open spec fn cell_for(c: char) -> SudokuCell {
    if is_unknown_char(c) {
        SudokuCell(511)
    } else {
        SudokuCell(0u16 | (1u16 << ((char_digit(c) - 1) as u16)))
    }
}

/// The board that puzzle text stands for, if it holds exactly 81 cells.
pub open spec fn parse_board(s: Seq<char>) -> Option<Seq<SudokuCell>> {
    if recognized(s).len() == 81 {
        Some(recognized(s).map_values(|c: char| cell_for(c)))
    } else {
        None
    }
}

/// The digit of a fixed cell.
pub open spec fn fixed_digit(c: SudokuCell) -> int {
    choose|d: int| c.has(d)
}

/// The text of a board whose cells are all fixed: one digit per cell.
pub open spec fn board_text(b: Seq<SudokuCell>) -> Seq<char> {
    b.map_values(|c: SudokuCell| digit_char(fixed_digit(c)))
}

/// Text that gives all 81 cells as digits 1..=9.
pub open spec fn is_fully_given(s: Seq<char>) -> bool {
    &&& s.len() == 81
    &&& forall|i: int| 0 <= i < 81 ==> char_digit(#[trigger] s[i]) != 0
}

/// The candidates of a cell among the digits 1..=n, as text in ascending order.
pub open spec fn candidates_text(c: SudokuCell, n: int) -> Seq<char>
    decreases n,
{
    if n <= 0 {
        Seq::empty()
    } else if c.has(n) {
        candidates_text(c, n - 1).push(digit_char(n))
    } else {
        candidates_text(c, n - 1)
    }
}

impl SudokuCell {
    /// The candidates as text, in ascending order (`"139"`).
    pub fn candidates_string(&self) -> (r: String)
        ensures
            r@ == candidates_text(*self, 9),
    {
        let mut out = String::new();
        let mut d: u8 = 1;
        while d <= 9
            invariant
                1 <= d <= 10,
                out@ == candidates_text(*self, d - 1),
            decreases 10 - d,
        {
            if self.get(d) {
                push_char(&mut out, char_of_digit(d));
            }
            d = d + 1;
        }
        out
    }
}

/// Every character of `s` stands for a cell: none is skipped.
pub proof fn lemma_recognized_all(s: Seq<char>)
    requires
        forall|i: int| 0 <= i < s.len() ==> is_cell_char(#[trigger] s[i]),
    ensures
        recognized(s) == s,
    decreases s.len(),
{
    if s.len() > 0 {
        let t = s.drop_last();
        assert forall|i: int| 0 <= i < t.len() implies is_cell_char(#[trigger] t[i]) by {
            assert(t[i] == s[i]);
        }
        lemma_recognized_all(t);
        assert(s.last() == s[s.len() - 1]);
        assert(t.push(s.last()) == s);
    }
}

/// A given digit reads as a cell fixed to that digit, which writes back as
/// the same character.
pub proof fn lemma_given_cell(c: char)
    requires
        char_digit(c) != 0,
    ensures
        cell_for(c).is_single(char_digit(c)),
        cell_for(c).count() == 1,
        fixed_digit(cell_for(c)) == char_digit(c),
        digit_char(fixed_digit(cell_for(c))) == c,
{
    let s = (char_digit(c) - 1) as u16;
    lemma_bits_or(0u16, s);
    lemma_bits_zero();
    let cell = cell_for(c);
    assert forall|e: int| #[trigger] cell.has(e) implies e == char_digit(c) by {
        assert(!crate::cell::bits_has(0u16, e));
    }
    assert(cell.has(char_digit(c)));
    cell.lemma_count_single(char_digit(c));
}

/// Reading text that gives every cell, then writing the board back, gives
/// the same text.
pub proof fn lemma_round_trip(s: Seq<char>)
    requires
        is_fully_given(s),
    ensures
        parse_board(s) is Some,
        all_fixed(parse_board(s)->Some_0),
        board_text(parse_board(s)->Some_0) == s,
{
    assert forall|i: int| 0 <= i < s.len() implies is_cell_char(#[trigger] s[i]) by {}
    lemma_recognized_all(s);
    let b = parse_board(s)->Some_0;
    assert forall|i: int| 0 <= i < 81 implies (#[trigger] b[i]).count() == 1 by {
        lemma_given_cell(s[i]);
    }
    assert forall|i: int| 0 <= i < 81 implies #[trigger] board_text(b)[i] == s[i] by {
        lemma_given_cell(s[i]);
    }
    assert(board_text(b) =~= s);
}

/// Relies on `String::push`: appends one character at the end.
#[verifier::external_body]
pub(crate) fn push_char(s: &mut String, c: char)
    ensures
        final(s)@ == old(s)@.push(c),
{
    s.push(c);
}

fn digit_of_char(c: char) -> (r: u8)
    ensures
        r as int == char_digit(c),
{
    if c == '1' { 1 }
    else if c == '2' { 2 }
    else if c == '3' { 3 }
    else if c == '4' { 4 }
    else if c == '5' { 5 }
    else if c == '6' { 6 }
    else if c == '7' { 7 }
    else if c == '8' { 8 }
    else if c == '9' { 9 }
    else { 0 }
}

pub(crate) fn char_of_digit(d: u8) -> (r: char)
    ensures
        r == digit_char(d as int),
{
    if d == 1 { '1' }
    else if d == 2 { '2' }
    else if d == 3 { '3' }
    else if d == 4 { '4' }
    else if d == 5 { '5' }
    else if d == 6 { '6' }
    else if d == 7 { '7' }
    else if d == 8 { '8' }
    else { '9' }
}

/// Reads a board: `0` or `.` is an unknown cell, `1`..=`9` a given one, and
/// any other character is skipped. Fails unless exactly 81 cells are read.
pub fn load_board(s: &str) -> (r: Result<SudokuBoard, CodecError>)
    ensures
        match r {
            Ok(b) => parse_board(s@) == Some(b@) && nine_bits(b@),
            Err(e) => parse_board(s@) is None && e == CodecError::MalformedInput,
        },
{
    let n = s.unicode_len();
    let mut board: SudokuBoard = Vec::new();
    let mut i: usize = 0;
    while i < n
        invariant
            n == s@.len(),
            i <= n,
            board@ == recognized(s@.take(i as int)).map_values(|c: char| cell_for(c)),
            nine_bits(board@),
        decreases n - i,
    {
        let c = s.get_char(i);
        assert(s@.take(i + 1).drop_last() == s@.take(i as int));
        assert(s@.take(i + 1).last() == c);
        let d = digit_of_char(c);
        let ghost prev = board@;
        if c == '0' || c == '.' {
            board.push(SudokuCell::new_all_set());
            assert(board@ == prev.push(cell_for(c)));
        } else if d != 0 {
            let mut cell = SudokuCell::new();
            cell.set(d);
            assert(cell == cell_for(c));
            board.push(cell);
            assert(board@ == prev.push(cell));
        }
        assert forall|j: int| 0 <= j < board@.len() implies (#[trigger] board@[j]).0 < 512 by {
            if j < prev.len() {
                assert(board@[j] == prev[j]);
            }
        }
        assert(board@ =~= recognized(s@.take(i + 1)).map_values(|c: char| cell_for(c)));
        i = i + 1;
    }
    assert(s@.take(n as int) == s@);
    if board.len() != 81 {
        Err(CodecError::MalformedInput)
    } else {
        Ok(board)
    }
}

/// Writes a solved board as 81 digits. Fails on a board that is not 81
/// cells long, or that has a cell without exactly one candidate.
pub fn serialize_board(board: &SudokuBoard) -> (r: Result<String, CodecError>)
    ensures
        board@.len() != 81 ==> r == Err::<String, CodecError>(CodecError::MalformedInput),
        board@.len() == 81 && !all_fixed(board@) ==> r == Err::<String, CodecError>(CodecError::UnfixedCell),
        board@.len() == 81 && all_fixed(board@) ==> (r matches Ok(t) && t@ == board_text(board@)),
{
    if board.len() != 81 {
        return Err(CodecError::MalformedInput);
    }
    let mut out = String::new();
    let mut i: usize = 0;
    while i < 81
        invariant
            board@.len() == 81,
            i <= 81,
            forall|j: int| 0 <= j < i ==> (#[trigger] board@[j]).count() == 1,
            out@ == board_text(board@.take(i as int)),
        decreases 81 - i,
    {
        let cell = board[i];
        if cell.size() != 1 {
            return Err(CodecError::UnfixedCell);
        }
        let first = cell.get_first();
        proof {
            cell.lemma_count_zero();
        }
        let v = match first {
            Some(v) => v,
            None => 1,
        };
        proof {
            cell.lemma_single(v as int);
            assert(fixed_digit(cell) == v);
        }
        push_char(&mut out, char_of_digit(v));
        assert(board@.take(i + 1) == board@.take(i as int).push(cell));
        assert(out@ =~= board_text(board@.take(i + 1)));
        i = i + 1;
    }
    assert(board@.take(81) == board@);
    Ok(out)
}

} // verus!
