//! Boards as text: one line for each row, the numbers of a row separated by
//! blanks.
use vstd::prelude::*;
use crate::grid::Grid;

verus! {

/// Why a text is not accepted as a board, or a line as a row of one.
#[derive(Debug, Clone, Copy, PartialEq, Eq, Structural)]
pub enum InputError {
    /// A word is not a decimal number, or is one too large for 32 bits.
    NotANumber,
    /// A line does not hold as many numbers as the board is wide.
    WrongCount,
    /// A number is not the value of a tile of a board of this size.
    OutOfRange,
    /// The text does not hold as many lines as the board is high.
    WrongLineCount,
    /// The text does not hold as many numbers as the board has cells.
    WrongTotal,
    /// A number occurs twice.
    NotUnique,
}

/// Whether `c` separates the numbers of a line: any white space.
pub open spec fn is_blank(c: char) -> bool {
    let u = c as u32;
    ||| u == 0x20
    ||| 0x09 <= u <= 0x0d
    ||| u == 0x85
    ||| u == 0xa0
    ||| u == 0x1680
    ||| 0x2000 <= u <= 0x200a
    ||| u == 0x2028
    ||| u == 0x2029
    ||| u == 0x202f
    ||| u == 0x205f
    ||| u == 0x3000
}

/// Whether `c` ends a piece: a line feed where lines are cut, a blank where
/// the numbers of a line are.
pub open spec fn is_cut(c: char, lines: bool) -> bool {
    if lines {
        c == '\n'
    } else {
        is_blank(c)
    }
}

/// The pieces into which the cuts divide a text. A text with `k` cuts has
/// `k + 1` pieces, some of which may be empty.
pub open spec fn pieces(s: Seq<char>, lines: bool) -> Seq<Seq<char>>
    decreases s.len(),
{
    if s.len() == 0 {
        seq![Seq::empty()]
    } else {
        let before = pieces(s.drop_last(), lines);
        if is_cut(s.last(), lines) {
            before.push(Seq::empty())
        } else {
            before.drop_last().push(before.last().push(s.last()))
        }
    }
}

/// The lines of a text. A line feed at the very end starts no further line.
pub open spec fn lines_of(s: Seq<char>) -> Seq<Seq<char>> {
    let p = pieces(s, true);
    if p.last().len() == 0 {
        p.drop_last()
    } else {
        p
    }
}

/// The pieces that are not empty.
pub open spec fn filled(p: Seq<Seq<char>>) -> Seq<Seq<char>>
    decreases p.len(),
{
    if p.len() == 0 {
        Seq::empty()
    } else if p.last().len() == 0 {
        filled(p.drop_last())
    } else {
        filled(p.drop_last()).push(p.last())
    }
}

/// The words of a line: what stands between blanks.
pub open spec fn words_of(line: Seq<char>) -> Seq<Seq<char>> {
    filled(pieces(line, false))
}

pub open spec fn is_digit(c: char) -> bool {
    '0' <= c <= '9'
}

pub open spec fn all_digits(s: Seq<char>) -> bool {
    forall|i: int| 0 <= i < s.len() ==> is_digit(#[trigger] s[i])
}

/// The number that a sequence of decimal digits stands for.
pub open spec fn decimal(s: Seq<char>) -> nat
    decreases s.len(),
{
    if s.len() == 0 {
        0
    } else {
        decimal(s.drop_last()) * 10 + (s.last() as u32 - '0' as u32) as nat
    }
}

/// The number that a word stands for: decimal digits, at least one, after
/// an optional plus sign.
pub open spec fn number_of(word: Seq<char>) -> Option<nat> {
    let digits = if word.len() > 0 && word[0] == '+' {
        word.skip(1)
    } else {
        word
    };
    if digits.len() > 0 && all_digits(digits) {
        Some(decimal(digits))
    } else {
        None
    }
}

/// The word is a number that fits in 32 bits.
pub open spec fn is_number(word: Seq<char>) -> bool {
    number_of(word) matches Some(v) && v <= u32::MAX
}

/// Every word of the line is such a number.
pub open spec fn numeric(line: Seq<char>) -> bool {
    forall|i: int| 0 <= i < words_of(line).len() ==> is_number(#[trigger] words_of(line)[i])
}

/// The numbers of a line, where all its words are numbers.
pub open spec fn values_of(line: Seq<char>) -> Seq<u32> {
    Seq::new(words_of(line).len(), |i: int| number_of(words_of(line)[i]).unwrap() as u32)
}

/// The numbers of the first `k` lines, one line after the other.
pub open spec fn values_upto(lines: Seq<Seq<char>>, k: int) -> Seq<u32>
    decreases k,
{
    if k <= 0 {
        Seq::empty()
    } else {
        values_upto(lines, k - 1) + values_of(lines[k - 1])
    }
}

/// Every number is below `limit`.
pub open spec fn all_below(values: Seq<u32>, limit: int) -> bool {
    forall|i: int| 0 <= i < values.len() ==> (#[trigger] values[i]) < limit
}

/// What is wrong with `line` as a row of a board of side `side`, if
/// anything: a word that is no number, before a wrong count of numbers,
/// before a number that is no tile.
pub open spec fn check_line(line: Seq<char>, side: int) -> Result<(), InputError> {
    if !numeric(line) {
        Err(InputError::NotANumber)
    } else if values_of(line).len() != side {
        Err(InputError::WrongCount)
    } else if !all_below(values_of(line), side * side) {
        Err(InputError::OutOfRange)
    } else {
        Ok(())
    }
}

/// What is wrong with `text` as a board of side `side`, if anything: a
/// wrong count of lines, before a word that is no number, before a wrong
/// count of numbers, before a number that is no tile, before a number that
/// occurs twice.
pub open spec fn check_input(text: Seq<char>, side: int) -> Result<(), InputError> {
    let lines = lines_of(text);
    let values = values_upto(lines, lines.len() as int);
    if lines.len() != side {
        Err(InputError::WrongLineCount)
    } else if !(forall|r: int| 0 <= r < lines.len() ==> numeric(#[trigger] lines[r])) {
        Err(InputError::NotANumber)
    } else if values.len() != side * side {
        Err(InputError::WrongTotal)
    } else if !all_below(values, side * side) {
        Err(InputError::OutOfRange)
    } else if !values.no_duplicates() {
        Err(InputError::NotUnique)
    } else {
        Ok(())
    }
}

/// The board that a text describes: as many lines as each line has
/// numbers, at most 16, and every number a byte. The cells are the numbers
/// in the order of the text.
pub open spec fn grid_of_text(text: Seq<char>) -> Option<Grid> {
    let lines = lines_of(text);
    let values = values_upto(lines, lines.len() as int);
    if lines.len() <= 16 && (forall|r: int|
        0 <= r < lines.len() ==> numeric(#[trigger] lines[r]) && values_of(lines[r]).len()
            == lines.len()) && all_below(values, 256) {
        Some(Grid { side: lines.len(), cells: Seq::new(values.len(), |i: int| values[i] as u8) })
    } else {
        None
    }
}

/// The character of a decimal digit.
pub open spec fn digit_char(d: int) -> char {
    if d == 0 {
        '0'
    } else if d == 1 {
        '1'
    } else if d == 2 {
        '2'
    } else if d == 3 {
        '3'
    } else if d == 4 {
        '4'
    } else if d == 5 {
        '5'
    } else if d == 6 {
        '6'
    } else if d == 7 {
        '7'
    } else if d == 8 {
        '8'
    } else {
        '9'
    }
}

/// A number in decimal digits, without leading zeros.
pub open spec fn decimal_text(v: nat) -> Seq<char>
    decreases v,
{
    if v < 10 {
        seq![digit_char(v as int)]
    } else {
        decimal_text(v / 10).push(digit_char((v % 10) as int))
    }
}

/// The numbers of a row, with one space between two of them.
pub open spec fn row_text(values: Seq<u8>) -> Seq<char>
    decreases values.len(),
{
    if values.len() == 0 {
        Seq::empty()
    } else if values.len() == 1 {
        decimal_text(values[0] as nat)
    } else {
        row_text(values.drop_last()) + seq![' '] + decimal_text(values.last() as nat)
    }
}

/// Row `r` of a board.
pub open spec fn row_of(g: Grid, r: int) -> Seq<u8> {
    g.cells.subrange(r * g.side, (r + 1) * g.side)
}

/// The first `k` rows of a board, with a line feed between two of them.
pub open spec fn text_upto(g: Grid, k: int) -> Seq<char>
    decreases k,
{
    if k <= 0 {
        Seq::empty()
    } else if k == 1 {
        row_text(row_of(g, 0))
    } else {
        text_upto(g, k - 1) + seq!['\n'] + row_text(row_of(g, k - 1))
    }
}

/// A board as text: its rows as lines.
pub open spec fn grid_text(g: Grid) -> Seq<char> {
    text_upto(g, g.side as int)
}

/// The texts of a sequence of character vectors.
pub open spec fn texts(v: Seq<Vec<char>>) -> Seq<Seq<char>> {
    Seq::new(v.len(), |i: int| v[i]@)
}

/// The numbers without their repetitions: each number where it occurs
/// first.
pub open spec fn first_occurrences(values: Seq<u32>) -> Seq<u32>
    decreases values.len(),
{
    if values.len() == 0 {
        Seq::empty()
    } else {
        let before = first_occurrences(values.drop_last());
        if before.contains(values.last()) {
            before
        } else {
            before.push(values.last())
        }
    }
}

} // verus!
