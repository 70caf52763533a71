//! Reading boards from text, and checking text before it is read.
use vstd::prelude::*;
use itertools::Itertools;
use crate::grid::Grid;
use crate::text::all_below;
use crate::text::all_digits;
use crate::text::check_input;
use crate::text::check_line;
use crate::text::decimal;
use crate::text::filled;
use crate::text::first_occurrences;
use crate::text::grid_of_text;
use crate::text::is_blank;
use crate::text::is_digit;
use crate::text::is_number;
use crate::text::lines_of;
use crate::text::number_of;
use crate::text::numeric;
use crate::text::pieces;
use crate::text::texts;
use crate::text::values_of;
use crate::text::values_upto;
use crate::text::words_of;
use crate::text::InputError;

verus! {

/// Whether `c` is a blank.
fn blank(c: char) -> (b: bool)
    ensures
        b == is_blank(c),
{
    let u: u32 = c as u32;
    u == 0x20 || (0x09 <= u && u <= 0x0d) || u == 0x85 || u == 0xa0 || u == 0x1680 || (
    0x2000 <= u && u <= 0x200a) || u == 0x2028 || u == 0x2029 || u == 0x202f || u == 0x205f || u
        == 0x3000
}

/// The characters of a string.
fn chars_of(text: &str) -> (chars: Vec<char>)
    ensures
        chars@ == text@,
{
    let mut chars: Vec<char> = Vec::new();
    for c in it: text.chars()
        invariant
            chars@ == it.seq().take(it.index() as int),
            it.seq() == text@,
    {
        chars.push(c);
    }
    chars
}

/// Cuts `s` into its pieces.
fn split(s: &Vec<char>, lines: bool) -> (out: Vec<Vec<char>>)
    ensures
        texts(out@) == pieces(s@, lines),
{
    let mut done: Vec<Vec<char>> = Vec::new();
    let mut current: Vec<char> = Vec::new();
    let mut k: usize = 0;
    proof {
        assert(s@.take(0) =~= Seq::<char>::empty());
        assert(texts(done@).push(current@) =~= pieces(s@.take(0), lines));
    }
    while k < s.len()
        invariant
            k <= s@.len(),
            texts(done@).push(current@) == pieces(s@.take(k as int), lines),
        decreases s@.len() - k,
    {
        let c = s[k];
        let cut = if lines {
            c == '\n'
        } else {
            blank(c)
        };
        proof {
            let next = s@.take(k + 1);
            assert(next.drop_last() =~= s@.take(k as int));
            assert(next.last() == c);
            let before = texts(done@).push(current@);
            assert(before.drop_last() =~= texts(done@));
            assert(before.last() == current@);
        }
        let ghost done_before = done@;
        if cut {
            done.push(current);
            current = Vec::new();
            proof {
                assert(texts(done@) =~= texts(done_before).push(done@[done@.len() - 1]@));
            }
        } else {
            current.push(c);
        }
        k += 1;
    }
    proof {
        assert(s@.take(k as int) =~= s@);
    }
    let ghost done_before = done@;
    done.push(current);
    proof {
        assert(texts(done@) =~= texts(done_before).push(done@[done@.len() - 1]@));
    }
    done
}

/// The lines of a text.
fn lines(s: &Vec<char>) -> (out: Vec<Vec<char>>)
    ensures
        texts(out@) == lines_of(s@),
{
    let mut out = split(s, true);
    proof {
        lemma_pieces_nonempty(s@, true);
    }
    let ghost all = out@;
    let last = out.len() - 1;
    if out[last].len() == 0 {
        out.pop();
        proof {
            assert(texts(out@) =~= texts(all).drop_last());
        }
    }
    out
}

/// A text has at least one piece.
pub proof fn lemma_pieces_nonempty(s: Seq<char>, lines: bool)
    ensures
        pieces(s, lines).len() >= 1,
    decreases s.len(),
{
    if s.len() > 0 {
        lemma_pieces_nonempty(s.drop_last(), lines);
    }
}

/// The words of a line.
fn words(line: &Vec<char>) -> (out: Vec<Vec<char>>)
    ensures
        texts(out@) == words_of(line@),
{
    let mut all = split(line, false);
    let ghost p = texts(all@);
    let mut out: Vec<Vec<char>> = Vec::new();
    let mut k: usize = 0;
    proof {
        assert(p.take(0) =~= Seq::<Seq<char>>::empty());
        assert(texts(out@) =~= filled(p.take(0)));
    }
    let n = all.len();
    while k < n
        invariant
            k <= n,
            n == p.len(),
            all@.len() == n - k,
            forall|i: int| 0 <= i < all@.len() ==> (#[trigger] all@[i])@ == p[k + i],
            texts(out@) == filled(p.take(k as int)),
        decreases n - k,
    {
        let ghost all_before = all@;
        let ghost out_before = out@;
        let word = all.remove(0);
        proof {
            assert(word@ == all_before[0]@);
            assert forall|i: int| 0 <= i < all@.len() implies (#[trigger] all@[i])@ == p[k + 1
                + i] by {
                assert(all@[i] == all_before[i + 1]);
            }
            let next = p.take(k + 1);
            assert(next.drop_last() =~= p.take(k as int));
            assert(next.last() == word@);
        }
        if word.len() > 0 {
            out.push(word);
            proof {
                assert(texts(out@) =~= texts(out_before).push(word@));
            }
        }
        k += 1;
    }
    proof {
        assert(p.take(k as int) =~= p);
    }
    out
}

/// The number that a word stands for, if it is one that fits in 32 bits.
fn parse_number(word: &Vec<char>) -> (value: Option<u32>)
    ensures
        value == match number_of(word@) {
            Some(v) => if v <= u32::MAX {
                Some(v as u32)
            } else {
                None
            },
            None => None,
        },
{
    let start: usize = if word.len() > 0 && word[0] == '+' {
        1
    } else {
        0
    };
    let ghost digits = if start == 1 {
        word@.skip(1)
    } else {
        word@
    };
    if word.len() == start {
        return None;
    }
    let mut total: u64 = 0;
    let mut big: bool = false;
    let mut k: usize = start;
    proof {
        assert(digits.take(0) =~= Seq::<char>::empty());
    }
    while k < word.len()
        invariant
            start <= k <= word@.len(),
            start <= 1,
            digits == (if word@.len() > 0 && word@[0] == '+' {
                word@.skip(1)
            } else {
                word@
            }),
            digits.len() == word@.len() - start,
            forall|i: int| 0 <= i < digits.len() ==> digits[i] == word@[start + i],
            all_digits(digits.take(k - start)),
            !big ==> total == decimal(digits.take(k - start)) && total <= u32::MAX,
            big ==> decimal(digits.take(k - start)) > u32::MAX,
        decreases word@.len() - k,
    {
        let c = word[k];
        proof {
            let next = digits.take(k - start + 1);
            assert(next.drop_last() =~= digits.take(k - start));
            assert(next.last() == c);
        }
        if !('0' <= c && c <= '9') {
            proof {
                assert(!is_digit(digits[k - start]));
            }
            return None;
        }
        let digit: u64 = (c as u32 - '0' as u32) as u64;
        if !big {
            total = total * 10 + digit;
            if total > 0xffff_ffff {
                big = true;
            }
        }
        proof {
            let next = digits.take(k - start + 1);
            assert forall|i: int| 0 <= i < next.len() implies is_digit(#[trigger] next[i]) by {
                if i < k - start {
                    assert(is_digit(digits.take(k - start)[i]));
                }
            }
        }
        k += 1;
    }
    proof {
        assert(digits.take(k - start) =~= digits);
    }
    if big {
        None
    } else {
        Some(total as u32)
    }
}

/// The numbers of a line, unless one of its words is no number.
fn numbers_of_line(line: &Vec<char>) -> (found: Option<Vec<u32>>)
    ensures
        match found {
            Some(values) => numeric(line@) && values@ == values_of(line@),
            None => !numeric(line@),
        },
{
    let mut all = words(line);
    let ghost w = words_of(line@);
    let n = all.len();
    let mut values: Vec<u32> = Vec::new();
    let mut k: usize = 0;
    while k < n
        invariant
            k <= n,
            n == w.len(),
            w == words_of(line@),
            all@.len() == n - k,
            forall|i: int| 0 <= i < all@.len() ==> (#[trigger] all@[i])@ == w[k + i],
            values@.len() == k,
            forall|i: int| 0 <= i < k ==> is_number(#[trigger] w[i]),
            forall|i: int| 0 <= i < k ==> values@[i] == number_of(w[i]).unwrap() as u32,
        decreases n - k,
    {
        let ghost all_before = all@;
        let word = all.remove(0);
        proof {
            assert(word@ == all_before[0]@);
            assert forall|i: int| 0 <= i < all@.len() implies (#[trigger] all@[i])@ == w[k + 1
                + i] by {
                assert(all@[i] == all_before[i + 1]);
            }
        }
        match parse_number(&word) {
            None => {
                assert(!is_number(w[k as int]));
                return None;
            },
            Some(v) => {
                values.push(v);
            },
        }
        k += 1;
    }
    assert(values@ =~= values_of(line@));
    Some(values)
}

/// Whether every number is below `limit`.
fn below(values: &Vec<u32>, limit: u128) -> (all: bool)
    ensures
        all == all_below(values@, limit as int),
{
    let mut k: usize = 0;
    while k < values.len()
        invariant
            k <= values@.len(),
            forall|i: int| 0 <= i < k ==> (#[trigger] values@[i]) < limit,
        decreases values@.len() - k,
    {
        if values[k] as u128 >= limit {
            return false;
        }
        k += 1;
    }
    true
}

/// The number of cells of a board of side `side`.
fn cell_count(side: usize) -> (cells: u128)
    ensures
        cells == side * side,
{
    assert(side * side <= 0xffff_ffff_ffff_ffff * 0xffff_ffff_ffff_ffff) by (nonlinear_arith)
        requires
            0 <= side <= 0xffff_ffff_ffff_ffff,
    ;
    (side as u128) * (side as u128)
}

/// Checks one line of input against the row of a board of side `side`.
pub fn validate_line(line: &str, side: usize) -> (checked: Result<(), InputError>)
    ensures
        checked == check_line(line@, side as int),
{
    let chars = chars_of(line);
    match numbers_of_line(&chars) {
        None => Err(InputError::NotANumber),
        Some(numbers) => {
            if numbers.len() != side {
                Err(InputError::WrongCount)
            } else if !below(&numbers, cell_count(side)) {
                Err(InputError::OutOfRange)
            } else {
                Ok(())
            }
        },
    }
}

/// `Itertools::unique` over the numbers, collected: the iterator passes on
/// what it has not passed on before, in the order in which it comes.
#[verifier::external_body]
fn distinct(values: &Vec<u32>) -> (kept: Vec<u32>)
    ensures
        kept@ == first_occurrences(values@),
{
    values.iter().copied().unique().collect()
}

/// The first occurrences are the same numbers, each once.
pub proof fn lemma_first_occurrences(values: Seq<u32>)
    ensures
        first_occurrences(values).no_duplicates(),
        forall|v: u32| first_occurrences(values).contains(v) <==> values.contains(v),
        first_occurrences(values).len() <= values.len(),
        first_occurrences(values).len() == values.len() <==> values.no_duplicates(),
    decreases values.len(),
{
    let kept = first_occurrences(values);
    if values.len() > 0 {
        let head = values.drop_last();
        let last = values.last();
        let before = first_occurrences(head);
        lemma_first_occurrences(head);
        assert forall|v: u32| kept.contains(v) <==> values.contains(v) by {
            if kept.contains(v) {
                let i = choose|i: int| 0 <= i < kept.len() && kept[i] == v;
                if i < before.len() {
                    assert(before[i] == v);
                    assert(before.contains(v));
                    assert(head.contains(v));
                    let k = choose|k: int| 0 <= k < head.len() && head[k] == v;
                    assert(values[k] == v);
                } else {
                    assert(values[values.len() - 1] == v);
                }
            }
            if values.contains(v) {
                let k = choose|k: int| 0 <= k < values.len() && values[k] == v;
                if k < head.len() {
                    assert(head[k] == v);
                    assert(head.contains(v));
                    assert(before.contains(v));
                    let i = choose|i: int| 0 <= i < before.len() && before[i] == v;
                    assert(kept[i] == v);
                } else if !before.contains(last) {
                    assert(kept[kept.len() - 1] == v);
                } else {
                    let i = choose|i: int| 0 <= i < before.len() && before[i] == v;
                    assert(kept[i] == v);
                }
            }
        }
        if values.no_duplicates() {
            assert forall|i: int, j: int| 0 <= i < j < head.len() implies head[i] != head[j] by {
                assert(values[i] != values[j]);
            }
            if before.contains(last) {
                assert(head.contains(last));
                let k = choose|k: int| 0 <= k < head.len() && head[k] == last;
                assert(values[k] != values[values.len() - 1]);
            }
        }
        if kept.len() == values.len() {
            assert(!before.contains(last));
            assert forall|i: int, j: int| 0 <= i < j < values.len() implies values[i]
                != values[j] by {
                if j < head.len() {
                    assert(head[i] != head[j]);
                } else {
                    assert(head[i] == values[i]);
                    assert(head.contains(values[i]));
                    assert(before.contains(values[i]));
                }
            }
        }
    }
}

/// All numbers of the lines, or the first line that holds a word that is
/// no number.
fn numbers_of_lines(rows: &Vec<Vec<char>>) -> (found: Result<Vec<u32>, usize>)
    ensures
        match found {
            Ok(values) => {
                &&& forall|r: int| 0 <= r < rows@.len() ==> numeric(#[trigger] texts(rows@)[r])
                &&& values@ == values_upto(texts(rows@), rows@.len() as int)
            },
            Err(r) => r < rows@.len() && !numeric(texts(rows@)[r as int]),
        },
{
    let mut values: Vec<u32> = Vec::new();
    let mut r: usize = 0;
    while r < rows.len()
        invariant
            r <= rows@.len(),
            forall|i: int| 0 <= i < r ==> numeric(#[trigger] texts(rows@)[i]),
            values@ == values_upto(texts(rows@), r as int),
        decreases rows@.len() - r,
    {
        match numbers_of_line(&rows[r]) {
            None => {
                return Err(r);
            },
            Some(mut row) => {
                let ghost before = values@;
                let ghost added = row@;
                values.append(&mut row);
                proof {
                    assert(values@ =~= before + added);
                }
            },
        }
        r += 1;
    }
    Ok(values)
}

/// Checks a whole text against the board of side `side`.
pub fn validate_input(input: &str, side: usize) -> (checked: Result<(), InputError>)
    ensures
        checked == check_input(input@, side as int),
{
    let chars = chars_of(input);
    let rows = lines(&chars);
    if rows.len() != side {
        return Err(InputError::WrongLineCount);
    }
    match numbers_of_lines(&rows) {
        Err(_) => Err(InputError::NotANumber),
        Ok(numbers) => {
            let cells = cell_count(side);
            if numbers.len() as u128 != cells {
                Err(InputError::WrongTotal)
            } else if !below(&numbers, cells) {
                Err(InputError::OutOfRange)
            } else {
                let kept = distinct(&numbers);
                proof {
                    lemma_first_occurrences(numbers@);
                }
                if kept.len() != numbers.len() {
                    Err(InputError::NotUnique)
                } else {
                    Ok(())
                }
            }
        },
    }
}

/// The numbers as bytes, unless one of them is no byte.
fn bytes_of(numbers: &Vec<u32>) -> (found: Option<Vec<u8>>)
    ensures
        match found {
            Some(bytes) => all_below(numbers@, 256) && bytes@.len() == numbers@.len() && forall|
                i: int,
            | 0 <= i < bytes@.len() ==> (#[trigger] bytes@[i]) == numbers@[i],
            None => !all_below(numbers@, 256),
        },
{
    let mut bytes: Vec<u8> = Vec::new();
    let mut c: usize = 0;
    while c < numbers.len()
        invariant
            c <= numbers@.len(),
            bytes@.len() == c,
            forall|i: int| 0 <= i < c ==> (#[trigger] numbers@[i]) < 256,
            forall|i: int| 0 <= i < c ==> (#[trigger] bytes@[i]) == numbers@[i],
        decreases numbers@.len() - c,
    {
        if numbers[c] > 255 {
            return None;
        }
        bytes.push(numbers[c] as u8);
        c += 1;
    }
    Some(bytes)
}

/// Reads a board from text: its side and its cells, unless the text
/// describes none.
pub(crate) fn parse_grid(text: &str) -> (found: Option<(usize, Vec<u8>)>)
    ensures
        match found {
            Some((side, cells)) => grid_of_text(text@) == Some(
                Grid { side: side as nat, cells: cells@ },
            ) && side <= 16 && cells@.len() == side * side,
            None => grid_of_text(text@) is None,
        },
{
    let chars = chars_of(text);
    let rows = lines(&chars);
    let side = rows.len();
    if side > 16 {
        return None;
    }
    let ghost all = lines_of(text@);
    let mut cells: Vec<u8> = Vec::new();
    let mut r: usize = 0;
    while r < side
        invariant
            r <= side,
            side == rows@.len(),
            side <= 16,
            all == texts(rows@),
            all == lines_of(text@),
            forall|i: int|
                0 <= i < r ==> numeric(#[trigger] all[i]) && values_of(all[i]).len() == side,
            cells@.len() == r * side,
            values_upto(all, r as int).len() == cells@.len(),
            forall|i: int|
                0 <= i < cells@.len() ==> (#[trigger] values_upto(all, r as int)[i]) == cells@[i],
        decreases side - r,
    {
        let ghost before = cells@;
        let ghost done = values_upto(all, r as int);
        proof {
            lemma_values_prefix(all, r as int + 1, side as int);
        }
        match numbers_of_line(&rows[r]) {
            None => {
                assert(!numeric(all[r as int]));
                return None;
            },
            Some(numbers) => {
                if numbers.len() != side {
                    assert(values_of(all[r as int]).len() != side);
                    return None;
                }
                match bytes_of(&numbers) {
                    None => {
                        proof {
                            let rest = values_upto(all, side as int);
                            let i = choose|i: int|
                                0 <= i < numbers@.len() && !((#[trigger] numbers@[i]) < 256);
                            assert(values_upto(all, r as int + 1)[done.len() + i] == numbers@[i]);
                            assert(rest[done.len() + i] >= 256);
                        }
                        return None;
                    },
                    Some(mut bytes) => {
                        let ghost added = bytes@;
                        cells.append(&mut bytes);
                        proof {
                            assert(cells@ =~= before + added);
                            assert((r + 1) * side == r * side + side) by (nonlinear_arith);
                        }
                    },
                }
            },
        }
        r += 1;
    }
    proof {
        let values = values_upto(all, side as int);
        assert(cells@ =~= Seq::new(values.len(), |i: int| values[i] as u8));
        assert(all_below(values, 256)) by {
            assert forall|i: int| 0 <= i < values.len() implies (#[trigger] values[i]) < 256 by {
                assert(values[i] == cells@[i]);
            }
        }
    }
    Some((side, cells))
}

/// The numbers of the first lines stay where they are when more lines
/// follow.
pub proof fn lemma_values_prefix(lines: Seq<Seq<char>>, k: int, n: int)
    requires
        0 <= k <= n,
    ensures
        values_upto(lines, k).len() <= values_upto(lines, n).len(),
        forall|i: int|
            0 <= i < values_upto(lines, k).len() ==> (#[trigger] values_upto(lines, n)[i])
                == values_upto(lines, k)[i],
    decreases n - k,
{
    if k < n {
        lemma_values_prefix(lines, k, n - 1);
    }
}

} // verus!
