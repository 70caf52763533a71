//! Writing a board as text and reading the text gives the board back.
use vstd::prelude::*;
use crate::grid::Grid;
use crate::text::all_below;
use crate::text::all_digits;
use crate::text::decimal;
use crate::text::decimal_text;
use crate::text::digit_char;
use crate::text::filled;
use crate::text::grid_of_text;
use crate::text::grid_text;
use crate::text::is_blank;
use crate::text::is_cut;
use crate::text::is_digit;
use crate::text::is_number;
use crate::text::lines_of;
use crate::text::number_of;
use crate::text::numeric;
use crate::text::pieces;
use crate::text::row_of;
use crate::text::row_text;
use crate::text::text_upto;
use crate::text::values_of;
use crate::text::values_upto;
use crate::text::words_of;

verus! {

/// A character that is a digit or a space: what the rows of a board are
/// written with.
pub open spec fn is_row_char(c: char) -> bool {
    is_digit(c) || c == ' '
}

pub open spec fn all_row_chars(s: Seq<char>) -> bool {
    forall|i: int| 0 <= i < s.len() ==> is_row_char(#[trigger] s[i])
}

proof fn lemma_digit_char(d: int)
    requires
        0 <= d < 10,
    ensures
        is_digit(digit_char(d)),
        digit_char(d) as u32 - '0' as u32 == d,
        !is_blank(digit_char(d)),
        digit_char(d) != '\n',
        digit_char(d) != '+',
{
}

/// The decimal digits of a number stand for the number.
pub proof fn lemma_decimal_text(v: nat)
    ensures
        decimal_text(v).len() >= 1,
        all_digits(decimal_text(v)),
        decimal(decimal_text(v)) == v,
        number_of(decimal_text(v)) == Some(v),
    decreases v,
{
    let t = decimal_text(v);
    if v < 10 {
        lemma_digit_char(v as int);
        assert(t.drop_last() =~= Seq::<char>::empty());
        assert(decimal(t.drop_last()) == 0);
    } else {
        lemma_decimal_text(v / 10);
        lemma_digit_char((v % 10) as int);
        let head = decimal_text(v / 10);
        assert(t.drop_last() =~= head);
        assert forall|i: int| 0 <= i < t.len() implies is_digit(#[trigger] t[i]) by {
            if i < head.len() {
                assert(is_digit(head[i]));
            }
        }
    }
    assert(is_digit(t[0]));
}

/// Characters that are no cuts only lengthen the last piece.
pub proof fn lemma_pieces_plain(a: Seq<char>, b: Seq<char>, lines: bool)
    requires
        forall|i: int| 0 <= i < b.len() ==> !is_cut(#[trigger] b[i], lines),
    ensures
        pieces(a, lines).len() >= 1,
        pieces(a + b, lines) == pieces(a, lines).drop_last().push(pieces(a, lines).last() + b),
    decreases b.len(),
{
    crate::reading::lemma_pieces_nonempty(a, lines);
    let p = pieces(a, lines);
    if b.len() == 0 {
        assert(a + b =~= a);
        assert(p.last() + b =~= p.last());
        assert(p.drop_last().push(p.last()) =~= p);
    } else {
        let short = b.drop_last();
        lemma_pieces_plain(a, short, lines);
        assert((a + b).drop_last() =~= a + short);
        assert((a + b).last() == b.last());
        assert(!is_cut(b[b.len() - 1], lines));
        let q = pieces(a + short, lines);
        assert(q.drop_last() =~= p.drop_last());
        assert(q.last().push(b.last()) =~= p.last() + b);
    }
}

/// A cut opens a new, empty piece.
pub proof fn lemma_pieces_cut(a: Seq<char>, c: char, lines: bool)
    requires
        is_cut(c, lines),
    ensures
        pieces(a + seq![c], lines) == pieces(a, lines).push(Seq::empty()),
{
    let s = a + seq![c];
    assert(s.drop_last() =~= a);
    assert(s.last() == c);
}

/// Where no piece is empty, all pieces are kept.
pub proof fn lemma_filled_all(p: Seq<Seq<char>>)
    requires
        forall|i: int| 0 <= i < p.len() ==> (#[trigger] p[i]).len() > 0,
    ensures
        filled(p) == p,
    decreases p.len(),
{
    if p.len() > 0 {
        lemma_filled_all(p.drop_last());
        assert(p.drop_last().push(p.last()) =~= p);
    }
}

/// The numbers of a row, each in decimal digits.
pub open spec fn row_words(values: Seq<u8>) -> Seq<Seq<char>> {
    Seq::new(values.len(), |i: int| decimal_text(values[i] as nat))
}

/// The text of a row falls into the decimal digits of its numbers.
pub proof fn lemma_row_pieces(values: Seq<u8>)
    requires
        values.len() >= 1,
    ensures
        pieces(row_text(values), false) == row_words(values),
        row_text(values).len() >= 1,
        all_row_chars(row_text(values)),
    decreases values.len(),
{
    let last = decimal_text(values.last() as nat);
    lemma_decimal_text(values.last() as nat);
    assert forall|i: int| 0 <= i < last.len() implies !is_cut(#[trigger] last[i], false) by {
        assert(is_digit(last[i]));
    }
    if values.len() == 1 {
        let empty = Seq::<char>::empty();
        lemma_pieces_plain(empty, last, false);
        assert(empty + last =~= last);
        assert(pieces(empty, false) =~= seq![empty]);
        assert(pieces(last, false) =~= row_words(values));
        assert forall|i: int| 0 <= i < last.len() implies is_row_char(#[trigger] last[i]) by {
            assert(is_digit(last[i]));
        }
    } else {
        let head = row_text(values.drop_last());
        lemma_row_pieces(values.drop_last());
        lemma_pieces_cut(head, ' ', false);
        lemma_pieces_plain(head + seq![' '], last, false);
        let p = pieces(head, false);
        assert(p.push(Seq::empty()).drop_last() =~= p);
        assert(Seq::<char>::empty() + last =~= last);
        assert(p.push(last) =~= row_words(values)) by {
            assert forall|i: int| 0 <= i < values.len() implies p.push(last)[i] == row_words(
                values,
            )[i] by {
                if i < values.len() - 1 {
                    assert(values.drop_last()[i] == values[i]);
                }
            }
        }
        let t = row_text(values);
        assert forall|i: int| 0 <= i < t.len() implies is_row_char(#[trigger] t[i]) by {
            if i < head.len() {
                assert(is_row_char(head[i]));
            } else if i > head.len() {
                assert(is_digit(last[i - head.len() - 1]));
            }
        }
    }
}

/// Reading the text of a row gives its numbers.
pub proof fn lemma_row_round_trip(values: Seq<u8>)
    ensures
        numeric(row_text(values)),
        values_of(row_text(values)).len() == values.len(),
        forall|i: int|
            0 <= i < values.len() ==> (#[trigger] values_of(row_text(values))[i]) == values[i],
{
    let t = row_text(values);
    if values.len() == 0 {
        let p = pieces(t, false);
        assert(p =~= seq![Seq::<char>::empty()]);
        assert(p.last().len() == 0);
        assert(p.drop_last() =~= Seq::<Seq<char>>::empty());
        assert(filled(p.drop_last()) =~= Seq::<Seq<char>>::empty());
        assert(filled(p) == filled(p.drop_last()));
        assert(words_of(t) =~= Seq::<Seq<char>>::empty());
    } else {
        lemma_row_pieces(values);
        let w = row_words(values);
        assert forall|i: int| 0 <= i < w.len() implies (#[trigger] w[i]).len() > 0 by {
            lemma_decimal_text(values[i] as nat);
        }
        lemma_filled_all(w);
        assert(words_of(t) == w);
        assert forall|i: int| 0 <= i < w.len() implies is_number(#[trigger] words_of(t)[i]) by {
            lemma_decimal_text(values[i] as nat);
        }
        assert forall|i: int| 0 <= i < values.len() implies (#[trigger] values_of(t)[i])
            == values[i] by {
            lemma_decimal_text(values[i] as nat);
        }
    }
}

/// The rows of a board, each as text.
pub open spec fn row_lines(g: Grid, k: int) -> Seq<Seq<char>> {
    Seq::new(k as nat, |i: int| row_text(row_of(g, i)))
}

/// Row `r` of a board has `side` cells.
proof fn lemma_row_len(g: Grid, r: int)
    requires
        g.wf(),
        0 <= r < g.side,
    ensures
        0 <= r * g.side,
        (r + 1) * g.side <= g.cells.len(),
        row_of(g, r).len() == g.side,
        forall|c: int| 0 <= c < g.side ==> (#[trigger] row_of(g, r)[c]) == g.cells[r * g.side + c],
{
    let n = g.side as int;
    assert(0 <= r * n && (r + 1) * n <= n * n && (r + 1) * n == r * n + n) by (nonlinear_arith)
        requires
            0 <= r < n,
    ;
}

/// The text of the first `k` rows falls into the texts of these rows.
proof fn lemma_text_lines(g: Grid, k: int)
    requires
        g.wf(),
        1 <= k <= g.side,
    ensures
        pieces(text_upto(g, k), true) == row_lines(g, k),
    decreases k,
{
    let last = row_text(row_of(g, k - 1));
    lemma_row_len(g, k - 1);
    lemma_row_pieces(row_of(g, k - 1));
    assert forall|i: int| 0 <= i < last.len() implies !is_cut(#[trigger] last[i], true) by {
        assert(is_row_char(last[i]));
    }
    let empty = Seq::<char>::empty();
    if k == 1 {
        lemma_pieces_plain(empty, last, true);
        assert(empty + last =~= last);
        assert(pieces(empty, true) =~= seq![empty]);
        assert(pieces(last, true) =~= row_lines(g, 1));
    } else {
        let head = text_upto(g, k - 1);
        lemma_text_lines(g, k - 1);
        lemma_pieces_cut(head, '\n', true);
        lemma_pieces_plain(head + seq!['\n'], last, true);
        let p = pieces(head, true);
        assert(p.push(empty).drop_last() =~= p);
        assert(empty + last =~= last);
        assert(p.push(last) =~= row_lines(g, k));
    }
}

/// The numbers read from the first `k` rows are the first cells of the
/// board.
proof fn lemma_values_of_rows(g: Grid, k: int)
    requires
        g.wf(),
        0 <= k <= g.side,
    ensures
        values_upto(row_lines(g, g.side as int), k).len() == k * g.side,
        forall|i: int|
            0 <= i < k * g.side ==> (#[trigger] values_upto(row_lines(g, g.side as int), k)[i])
                == g.cells[i],
    decreases k,
{
    let n = g.side as int;
    if k > 0 {
        lemma_values_of_rows(g, k - 1);
        lemma_row_len(g, k - 1);
        lemma_row_round_trip(row_of(g, k - 1));
        assert(k * n == (k - 1) * n + n) by (nonlinear_arith);
        let lines = row_lines(g, n);
        let before = values_upto(lines, k - 1);
        let row = values_of(lines[k - 1]);
        assert forall|i: int| 0 <= i < k * n implies (#[trigger] values_upto(lines, k)[i])
            == g.cells[i] by {
            if i >= (k - 1) * n {
                let c = i - (k - 1) * n;
                assert(row[c] == row_of(g, k - 1)[c]);
            } else {
                assert(before[i] == g.cells[i]);
            }
        }
    } else {
        assert(k * n == 0) by (nonlinear_arith)
            requires
                k == 0,
        ;
    }
}

/// Round trip: the text of a board describes this board and no other.
pub proof fn lemma_text_round_trip(g: Grid)
    requires
        g.wf(),
        g.side <= 16,
    ensures
        grid_of_text(grid_text(g)) == Some(g),
{
    let n = g.side as int;
    let t = grid_text(g);
    if n == 0 {
        let empty = Seq::<char>::empty();
        assert(pieces(t, true) =~= seq![empty]);
        assert(lines_of(t) =~= Seq::<Seq<char>>::empty());
        assert(g.cells.len() == 0) by (nonlinear_arith)
            requires
                g.cells.len() == n * n,
                n == 0,
        ;
        assert(g.cells =~= Seq::<u8>::empty());
        let found = grid_of_text(t).unwrap();
        assert(found.cells =~= g.cells);
    } else {
        lemma_text_lines(g, n);
        lemma_row_len(g, n - 1);
        lemma_row_pieces(row_of(g, n - 1));
        let lines = row_lines(g, n);
        assert(lines.last().len() > 0);
        assert(lines_of(t) == lines);
        assert forall|r: int| 0 <= r < lines.len() implies numeric(#[trigger] lines[r])
            && values_of(lines[r]).len() == lines.len() by {
            lemma_row_len(g, r);
            lemma_row_round_trip(row_of(g, r));
        }
        lemma_values_of_rows(g, n);
        let values = values_upto(lines, n);
        assert(all_below(values, 256));
        let found = grid_of_text(t).unwrap();
        assert(found.cells =~= g.cells);
    }
}

} // verus!
