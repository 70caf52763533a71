//! Writing boards as text.
use vstd::prelude::*;
use vstd::string::StringExecFns;
use crate::grid::Grid;
use crate::text::decimal_text;
use crate::text::digit_char;
use crate::text::grid_text;
use crate::text::row_of;
use crate::text::row_text;
use crate::text::text_upto;

verus! {

/// Appends one decimal digit.
fn append_digit(out: &mut String, d: u8)
    requires
        d < 10,
    ensures
        final(out)@ == old(out)@.push(digit_char(d as int)),
{
    proof {
        reveal_strlit("0");
        reveal_strlit("1");
        reveal_strlit("2");
        reveal_strlit("3");
        reveal_strlit("4");
        reveal_strlit("5");
        reveal_strlit("6");
        reveal_strlit("7");
        reveal_strlit("8");
        reveal_strlit("9");
    }
    let ghost before = out@;
    let digit: &str = if d == 0 {
        "0"
    } else if d == 1 {
        "1"
    } else if d == 2 {
        "2"
    } else if d == 3 {
        "3"
    } else if d == 4 {
        "4"
    } else if d == 5 {
        "5"
    } else if d == 6 {
        "6"
    } else if d == 7 {
        "7"
    } else if d == 8 {
        "8"
    } else {
        "9"
    };
    assert(digit@ =~= seq![digit_char(d as int)]);
    out.append(digit);
    assert(out@ =~= before.push(digit_char(d as int)));
}

/// Appends a number in decimal digits.
fn append_decimal(out: &mut String, v: u8)
    ensures
        final(out)@ == old(out)@ + decimal_text(v as nat),
{
    let ghost before = out@;
    if v >= 100 {
        append_digit(out, v / 100);
        append_digit(out, (v / 10) % 10);
        append_digit(out, v % 10);
        proof {
            reveal_with_fuel(decimal_text, 3);
            assert(out@ =~= before + decimal_text(v as nat));
        }
    } else if v >= 10 {
        append_digit(out, v / 10);
        append_digit(out, v % 10);
        proof {
            reveal_with_fuel(decimal_text, 2);
            assert(out@ =~= before + decimal_text(v as nat));
        }
    } else {
        append_digit(out, v);
        proof {
            assert(out@ =~= before + decimal_text(v as nat));
        }
    }
}

/// Appends the cells from `from` up to `to` as one row.
fn append_row(out: &mut String, cells: &Vec<u8>, from: usize, to: usize)
    requires
        from <= to <= cells@.len(),
    ensures
        final(out)@ == old(out)@ + row_text(cells@.subrange(from as int, to as int)),
{
    let ghost before = out@;
    let mut c: usize = from;
    proof {
        assert(before + row_text(cells@.subrange(from as int, from as int)) =~= before);
    }
    while c < to
        invariant
            from <= c <= to <= cells@.len(),
            out@ == before + row_text(cells@.subrange(from as int, c as int)),
        decreases to - c,
    {
        let ghost so_far = out@;
        proof {
            reveal_strlit(" ");
            let row = cells@.subrange(from as int, c + 1);
            assert(row.drop_last() =~= cells@.subrange(from as int, c as int));
            assert(row.last() == cells@[c as int]);
            assert(row[0] == cells@[from as int]);
        }
        if c > from {
            out.append(" ");
        }
        append_decimal(out, cells[c]);
        proof {
            let row = cells@.subrange(from as int, c + 1);
            if c > from {
                assert(" "@ =~= seq![' ']);
                assert(out@ =~= before + (row_text(row.drop_last()) + seq![' '] + decimal_text(
                    row.last() as nat,
                )));
            } else {
                assert(row_text(row.drop_last()) =~= Seq::<char>::empty());
                assert(out@ =~= before + decimal_text(row[0] as nat));
            }
        }
        c += 1;
    }
}

/// Writes a board as text.
pub(crate) fn render_grid(side: usize, cells: &Vec<u8>) -> (out: String)
    requires
        side <= 16,
        cells@.len() == side * side,
    ensures
        out@ == grid_text(Grid { side: side as nat, cells: cells@ }),
{
    let ghost g = Grid { side: side as nat, cells: cells@ };
    let mut out = String::new();
    let mut r: usize = 0;
    while r < side
        invariant
            r <= side <= 16,
            cells@.len() == side * side,
            g == (Grid { side: side as nat, cells: cells@ }),
            out@ == text_upto(g, r as int),
        decreases side - r,
    {
        let ghost so_far = out@;
        proof {
            reveal_strlit("\n");
            assert(0 <= r * side && (r + 1) * side <= side * side && (r + 1) * side == r * side
                + side && side * side <= 256) by (nonlinear_arith)
                requires
                    0 <= r < side <= 16,
            ;
        }
        if r > 0 {
            out.append("\n");
        }
        append_row(&mut out, cells, r * side, (r + 1) * side);
        proof {
            let row = row_text(row_of(g, r as int));
            if r > 0 {
                assert("\n"@ =~= seq!['\n']);
                assert(out@ =~= text_upto(g, r as int) + seq!['\n'] + row);
            } else {
                assert(out@ =~= row);
            }
        }
        r += 1;
    }
    out
}

} // verus!
