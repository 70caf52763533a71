//! What holds of every board: how a move changes the Manhattan estimate, and
//! why the estimate never exceeds the number of moves that remain.
use vstd::prelude::*;
use vstd::arithmetic::div_mod::lemma_fundamental_div_mod;
use vstd::arithmetic::div_mod::lemma_fundamental_div_mod_converse;
use crate::grid::Grid;
use crate::grid::gap;
use crate::grid::lemma_neighbours_in_range;
use crate::walk::is_move;
use crate::walk::score_at;
use crate::walk::solves;

verus! {

/// Row and column of the cell `q * n + r`.
pub proof fn lemma_coordinates(x: int, n: int, q: int, r: int)
    requires
        n > 0,
        0 <= r < n,
        x == q * n + r,
    ensures
        x / n == q,
        x % n == r,
{
    lemma_fundamental_div_mod_converse(x, n, q, r);
}

/// `t` is the cell above, below, left or right of `b` on the board of `g`.
pub open spec fn adjacent(g: Grid, b: int, t: int) -> bool {
    let n = g.side as int;
    &&& 0 <= b < g.cells.len()
    &&& 0 <= t < g.cells.len()
    &&& gap(b / n, t / n) + gap(b % n, t % n) == 1
}

/// The cells that `successors` exchanges with the blank are adjacent to it.
pub proof fn lemma_neighbours_adjacent(g: Grid, b: int)
    requires
        g.wf(),
        0 <= b < g.cells.len(),
    ensures
        b / (g.side as int) > 0 ==> adjacent(g, b, b - g.side),
        b / (g.side as int) + 1 < g.side ==> adjacent(g, b, b + g.side),
        b % (g.side as int) > 0 ==> adjacent(g, b, b - 1),
        b % (g.side as int) + 1 < g.side ==> adjacent(g, b, b + 1),
{
    let n = g.side as int;
    lemma_neighbours_in_range(g, b);
    lemma_fundamental_div_mod(b, n);
    let q = b / n;
    let r = b % n;
    assert(b == q * n + r) by (nonlinear_arith)
        requires
            b == n * q + r,
    ;
    if q > 0 {
        assert(b - n == (q - 1) * n + r) by (nonlinear_arith)
            requires
                b == q * n + r,
        ;
        lemma_coordinates(b - n, n, q - 1, r);
    }
    if q + 1 < n {
        assert(b + n == (q + 1) * n + r) by (nonlinear_arith)
            requires
                b == q * n + r,
        ;
        lemma_coordinates(b + n, n, q + 1, r);
    }
    if r > 0 {
        lemma_coordinates(b - 1, n, q, r - 1);
    }
    if r + 1 < n {
        lemma_coordinates(b + 1, n, q, r + 1);
    }
}

/// A move exchanges the blank with a cell adjacent to it.
pub proof fn lemma_move_is_swap(a: Grid, b: Grid) -> (t: int)
    requires
        a.wf(),
        is_move(a, b),
    ensures
        a.has_blank(),
        adjacent(a, a.blank(), t),
        b == a.swapped(a.blank(), t),
        b.wf(),
        b.side == a.side,
{
    let blank = a.blank();
    assert(a.has_blank());
    assert(a.blank_at(blank));
    lemma_neighbours_adjacent(a, blank);
    lemma_neighbours_in_range(a, blank);
    let n = a.side as int;
    let k = a.successors().index_of(b);
    assert(a.successors()[k] == b);
    let t = if b == a.swapped(blank, blank - n) && blank / n > 0 {
        blank - n
    } else if b == a.swapped(blank, blank + n) && blank / n + 1 < n {
        blank + n
    } else if b == a.swapped(blank, blank - 1) && blank % n > 0 {
        blank - 1
    } else {
        blank + 1
    };
    t
}

/// Whether a row or column index lies on the border of a board of side `n`.
pub open spec fn on_border(x: int, n: int) -> bool {
    x == 0 || x == n - 1
}

/// The number of moves of a board depends on where its blank is: two in a
/// corner, three on an edge off the corners, four inside.
pub proof fn lemma_successor_count(g: Grid)
    requires
        g.wf(),
        g.side >= 2,
        g.has_blank(),
    ensures
        ({
            let n = g.side as int;
            let row = g.blank() / n;
            let col = g.blank() % n;
            &&& on_border(row, n) && on_border(col, n) ==> g.successors().len() == 2
            &&& on_border(row, n) != on_border(col, n) ==> g.successors().len() == 3
            &&& !on_border(row, n) && !on_border(col, n) ==> g.successors().len() == 4
        }),
{
    assert(g.blank_at(g.blank()));
    lemma_neighbours_in_range(g, g.blank());
}

/// In how many of their first `k` cells two boards differ.
pub open spec fn differences(a: Seq<u8>, b: Seq<u8>, k: int) -> nat
    decreases k,
{
    if k <= 0 {
        0
    } else {
        differences(a, b, k - 1) + if a[k - 1] != b[k - 1] {
            1nat
        } else {
            0nat
        }
    }
}

/// In how many cells two boards of one size differ.
pub open spec fn hamming(a: Seq<u8>, b: Seq<u8>) -> nat {
    differences(a, b, a.len() as int)
}

proof fn lemma_differ_in_two(a: Seq<u8>, b: Seq<u8>, x: int, y: int, k: int)
    requires
        a.len() == b.len(),
        0 <= x < y < a.len(),
        0 <= k <= a.len(),
        a[x] != b[x],
        a[y] != b[y],
        forall|i: int| 0 <= i < a.len() && i != x && i != y ==> a[i] == b[i],
    ensures
        differences(a, b, k) == (if x < k {
            1nat
        } else {
            0nat
        }) + (if y < k {
            1nat
        } else {
            0nat
        }),
    decreases k,
{
    if k > 0 {
        lemma_differ_in_two(a, b, x, y, k - 1);
    }
}

/// Every move of a permutation exchanges the blank with a tile next to it,
/// so that the board changes in exactly two cells.
pub proof fn lemma_move_changes_two_cells(a: Grid, b: Grid) -> (t: int)
    requires
        a.is_permutation(),
        is_move(a, b),
    ensures
        adjacent(a, a.blank(), t),
        b == a.swapped(a.blank(), t),
        a.cells[a.blank()] == 0,
        a.cells[t] != 0,
        hamming(a.cells, b.cells) == 2,
{
    let t = lemma_move_is_swap(a, b);
    let blank = a.blank();
    assert(a.blank_at(blank));
    assert(blank != t);
    if blank < t {
        assert(a.cells[blank] != a.cells[t]);
        lemma_differ_in_two(a.cells, b.cells, blank, t, a.cells.len() as int);
    } else {
        assert(a.cells[t] != a.cells[blank]);
        lemma_differ_in_two(a.cells, b.cells, t, blank, a.cells.len() as int);
    }
    t
}

/// Two boards of one shape that differ in the cells `x` and `y` at most:
/// their estimates differ by what these two cells contribute.
proof fn lemma_two_cells_differ(a: Grid, b: Grid, x: int, y: int, k: int)
    requires
        a.side == b.side,
        a.cells.len() == b.cells.len(),
        0 <= x < y < a.cells.len(),
        0 <= k <= a.cells.len(),
        forall|i: int| 0 <= i < a.cells.len() && i != x && i != y ==> a.cells[i] == b.cells[i],
    ensures
        b.distance_upto(k) - a.distance_upto(k) == (if x < k {
            b.tile_distance(x) - a.tile_distance(x)
        } else {
            0
        }) + (if y < k {
            b.tile_distance(y) - a.tile_distance(y)
        } else {
            0
        }),
    decreases k,
{
    if k > 0 {
        lemma_two_cells_differ(a, b, x, y, k - 1);
    }
}

/// Exchanging the blank with an adjacent cell changes the estimate by at
/// most one.
proof fn lemma_slide(a: Grid, blank: int, t: int)
    requires
        a.wf(),
        adjacent(a, blank, t),
        a.cells[blank] == 0,
    ensures
        a.swapped(blank, t).manhattan() <= a.manhattan() + 1,
        a.manhattan() <= a.swapped(blank, t).manhattan() + 1,
{
    let b = a.swapped(blank, t);
    let len = a.cells.len() as int;
    assert(blank != t);
    if blank < t {
        lemma_two_cells_differ(a, b, blank, t, len);
    } else {
        lemma_two_cells_differ(a, b, t, blank, len);
    }
}

/// The estimate is consistent: one move changes it by at most one.
pub proof fn lemma_estimate_consistent(a: Grid, b: Grid)
    requires
        a.wf(),
        is_move(a, b),
    ensures
        a.manhattan() <= b.manhattan() + 1,
        b.manhattan() <= a.manhattan() + 1,
{
    let t = lemma_move_is_swap(a, b);
    assert(a.blank_at(a.blank()));
    lemma_slide(a, a.blank(), t);
}

/// Exchanging two cells of a permutation gives a permutation.
pub proof fn lemma_swap_keeps_permutation(g: Grid, x: int, y: int)
    requires
        g.is_permutation(),
        0 <= x < g.cells.len(),
        0 <= y < g.cells.len(),
    ensures
        g.swapped(x, y).is_permutation(),
{
    let s = g.swapped(x, y);
    let from = |i: int|
        if i == x {
            y
        } else if i == y {
            x
        } else {
            i
        };
    assert forall|i: int| 0 <= i < s.cells.len() implies (#[trigger] s.cells[i]) < s.cells.len() by {
        assert(s.cells[i] == g.cells[from(i)]);
    }
    assert forall|i: int, j: int| 0 <= i < j < s.cells.len() implies s.cells[i] != s.cells[j] by {
        assert(s.cells[i] == g.cells[from(i)]);
        assert(s.cells[j] == g.cells[from(j)]);
        if from(i) < from(j) {
            assert(g.cells[from(i)] != g.cells[from(j)]);
        } else {
            assert(g.cells[from(j)] != g.cells[from(i)]);
        }
    }
}

/// A move from a permutation leads to a permutation.
pub proof fn lemma_move_keeps_permutation(a: Grid, b: Grid)
    requires
        a.is_permutation(),
        is_move(a, b),
    ensures
        b.is_permutation(),
{
    let t = lemma_move_is_swap(a, b);
    lemma_swap_keeps_permutation(a, a.blank(), t);
}

/// Every board of a walk from a permutation is a permutation.
pub proof fn lemma_walk_keeps_permutation(q: Seq<Grid>, j: int)
    requires
        q.len() > 0,
        q[0].is_permutation(),
        crate::walk::is_walk(q),
        0 <= j < q.len(),
    ensures
        q[j].is_permutation(),
    decreases j,
{
    if j > 0 {
        lemma_walk_keeps_permutation(q, j - 1);
        assert(is_move(q[j - 1], q[j - 1 + 1]));
        lemma_move_keeps_permutation(q[j - 1], q[j]);
    }
}

/// In a solved permutation no cell holds less than its index.
proof fn lemma_sorted_from_below(g: Grid, i: int)
    requires
        g.is_permutation(),
        g.is_goal(),
        0 <= i < g.cells.len(),
    ensures
        g.cells[i] >= i,
    decreases i,
{
    if i > 0 {
        lemma_sorted_from_below(g, i - 1);
        assert(g.cells[i - 1] <= g.cells[i]);
        assert(g.cells[i - 1] != g.cells[i]);
    }
}

/// In a solved permutation no cell holds more than its index.
proof fn lemma_sorted_from_above(g: Grid, i: int)
    requires
        g.is_permutation(),
        g.is_goal(),
        0 <= i < g.cells.len(),
    ensures
        g.cells[i] <= i,
    decreases g.cells.len() - i,
{
    if i + 1 < g.cells.len() {
        lemma_sorted_from_above(g, i + 1);
        assert(g.cells[i] <= g.cells[i + 1]);
        assert(g.cells[i] != g.cells[i + 1]);
    }
}

/// Every cell holds its own index.
pub open spec fn is_identity(g: Grid) -> bool {
    forall|i: int| 0 <= i < g.cells.len() ==> #[trigger] g.cells[i] == i
}

/// A solved permutation is the identity.
pub proof fn lemma_goal_is_identity(g: Grid)
    requires
        g.is_permutation(),
        g.is_goal(),
    ensures
        is_identity(g),
{
    assert forall|i: int| 0 <= i < g.cells.len() implies #[trigger] g.cells[i] == i by {
        lemma_sorted_from_below(g, i);
        lemma_sorted_from_above(g, i);
    }
}

/// Where every tile up to `k` is at home or blank, the estimate up to `k`
/// is 0, and the other way round.
proof fn lemma_zero_sum(g: Grid, k: int)
    requires
        0 <= k <= g.cells.len(),
    ensures
        g.distance_upto(k) == 0 <==> forall|i: int| 0 <= i < k ==> #[trigger] g.tile_distance(i) == 0,
    decreases k,
{
    if k > 0 {
        lemma_zero_sum(g, k - 1);
        if g.distance_upto(k) == 0 {
            assert forall|i: int| 0 <= i < k implies #[trigger] g.tile_distance(i) == 0 by {
                if i < k - 1 {
                } else {
                }
            }
        }
    }
}

/// A tile is at distance 0 exactly if it is the blank or sits in the cell
/// of its own value.
proof fn lemma_tile_at_home(g: Grid, i: int)
    requires
        g.wf(),
        0 <= i < g.cells.len(),
    ensures
        g.tile_distance(i) == 0 <==> (g.cells[i] == 0 || g.cells[i] == i),
{
    let n = g.side as int;
    let v = g.cells[i] as int;
    lemma_neighbours_in_range(g, i);
    lemma_fundamental_div_mod(i, n);
    lemma_fundamental_div_mod(v, n);
}

/// A permutation is solved exactly if its Manhattan estimate is 0.
pub proof fn lemma_goal_iff_estimate_zero(g: Grid)
    requires
        g.is_permutation(),
    ensures
        g.is_goal() <==> g.manhattan() == 0,
{
    let len = g.cells.len() as int;
    lemma_zero_sum(g, len);
    if g.is_goal() {
        lemma_goal_is_identity(g);
        assert forall|i: int| 0 <= i < len implies #[trigger] g.tile_distance(i) == 0 by {
            lemma_tile_at_home(g, i);
        }
    }
    if g.manhattan() == 0 {
        assert forall|i: int| 0 <= i < len implies g.cells[i] == 0 || #[trigger] g.cells[i] == i by {
            assert(g.tile_distance(i) == 0);
            lemma_tile_at_home(g, i);
        }
        assert forall|i: int, j: int| 0 <= i <= j < len implies g.cells[i] <= g.cells[j] by {
            if g.cells[j] == 0 && i < j {
                if g.cells[0] == 0 {
                    if j > 0 {
                        assert(g.cells[0] != g.cells[j]);
                    }
                } else {
                    assert(g.cells[0] == 0);
                }
            }
        }
    }
}

/// The estimate is admissible: on a solution of a permutation, the moves
/// made so far plus the estimate never exceed the length of the solution.
pub proof fn lemma_estimate_admissible(q: Seq<Grid>, start: Grid, j: int)
    requires
        start.is_permutation(),
        solves(q, start),
        0 <= j < q.len(),
    ensures
        score_at(q, j) <= q.len() - 1,
    decreases q.len() - j,
{
    lemma_walk_keeps_permutation(q, j);
    if j == q.len() - 1 {
        lemma_goal_iff_estimate_zero(q[j]);
    } else {
        lemma_estimate_admissible(q, start, j + 1);
        assert(is_move(q[j], q[j + 1]));
        lemma_estimate_consistent(q[j], q[j + 1]);
    }
}

} // verus!
