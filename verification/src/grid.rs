//! The mathematical model of a board: a side length and the cells in
//! row-major order. Everything the executable code promises is stated over
//! this model.
use vstd::prelude::*;

verus! {

/// A square board of `side * side` cells, read row by row. The value 0 is
/// the blank.
pub struct Grid {
    pub side: nat,
    pub cells: Seq<u8>,
}

/// The absolute difference of two integers.
pub open spec fn gap(a: int, b: int) -> nat {
    if a <= b {
        (b - a) as nat
    } else {
        (a - b) as nat
    }
}

/// The modulus of the fingerprint, a prime below 2^48.
pub const FINGERPRINT_MODULUS: u64 = 0xffff_ffff_ffc5;

/// A number computed from the cells alone, by which a table finds a board
/// again: boards with equal cells have equal fingerprints.
pub open spec fn fingerprint(cells: Seq<u8>) -> nat
    decreases cells.len(),
{
    if cells.len() == 0 {
        0
    } else {
        ((fingerprint(cells.drop_last()) * 257 + cells.last()) % (FINGERPRINT_MODULUS as int)) as nat
    }
}

impl Grid {
    /// The board is square: it holds exactly `side * side` cells.
    pub open spec fn wf(self) -> bool {
        self.cells.len() == self.side * self.side
    }

    /// Every value from 0 to `side * side - 1` occurs exactly once.
    pub open spec fn is_permutation(self) -> bool {
        &&& self.wf()
        &&& forall|i: int| 0 <= i < self.cells.len() ==> (#[trigger] self.cells[i]) < self.cells.len()
        &&& forall|i: int, j: int|
            0 <= i < j < self.cells.len() ==> self.cells[i] != self.cells[j]
    }

    /// The cells read in row-major order never decrease.
    pub open spec fn is_goal(self) -> bool {
        forall|i: int, j: int| 0 <= i <= j < self.cells.len() ==> self.cells[i] <= self.cells[j]
    }

    /// The distance that the tile in cell `i` is away from its home cell, in
    /// rows plus columns. The home of value `v` is row `v / side`, column
    /// `v % side`. The blank counts for nothing.
    pub open spec fn tile_distance(self, i: int) -> nat {
        let v = self.cells[i] as int;
        let n = self.side as int;
        if v == 0 {
            0
        } else {
            gap(i / n, v / n) + gap(i % n, v % n)
        }
    }

    /// The sum of the tile distances of the first `k` cells.
    pub open spec fn distance_upto(self, k: int) -> nat
        decreases k,
    {
        if k <= 0 {
            0
        } else {
            self.distance_upto(k - 1) + self.tile_distance(k - 1)
        }
    }

    /// The Manhattan estimate: the sum of all tile distances.
    pub open spec fn manhattan(self) -> nat {
        self.distance_upto(self.cells.len() as int)
    }

    /// `b` is the cell of the blank: it holds 0 and no later cell does.
    pub open spec fn blank_at(self, b: int) -> bool {
        &&& 0 <= b < self.cells.len()
        &&& self.cells[b] == 0
        &&& forall|j: int| b < j < self.cells.len() ==> self.cells[j] != 0
    }

    pub open spec fn has_blank(self) -> bool {
        exists|b: int| self.blank_at(b)
    }

    /// The cell of the blank, where the board has one.
    pub open spec fn blank(self) -> int {
        choose|b: int| self.blank_at(b)
    }

    /// The board with the contents of cells `a` and `b` exchanged.
    pub open spec fn swapped(self, a: int, b: int) -> Grid {
        Grid { side: self.side, cells: self.cells.update(a, self.cells[b]).update(b, self.cells[a]) }
    }

    /// The boards one move away, in the order up, down, left, right of the
    /// blank; a direction that leaves the board is skipped. A board without
    /// a blank has no move.
    pub open spec fn successors(self) -> Seq<Grid> {
        if !self.has_blank() {
            Seq::empty()
        } else {
            let b = self.blank();
            let n = self.side as int;
            let up = if b / n > 0 {
                seq![self.swapped(b, b - n)]
            } else {
                Seq::empty()
            };
            let down = if b / n + 1 < n {
                seq![self.swapped(b, b + n)]
            } else {
                Seq::empty()
            };
            let left = if b % n > 0 {
                seq![self.swapped(b, b - 1)]
            } else {
                Seq::empty()
            };
            let right = if b % n + 1 < n {
                seq![self.swapped(b, b + 1)]
            } else {
                Seq::empty()
            };
            up + down + left + right
        }
    }
}

/// A board has at most one blank cell in the sense of `blank_at`.
pub proof fn lemma_blank_unique(g: Grid, a: int, b: int)
    requires
        g.blank_at(a),
    ensures
        g.has_blank(),
        g.blank_at(b) ==> a == b,
        g.blank() == a,
{
    if g.blank_at(b) {
        if a < b {
            assert(g.cells[b] != 0);
        } else if b < a {
            assert(g.cells[a] != 0);
        }
    }
    let c = g.blank();
    assert(g.blank_at(c));
    if a < c {
        assert(g.cells[c] != 0);
    } else if c < a {
        assert(g.cells[a] != 0);
    }
}

/// A board has at most four moves.
pub proof fn lemma_successors_few(g: Grid)
    ensures
        g.successors().len() <= 4,
{
}

/// Row and column of a cell, and which of its four neighbours lie on the
/// board.
pub proof fn lemma_neighbours_in_range(g: Grid, b: int)
    requires
        g.wf(),
        0 <= b < g.cells.len(),
    ensures
        g.side > 0,
        0 <= b / (g.side as int) < g.side,
        0 <= b % (g.side as int) < g.side,
        b / (g.side as int) > 0 <==> b - g.side >= 0,
        b / (g.side as int) + 1 < g.side <==> b + g.side < g.cells.len(),
        b % (g.side as int) > 0 ==> b - 1 >= 0,
        b % (g.side as int) + 1 < g.side ==> b + 1 < g.cells.len(),
{
    let n = g.side as int;
    assert(n > 0) by (nonlinear_arith)
        requires
            0 <= b < n * n,
            n >= 0,
    ;
    vstd::arithmetic::div_mod::lemma_fundamental_div_mod(b, n);
    let q = b / n;
    let r = b % n;
    assert(b == n * q + r);
    assert(0 <= r < n);
    assert(q >= 0) by (nonlinear_arith)
        requires
            b == n * q + r,
            0 <= r < n,
            b >= 0,
            n > 0,
    ;
    assert(q < n) by (nonlinear_arith)
        requires
            b == n * q + r,
            0 <= r,
            b < n * n,
            n > 0,
    ;
    assert(q > 0 <==> b - n >= 0) by (nonlinear_arith)
        requires
            b == n * q + r,
            0 <= r < n,
            n > 0,
            q >= 0,
    ;
    assert(q + 1 < n <==> b + n < n * n) by (nonlinear_arith)
        requires
            b == n * q + r,
            0 <= r < n,
            n > 0,
            q >= 0,
    ;
    assert(r + 1 < n ==> b + 1 < n * n) by (nonlinear_arith)
        requires
            b == n * q + r,
            0 <= r < n,
            n > 0,
            0 <= q < n,
    ;
}

/// No tile of a board of at most 256 cells is further than 510 steps from
/// its home.
pub proof fn lemma_tile_distance_bound(g: Grid, i: int)
    requires
        g.wf(),
        g.side > 0,
        0 <= i < g.cells.len() <= 256,
    ensures
        g.tile_distance(i) <= 510,
{
    let n = g.side as int;
    let v = g.cells[i] as int;
    vstd::arithmetic::div_mod::lemma_div_pos_is_pos(i, n);
    vstd::arithmetic::div_mod::lemma_div_pos_is_pos(v, n);
    vstd::arithmetic::div_mod::lemma_div_is_ordered_by_denominator(i, 1, n);
    vstd::arithmetic::div_mod::lemma_div_is_ordered_by_denominator(v, 1, n);
    vstd::arithmetic::div_mod::lemma_mod_bound(i, n);
    vstd::arithmetic::div_mod::lemma_mod_bound(v, n);
    assert(n <= 256) by (nonlinear_arith)
        requires
            n * n <= 256,
            n > 0,
    ;
}

} // verus!
