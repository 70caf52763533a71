//! The executable board.
use vstd::prelude::*;
use vstd::std_specs::cmp::PartialEqSpecImpl;
use crate::grid::Grid;
use crate::grid::gap;
use crate::grid::fingerprint;
use crate::grid::FINGERPRINT_MODULUS;
use crate::grid::lemma_blank_unique;
use crate::grid::lemma_neighbours_in_range;
use crate::grid::lemma_tile_distance_bound;
use crate::text::grid_of_text;
use crate::text::grid_text;
use crate::reading::parse_grid;
use crate::writing::render_grid;
use crate::text_laws::lemma_text_round_trip;

verus! {

/// The largest side a board can have: its cells are bytes, so a board with
/// more than 256 cells could not hold distinct values.
pub const MAX_SIDE: usize = 16;

/// A board of `side * side` cells, stored row by row.
#[derive(Debug, Hash)]
pub struct PuzzleState {
    side: usize,
    cells: Vec<u8>,
}

/// Cell `(i, j)` of a board with `n` columns lies before the start of any
/// later row `r`.
proof fn lemma_row_major_bound(i: int, j: int, r: int, n: int)
    requires
        0 <= i < r,
        0 <= j < n,
    ensures
        0 <= i * n + j < r * n,
{
    assert(i * n + n <= r * n) by (nonlinear_arith)
        requires
            i + 1 <= r,
            n >= 0,
    ;
    assert(0 <= i * n) by (nonlinear_arith)
        requires
            0 <= i,
            n >= 0,
    ;
}

/// How far two lines of the board are apart.
fn apart(a: usize, b: usize) -> (d: usize)
    ensures
        d == gap(a as int, b as int),
{
    if a <= b {
        b - a
    } else {
        a - b
    }
}

/// The models of a sequence of boards.
pub open spec fn views(states: Seq<PuzzleState>) -> Seq<Grid> {
    Seq::new(states.len(), |i: int| states[i]@)
}

/// A board of side at most 16 has at most 256 cells.
proof fn lemma_side_bound(n: int)
    requires
        0 <= n <= MAX_SIDE,
    ensures
        0 <= n * n <= 256,
        n * n > 0 ==> n > 0,
{
    assert(0 <= n * n <= 256) by (nonlinear_arith)
        requires
            0 <= n <= 16,
    ;
}

impl View for PuzzleState {
    type V = Grid;

    closed spec fn view(&self) -> Grid {
        Grid { side: self.side as nat, cells: self.cells@ }
    }
}

impl PuzzleState {
    #[verifier::type_invariant]
    pub closed spec fn inv(&self) -> bool {
        &&& self.side <= MAX_SIDE
        &&& self.cells@.len() == self.side * self.side
    }

    /// Builds the board from its rows.
    pub fn new<const N: usize>(board: [[u8; N]; N]) -> (state: PuzzleState)
        requires
            N <= MAX_SIDE,
        ensures
            state@.side == N,
            state@.cells.len() == N * N,
            forall|r: int, c: int|
                0 <= r < N && 0 <= c < N ==> state@.cells[r * N + c] == (#[trigger] board[r][c]),
    {
        let mut cells: Vec<u8> = Vec::new();
        let mut r: usize = 0;
        while r < N
            invariant
                r <= N,
                N <= MAX_SIDE,
                cells@.len() == r * N,
                forall|i: int, j: int|
                    0 <= i < r && 0 <= j < N ==> cells@[i * N + j] == (#[trigger] board[i][j]),
            decreases N - r,
        {
            let mut c: usize = 0;
            while c < N
                invariant
                    r < N,
                    c <= N,
                    N <= MAX_SIDE,
                    cells@.len() == r * N + c,
                    forall|i: int, j: int|
                        0 <= i < r && 0 <= j < N ==> cells@[i * N + j] == (#[trigger] board[i][j]),
                    forall|j: int| 0 <= j < c ==> cells@[r * N + j] == (#[trigger] board[r as int][j]),
                decreases N - c,
            {
                let ghost before = cells@;
                cells.push(board[r][c]);
                proof {
                    assert forall|i: int, j: int| 0 <= i < r && 0 <= j < N implies cells@[i * N + j]
                        == (#[trigger] board[i][j]) by {
                        lemma_row_major_bound(i, j, r as int, N as int);
                        assert(cells@[i * N + j] == before[i * N + j]);
                    }
                }
                c += 1;
            }
            proof {
                assert((r + 1) * N == r * N + N) by (nonlinear_arith);
            }
            r += 1;
        }
        PuzzleState { side: N, cells }
    }

    /// The value in row `row`, column `col`.
    pub fn tile(&self, row: usize, col: usize) -> (v: u8)
        requires
            row < self@.side,
            col < self@.side,
        ensures
            v == self@.cells[row * self@.side + col],
    {
        proof {
            use_type_invariant(self);
            lemma_row_major_bound(row as int, col as int, self.side as int, self.side as int);
            lemma_side_bound(self.side as int);
        }
        self.cells[row * self.side + col]
    }

    /// Whether the board is solved: read row by row, its values never
    /// decrease.
    pub fn is_goal(&self) -> (goal: bool)
        ensures
            goal == self@.is_goal(),
    {
        let mut last: u8 = 0;
        let mut k: usize = 0;
        while k < self.cells.len()
            invariant
                k <= self.cells@.len(),
                k == 0 ==> last == 0,
                k > 0 ==> last == self.cells@[k - 1],
                forall|i: int, j: int| 0 <= i <= j < k ==> self.cells@[i] <= self.cells@[j],
            decreases self.cells@.len() - k,
        {
            if last > self.cells[k] {
                proof {
                    let g = self@;
                    assert(k > 0);
                    assert(!(g.cells[k - 1] <= g.cells[k as int]));
                }
                return false;
            }
            last = self.cells[k];
            k += 1;
        }
        true
    }

    /// The Manhattan estimate of the number of moves that remain: for each
    /// tile, how many rows and columns it is away from its home.
    pub fn heuristic(&self) -> (h: u32)
        ensures
            h == self@.manhattan(),
    {
        proof {
            use_type_invariant(self);
        }
        let n: usize = self.side;
        let mut h: u32 = 0;
        let mut i: usize = 0;
        while i < self.cells.len()
            invariant
                n == self.side,
                n <= MAX_SIDE,
                self.cells@.len() == n * n,
                i <= self.cells@.len(),
                h == self@.distance_upto(i as int),
                h <= 510 * i,
            decreases self.cells@.len() - i,
        {
            proof {
                lemma_side_bound(n as int);
            }
            let val: usize = self.cells[i] as usize;
            proof {
                lemma_tile_distance_bound(self@, i as int);
            }
            if val != 0 {
                let rows: usize = apart(i / n, val / n);
                let cols: usize = apart(i % n, val % n);
                assert(rows == gap((i / n) as int, (val / n) as int));
                assert(cols == gap((i % n) as int, (val % n) as int));
                h = h + (rows + cols) as u32;
            }
            i += 1;
        }
        h
    }

    /// The fingerprint of the board.
    pub fn fingerprint(&self) -> (print: u64)
        ensures
            print == fingerprint(self@.cells),
    {
        let mut print: u64 = 0;
        let mut k: usize = 0;
        assert(self.cells@.take(0) =~= Seq::<u8>::empty());
        while k < self.cells.len()
            invariant
                k <= self.cells@.len(),
                print == fingerprint(self.cells@.take(k as int)),
                print < FINGERPRINT_MODULUS,
            decreases self.cells@.len() - k,
        {
            proof {
                let next = self.cells@.take(k + 1);
                assert(next.drop_last() =~= self.cells@.take(k as int));
                assert(next.last() == self.cells@[k as int]);
            }
            print = (print * 257 + self.cells[k] as u64) % FINGERPRINT_MODULUS;
            k += 1;
        }
        assert(self.cells@.take(k as int) =~= self.cells@);
        print
    }

    /// The board with the contents of cells `a` and `b` exchanged.
    fn exchanged(&self, a: usize, b: usize) -> (next: PuzzleState)
        requires
            a < self@.cells.len(),
            b < self@.cells.len(),
        ensures
            next@ == self@.swapped(a as int, b as int),
    {
        proof {
            use_type_invariant(self);
        }
        let mut cells = self.cells.clone();
        assert(cells@ =~= self.cells@);
        let at_a: u8 = self.cells[a];
        let at_b: u8 = self.cells[b];
        cells.set(a, at_b);
        cells.set(b, at_a);
        PuzzleState { side: self.side, cells }
    }

    /// The cell of the blank: the last cell that holds 0, if any does.
    fn find_blank(&self) -> (found: Option<usize>)
        ensures
            match found {
                Some(b) => self@.blank_at(b as int),
                None => !self@.has_blank(),
            },
    {
        let mut found: Option<usize> = None;
        let mut k: usize = 0;
        while k < self.cells.len()
            invariant
                k <= self.cells@.len(),
                match found {
                    Some(b) => b < k && self.cells@[b as int] == 0 && forall|j: int|
                        b < j < k ==> self.cells@[j] != 0,
                    None => forall|j: int| 0 <= j < k ==> self.cells@[j] != 0,
                },
            decreases self.cells@.len() - k,
        {
            if self.cells[k] == 0 {
                found = Some(k);
            }
            k += 1;
        }
        found
    }

    /// The boards that one move leads to: the blank changes place with the
    /// tile above it, below it, to its left and to its right, in this order,
    /// wherever the board has such a tile.
    pub fn get_actions(&self) -> (moves: Vec<PuzzleState>)
        ensures
            views(moves@) == self@.successors(),
    {
        proof {
            use_type_invariant(self);
        }
        let mut moves: Vec<PuzzleState> = Vec::new();
        let n: usize = self.side;
        match self.find_blank() {
            None => {
                assert(views(moves@) =~= self@.successors());
            },
            Some(blank) => {
                proof {
                    lemma_blank_unique(self@, blank as int, self@.blank());
                    lemma_neighbours_in_range(self@, blank as int);
                    lemma_side_bound(n as int);
                }
                let row: usize = blank / n;
                let col: usize = blank % n;
                if row > 0 {
                    moves.push(self.exchanged(blank, blank - n));
                }
                if row + 1 < n {
                    moves.push(self.exchanged(blank, blank + n));
                }
                if col > 0 {
                    moves.push(self.exchanged(blank, blank - 1));
                }
                if col + 1 < n {
                    moves.push(self.exchanged(blank, blank + 1));
                }
                assert(views(moves@) =~= self@.successors());
            },
        }
        moves
    }

    /// Builds the board of side `side` from its cells in row-major order;
    /// `None` unless there are `side * side` cells and `side` is at most
    /// `MAX_SIDE`.
    pub fn from_cells(side: usize, cells: Vec<u8>) -> (found: Option<PuzzleState>)
        ensures
            match found {
                Some(state) => state@ == (Grid { side: side as nat, cells: cells@ }),
                None => side > MAX_SIDE || cells@.len() != side * side,
            },
    {
        if side > MAX_SIDE {
            return None;
        }
        proof {
            lemma_side_bound(side as int);
        }
        if cells.len() != side * side {
            return None;
        }
        Some(PuzzleState { side, cells })
    }

    /// The cells of the board in row-major order.
    pub fn cells(&self) -> (cells: &Vec<u8>)
        ensures
            cells@ == self@.cells,
    {
        &self.cells
    }

    /// Reads a board from text, one line for each row, the numbers of a row
    /// separated by blanks; `None` where the text describes no board.
    pub fn parse(input: &str) -> (found: Option<PuzzleState>)
        ensures
            match found {
                Some(state) => grid_of_text(input@) == Some(state@),
                None => grid_of_text(input@) is None,
            },
    {
        match parse_grid(input) {
            None => None,
            Some((side, cells)) => Some(PuzzleState { side, cells }),
        }
    }

    /// Reads a board from a text that describes one.
    pub fn from_string(input: &str) -> (state: PuzzleState)
        requires
            grid_of_text(input@) is Some,
        ensures
            grid_of_text(input@) == Some(state@),
    {
        let found = PuzzleState::parse(input);
        found.unwrap()
    }

    /// The board as text: its rows as lines, the numbers of a row separated
    /// by one space. `parse` reads this text back as the same board.
    pub fn as_string(&self) -> (text: String)
        ensures
            text@ == grid_text(self@),
            grid_of_text(text@) == Some(self@),
    {
        proof {
            use_type_invariant(self);
            lemma_text_round_trip(self@);
        }
        render_grid(self.side, &self.cells)
    }

    /// The side length of the board.
    pub fn side(&self) -> (n: usize)
        ensures
            n == self@.side,
            n <= MAX_SIDE,
            self@.wf(),
    {
        proof {
            use_type_invariant(self);
        }
        self.side
    }
}

impl Clone for PuzzleState {
    fn clone(&self) -> (copy: PuzzleState)
        ensures
            copy@ == self@,
    {
        proof {
            use_type_invariant(self);
        }
        let cells = self.cells.clone();
        assert(cells@ =~= self.cells@);
        PuzzleState { side: self.side, cells }
    }
}

impl PartialEq for PuzzleState {
    fn eq(&self, other: &PuzzleState) -> (same: bool) {
        let same = self.side == other.side && self.cells == other.cells;
        proof {
            if same {
                assert(self.cells@ =~= other.cells@);
            }
        }
        same
    }
}

impl PartialEqSpecImpl for PuzzleState {
    open spec fn obeys_eq_spec() -> bool {
        true
    }

    /// Two boards are equal when their models are.
    open spec fn eq_spec(&self, other: &PuzzleState) -> bool {
        self@ == other@
    }
}

impl Eq for PuzzleState {

}

} // verus!
