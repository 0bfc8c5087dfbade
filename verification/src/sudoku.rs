//! The grid engine: a 9x9 board of cells holding 0 (empty) or a digit,
//! with a constraint check per cell and a backtracking solver.

use vstd::prelude::*;

verus! {

broadcast use vstd::array::group_array_axioms;

/// Number of rows of the board.
pub const NUM_ROWS: usize = 9;

/// Number of columns of the board.
pub const NUM_COLS: usize = 9;

/// The value of an empty cell.
const NUM_UNSET: u8 = 0;

/// The smallest digit that can be placed.
const NUM_MIN: u8 = 1;

/// The largest digit that can be placed.
const NUM_MAX: u8 = 9;

/// The cell at row `r`, column `c` of a grid stored in row-major order.
pub open spec fn cell(g: Seq<u8>, r: int, c: int) -> u8 {
    g[r * 9 + c]
}

/// Whether `(r, c)` names a cell of the board.
pub open spec fn cell_in_bounds(r: int, c: int) -> bool {
    0 <= r < 9 && 0 <= c < 9
}

/// First row (or column) of the 3x3 box that row (or column) `x` lies in.
pub open spec fn box_base(x: int) -> int {
    (x / 3) * 3
}

/// No cell of row `r` other than column `c` holds `v`.
pub open spec fn row_allows(g: Seq<u8>, r: int, c: int, v: u8) -> bool {
    forall|j: int| 0 <= j < 9 && j != c ==> cell(g, r, j) != v
}

/// No cell of column `c` other than row `r` holds `v`.
pub open spec fn col_allows(g: Seq<u8>, r: int, c: int, v: u8) -> bool {
    forall|i: int| 0 <= i < 9 && i != r ==> cell(g, i, c) != v
}

/// No cell of the 3x3 box of `(r, c)` whose row and column both differ
/// from `(r, c)` holds `v`.  Box mates that share the row or the column
/// of `(r, c)` are left to `row_allows` and `col_allows`, which already
/// cover them, so the three checks together still rule out every
/// duplicate of `v` in the box.
pub open spec fn box_allows(g: Seq<u8>, r: int, c: int, v: u8) -> bool {
    forall|i: int, j: int|
        box_base(r) <= i < box_base(r) + 3 && box_base(c) <= j < box_base(c) + 3 && i != r && j != c
            ==> cell(g, i, j) != v
}

/// Placing `v` at `(r, c)` would not duplicate `v` in the row, the column,
/// or the 3x3 box of `(r, c)`.  The current content of `(r, c)` itself is
/// ignored.
pub open spec fn placement_allowed(g: Seq<u8>, r: int, c: int, v: u8) -> bool {
    row_allows(g, r, c, v) && col_allows(g, r, c, v) && box_allows(g, r, c, v)
}

/// The cell `(r, c)` is empty, or its value collides with no other cell
/// of its row, column, or box.
pub open spec fn cell_ok_at(g: Seq<u8>, r: int, c: int) -> bool {
    cell(g, r, c) == 0 || placement_allowed(g, r, c, cell(g, r, c))
}

/// Every cell of the grid is empty or free of collisions.
pub open spec fn grid_valid(g: Seq<u8>) -> bool {
    forall|r: int, c: int| cell_in_bounds(r, c) ==> #[trigger] cell_ok_at(g, r, c)
}

/// Every cell of the grid holds a digit `1..=9`.
pub open spec fn grid_full(g: Seq<u8>) -> bool {
    forall|r: int, c: int| cell_in_bounds(r, c) ==> 1 <= #[trigger] cell(g, r, c) <= 9
}

/// A completed, collision-free grid.
pub open spec fn grid_solved(g: Seq<u8>) -> bool {
    g.len() == 81 && grid_full(g) && grid_valid(g)
}

/// Every filled cell of `g1` keeps its value in `g2`.
pub open spec fn grid_extends(g1: Seq<u8>, g2: Seq<u8>) -> bool {
    forall|r: int, c: int|
        cell_in_bounds(r, c) && #[trigger] cell(g1, r, c) != 0 ==> cell(g2, r, c) == cell(g1, r, c)
}

/// Some completed, collision-free grid keeps every filled cell of `g`.
pub open spec fn solvable(g: Seq<u8>) -> bool {
    exists|s: Seq<u8>| grid_solved(s) && #[trigger] grid_extends(g, s)
}

/// Some cell of the grid is empty.
pub open spec fn grid_has_empty(g: Seq<u8>) -> bool {
    exists|r: int, c: int| cell_in_bounds(r, c) && #[trigger] cell(g, r, c) == 0
}

/// No cell of the grid is empty.
pub open spec fn grid_no_empty(g: Seq<u8>) -> bool {
    forall|r: int, c: int| cell_in_bounds(r, c) ==> #[trigger] cell(g, r, c) != 0
}

/// Every cell of the grid holds a value at most `9`.
pub open spec fn grid_values_at_most_nine(g: Seq<u8>) -> bool {
    forall|r: int, c: int| cell_in_bounds(r, c) ==> #[trigger] cell(g, r, c) <= 9
}

/// Number of empty cells among the first `n` stored cells.
pub open spec fn empty_count_below(g: Seq<u8>, n: int) -> nat
    decreases n,
{
    if n <= 0 {
        0
    } else {
        empty_count_below(g, n - 1) + (if g[n - 1] == 0 {
            1nat
        } else {
            0nat
        })
    }
}

/// Number of empty cells of the grid.
pub open spec fn empty_count(g: Seq<u8>) -> nat {
    empty_count_below(g, 81)
}

/// Writing a digit into an empty cell relates the cells of the new grid
/// to those of the old one position by position.
proof fn lemma_cell_update(g: Seq<u8>, r: int, c: int, v: u8)
    requires
        g.len() == 81,
        cell_in_bounds(r, c),
    ensures
        forall|a: int, b: int|
            cell_in_bounds(a, b) ==> #[trigger] cell(g.update(r * 9 + c, v), a, b) == (if a == r
                && b == c {
                v
            } else {
                cell(g, a, b)
            }),
        g.update(r * 9 + c, v).len() == 81,
{
    assert forall|a: int, b: int| cell_in_bounds(a, b) implies #[trigger] cell(
        g.update(r * 9 + c, v),
        a,
        b,
    ) == (if a == r && b == c {
        v
    } else {
        cell(g, a, b)
    }) by {
        assert(0 <= a * 9 + b < 81);
        assert(0 <= r * 9 + c < 81);
        if a * 9 + b == r * 9 + c {
            assert(a == r && b == c);
        }
    }
}

/// Filling an empty cell lowers the count of empty cells among the first
/// `n` stored cells exactly when the cell lies among them.
proof fn lemma_empty_count_below_update(g: Seq<u8>, k: int, v: u8, n: int)
    requires
        g.len() == 81,
        0 <= k < 81,
        g[k] == 0,
        v != 0,
        0 <= n <= 81,
    ensures
        k < n ==> empty_count_below(g.update(k, v), n) + 1 == empty_count_below(g, n),
        k >= n ==> empty_count_below(g.update(k, v), n) == empty_count_below(g, n),
    decreases n,
{
    if n > 0 {
        lemma_empty_count_below_update(g, k, v, n - 1);
    }
}

/// Filling an empty cell lowers the number of empty cells by one.
proof fn lemma_empty_count_update(g: Seq<u8>, k: int, v: u8)
    requires
        g.len() == 81,
        0 <= k < 81,
        g[k] == 0,
        v != 0,
    ensures
        empty_count(g.update(k, v)) + 1 == empty_count(g),
{
    lemma_empty_count_below_update(g, k, v, 81);
}

/// Clearing a cell that was tentatively filled restores the grid exactly.
proof fn lemma_restore(g: Seq<u8>, k: int, v: u8)
    requires
        0 <= k < g.len(),
        g[k] == 0,
    ensures
        g.update(k, v).update(k, 0u8) == g,
{
    assert(g.update(k, v).update(k, 0u8) =~= g);
}

/// An index that lies within three of another's box base has the same
/// box base: the two belong to the same band of rows or columns.
proof fn lemma_same_box(x: int, y: int)
    requires
        0 <= x < 9,
        0 <= y < 9,
        box_base(x) <= y < box_base(x) + 3,
    ensures
        box_base(y) == box_base(x),
{
}

/// In a completed, collision-free grid that keeps every filled cell of
/// `g`, the digit standing at an empty cell of `g` could legally be
/// placed there in `g` itself.
proof fn lemma_extends_allowed(g: Seq<u8>, s: Seq<u8>, r: int, c: int)
    requires
        g.len() == 81,
        grid_solved(s),
        grid_extends(g, s),
        cell_in_bounds(r, c),
    ensures
        placement_allowed(g, r, c, cell(s, r, c)),
{
    let v = cell(s, r, c);
    assert(1 <= v <= 9);
    assert(cell_ok_at(s, r, c));
    assert(placement_allowed(s, r, c, v));
    assert forall|j: int| 0 <= j < 9 && j != c implies cell(g, r, j) != v by {
        if cell(g, r, j) == v {
            assert(cell(s, r, j) == cell(g, r, j));
        }
    }
    assert forall|i: int| 0 <= i < 9 && i != r implies cell(g, i, c) != v by {
        if cell(g, i, c) == v {
            assert(cell(s, i, c) == cell(g, i, c));
        }
    }
    assert forall|i: int, j: int|
        box_base(r) <= i < box_base(r) + 3 && box_base(c) <= j < box_base(c) + 3 && i != r && j
            != c implies cell(g, i, j) != v by {
        if cell(g, i, j) == v {
            assert(cell(s, i, j) == cell(g, i, j));
        }
    }
}

/// Placing a digit that passes the collision check into an empty cell of
/// a consistent grid keeps the grid consistent: the check is symmetric,
/// so no already-placed digit starts to collide either.
proof fn lemma_place_preserves_valid(g: Seq<u8>, r: int, c: int, v: u8)
    requires
        g.len() == 81,
        grid_valid(g),
        cell_in_bounds(r, c),
        cell(g, r, c) == 0,
        v != 0,
        placement_allowed(g, r, c, v),
    ensures
        grid_valid(g.update(r * 9 + c, v)),
{
    let g2 = g.update(r * 9 + c, v);
    lemma_cell_update(g, r, c, v);
    assert forall|a: int, b: int| cell_in_bounds(a, b) implies #[trigger] cell_ok_at(g2, a, b) by {
        if a == r && b == c {
            assert forall|j: int| 0 <= j < 9 && j != c implies cell(g2, r, j) != v by {
                assert(cell(g2, r, j) == cell(g, r, j));
            }
            assert forall|i: int| 0 <= i < 9 && i != r implies cell(g2, i, c) != v by {
                assert(cell(g2, i, c) == cell(g, i, c));
            }
            assert forall|i: int, j: int|
                box_base(r) <= i < box_base(r) + 3 && box_base(c) <= j < box_base(c) + 3 && i != r
                    && j != c implies cell(g2, i, j) != v by {
                assert(cell(g2, i, j) == cell(g, i, j));
            }
            assert(placement_allowed(g2, a, b, v));
        } else {
            let w = cell(g2, a, b);
            if w != 0 {
                assert(cell(g2, a, b) == cell(g, a, b));
                assert(cell_ok_at(g, a, b));
                assert(placement_allowed(g, a, b, w));
                assert forall|j: int| 0 <= j < 9 && j != b implies cell(g2, a, j) != w by {
                    if a == r && j == c {
                        // The freshly placed digit: the check at (r, c) saw (a, b).
                        assert(cell(g, a, b) != v);
                    } else {
                        assert(cell(g2, a, j) == cell(g, a, j));
                    }
                }
                assert forall|i: int| 0 <= i < 9 && i != a implies cell(g2, i, b) != w by {
                    if i == r && b == c {
                        assert(cell(g, a, b) != v);
                    } else {
                        assert(cell(g2, i, b) == cell(g, i, b));
                    }
                }
                assert forall|i: int, j: int|
                    box_base(a) <= i < box_base(a) + 3 && box_base(b) <= j < box_base(b) + 3 && i
                        != a && j != b implies cell(g2, i, j) != w by {
                    if i == r && j == c {
                        // (a, b) lies in the box of (r, c), off its row and column,
                        // so the check at (r, c) saw it.
                        lemma_same_box(a, r);
                        lemma_same_box(b, c);
                        assert(box_base(r) <= a < box_base(r) + 3);
                        assert(box_base(c) <= b < box_base(c) + 3);
                        assert(cell(g, a, b) != v);
                    } else {
                        assert(cell(g2, i, j) == cell(g, i, j));
                    }
                }
                assert(placement_allowed(g2, a, b, w));
            }
        }
    }
}

/// A 9x9 Sudoku board.  Cells are stored flat in row-major order; `0`
/// marks an empty cell and `1..=9` a placed digit.
pub struct Sudoku {
    cells: [u8; 81],
}

impl View for Sudoku {
    type V = Seq<u8>;

    closed spec fn view(&self) -> Seq<u8> {
        self.cells@
    }
}

impl Sudoku {
    /// Create a board from the given rows of cell values, stored verbatim.
    /// No validation is performed: an inconsistent board is accepted here
    /// and only caught by `verify`.
    pub fn new(board: [[u8; NUM_COLS]; NUM_ROWS]) -> (s: Sudoku)
        ensures
            forall|r: int, c: int|
                cell_in_bounds(r, c) ==> #[trigger] cell(s@, r, c) == board@[r]@[c],
    {
        let mut cells: [u8; 81] = [0; 81];
        let mut i: usize = 0;
        while i < NUM_ROWS
            invariant
                i <= 9,
                forall|r: int, c: int|
                    0 <= r < i && 0 <= c < 9 ==> cells@[r * 9 + c] == board@[r]@[c],
            decreases 9 - i,
        {
            let mut j: usize = 0;
            while j < NUM_COLS
                invariant
                    i < 9,
                    j <= 9,
                    forall|r: int, c: int|
                        0 <= r < i && 0 <= c < 9 ==> cells@[r * 9 + c] == board@[r]@[c],
                    forall|c: int| 0 <= c < j ==> cells@[i * 9 + c] == board@[i as int]@[c],
                decreases 9 - j,
            {
                cells[i * 9 + j] = board[i][j];
                j += 1;
            }
            i += 1;
        }
        Sudoku { cells }
    }

    /// Read the value of the cell at `(row, col)`.
    pub fn get(&self, row: usize, col: usize) -> (v: u8)
        requires
            row < 9,
            col < 9,
        ensures
            v == cell(self@, row as int, col as int),
    {
        self.cells[row * 9 + col]
    }

    /// Check whether placing `cell_val` at `(row, col)` would collide with
    /// another cell of the same row, column, or 3x3 box.  The cell under
    /// test itself is skipped: the row and column scans skip its index,
    /// and the box scan skips every box mate that shares its row or its
    /// column — those mates are exactly the ones the row and column scans
    /// already cover, so nothing in the box escapes the combined check.
    pub fn check_cell(&self, row: usize, col: usize, cell_val: u8) -> (r: bool)
        requires
            row < 9,
            col < 9,
        ensures
            r == placement_allowed(self@, row as int, col as int, cell_val),
    {
        // Check row/col
        let mut i: usize = 0;
        while i < 9
            invariant
                row < 9,
                col < 9,
                i <= 9,
                forall|j: int| 0 <= j < i && j != col ==> cell(self@, row as int, j) != cell_val,
                forall|j: int| 0 <= j < i && j != row ==> cell(self@, j, col as int) != cell_val,
            decreases 9 - i,
        {
            // Row
            if i != col && self.cells[row * 9 + i] == cell_val {
                proof {
                    assert(cell(self@, row as int, i as int) == cell_val);
                    assert(!row_allows(self@, row as int, col as int, cell_val));
                }
                return false;
            }
            // Col
            if i != row && self.cells[i * 9 + col] == cell_val {
                proof {
                    assert(cell(self@, i as int, col as int) == cell_val);
                    assert(!col_allows(self@, row as int, col as int, cell_val));
                }
                return false;
            }
            i += 1;
        }

        // Starting offsets of box
        let box_row_offset = (row / 3) * 3;
        let box_col_offset = (col / 3) * 3;

        // Check box
        let mut bi = box_row_offset;
        while bi < box_row_offset + 3
            invariant
                row < 9,
                col < 9,
                box_row_offset == box_base(row as int),
                box_col_offset == box_base(col as int),
                box_row_offset <= bi <= box_row_offset + 3,
                forall|i2: int, j2: int|
                    box_base(row as int) <= i2 < bi && box_base(col as int) <= j2 < box_base(
                        col as int,
                    ) + 3 && i2 != row && j2 != col ==> cell(self@, i2, j2) != cell_val,
            decreases box_row_offset + 3 - bi,
        {
            let mut bj = box_col_offset;
            while bj < box_col_offset + 3
                invariant
                    row < 9,
                    col < 9,
                    box_row_offset == box_base(row as int),
                    box_col_offset == box_base(col as int),
                    box_row_offset <= bi < box_row_offset + 3,
                    box_col_offset <= bj <= box_col_offset + 3,
                    forall|i2: int, j2: int|
                        box_base(row as int) <= i2 < bi && box_base(col as int) <= j2 < box_base(
                            col as int,
                        ) + 3 && i2 != row && j2 != col ==> cell(self@, i2, j2) != cell_val,
                    forall|j2: int|
                        box_base(col as int) <= j2 < bj && bi != row && j2 != col ==> cell(
                            self@,
                            bi as int,
                            j2,
                        ) != cell_val,
                decreases box_col_offset + 3 - bj,
            {
                if bi != row && bj != col && self.cells[bi * 9 + bj] == cell_val {
                    proof {
                        assert(cell(self@, bi as int, bj as int) == cell_val);
                        assert(!box_allows(self@, row as int, col as int, cell_val));
                    }
                    return false;
                }
                bj += 1;
            }
            bi += 1;
        }
        true
    }

    /// Check whether the cell at `(row, col)` is consistent: an empty cell
    /// is trivially consistent, and a filled one must not collide with any
    /// other cell of its row, column, or box.
    pub fn verify_cell(&self, row: usize, col: usize) -> (r: bool)
        requires
            row < 9,
            col < 9,
        ensures
            r == cell_ok_at(self@, row as int, col as int),
    {
        let cell_val = self.cells[row * 9 + col];

        // Ignore if unset
        if cell_val == NUM_UNSET {
            return true;
        }

        self.check_cell(row, col, cell_val)
    }

    /// Check whether the whole board is consistent: no two filled cells of
    /// equal value share a row, a column, or a 3x3 box.
    pub fn verify(&self) -> (r: bool)
        ensures
            r == grid_valid(self@),
    {
        let mut i: usize = 0;
        while i < 9
            invariant
                i <= 9,
                forall|r: int, c: int| 0 <= r < i && 0 <= c < 9 ==> #[trigger] cell_ok_at(self@, r, c),
            decreases 9 - i,
        {
            let mut j: usize = 0;
            while j < 9
                invariant
                    i < 9,
                    j <= 9,
                    forall|r: int, c: int|
                        0 <= r < i && 0 <= c < 9 ==> #[trigger] cell_ok_at(self@, r, c),
                    forall|c: int| 0 <= c < j ==> #[trigger] cell_ok_at(self@, i as int, c),
                decreases 9 - j,
            {
                if !self.verify_cell(i, j) {
                    return false;
                }
                j += 1;
            }
            i += 1;
        }
        true
    }

    /// Find the first empty cell in row-major order.  Returns its row and
    /// column, or `(usize::MAX, usize::MAX)` if every cell is filled.
    pub fn get_first_empty(&self) -> (res: (usize, usize))
        ensures
            grid_has_empty(self@) ==> res.0 < 9 && res.1 < 9 && cell(
                self@,
                res.0 as int,
                res.1 as int,
            ) == 0 && (forall|k: int| 0 <= k < res.0 * 9 + res.1 ==> self@[k] != 0),
            !grid_has_empty(self@) ==> res == (usize::MAX, usize::MAX),
    {
        let mut i: usize = 0;
        while i < 9
            invariant
                i <= 9,
                forall|k: int| 0 <= k < i * 9 ==> self@[k] != 0,
            decreases 9 - i,
        {
            let mut j: usize = 0;
            while j < 9
                invariant
                    i < 9,
                    j <= 9,
                    forall|k: int| 0 <= k < i * 9 + j ==> self@[k] != 0,
                decreases 9 - j,
            {
                if self.cells[i * 9 + j] == NUM_UNSET {
                    proof {
                        assert(cell(self@, i as int, j as int) == 0);
                        assert(grid_has_empty(self@));
                    }
                    return (i, j);
                }
                j += 1;
            }
            i += 1;
        }
        proof {
            assert(forall|r: int, c: int|
                cell_in_bounds(r, c) ==> #[trigger] cell(self@, r, c) != 0);
        }
        (usize::MAX, usize::MAX)
    }

    /// Solve the board in place by depth-first backtracking: find the
    /// first empty cell, try the digits `1..=9` in order, place the first
    /// digit that passes the collision check, and recurse; undo the
    /// placement when the recursion fails.
    ///
    /// On success the board is completely filled, every originally
    /// filled cell keeps its value, and a board that was consistent
    /// beforehand (with no stray value above `9`) is a solved Sudoku.
    /// On failure the board is restored to its exact prior contents.
    /// Whenever some completed, collision-free grid keeps every filled
    /// cell of the board, the search finds one, so `true` is returned.
    /// A board with no empty cell is reported solved as it stands,
    /// without re-checking its consistency.
    pub fn solve(&mut self) -> (r: bool)
        ensures
            !r ==> final(self)@ == old(self)@,
            r ==> grid_extends(old(self)@, final(self)@),
            r ==> grid_no_empty(final(self)@),
            r && grid_values_at_most_nine(old(self)@) ==> grid_full(final(self)@),
            r && grid_valid(old(self)@) ==> grid_valid(final(self)@),
            r && grid_valid(old(self)@) && grid_values_at_most_nine(old(self)@) ==> grid_solved(
                final(self)@,
            ),
            r && grid_valid(old(self)@) && grid_values_at_most_nine(old(self)@) ==> solvable(
                old(self)@,
            ),
            solvable(old(self)@) ==> r,
        decreases empty_count(old(self)@),
    {
        let (row, col) = self.get_first_empty();
        if row == usize::MAX && col == usize::MAX {
            // No empty cell: the board is already complete.
            proof {
                assert(!grid_has_empty(self@));
                assert forall|a: int, b: int| cell_in_bounds(a, b) implies #[trigger] cell(
                    self@,
                    a,
                    b,
                ) != 0 by {
                    if cell(self@, a, b) == 0 {
                        assert(grid_has_empty(self@));
                    }
                }
                if grid_valid(self@) && grid_values_at_most_nine(self@) {
                    // The board itself witnesses its own solvability.
                    assert(grid_extends(self@, self@));
                    assert(grid_solved(self@));
                    assert(solvable(self@));
                }
            }
            return true;
        }
        let idx = row * 9 + col;
        let ghost g0 = self@;
        let mut val: u8 = NUM_MIN;
        while val <= NUM_MAX
            invariant
                row < 9,
                col < 9,
                idx == row * 9 + col,
                1 <= val <= 10,
                self@ == g0,
                g0 == old(self)@,
                g0.len() == 81,
                cell(g0, row as int, col as int) == 0,
                forall|s: Seq<u8>|
                    grid_solved(s) && #[trigger] grid_extends(g0, s) ==> cell(
                        s,
                        row as int,
                        col as int,
                    ) >= val,
            decreases 10 - val,
        {
            if self.check_cell(row, col, val) {
                // Cell value works, so try to continue solving with it
                let ghost placed = g0.update(idx as int, val);
                self.cells[idx] = val;
                proof {
                    assert(self@ == placed);
                    lemma_cell_update(g0, row as int, col as int, val);
                    lemma_empty_count_update(g0, idx as int, val);
                    assert(grid_extends(g0, placed));
                    if grid_valid(g0) {
                        lemma_place_preserves_valid(g0, row as int, col as int, val);
                    }
                }
                if self.solve() {
                    proof {
                        // Chain the recursive guarantees back to the original grid.
                        assert forall|a: int, b: int|
                            cell_in_bounds(a, b) && #[trigger] cell(g0, a, b) != 0 implies cell(
                            self@,
                            a,
                            b,
                        ) == cell(g0, a, b) by {
                            assert(cell(placed, a, b) == cell(g0, a, b));
                        }
                        if grid_values_at_most_nine(g0) {
                            assert forall|a: int, b: int| cell_in_bounds(a, b) implies #[trigger] cell(
                                placed,
                                a,
                                b,
                            ) <= 9 by {
                                if !(a == row && b == col) {
                                    assert(cell(placed, a, b) == cell(g0, a, b));
                                }
                            }
                        }
                        if grid_valid(g0) && grid_values_at_most_nine(g0) {
                            // The completed board witnesses solvability of the
                            // original one.
                            assert(grid_solved(self@));
                            assert(grid_extends(g0, self@));
                            assert(solvable(g0));
                        }
                    }
                    return true;
                }
                // Couldn't solve, so backtrack
                self.cells[idx] = NUM_UNSET;
                proof {
                    lemma_restore(g0, idx as int, val);
                    assert(self@ == g0);
                    assert forall|s: Seq<u8>|
                        grid_solved(s) && #[trigger] grid_extends(g0, s) implies cell(
                        s,
                        row as int,
                        col as int,
                    ) >= val + 1 by {
                        if cell(s, row as int, col as int) == val {
                            // Such a completion would also complete the grid with
                            // `val` placed, which the recursion ruled out.
                            assert forall|a: int, b: int|
                                cell_in_bounds(a, b) && #[trigger] cell(placed, a, b)
                                    != 0 implies cell(s, a, b) == cell(placed, a, b) by {
                                if a == row && b == col {
                                } else {
                                    assert(cell(placed, a, b) == cell(g0, a, b));
                                }
                            }
                            assert(grid_extends(placed, s));
                            assert(solvable(placed));
                            assert(false);
                        }
                    }
                }
            } else {
                proof {
                    assert forall|s: Seq<u8>|
                        grid_solved(s) && #[trigger] grid_extends(g0, s) implies cell(
                        s,
                        row as int,
                        col as int,
                    ) >= val + 1 by {
                        if cell(s, row as int, col as int) == val {
                            // The collision check is exactly what a completion
                            // must satisfy at this cell.
                            lemma_extends_allowed(g0, s, row as int, col as int);
                        }
                    }
                }
            }
            val = val + 1;
        }
        // No digit fits in the first empty cell: the grid cannot be completed.
        proof {
            if solvable(g0) {
                let s = choose|s: Seq<u8>| grid_solved(s) && #[trigger] grid_extends(g0, s);
                assert(cell(s, row as int, col as int) >= 10);
                assert(1 <= cell(s, row as int, col as int) <= 9);
                assert(false);
            }
        }
        return false;
    }

    /// Overwrite the whole board with the given rows of cell values,
    /// copied by position with no validation.
    pub fn set_full(&mut self, board_set: [[u8; NUM_COLS]; NUM_ROWS])
        ensures
            forall|r: int, c: int|
                cell_in_bounds(r, c) ==> #[trigger] cell(final(self)@, r, c) == board_set@[r]@[c],
    {
        let mut i: usize = 0;
        while i < NUM_ROWS
            invariant
                i <= 9,
                forall|r: int, c: int|
                    0 <= r < i && 0 <= c < 9 ==> self@[r * 9 + c] == board_set@[r]@[c],
            decreases 9 - i,
        {
            let mut j: usize = 0;
            while j < NUM_COLS
                invariant
                    i < 9,
                    j <= 9,
                    forall|r: int, c: int|
                        0 <= r < i && 0 <= c < 9 ==> self@[r * 9 + c] == board_set@[r]@[c],
                    forall|c: int| 0 <= c < j ==> self@[i * 9 + c] == board_set@[i as int]@[c],
                decreases 9 - j,
            {
                self.cells[i * 9 + j] = board_set[i][j];
                j += 1;
            }
            i += 1;
        }
    }
}

impl Default for Sudoku {
    /// An all-empty board.
    fn default() -> (s: Sudoku)
        ensures
            forall|r: int, c: int| cell_in_bounds(r, c) ==> #[trigger] cell(s@, r, c) == 0,
    {
        Sudoku { cells: [NUM_UNSET; 81] }
    }
}

} // verus!
