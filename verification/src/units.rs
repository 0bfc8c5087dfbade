//! The units of a solved board.  A unit is a row, a column, or one of
//! the nine disjoint 3x3 boxes; in a solved board the nine values of
//! every unit are a permutation of the digits `1..=9`: pairwise
//! distinct, with no digit missing.

use vstd::prelude::*;
use vstd::set_lib::{lemma_int_range, lemma_len_subset, set_int_range};
use crate::sudoku::{
    box_allows, box_base, cell, cell_in_bounds, cell_ok_at, col_allows, grid_solved,
    placement_allowed, row_allows,
};

verus! {

broadcast use vstd::set::group_set_axioms;

/// The nine values of row `r`, left to right.
pub open spec fn row_values(g: Seq<u8>, r: int) -> Seq<u8> {
    Seq::new(9, |j: int| cell(g, r, j))
}

/// The nine values of column `c`, top to bottom.
pub open spec fn col_values(g: Seq<u8>, c: int) -> Seq<u8> {
    Seq::new(9, |i: int| cell(g, i, c))
}

/// Row of the `t`-th cell of box `b`.  Boxes are numbered `0..=8` in
/// row-major order of their top-left corners; cells within a box are
/// numbered `0..=8` in row-major order as well.
pub open spec fn box_row(b: int, t: int) -> int {
    (b / 3) * 3 + t / 3
}

/// Column of the `t`-th cell of box `b`.
pub open spec fn box_col(b: int, t: int) -> int {
    (b % 3) * 3 + t % 3
}

/// The nine values of box `b`, in row-major order within the box.
pub open spec fn box_values(g: Seq<u8>, b: int) -> Seq<u8> {
    Seq::new(9, |t: int| cell(g, box_row(b, t), box_col(b, t)))
}

/// Digit `v` stands somewhere among the nine values of a unit.
pub open spec fn unit_contains(vals: Seq<u8>, v: u8) -> bool {
    exists|i: int| 0 <= i < 9 && vals[i] == v
}

/// The set of values standing among the first `n` entries of `vals`.
spec fn value_set_below(vals: Seq<u8>, n: int) -> Set<int> {
    Set::new(|x: int| exists|i: int| 0 <= i < n && vals[i] as int == x)
}

/// Pairwise distinct entries give a value set of full cardinality.
proof fn lemma_value_set_below_card(vals: Seq<u8>, n: int)
    requires
        vals.len() == 9,
        0 <= n <= 9,
        forall|i: int, j: int| 0 <= i < j < 9 ==> vals[i] != vals[j],
    ensures
        value_set_below(vals, n).finite(),
        value_set_below(vals, n).len() == n,
    decreases n,
{
    if n == 0 {
        assert(value_set_below(vals, 0) =~= Set::empty());
    } else {
        lemma_value_set_below_card(vals, n - 1);
        let prev = value_set_below(vals, n - 1);
        let x = vals[n - 1] as int;
        assert(!prev.contains(x)) by {
            if prev.contains(x) {
                let i = choose|i: int| 0 <= i < n - 1 && vals[i] as int == x;
                assert(vals[i] != vals[n - 1]);
                assert(false);
            }
        }
        assert(value_set_below(vals, n) =~= prev.insert(x));
    }
}

/// Pigeonhole for one unit: nine pairwise-distinct values, each a digit
/// `1..=9`, leave no digit out.
proof fn lemma_nine_distinct_values_cover(vals: Seq<u8>)
    requires
        vals.len() == 9,
        forall|i: int, j: int| 0 <= i < j < 9 ==> vals[i] != vals[j],
        forall|i: int| 0 <= i < 9 ==> 1 <= #[trigger] vals[i] <= 9,
    ensures
        forall|v: u8| 1 <= v <= 9 ==> #[trigger] unit_contains(vals, v),
{
    lemma_value_set_below_card(vals, 9);
    let s = value_set_below(vals, 9);
    let range = set_int_range(1, 10);
    lemma_int_range(1, 10);
    assert forall|v: u8| 1 <= v <= 9 implies #[trigger] unit_contains(vals, v) by {
        if !s.contains(v as int) {
            let smaller = range.remove(v as int);
            assert forall|x: int| s.contains(x) implies smaller.contains(x) by {
                let i = choose|i: int| 0 <= i < 9 && vals[i] as int == x;
                assert(1 <= vals[i] <= 9);
            }
            lemma_len_subset(s, smaller);
            assert(false);
        }
        let i = choose|i: int| 0 <= i < 9 && vals[i] as int == v as int;
        assert(vals[i] == v);
    }
}

/// In a solved board the values of every row are a permutation of the
/// digits `1..=9`: no two cells of the row agree, and every digit
/// appears.
pub proof fn lemma_solved_row_is_permutation(g: Seq<u8>, r: int)
    requires
        grid_solved(g),
        0 <= r < 9,
    ensures
        forall|j1: int, j2: int|
            0 <= j1 < j2 < 9 ==> row_values(g, r)[j1] != row_values(g, r)[j2],
        forall|v: u8| 1 <= v <= 9 ==> #[trigger] unit_contains(row_values(g, r), v),
{
    let vals = row_values(g, r);
    assert forall|j1: int, j2: int| 0 <= j1 < j2 < 9 implies vals[j1] != vals[j2] by {
        assert(cell_ok_at(g, r, j1));
        assert(cell(g, r, j1) != 0);
        assert(row_allows(g, r, j1, cell(g, r, j1)));
        assert(cell(g, r, j2) != cell(g, r, j1));
    }
    assert forall|i: int| 0 <= i < 9 implies 1 <= #[trigger] vals[i] <= 9 by {
        assert(1 <= cell(g, r, i) <= 9);
    }
    lemma_nine_distinct_values_cover(vals);
}

/// In a solved board the values of every column are a permutation of
/// the digits `1..=9`.
pub proof fn lemma_solved_col_is_permutation(g: Seq<u8>, c: int)
    requires
        grid_solved(g),
        0 <= c < 9,
    ensures
        forall|i1: int, i2: int|
            0 <= i1 < i2 < 9 ==> col_values(g, c)[i1] != col_values(g, c)[i2],
        forall|v: u8| 1 <= v <= 9 ==> #[trigger] unit_contains(col_values(g, c), v),
{
    let vals = col_values(g, c);
    assert forall|i1: int, i2: int| 0 <= i1 < i2 < 9 implies vals[i1] != vals[i2] by {
        assert(cell_ok_at(g, i1, c));
        assert(cell(g, i1, c) != 0);
        assert(col_allows(g, i1, c, cell(g, i1, c)));
        assert(cell(g, i2, c) != cell(g, i1, c));
    }
    assert forall|i: int| 0 <= i < 9 implies 1 <= #[trigger] vals[i] <= 9 by {
        assert(1 <= cell(g, i, c) <= 9);
    }
    lemma_nine_distinct_values_cover(vals);
}

/// In a solved board the values of every 3x3 box are a permutation of
/// the digits `1..=9`.  Two distinct cells of a box either share a row,
/// share a column, or differ in both, and in each case one of the three
/// collision conditions of a consistent board keeps their values apart.
pub proof fn lemma_solved_box_is_permutation(g: Seq<u8>, b: int)
    requires
        grid_solved(g),
        0 <= b < 9,
    ensures
        forall|t1: int, t2: int|
            0 <= t1 < t2 < 9 ==> box_values(g, b)[t1] != box_values(g, b)[t2],
        forall|v: u8| 1 <= v <= 9 ==> #[trigger] unit_contains(box_values(g, b), v),
{
    let vals = box_values(g, b);
    assert forall|t1: int, t2: int| 0 <= t1 < t2 < 9 implies vals[t1] != vals[t2] by {
        let r1 = box_row(b, t1);
        let c1 = box_col(b, t1);
        let r2 = box_row(b, t2);
        let c2 = box_col(b, t2);
        assert(cell_in_bounds(r1, c1));
        assert(cell_in_bounds(r2, c2));
        assert(cell_ok_at(g, r1, c1));
        let v1 = cell(g, r1, c1);
        assert(v1 != 0);
        assert(placement_allowed(g, r1, c1, v1));
        if r1 == r2 {
            assert(c1 != c2);
            assert(row_allows(g, r1, c1, v1));
            assert(cell(g, r1, c2) != v1);
        } else if c1 == c2 {
            assert(col_allows(g, r1, c1, v1));
            assert(cell(g, r2, c1) != v1);
        } else {
            assert(box_allows(g, r1, c1, v1));
            assert(box_base(r1) == (b / 3) * 3);
            assert(box_base(c1) == (b % 3) * 3);
            assert(box_base(r1) <= r2 < box_base(r1) + 3);
            assert(box_base(c1) <= c2 < box_base(c1) + 3);
            assert(cell(g, r2, c2) != v1);
        }
    }
    assert forall|i: int| 0 <= i < 9 implies 1 <= #[trigger] vals[i] <= 9 by {
        assert(cell_in_bounds(box_row(b, i), box_col(b, i)));
        assert(1 <= cell(g, box_row(b, i), box_col(b, i)) <= 9);
    }
    lemma_nine_distinct_values_cover(vals);
}

} // verus!
