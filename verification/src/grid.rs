//! The geometry of the grid.
//!
//! Cell `i` of a grid of the given width stands at row `i % width` and column
//! `i / width`.

use vstd::arithmetic::div_mod::{
    lemma_fundamental_div_mod, lemma_fundamental_div_mod_converse, lemma_mod_bound,
};
use vstd::prelude::*;

verus! {

/// The row of cell `i`.
pub open spec fn row_of(width: nat, i: int) -> int {
    i % width as int
}

/// The column of cell `i`: `(i - row) / width`, which is `i / width`.
pub open spec fn col_of(width: nat, i: int) -> int {
    i / width as int
}

/// The cell at a row and a column.
pub open spec fn cell_at(width: nat, row: int, col: int) -> int {
    row + col * width
}

/// Cell `j` is cell `i` or touches it, by a side or by a corner.
pub open spec fn is_near(width: nat, i: int, j: int) -> bool {
    &&& -1 <= row_of(width, j) - row_of(width, i) <= 1
    &&& -1 <= col_of(width, j) - col_of(width, i) <= 1
}

/// The first of the coordinates next to `p`: `p - 1`, or `p` itself at the edge.
pub open spec fn low_of(p: int) -> int {
    if p == 0 {
        0
    } else {
        p - 1
    }
}

/// The last of the coordinates next to `p` in a dimension of the given size:
/// `p + 1`, or `p` itself at the edge.
pub open spec fn high_of(p: int, size: int) -> int {
    if p + 1 == size {
        p
    } else {
        p + 1
    }
}

/// A cell and its coordinates determine each other.
pub proof fn lemma_cell_at(width: nat, row: int, col: int)
    requires
        0 <= row < width,
        0 <= col,
    ensures
        cell_at(width, row, col) >= 0,
        row_of(width, cell_at(width, row, col)) == row,
        col_of(width, cell_at(width, row, col)) == col,
{
    let w = width as int;
    assert(col * w >= 0) by (nonlinear_arith)
        requires
            col >= 0,
            w > 0,
    ;
    lemma_fundamental_div_mod_converse(row + col * w, w, col, row);
}

/// A cell is the cell at its row and column, and its row lies inside the width.
pub proof fn lemma_coordinates(width: nat, i: int)
    requires
        width > 0,
        0 <= i,
    ensures
        0 <= row_of(width, i) < width,
        0 <= col_of(width, i),
        cell_at(width, row_of(width, i), col_of(width, i)) == i,
{
    let w = width as int;
    lemma_fundamental_div_mod(i, w);
    lemma_mod_bound(i, w);
    assert(w * (i / w) == (i / w) * w) by (nonlinear_arith);
    if i / w < 0 {
        assert((i / w) * w <= -w) by (nonlinear_arith)
            requires
                i / w <= -1,
                w > 0,
        ;
    }
}

/// A cell lies in the grid exactly when its column lies inside the height.
pub proof fn lemma_in_grid(width: nat, height: nat, i: int)
    requires
        width > 0,
        0 <= i,
    ensures
        i < width * height <==> col_of(width, i) < height,
{
    let w = width as int;
    let h = height as int;
    let c = i / w;
    lemma_coordinates(width, i);
    if c < h {
        assert(c * w + w <= h * w) by (nonlinear_arith)
            requires
                c + 1 <= h,
                w > 0,
        ;
    } else {
        assert(c * w >= h * w) by (nonlinear_arith)
            requires
                c >= h,
                w > 0,
        ;
    }
    assert(h * w == w * h) by (nonlinear_arith);
}

/// Cells are numbered column by column, and by rows inside a column.
pub proof fn lemma_cell_order(width: nat, a: int, b: int)
    requires
        width > 0,
        0 <= a,
        0 <= b,
    ensures
        a < b <==> col_of(width, a) < col_of(width, b) || (col_of(width, a) == col_of(width, b)
            && row_of(width, a) < row_of(width, b)),
{
    let w = width as int;
    lemma_coordinates(width, a);
    lemma_coordinates(width, b);
    let ca = a / w;
    let cb = b / w;
    if ca < cb {
        assert(ca * w + w <= cb * w) by (nonlinear_arith)
            requires
                ca + 1 <= cb,
                w > 0,
        ;
    } else if cb < ca {
        assert(cb * w + w <= ca * w) by (nonlinear_arith)
            requires
                cb + 1 <= ca,
                w > 0,
        ;
    }
}

/// The coordinates next to `p` in a dimension of the given size, first and
/// last: `p - 1` to `p + 1`, cut off at the edges.
pub fn span(p: usize, size: usize) -> (ends: (usize, usize))
    requires
        p < size,
    ensures
        ends.0 == low_of(p as int),
        ends.1 == high_of(p as int, size as int),
        ends.0 <= p <= ends.1 < size,
{
    let low: usize = if p == 0 {
        0
    } else {
        p - 1
    };
    let high: usize = if p + 1 == size {
        p
    } else {
        p + 1
    };
    (low, high)
}

} // verus!
