//! Row-major pixel grids: index arithmetic shared by every image operation.
use vstd::prelude::*;
use vstd::arithmetic::div_mod::{lemma_fundamental_div_mod, lemma_fundamental_div_mod_converse};

verus! {

/// Column of pixel index `i` in a grid `w` pixels wide.
pub open spec fn col_of(w: int, i: int) -> int {
    i % w
}

/// Row of pixel index `i` in a grid `w` pixels wide.
pub open spec fn row_of(w: int, i: int) -> int {
    i / w
}

/// Whether `(x, y)` lies inside a `w` by `h` grid.
pub open spec fn inside(w: int, h: int, x: int, y: int) -> bool {
    0 <= x < w && 0 <= y < h
}

/// Row-major index of `(x, y)`.
pub open spec fn index_of(w: int, x: int, y: int) -> int {
    y * w + x
}

/// The index of a pixel inside the grid is below `w * h` and gives back its
/// column and row.
pub proof fn lemma_index_of(w: int, h: int, x: int, y: int)
    requires
        inside(w, h, x, y),
    ensures
        0 <= index_of(w, x, y) < w * h,
        col_of(w, index_of(w, x, y)) == x,
        row_of(w, index_of(w, x, y)) == y,
{
    assert(0 <= y * w) by (nonlinear_arith)
        requires
            0 <= y,
            0 < w,
    ;
    assert(y * w + x < w * h) by (nonlinear_arith)
        requires
            0 <= x < w,
            0 <= y < h,
    ;
    lemma_fundamental_div_mod_converse(y * w + x, w, y, x);
}

/// An index below `w * h` has its column below `w`, its row below `h`, and is
/// the index of that column and row.
pub proof fn lemma_coords(w: int, h: int, i: int)
    requires
        0 < w,
        0 <= i < w * h,
    ensures
        0 <= col_of(w, i) < w,
        0 <= row_of(w, i) < h,
        index_of(w, col_of(w, i), row_of(w, i)) == i,
{
    lemma_fundamental_div_mod(i, w);
    assert(w * (i / w) == (i / w) * w) by (nonlinear_arith);
    assert(0 <= i / w) by (nonlinear_arith)
        requires
            0 <= i,
            0 < w,
    ;
    assert(i / w < h) by (nonlinear_arith)
        requires
            0 <= i < w * h,
            0 < w,
            i == w * (i / w) + i % w,
            0 <= i % w,
    ;
}

/// Distinct pixels inside the grid have distinct indices.
pub proof fn lemma_index_injective(w: int, h: int, x1: int, y1: int, x2: int, y2: int)
    requires
        inside(w, h, x1, y1),
        inside(w, h, x2, y2),
        index_of(w, x1, y1) == index_of(w, x2, y2),
    ensures
        x1 == x2 && y1 == y2,
{
    lemma_index_of(w, h, x1, y1);
    lemma_index_of(w, h, x2, y2);
}

} // verus!
