//! Which way the boundary loops of a binary cell wind: each loop turns
//! clockwise on screen (y down) at its first corner when it bounds ink from
//! outside, counter-clockwise when it bounds a hole; and summed over all
//! loops, the signed areas (clockwise counting positive) make exactly the
//! number of ink pixels, so every hole is taken back out.
use vstd::prelude::*;
use crate::contour::{
    b2i, bedge, boundary_tracing, codes_before, dir_of, dx, dy, edge_code, fg, lemma_bedge_in_grid,
    lemma_codes_before, lemma_edge_code, lex_before, loop_edge, vtx,
};
use crate::grid::{lemma_coords, lemma_index_of};

verus! {

/// Twice the signed area of the triangle `(0, 0), p, q`: one shoelace term.
pub open spec fn cross(p: (i32, i32), q: (i32, i32)) -> int {
    (p.0 as int) * (q.1 as int) - (q.0 as int) * (p.1 as int)
}

/// Shoelace sum over the first `m` sides of the closed loop `l`.
pub open spec fn area2_upto(l: Seq<(i32, i32)>, m: int) -> int
    decreases m,
{
    if m <= 0 {
        0
    } else {
        area2_upto(l, m - 1) + cross(l[m - 1], l[m % (l.len() as int)])
    }
}

/// Twice the signed area of the closed loop `l`, positive when it turns
/// clockwise on screen (y down).
pub open spec fn loop_area2(l: Seq<(i32, i32)>) -> int {
    area2_upto(l, l.len() as int)
}

/// Twice the signed area of the first `k` loops together.
pub open spec fn loops_area2(loops: Seq<Vec<(i32, i32)>>, k: int) -> int
    decreases k,
{
    if k <= 0 {
        0
    } else {
        loops_area2(loops, k - 1) + loop_area2(loops[k - 1]@)
    }
}

/// Ink pixels among the first `m` of row `y`.
pub open spec fn row_ink(b: Seq<u8>, w: int, h: int, y: int, m: int) -> int
    decreases m,
{
    if m <= 0 {
        0
    } else {
        row_ink(b, w, h, y, m - 1) + b2i(fg(b, w, h, m - 1, y))
    }
}

/// Ink pixels in the first `m` rows.
pub open spec fn rows_ink(b: Seq<u8>, w: int, h: int, m: int) -> int
    decreases m,
{
    if m <= 0 {
        0
    } else {
        rows_ink(b, w, h, m - 1) + row_ink(b, w, h, m - 1, w)
    }
}

/// Number of ink pixels of the `w` by `h` image.
pub open spec fn ink_area(b: Seq<u8>, w: int, h: int) -> int {
    rows_ink(b, w, h, h)
}

// ---------------------------------------------------------------------------
// From loops to boundary edges
// ---------------------------------------------------------------------------

/// Shoelace term of the unit edge leaving `(e.0, e.1)` in direction `e.2`.
spec fn edge_area2(e: (int, int, int)) -> int {
    if e.2 == 0 {
        -e.1
    } else if e.2 == 1 {
        e.0
    } else if e.2 == 2 {
        e.1
    } else if e.2 == 3 {
        -e.0
    } else {
        0
    }
}

/// A unit step's shoelace term depends on its start and direction only.
proof fn lemma_cross_step(p: (i32, i32), q: (i32, i32))
    requires
        dir_of(p, q) < 4,
    ensures
        cross(p, q) == edge_area2((p.0 as int, p.1 as int, dir_of(p, q))),
{
    let x = p.0 as int;
    let y = p.1 as int;
    let d = dir_of(p, q);
    let ddx = dx(d);
    let ddy = dy(d);
    assert(q.0 as int == x + ddx && q.1 as int == y + ddy);
    assert(x * (y + ddy) - (x + ddx) * y == x * ddy - ddx * y) by (nonlinear_arith);
}

/// The grid edge that `edge_code` numbers `c`.
spec fn code_edge(w: int, c: int) -> (int, int, int) {
    ((c / 4) % (w + 1), (c / 4) / (w + 1), c % 4)
}

/// `code_edge` undoes `edge_code` on the vertex grid.
proof fn lemma_code_edge(w: int, h: int, e: (int, int, int))
    requires
        0 <= e.0 <= w,
        0 <= e.1 <= h,
        0 <= e.2 < 4,
    ensures
        code_edge(w, edge_code(w, e)) == e,
{
    lemma_index_of(w + 1, h + 1, e.0, e.1);
    let q = e.1 * (w + 1) + e.0;
    assert(edge_code(w, e) == q * 4 + e.2);
    vstd::arithmetic::div_mod::lemma_fundamental_div_mod_converse(q * 4 + e.2, 4, q, e.2);
}

/// Every code below `4 (w + 1) (h + 1)` numbers an edge of the vertex grid.
proof fn lemma_edge_code_of(w: int, h: int, c: int)
    requires
        0 <= w,
        0 <= h,
        0 <= c < 4 * (w + 1) * (h + 1),
    ensures
        0 <= code_edge(w, c).0 <= w,
        0 <= code_edge(w, c).1 <= h,
        0 <= code_edge(w, c).2 < 4,
        edge_code(w, code_edge(w, c)) == c,
{
    let q = c / 4;
    vstd::arithmetic::div_mod::lemma_fundamental_div_mod(c, 4);
    assert(0 <= q < (w + 1) * (h + 1)) by (nonlinear_arith)
        requires
            0 <= c < 4 * (w + 1) * (h + 1),
            c == 4 * q + c % 4,
            0 <= c % 4 < 4,
    ;
    lemma_coords(w + 1, h + 1, q);
}

/// Sum of the edge terms of the codes below `m` that `s` holds.
spec fn set_area2(w: int, s: Set<int>, m: int) -> int
    decreases m,
{
    if m <= 0 {
        0
    } else {
        set_area2(w, s, m - 1) + if s.contains(m - 1) {
            edge_area2(code_edge(w, m - 1))
        } else {
            0
        }
    }
}

proof fn lemma_set_area2_empty(w: int, m: int)
    ensures
        set_area2(w, Set::<int>::empty(), m) == 0,
    decreases m,
{
    if m > 0 {
        lemma_set_area2_empty(w, m - 1);
    }
}

proof fn lemma_set_area2_insert(w: int, s: Set<int>, c: int, m: int)
    requires
        !s.contains(c),
    ensures
        set_area2(w, s.insert(c), m) == set_area2(w, s, m) + if 0 <= c < m {
            edge_area2(code_edge(w, c))
        } else {
            0
        },
    decreases m,
{
    if m > 0 {
        lemma_set_area2_insert(w, s, c, m - 1);
    }
}

/// The loop sides traced before side `i` of loop `k` sum to the edge terms
/// of their codes.
proof fn lemma_positions(b: Seq<u8>, w: int, h: int, loops: Seq<Vec<(i32, i32)>>, k: int, i: int)
    requires
        boundary_tracing(b, w, h, loops),
        0 <= w,
        0 <= h,
        0 <= k <= loops.len(),
        k < loops.len() ==> 0 <= i <= loops[k]@.len(),
        k == loops.len() ==> i == 0,
    ensures
        loops_area2(loops, k) + (if k < loops.len() {
            area2_upto(loops[k]@, i)
        } else {
            0
        }) == set_area2(w, codes_before(loops, w, k, i), 4 * (w + 1) * (h + 1)),
    decreases k, i,
{
    let n = 4 * (w + 1) * (h + 1);
    lemma_codes_before(b, w, h, loops, k, i);
    if i > 0 {
        lemma_positions(b, w, h, loops, k, i - 1);
        let l = loops[k]@;
        let len = l.len() as int;
        let e = loop_edge(l, i - 1);
        assert(bedge(b, w, h, e.0, e.1, e.2));
        lemma_bedge_in_grid(b, w, h, e.0, e.1, e.2);
        lemma_edge_code(b, w, h, e, e);
        lemma_code_edge(w, h, e);
        lemma_set_area2_insert(w, codes_before(loops, w, k, i - 1), edge_code(w, e), n);
        assert((i - 1 + 1) % len == i % len);
        lemma_cross_step(l[i - 1], l[i % len]);
    } else if k > 0 {
        lemma_positions(b, w, h, loops, k - 1, loops[k - 1]@.len() as int);
    } else {
        lemma_set_area2_empty(w, n);
    }
}

/// Edge term of code `c` when it numbers a boundary edge, else 0.
spec fn bedge_term(b: Seq<u8>, w: int, h: int, c: int) -> int {
    let e = code_edge(w, c);
    if bedge(b, w, h, e.0, e.1, e.2) {
        edge_area2(e)
    } else {
        0
    }
}

/// Sum of the edge terms of the boundary edges among the codes below `m`.
spec fn grid_area2(b: Seq<u8>, w: int, h: int, m: int) -> int
    decreases m,
{
    if m <= 0 {
        0
    } else {
        grid_area2(b, w, h, m - 1) + bedge_term(b, w, h, m - 1)
    }
}

/// The codes of all traced sides are the codes of all boundary edges.
proof fn lemma_all_codes(b: Seq<u8>, w: int, h: int, loops: Seq<Vec<(i32, i32)>>, m: int)
    requires
        boundary_tracing(b, w, h, loops),
        0 <= w,
        0 <= h,
        0 <= m <= 4 * (w + 1) * (h + 1),
    ensures
        set_area2(w, codes_before(loops, w, loops.len() as int, 0), m) == grid_area2(b, w, h, m),
    decreases m,
{
    if m > 0 {
        lemma_all_codes(b, w, h, loops, m - 1);
        let n = loops.len() as int;
        let all = codes_before(loops, w, n, 0);
        let c = m - 1;
        lemma_edge_code_of(w, h, c);
        let e = code_edge(w, c);
        if all.contains(c) {
            let (k2, i2) = choose|k2: int, i2: int|
                0 <= k2 < loops.len() && 0 <= i2 < loops[k2]@.len() && (k2 < n || (k2 == n && i2 < 0))
                    && #[trigger] edge_code(w, loop_edge(loops[k2]@, i2)) == c;
            let e2 = loop_edge(loops[k2]@, i2);
            assert(bedge(b, w, h, e2.0, e2.1, e2.2));
            lemma_bedge_in_grid(b, w, h, e2.0, e2.1, e2.2);
            lemma_code_edge(w, h, e2);
        }
        if bedge(b, w, h, e.0, e.1, e.2) {
            let (k2, i2) = choose|k2: int, i2: int|
                0 <= k2 < loops.len() && 0 <= i2 < loops[k2]@.len() && #[trigger] loop_edge(loops[k2]@, i2)
                    == (e.0, e.1, e.2);
            assert(edge_code(w, loop_edge(loops[k2]@, i2)) == c);
            assert(all.contains(c));
        }
    }
}

// ---------------------------------------------------------------------------
// From boundary edges to ink
// ---------------------------------------------------------------------------

/// Edge terms of the boundary edges leaving vertex `(x, y)`.
spec fn vertex_area2(b: Seq<u8>, w: int, h: int, x: int, y: int) -> int {
    (if bedge(b, w, h, x, y, 0) {
        -y
    } else {
        0
    }) + (if bedge(b, w, h, x, y, 1) {
        x
    } else {
        0
    }) + (if bedge(b, w, h, x, y, 2) {
        y
    } else {
        0
    }) + (if bedge(b, w, h, x, y, 3) {
        -x
    } else {
        0
    })
}

/// Edge terms of the first `m` vertices of vertex row `y`.
spec fn vrow_part(b: Seq<u8>, w: int, h: int, y: int, m: int) -> int
    decreases m,
{
    if m <= 0 {
        0
    } else {
        vrow_part(b, w, h, y, m - 1) + vertex_area2(b, w, h, m - 1, y)
    }
}

/// Edge terms of the first `m` vertex rows.
spec fn vrows(b: Seq<u8>, w: int, h: int, m: int) -> int
    decreases m,
{
    if m <= 0 {
        0
    } else {
        vrows(b, w, h, m - 1) + vrow_part(b, w, h, m - 1, w + 1)
    }
}

/// Summing edge terms code by code is summing them vertex by vertex, row by
/// row.
proof fn lemma_grid_by_vertices(b: Seq<u8>, w: int, h: int, y: int, x: int)
    requires
        0 <= w,
        0 <= h,
        0 <= y <= h,
        0 <= x <= w + 1,
    ensures
        grid_area2(b, w, h, 4 * (y * (w + 1) + x)) == vrows(b, w, h, y) + vrow_part(b, w, h, y, x),
    decreases y, x,
{
    if x > 0 {
        lemma_grid_by_vertices(b, w, h, y, x - 1);
        let q = y * (w + 1) + x - 1;
        lemma_index_of(w + 1, h + 1, x - 1, y);
        assert(q % (w + 1) == x - 1 && q / (w + 1) == y);
        assert forall|d: int| 0 <= d < 4 implies #[trigger] code_edge(w, 4 * q + d) == (x - 1, y, d) by {
            vstd::arithmetic::div_mod::lemma_fundamental_div_mod_converse(4 * q + d, 4, q, d);
        }
        assert(code_edge(w, 4 * q + 0) == (x - 1, y, 0int));
        assert(code_edge(w, 4 * q + 1) == (x - 1, y, 1int));
        assert(code_edge(w, 4 * q + 2) == (x - 1, y, 2int));
        assert(code_edge(w, 4 * q + 3) == (x - 1, y, 3int));
        assert(grid_area2(b, w, h, 4 * q + 1) == grid_area2(b, w, h, 4 * q) + bedge_term(b, w, h, 4 * q));
        assert(grid_area2(b, w, h, 4 * q + 2) == grid_area2(b, w, h, 4 * q + 1) + bedge_term(b, w, h, 4 * q + 1));
        assert(grid_area2(b, w, h, 4 * q + 3) == grid_area2(b, w, h, 4 * q + 2) + bedge_term(b, w, h, 4 * q + 2));
        assert(grid_area2(b, w, h, 4 * q + 4) == grid_area2(b, w, h, 4 * q + 3) + bedge_term(b, w, h, 4 * q + 3));
        assert(4 * (y * (w + 1) + x) == 4 * q + 4);
        assert(4 * (y * (w + 1) + (x - 1)) == 4 * q);
        assert(bedge_term(b, w, h, 4 * q) + bedge_term(b, w, h, 4 * q + 1) + bedge_term(b, w, h, 4 * q + 2)
            + bedge_term(b, w, h, 4 * q + 3) == vertex_area2(b, w, h, x - 1, y));
        assert(grid_area2(b, w, h, 4 * q) == vrows(b, w, h, y) + vrow_part(b, w, h, y, x - 1));
    } else if y > 0 {
        lemma_grid_by_vertices(b, w, h, y - 1, w + 1);
        assert((y - 1) * (w + 1) + (w + 1) == y * (w + 1)) by (nonlinear_arith);
        assert(4 * (y * (w + 1) + x) == 4 * ((y - 1) * (w + 1) + (w + 1)));
    } else {
        assert(y * (w + 1) == 0) by (nonlinear_arith)
            requires
                y == 0,
        ;
    }
}

/// Count of the horizontal boundary edges of vertex row `y` among its first
/// `m` vertices, those running left less those running right.
spec fn hsum(b: Seq<u8>, w: int, h: int, y: int, m: int) -> int
    decreases m,
{
    if m <= 0 {
        0
    } else {
        hsum(b, w, h, y, m - 1) + b2i(bedge(b, w, h, m - 1, y, 2)) - b2i(bedge(b, w, h, m - 1, y, 0))
    }
}

/// Sum of `x` over the first `m` columns of pixel row `y` where ink ends:
/// pixel `x - 1` is ink, pixel `x` is not.
spec fn up_sum(b: Seq<u8>, w: int, h: int, y: int, m: int) -> int
    decreases m,
{
    if m <= 0 {
        0
    } else {
        up_sum(b, w, h, y, m - 1) + if fg(b, w, h, m - 2, y) && !fg(b, w, h, m - 1, y) {
            m - 1
        } else {
            0
        }
    }
}

/// Sum of `x` over the first `m` columns of pixel row `y` where ink starts:
/// pixel `x` is ink, pixel `x - 1` is not.
spec fn down_sum(b: Seq<u8>, w: int, h: int, y: int, m: int) -> int
    decreases m,
{
    if m <= 0 {
        0
    } else {
        down_sum(b, w, h, y, m - 1) + if fg(b, w, h, m - 1, y) && !fg(b, w, h, m - 2, y) {
            m - 1
        } else {
            0
        }
    }
}

/// A vertex row's edge terms: `y` times its horizontal count, plus the
/// vertical edges, which belong to the pixel rows on either side.
proof fn lemma_vrow_split(b: Seq<u8>, w: int, h: int, y: int, m: int)
    requires
        0 <= m,
    ensures
        vrow_part(b, w, h, y, m) == y * hsum(b, w, h, y, m) + up_sum(b, w, h, y, m) - down_sum(b, w, h, y - 1, m),
    decreases m,
{
    if m > 0 {
        lemma_vrow_split(b, w, h, y, m - 1);
        let t = b2i(bedge(b, w, h, m - 1, y, 2)) - b2i(bedge(b, w, h, m - 1, y, 0));
        let hp = hsum(b, w, h, y, m - 1);
        assert(y * (hp + t) == y * hp + y * t) by (nonlinear_arith);
        assert(y * t == (if bedge(b, w, h, m - 1, y, 2) {
            y
        } else {
            0
        }) - (if bedge(b, w, h, m - 1, y, 0) {
            y
        } else {
            0
        })) by (nonlinear_arith)
            requires
                t == b2i(bedge(b, w, h, m - 1, y, 2)) - b2i(bedge(b, w, h, m - 1, y, 0)),
        ;
    }
}

/// Horizontal count of a vertex row: ink pixels of the row above less ink
/// pixels of the row below, up to where the counting stops.
proof fn lemma_hsum(b: Seq<u8>, w: int, h: int, y: int, m: int)
    requires
        0 <= m,
    ensures
        hsum(b, w, h, y, m) == row_ink(b, w, h, y - 1, m) - row_ink(b, w, h, y, m) - b2i(
            fg(b, w, h, m - 1, y - 1) && !fg(b, w, h, m - 1, y),
        ),
    decreases m,
{
    if m > 0 {
        lemma_hsum(b, w, h, y, m - 1);
    }
}

/// Ink starts and ends of a pixel row, weighted by column, telescope to its
/// ink count.
proof fn lemma_up_down(b: Seq<u8>, w: int, h: int, y: int, m: int)
    requires
        0 <= m,
    ensures
        up_sum(b, w, h, y, m) - down_sum(b, w, h, y, m) == row_ink(b, w, h, y, m) - (if fg(b, w, h, m - 1, y) {
            m
        } else {
            0
        }),
    decreases m,
{
    if m > 0 {
        lemma_up_down(b, w, h, y, m - 1);
    }
}

/// A row outside the image holds no ink.
proof fn lemma_row_outside(b: Seq<u8>, w: int, h: int, y: int, m: int)
    requires
        y < 0 || y >= h,
    ensures
        row_ink(b, w, h, y, m) == 0,
        down_sum(b, w, h, y, m) == 0,
    decreases m,
{
    if m > 0 {
        lemma_row_outside(b, w, h, y, m - 1);
    }
}

/// The first `m` vertex rows' edge terms, in ink counts.
proof fn lemma_vrows(b: Seq<u8>, w: int, h: int, m: int)
    requires
        0 <= w,
        0 <= m <= h + 1,
    ensures
        vrows(b, w, h, m) == 2 * rows_ink(b, w, h, m) - m * row_ink(b, w, h, m - 1, w) + down_sum(
            b,
            w,
            h,
            m - 1,
            w + 1,
        ),
    decreases m,
{
    if m == 0 {
        lemma_row_outside(b, w, h, -1, w + 1);
    } else {
        let y = m - 1;
        lemma_vrows(b, w, h, y);
        lemma_vrow_split(b, w, h, y, w + 1);
        lemma_hsum(b, w, h, y, w + 1);
        lemma_up_down(b, w, h, y, w + 1);
        let r0 = row_ink(b, w, h, y - 1, w);
        let r1 = row_ink(b, w, h, y, w);
        assert(row_ink(b, w, h, y - 1, w + 1) == r0);
        assert(row_ink(b, w, h, y, w + 1) == r1);
        assert(y * (r0 - r1) == y * r0 - y * r1) by (nonlinear_arith);
        assert(m * r1 == y * r1 + r1) by (nonlinear_arith)
            requires
                m == y + 1,
        ;
    }
}

/// The boundary loops of a binary image enclose its ink: traced with the ink
/// on their right, the loops' signed areas (a loop turning clockwise on
/// screen, y down, counting positive) add up to the number of ink pixels, so
/// outer contours count their pixels in and holes take theirs back out.
pub proof fn lemma_tracing_area(b: Seq<u8>, w: int, h: int, loops: Seq<Vec<(i32, i32)>>)
    requires
        boundary_tracing(b, w, h, loops),
        0 <= w,
        0 <= h,
    ensures
        loops_area2(loops, loops.len() as int) == 2 * ink_area(b, w, h),
{
    let n = 4 * (w + 1) * (h + 1);
    lemma_positions(b, w, h, loops, loops.len() as int, 0);
    assert(0 <= n) by (nonlinear_arith)
        requires
            0 <= w,
            0 <= h,
            n == 4 * (w + 1) * (h + 1),
    ;
    lemma_all_codes(b, w, h, loops, n);
    lemma_grid_by_vertices(b, w, h, h, w + 1);
    assert(4 * (h * (w + 1) + (w + 1)) == n) by (nonlinear_arith)
        requires
            n == 4 * (w + 1) * (h + 1),
    ;
    lemma_vrows(b, w, h, h + 1);
    lemma_row_outside(b, w, h, h, w);
    lemma_row_outside(b, w, h, h, w + 1);
    assert((h + 1) * row_ink(b, w, h, h, w) == 0) by (nonlinear_arith)
        requires
            row_ink(b, w, h, h, w) == 0,
    ;
}

/// How each traced loop turns at its start, its least vertex (x first, then
/// y): an outer contour leaves it rightwards along the top of an ink pixel
/// and comes back upwards, a clockwise corner on screen (y down); a hole's
/// boundary leaves it downwards with ink on its right and background on its
/// left, and comes back leftwards, a counter-clockwise corner.
pub proof fn lemma_loop_start(b: Seq<u8>, w: int, h: int, loops: Seq<Vec<(i32, i32)>>, k: int)
    requires
        boundary_tracing(b, w, h, loops),
        0 <= k < loops.len(),
    ensures
        ({
            let l = loops[k]@;
            let x = l[0].0 as int;
            let y = l[0].1 as int;
            let first = dir_of(l[0], l[1]);
            let last = dir_of(l[l.len() - 1], l[0]);
            ||| first == 0 && last == 3 && fg(b, w, h, x, y) && !fg(b, w, h, x, y - 1)
            ||| first == 1 && last == 2 && fg(b, w, h, x - 1, y) && !fg(b, w, h, x, y)
        }),
{
    let l = loops[k]@;
    let n = l.len() as int;
    let e0 = loop_edge(l, 0);
    let el = loop_edge(l, n - 1);
    assert(bedge(b, w, h, e0.0, e0.1, e0.2));
    assert(bedge(b, w, h, el.0, el.1, el.2));
    vstd::arithmetic::div_mod::lemma_mod_self_0(n);
    vstd::arithmetic::div_mod::lemma_small_mod(1, n as nat);
    assert((n - 1 + 1) % n == 0int);
    assert(lex_before(vtx(l[0]), vtx(l[1])));
    assert(lex_before(vtx(l[0]), vtx(l[n - 1])));
}

/// Every traced loop has at least four vertices: each side is a unit step,
/// and a closed walk of unit steps on the grid has an even length, so three
/// sides cannot close.
pub proof fn lemma_loop_len(b: Seq<u8>, w: int, h: int, loops: Seq<Vec<(i32, i32)>>, k: int)
    requires
        boundary_tracing(b, w, h, loops),
        0 <= k < loops.len(),
    ensures
        loops[k]@.len() >= 4,
{
    let l = loops[k]@;
    if l.len() == 3 {
        let e0 = loop_edge(l, 0);
        let e1 = loop_edge(l, 1);
        let e2 = loop_edge(l, 2);
        assert(bedge(b, w, h, e0.0, e0.1, e0.2));
        assert(bedge(b, w, h, e1.0, e1.1, e1.2));
        assert(bedge(b, w, h, e2.0, e2.1, e2.2));
        lemma_bedge_in_grid(b, w, h, e0.0, e0.1, e0.2);
        lemma_bedge_in_grid(b, w, h, e1.0, e1.1, e1.2);
        lemma_bedge_in_grid(b, w, h, e2.0, e2.1, e2.2);
        assert((0int + 1) % 3 == 1 && (1int + 1) % 3 == 2 && (2int + 1) % 3 == 0);
        let s0 = l[0].0 + l[0].1;
        let s1 = l[1].0 + l[1].1;
        let s2 = l[2].0 + l[2].1;
        assert(s1 == s0 + 1 || s1 == s0 - 1);
        assert(s2 == s1 + 1 || s2 == s1 - 1);
        assert(s0 == s2 + 1 || s0 == s2 - 1);
    }
}

} // verus!
