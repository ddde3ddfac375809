//! Ink blobs of a rectangle of a binary page: the 4-connected components of
//! its ink pixels, labelled with union-find and summarised by area,
//! coordinate sums and bounding box.
use vstd::prelude::*;
use crate::grid::{col_of, row_of, index_of, inside, lemma_coords, lemma_index_of};
use crate::components::{
    is_ink, adjacent, path_step, is_ink_path, connected, lemma_connected_refl, lemma_connected_sym,
    lemma_connected_trans, lemma_connected_step, lemma_connected_ends,
};
use crate::unionfind::{
    uf_wf, uf_init, root_of, same_set, merged_root, lemma_root_of, lemma_union_same_set, uf_new, find,
    union,
};

verus! {

/// `b` with every pixel from index `k` on made white: the part of the image
/// that a raster scan has reached before pixel `k`.
pub open spec fn prefix_mask(b: Seq<u8>, k: int) -> Seq<u8> {
    Seq::new(b.len(), |i: int| if i < k { b[i] } else { 255u8 })
}

/// Pixels `x` and `y` are joined by ink among the first `k` pixels.
pub open spec fn conn_before(m: Seq<u8>, w: int, h: int, k: int, x: int, y: int) -> bool {
    connected(prefix_mask(m, k), w, h, false, x, y)
}

/// `x` reaches the ink pixel above `q` among the pixels before `q`.
pub open spec fn up_join(m: Seq<u8>, w: int, h: int, q: int, x: int) -> bool {
    row_of(w, q) >= 1 && conn_before(m, w, h, q, x, q - w)
}

/// `x` reaches the ink pixel left of `q` among the pixels before `q`.
pub open spec fn left_join(m: Seq<u8>, w: int, h: int, q: int, x: int) -> bool {
    col_of(w, q) >= 1 && conn_before(m, w, h, q, x, q - 1)
}

/// `x` is `q` or reaches one of its earlier 4-neighbours.
pub open spec fn touches(m: Seq<u8>, w: int, h: int, q: int, x: int) -> bool {
    x == q || up_join(m, w, h, q, x) || left_join(m, w, h, q, x)
}

/// Ink-connectivity with more ink is no weaker.
proof fn lemma_more_ink(b1: Seq<u8>, b2: Seq<u8>, w: int, h: int, x: int, y: int)
    requires
        forall|i: int| #[trigger] is_ink(b1, w * h, i) ==> is_ink(b2, w * h, i),
        connected(b1, w, h, false, x, y),
    ensures
        connected(b2, w, h, false, x, y),
{
    let p = choose|p: Seq<int>|
        #[trigger] is_ink_path(b1, w, h, false, p) && p[0] == x && p[p.len() - 1] == y;
    assert forall|k: int| 0 <= k < p.len() implies is_ink(b2, w * h, #[trigger] p[k]) by {
        assert(is_ink(b1, w * h, p[k]));
    }
    assert forall|k: int| 0 <= k < p.len() - 1 implies #[trigger] path_step(w, h, false, p, k) by {
        assert(path_step(w, h, false, p, k));
    }
    assert(is_ink_path(b2, w, h, false, p));
}

/// A 4-neighbour of `q` with a smaller index is the pixel above or the pixel
/// to the left.
proof fn lemma_lower_neighbour(w: int, h: int, q: int, u: int)
    requires
        0 < w,
        adjacent(w, h, false, q, u),
        u < q,
    ensures
        (u == q - w && row_of(w, q) >= 1) || (u == q - 1 && col_of(w, q) >= 1),
{
    lemma_coords(w, h, q);
    lemma_coords(w, h, u);
    let cq = col_of(w, q);
    let rq = row_of(w, q);
    let cu = col_of(w, u);
    let ru = row_of(w, u);
    assert(q == rq * w + cq);
    assert(u == ru * w + cu);
    if cq == cu {
        if ru == rq + 1 {
            assert(ru * w == rq * w + w) by (nonlinear_arith)
                requires
                    ru == rq + 1,
            ;
        } else {
            assert(ru == rq - 1);
            assert(ru * w == rq * w - w) by (nonlinear_arith)
                requires
                    ru == rq - 1,
            ;
        }
    } else {
        assert(ru == rq);
    }
}

/// The pixels above and to the left of `q` are 4-neighbours of it.
proof fn lemma_upper_neighbours(w: int, h: int, q: int)
    requires
        0 < w,
        0 <= q < w * h,
    ensures
        row_of(w, q) >= 1 ==> adjacent(w, h, false, q - w, q),
        col_of(w, q) >= 1 ==> adjacent(w, h, false, q - 1, q),
{
    lemma_coords(w, h, q);
    let c = col_of(w, q);
    let r = row_of(w, q);
    if r >= 1 {
        assert((r - 1) * w == r * w - w) by (nonlinear_arith);
        lemma_index_of(w, h, c, r - 1);
    }
    if c >= 1 {
        lemma_index_of(w, h, c - 1, r);
    }
}

/// Facts about the two prefix masks around an ink pixel `q`.
proof fn lemma_prefix_ink(m: Seq<u8>, w: int, h: int, q: int, u: int)
    requires
        m.len() == w * h,
        0 <= q < w * h,
    ensures
        is_ink(prefix_mask(m, q), w * h, u) <==> (0 <= u < q && m[u] == 0),
        is_ink(prefix_mask(m, q + 1), w * h, u) <==> (0 <= u <= q && m[u] == 0),
{
}

/// Every walk through the ink before `q + 1` either stays joined before `q`
/// or has both ends touching `q`.
proof fn lemma_walk_through(m: Seq<u8>, w: int, h: int, q: int, p: Seq<int>)
    requires
        0 < w,
        m.len() == w * h,
        0 <= q < w * h,
        m[q] == 0,
        is_ink_path(prefix_mask(m, q + 1), w, h, false, p),
    ensures
        conn_before(m, w, h, q, p[0], p[p.len() - 1]) || (touches(m, w, h, q, p[0]) && touches(
            m,
            w,
            h,
            q,
            p[p.len() - 1],
        )),
    decreases p.len(),
{
    let mq = prefix_mask(m, q);
    let mq1 = prefix_mask(m, q + 1);
    let n = w * h;
    if p.len() == 1 {
        let x = p[0];
        assert(is_ink(mq1, n, p[0]));
        lemma_prefix_ink(m, w, h, q, x);
        if x != q {
            lemma_connected_refl(mq, w, h, false, x);
        }
    } else {
        let pre = p.drop_last();
        assert forall|k: int| 0 <= k < pre.len() implies is_ink(mq1, n, #[trigger] pre[k]) by {
            assert(is_ink(mq1, n, p[k]));
        }
        assert forall|k: int| 0 <= k < pre.len() - 1 implies #[trigger] path_step(w, h, false, pre, k) by {
            assert(path_step(w, h, false, p, k));
        }
        assert(is_ink_path(mq1, w, h, false, pre));
        lemma_walk_through(m, w, h, q, pre);
        let a = p[0];
        let t = pre[pre.len() - 1];
        let u = p[p.len() - 1];
        assert(t == p[p.len() - 2]);
        assert(path_step(w, h, false, p, p.len() - 2));
        assert(adjacent(w, h, false, t, u));
        assert(is_ink(mq1, n, u));
        assert(is_ink(mq1, n, t));
        lemma_prefix_ink(m, w, h, q, u);
        lemma_prefix_ink(m, w, h, q, t);
        if conn_before(m, w, h, q, a, t) {
            lemma_connected_ends(mq, w, h, false, a, t);
            if u != q {
                lemma_connected_step(mq, w, h, false, a, t, u);
            } else {
                lemma_lower_neighbour(w, h, q, t);
                assert(touches(m, w, h, q, a));
            }
        } else {
            assert(touches(m, w, h, q, a) && touches(m, w, h, q, t));
            if u != q {
                assert(is_ink(mq, n, u));
                if t == q {
                    lemma_lower_neighbour(w, h, q, u);
                    lemma_connected_refl(mq, w, h, false, u);
                } else if up_join(m, w, h, q, t) {
                    lemma_connected_sym(mq, w, h, false, t, q - w);
                    lemma_connected_step(mq, w, h, false, q - w, t, u);
                    lemma_connected_sym(mq, w, h, false, q - w, u);
                } else {
                    assert(left_join(m, w, h, q, t));
                    lemma_connected_sym(mq, w, h, false, t, q - 1);
                    lemma_connected_step(mq, w, h, false, q - 1, t, u);
                    lemma_connected_sym(mq, w, h, false, q - 1, u);
                }
            }
        }
    }
}

/// Adding ink pixel `q` to the scanned part joins exactly the pixels that
/// touch it.
pub proof fn lemma_extend_ink(m: Seq<u8>, w: int, h: int, q: int, x: int, y: int)
    requires
        0 < w,
        m.len() == w * h,
        0 <= q < w * h,
        m[q] == 0,
    ensures
        conn_before(m, w, h, q + 1, x, y) <==> (conn_before(m, w, h, q, x, y) || (touches(m, w, h, q, x)
            && touches(m, w, h, q, y))),
{
    let mq = prefix_mask(m, q);
    let mq1 = prefix_mask(m, q + 1);
    let n = w * h;
    assert forall|i: int| #[trigger] is_ink(mq, n, i) implies is_ink(mq1, n, i) by {
        lemma_prefix_ink(m, w, h, q, i);
    }
    if conn_before(m, w, h, q + 1, x, y) {
        let p = choose|p: Seq<int>|
            #[trigger] is_ink_path(mq1, w, h, false, p) && p[0] == x && p[p.len() - 1] == y;
        lemma_walk_through(m, w, h, q, p);
    }
    if conn_before(m, w, h, q, x, y) {
        lemma_more_ink(mq, mq1, w, h, x, y);
    }
    if touches(m, w, h, q, x) && touches(m, w, h, q, y) {
        lemma_prefix_ink(m, w, h, q, q);
        lemma_connected_refl(mq1, w, h, false, q);
        lemma_upper_neighbours(w, h, q);
        assert(connected(mq1, w, h, false, x, q)) by {
            if up_join(m, w, h, q, x) {
                lemma_more_ink(mq, mq1, w, h, x, q - w);
                lemma_connected_step(mq1, w, h, false, x, q - w, q);
            } else if left_join(m, w, h, q, x) {
                lemma_more_ink(mq, mq1, w, h, x, q - 1);
                lemma_connected_step(mq1, w, h, false, x, q - 1, q);
            }
        }
        assert(connected(mq1, w, h, false, y, q)) by {
            if up_join(m, w, h, q, y) {
                lemma_more_ink(mq, mq1, w, h, y, q - w);
                lemma_connected_step(mq1, w, h, false, y, q - w, q);
            } else if left_join(m, w, h, q, y) {
                lemma_more_ink(mq, mq1, w, h, y, q - 1);
                lemma_connected_step(mq1, w, h, false, y, q - 1, q);
            }
        }
        lemma_connected_sym(mq1, w, h, false, y, q);
        lemma_connected_trans(mq1, w, h, false, x, q, y);
    }
}

/// Passing a white pixel changes no connection.
pub proof fn lemma_extend_white(m: Seq<u8>, w: int, h: int, q: int, x: int, y: int)
    requires
        m.len() == w * h,
        0 <= q < w * h,
        m[q] != 0,
    ensures
        conn_before(m, w, h, q + 1, x, y) <==> conn_before(m, w, h, q, x, y),
{
    let mq = prefix_mask(m, q);
    let mq1 = prefix_mask(m, q + 1);
    let n = w * h;
    assert forall|i: int| #[trigger] is_ink(mq, n, i) implies is_ink(mq1, n, i) by {
        lemma_prefix_ink(m, w, h, q, i);
    }
    assert forall|i: int| #[trigger] is_ink(mq1, n, i) implies is_ink(mq, n, i) by {
        lemma_prefix_ink(m, w, h, q, i);
    }
    if conn_before(m, w, h, q + 1, x, y) {
        lemma_more_ink(mq1, mq, w, h, x, y);
    }
    if conn_before(m, w, h, q, x, y) {
        lemma_more_ink(mq, mq1, w, h, x, y);
    }
}

/// `x` and `y` are the same pixel or joined by ink before pixel `k`.
pub open spec fn linked(m: Seq<u8>, w: int, h: int, k: int, x: int, y: int) -> bool {
    x == y || conn_before(m, w, h, k, x, y)
}

/// The relation after `q` has been merged with the pixel above it.
pub open spec fn linked_up(m: Seq<u8>, w: int, h: int, q: int, x: int, y: int) -> bool {
    linked(m, w, h, q, x, y) || ((x == q || up_join(m, w, h, q, x)) && (y == q || up_join(m, w, h, q, y)))
}

/// The relation after `q` has been merged with both earlier neighbours.
pub open spec fn linked_both(m: Seq<u8>, w: int, h: int, q: int, x: int, y: int) -> bool {
    linked(m, w, h, q, x, y) || (touches(m, w, h, q, x) && touches(m, w, h, q, y))
}

/// Union-find `(p, r)` holds exactly the relation `linked` at `k`.
pub open spec fn labels_match(m: Seq<u8>, w: int, h: int, k: int, p: Seq<usize>, r: Seq<usize>) -> bool {
    forall|x: int, y: int|
        0 <= x < w * h && 0 <= y < w * h ==> (#[trigger] same_set(p, r, x, y) <==> linked(m, w, h, k, x, y))
}

/// Nothing before `q` is joined to `q`, which is still white there.
proof fn lemma_q_alone(m: Seq<u8>, w: int, h: int, q: int, x: int)
    requires
        m.len() == w * h,
        0 <= q < w * h,
    ensures
        !conn_before(m, w, h, q, x, q),
        !conn_before(m, w, h, q, q, x),
{
    if conn_before(m, w, h, q, x, q) {
        lemma_connected_ends(prefix_mask(m, q), w, h, false, x, q);
    }
    if conn_before(m, w, h, q, q, x) {
        lemma_connected_ends(prefix_mask(m, q), w, h, false, q, x);
    }
}

/// Union with the pixel above turns `linked` into `linked_up`.
proof fn lemma_union_up(
    m: Seq<u8>,
    w: int,
    h: int,
    q: int,
    p0: Seq<usize>,
    r0: Seq<usize>,
    p1: Seq<usize>,
    r1: Seq<usize>,
)
    requires
        0 < w,
        m.len() == w * h,
        0 <= q < w * h,
        row_of(w, q) >= 1,
        m[q - w] == 0,
        uf_wf(p0, r0),
        p0.len() == w * h,
        labels_match(m, w, h, q, p0, r0),
        forall|j: int|
            0 <= j < p0.len() ==> #[trigger] root_of(p1, r1, j) == merged_root(
                p0,
                r0,
                root_of(p0, r0, q),
                root_of(p0, r0, q - w),
                j,
            ),
    ensures
        forall|x: int, y: int|
            0 <= x < w * h && 0 <= y < w * h ==> (#[trigger] same_set(p1, r1, x, y) <==> linked_up(
                m,
                w,
                h,
                q,
                x,
                y,
            )),
{
    let u = q - w;
    let mq = prefix_mask(m, q);
    lemma_coords(w, h, q);
    assert(0 <= u < q) by (nonlinear_arith)
        requires
            u == q - w,
            0 < w,
            q == row_of(w, q) * w + col_of(w, q),
            row_of(w, q) >= 1,
            col_of(w, q) >= 0,
    ;
    lemma_prefix_ink(m, w, h, q, u);
    lemma_connected_refl(mq, w, h, false, u);
    assert forall|x: int, y: int|
        0 <= x < w * h && 0 <= y < w * h implies (#[trigger] same_set(p1, r1, x, y) <==> linked_up(
            m,
            w,
            h,
            q,
            x,
            y,
        )) by {
        lemma_union_same_set(p0, r0, p1, r1, q, u, x, y);
        assert(same_set(p0, r0, x, y) <==> linked(m, w, h, q, x, y));
        assert(same_set(p0, r0, x, q) <==> linked(m, w, h, q, x, q));
        assert(same_set(p0, r0, y, u) <==> linked(m, w, h, q, y, u));
        assert(same_set(p0, r0, x, u) <==> linked(m, w, h, q, x, u));
        assert(same_set(p0, r0, y, q) <==> linked(m, w, h, q, y, q));
        lemma_q_alone(m, w, h, q, x);
        lemma_q_alone(m, w, h, q, y);
        if up_join(m, w, h, q, x) && up_join(m, w, h, q, y) {
            lemma_connected_sym(mq, w, h, false, y, u);
            lemma_connected_trans(mq, w, h, false, x, u, y);
        }
    }
}

/// Without an ink pixel above, `linked_up` is `linked`.
proof fn lemma_no_up(m: Seq<u8>, w: int, h: int, q: int, p: Seq<usize>, r: Seq<usize>)
    requires
        0 < w,
        m.len() == w * h,
        0 <= q < w * h,
        row_of(w, q) < 1 || m[q - w] != 0,
        labels_match(m, w, h, q, p, r),
    ensures
        forall|x: int, y: int|
            0 <= x < w * h && 0 <= y < w * h ==> (#[trigger] same_set(p, r, x, y) <==> linked_up(
                m,
                w,
                h,
                q,
                x,
                y,
            )),
{
    assert forall|x: int, y: int|
        0 <= x < w * h && 0 <= y < w * h implies (#[trigger] same_set(p, r, x, y) <==> linked_up(
            m,
            w,
            h,
            q,
            x,
            y,
        )) by {
        if up_join(m, w, h, q, x) {
            lemma_connected_ends(prefix_mask(m, q), w, h, false, x, q - w);
        }
        if up_join(m, w, h, q, y) {
            lemma_connected_ends(prefix_mask(m, q), w, h, false, y, q - w);
        }
    }
}

/// Union with the pixel to the left turns `linked_up` into `linked_both`.
proof fn lemma_union_left(
    m: Seq<u8>,
    w: int,
    h: int,
    q: int,
    p0: Seq<usize>,
    r0: Seq<usize>,
    p1: Seq<usize>,
    r1: Seq<usize>,
)
    requires
        0 < w,
        m.len() == w * h,
        0 <= q < w * h,
        col_of(w, q) >= 1,
        m[q - 1] == 0,
        uf_wf(p0, r0),
        p0.len() == w * h,
        forall|x: int, y: int|
            0 <= x < w * h && 0 <= y < w * h ==> (#[trigger] same_set(p0, r0, x, y) <==> linked_up(
                m,
                w,
                h,
                q,
                x,
                y,
            )),
        forall|j: int|
            0 <= j < p0.len() ==> #[trigger] root_of(p1, r1, j) == merged_root(
                p0,
                r0,
                root_of(p0, r0, q),
                root_of(p0, r0, q - 1),
                j,
            ),
    ensures
        forall|x: int, y: int|
            0 <= x < w * h && 0 <= y < w * h ==> (#[trigger] same_set(p1, r1, x, y) <==> linked_both(
                m,
                w,
                h,
                q,
                x,
                y,
            )),
{
    let l = q - 1;
    let mq = prefix_mask(m, q);
    lemma_coords(w, h, q);
    lemma_prefix_ink(m, w, h, q, l);
    lemma_connected_refl(mq, w, h, false, l);
    assert forall|x: int, y: int|
        0 <= x < w * h && 0 <= y < w * h implies (#[trigger] same_set(p1, r1, x, y) <==> linked_both(
            m,
            w,
            h,
            q,
            x,
            y,
        )) by {
        lemma_union_same_set(p0, r0, p1, r1, q, l, x, y);
        assert(same_set(p0, r0, x, y) <==> linked_up(m, w, h, q, x, y));
        assert(same_set(p0, r0, x, q) <==> linked_up(m, w, h, q, x, q));
        assert(same_set(p0, r0, y, l) <==> linked_up(m, w, h, q, y, l));
        assert(same_set(p0, r0, x, l) <==> linked_up(m, w, h, q, x, l));
        assert(same_set(p0, r0, y, q) <==> linked_up(m, w, h, q, y, q));
        lemma_q_alone(m, w, h, q, x);
        lemma_q_alone(m, w, h, q, y);
        lemma_q_alone(m, w, h, q, l);
        if left_join(m, w, h, q, x) && left_join(m, w, h, q, y) {
            lemma_connected_sym(mq, w, h, false, y, l);
            lemma_connected_trans(mq, w, h, false, x, l, y);
        }
        if up_join(m, w, h, q, x) && up_join(m, w, h, q, y) {
            lemma_connected_sym(mq, w, h, false, y, q - w);
            lemma_connected_trans(mq, w, h, false, x, q - w, y);
        }
        if left_join(m, w, h, q, y) {
            lemma_connected_sym(mq, w, h, false, y, l);
        }
        if left_join(m, w, h, q, x) {
            lemma_connected_sym(mq, w, h, false, x, l);
        }
        if up_join(m, w, h, q, l) {
            if up_join(m, w, h, q, x) {
                lemma_connected_sym(mq, w, h, false, l, q - w);
                lemma_connected_trans(mq, w, h, false, x, q - w, l);
            }
            if up_join(m, w, h, q, y) {
                lemma_connected_sym(mq, w, h, false, l, q - w);
                lemma_connected_trans(mq, w, h, false, y, q - w, l);
            }
        }
        if conn_before(m, w, h, q, x, l) && up_join(m, w, h, q, l) {
            lemma_connected_trans(mq, w, h, false, x, l, q - w);
        }
        if conn_before(m, w, h, q, y, l) && up_join(m, w, h, q, l) {
            lemma_connected_trans(mq, w, h, false, y, l, q - w);
        }
    }
}

/// Without an ink pixel to the left, `linked_both` is `linked_up`.
proof fn lemma_no_left(m: Seq<u8>, w: int, h: int, q: int, p: Seq<usize>, r: Seq<usize>)
    requires
        0 < w,
        m.len() == w * h,
        0 <= q < w * h,
        col_of(w, q) < 1 || m[q - 1] != 0,
        forall|x: int, y: int|
            0 <= x < w * h && 0 <= y < w * h ==> (#[trigger] same_set(p, r, x, y) <==> linked_up(
                m,
                w,
                h,
                q,
                x,
                y,
            )),
    ensures
        forall|x: int, y: int|
            0 <= x < w * h && 0 <= y < w * h ==> (#[trigger] same_set(p, r, x, y) <==> linked_both(
                m,
                w,
                h,
                q,
                x,
                y,
            )),
{
    assert forall|x: int, y: int|
        0 <= x < w * h && 0 <= y < w * h implies (#[trigger] same_set(p, r, x, y) <==> linked_both(
            m,
            w,
            h,
            q,
            x,
            y,
        )) by {
        assert(same_set(p, r, x, y) <==> linked_up(m, w, h, q, x, y));
        if left_join(m, w, h, q, x) {
            lemma_connected_ends(prefix_mask(m, q), w, h, false, x, q - 1);
        }
        if left_join(m, w, h, q, y) {
            lemma_connected_ends(prefix_mask(m, q), w, h, false, y, q - 1);
        }
    }
}

/// Value of the page pixel at `(x, y)`, each coordinate clamped to the last
/// column or row.
pub open spec fn clamped_pixel(binary: Seq<u8>, bw: int, bh: int, x: int, y: int) -> u8 {
    let cx = if x < bw - 1 { x } else { bw - 1 };
    let cy = if y < bh - 1 { y } else { bh - 1 };
    binary[index_of(bw, cx, cy)]
}

/// The rectangle of `w` by `h` pixels at `(x0, y0)` of a `bw` by `bh` page,
/// as a row-major grid; coordinates past the page's edge read its last
/// column or row.
pub open spec fn region_mask(binary: Seq<u8>, bw: int, bh: int, x0: int, y0: int, w: int, h: int) -> Seq<u8> {
    Seq::new((w * h) as nat, |i: int| clamped_pixel(binary, bw, bh, x0 + i % w, y0 + i / w))
}

/// Raster position `(ix, iy)` of index `idx`, with what the scan's next step
/// needs.
pub proof fn lemma_grid_step(w: int, h: int, idx: int, ix: int, iy: int)
    requires
        0 < w,
        0 <= idx < w * h,
        0 <= ix < w,
        0 <= iy,
        idx == iy * w + ix,
    ensures
        iy < h,
        col_of(w, idx) == ix,
        row_of(w, idx) == iy,
        iy > 0 ==> idx >= w,
        (iy + 1) * w == iy * w + w,
{
    if !(iy < h) {
        assert(iy * w >= h * w) by (nonlinear_arith)
            requires
                iy >= h,
                w > 0,
        ;
        assert(h * w == w * h) by (nonlinear_arith);
    }
    lemma_index_of(w, h, ix, iy);
    assert(iy > 0 ==> iy * w >= w) by (nonlinear_arith)
        requires
            w > 0,
            iy >= 0,
    ;
    assert((iy + 1) * w == iy * w + w) by (nonlinear_arith);
}

/// Copies the rectangle out of the page.
fn region_pixels(binary: &[u8], bw: u32, bh: u32, x0: u32, y0: u32, w: u32, h: u32) -> (m: Vec<u8>)
    requires
        bw > 0,
        bh > 0,
        w > 0,
        h > 0,
        binary@.len() == (bw as int) * (bh as int),
        x0 + w <= u32::MAX,
        y0 + h <= u32::MAX,
        (w as int) * (h as int) <= u32::MAX,
    ensures
        m@ == region_mask(binary@, bw as int, bh as int, x0 as int, y0 as int, w as int, h as int),
{
    let n = (w as usize) * (h as usize);
    let ghost wi = w as int;
    let ghost hi = h as int;
    let mut m: Vec<u8> = Vec::new();
    let mut idx: usize = 0;
    let mut ix: u32 = 0;
    let mut iy: u32 = 0;
    while idx < n
        invariant
            n == wi * hi,
            wi == w as int,
            hi == h as int,
            w > 0,
            h > 0,
            bw > 0,
            bh > 0,
            binary@.len() == (bw as int) * (bh as int),
            x0 + w <= u32::MAX,
            y0 + h <= u32::MAX,
            0 <= idx <= n,
            ix < w,
            idx == iy * wi + ix,
            m@.len() == idx,
            forall|i: int|
                0 <= i < idx ==> #[trigger] m@[i] == clamped_pixel(
                    binary@,
                    bw as int,
                    bh as int,
                    x0 + i % wi,
                    y0 + i / wi,
                ),
        decreases n - idx,
    {
        proof {
            lemma_grid_step(wi, hi, idx as int, ix as int, iy as int);
        }
        let ax = x0 + ix;
        let ay = y0 + iy;
        let px = if ax < bw - 1 { ax } else { bw - 1 };
        let py = if ay < bh - 1 { ay } else { bh - 1 };
        proof {
            lemma_index_of(bw as int, bh as int, px as int, py as int);
        }
        let blen = binary.len();
        let v = binary[(py as usize) * (bw as usize) + (px as usize)];
        m.push(v);
        idx += 1;
        ix += 1;
        if ix == w {
            ix = 0;
            iy += 1;
        }
    }
    proof {
        assert(m@ =~= region_mask(binary@, bw as int, bh as int, x0 as int, y0 as int, wi, hi));
    }
    m
}

/// Union-find over the `w` by `h` grid `m` that groups its ink pixels into
/// 4-connected components: two pixels share a root exactly when they are the
/// same pixel or joined by ink. Each ink pixel is merged with the ink pixel
/// above it, then with the ink pixel to its left, in raster order.
fn label_components(m: &Vec<u8>, w: u32, h: u32) -> (r: (Vec<usize>, Vec<usize>))
    requires
        w > 0,
        h > 0,
        (w as int) * (h as int) <= u32::MAX,
        m@.len() == (w as int) * (h as int),
    ensures
        uf_wf(r.0@, r.1@),
        r.0@.len() == m@.len(),
        labels_match(m@, w as int, h as int, (w as int) * (h as int), r.0@, r.1@),
{
    let n = (w as usize) * (h as usize);
    let wu = w as usize;
    let ghost wi = w as int;
    let ghost hi = h as int;
    let (mut parent, mut rank) = uf_new(n);
    proof {
        assert forall|x: int, y: int|
            0 <= x < wi * hi && 0 <= y < wi * hi implies (#[trigger] same_set(parent@, rank@, x, y)
            <==> linked(m@, wi, hi, 0, x, y)) by {
            lemma_root_of(parent@, rank@, x);
            lemma_root_of(parent@, rank@, y);
            if conn_before(m@, wi, hi, 0, x, y) {
                lemma_connected_ends(prefix_mask(m@, 0), wi, hi, false, x, y);
            }
        }
    }
    let mut idx: usize = 0;
    let mut ix: usize = 0;
    let mut iy: usize = 0;
    while idx < n
        invariant
            n == wi * hi,
            wi == w as int,
            hi == h as int,
            wu == w as usize,
            w > 0,
            h > 0,
            m@.len() == n,
            0 <= idx <= n,
            ix < wu,
            idx == iy * wi + ix,
            uf_wf(parent@, rank@),
            parent@.len() == n,
            labels_match(m@, wi, hi, idx as int, parent@, rank@),
        decreases n - idx,
    {
        let q = idx;
        proof {
            lemma_grid_step(wi, hi, q as int, ix as int, iy as int);
        }
        if m[q] == 0 {
            let ghost p0 = parent@;
            let ghost r0 = rank@;
            if iy > 0 && m[q - wu] == 0 {
                union(parent.as_mut_slice(), rank.as_mut_slice(), q, q - wu);
                proof {
                    lemma_union_up(m@, wi, hi, q as int, p0, r0, parent@, rank@);
                }
            } else {
                proof {
                    lemma_no_up(m@, wi, hi, q as int, parent@, rank@);
                }
            }
            let ghost p1 = parent@;
            let ghost r1 = rank@;
            if ix > 0 && m[q - 1] == 0 {
                union(parent.as_mut_slice(), rank.as_mut_slice(), q, q - 1);
                proof {
                    lemma_union_left(m@, wi, hi, q as int, p1, r1, parent@, rank@);
                }
            } else {
                proof {
                    lemma_no_left(m@, wi, hi, q as int, parent@, rank@);
                }
            }
            proof {
                assert forall|x: int, y: int|
                    0 <= x < wi * hi && 0 <= y < wi * hi implies (#[trigger] same_set(parent@, rank@, x, y)
                    <==> linked(m@, wi, hi, q + 1, x, y)) by {
                    assert(same_set(parent@, rank@, x, y) <==> linked_both(m@, wi, hi, q as int, x, y));
                    lemma_extend_ink(m@, wi, hi, q as int, x, y);
                }
            }
        } else {
            proof {
                assert forall|x: int, y: int|
                    0 <= x < wi * hi && 0 <= y < wi * hi implies (#[trigger] same_set(parent@, rank@, x, y)
                    <==> linked(m@, wi, hi, q + 1, x, y)) by {
                    lemma_extend_white(m@, wi, hi, q as int, x, y);
                }
            }
        }
        idx += 1;
        ix += 1;
        if ix == wu {
            ix = 0;
            iy += 1;
        }
    }
    (parent, rank)
}

/// A blob: one 4-connected component of ink. Coordinates are those of the
/// page; `sum_x` and `sum_y` add up the coordinates of its pixels.
#[derive(Clone, Copy, Debug, PartialEq, Eq, Structural)]
pub struct Blob {
    pub area: u32,
    pub sum_x: u64,
    pub sum_y: u64,
    pub min_x: u32,
    pub max_x: u32,
    pub min_y: u32,
    pub max_y: u32,
}

impl Blob {
    /// Width of the bounding box.
    pub fn width(&self) -> (r: u32)
        requires
            self.min_x <= self.max_x < u32::MAX,
        ensures
            r == self.max_x - self.min_x + 1,
    {
        self.max_x - self.min_x + 1
    }

    /// Height of the bounding box.
    pub fn height(&self) -> (r: u32)
        requires
            self.min_y <= self.max_y < u32::MAX,
        ensures
            r == self.max_y - self.min_y + 1,
    {
        self.max_y - self.min_y + 1
    }
}

/// Pixel `i` is joined by ink to pixel `s` in the grid `m`.
pub open spec fn joined(m: Seq<u8>, w: int, h: int, s: int, i: int) -> bool {
    connected(m, w, h, false, s, i)
}

/// Number of pixels among the first `k` joined to `s`.
pub open spec fn comp_area(m: Seq<u8>, w: int, h: int, s: int, k: int) -> nat
    decreases k,
{
    if k <= 0 {
        0
    } else {
        comp_area(m, w, h, s, k - 1) + if joined(m, w, h, s, k - 1) {
            1nat
        } else {
            0nat
        }
    }
}

/// Sum of the page columns (`x0` plus grid column) of the pixels among the
/// first `k` joined to `s`.
pub open spec fn comp_sum_x(m: Seq<u8>, w: int, h: int, x0: int, s: int, k: int) -> int
    decreases k,
{
    if k <= 0 {
        0
    } else {
        comp_sum_x(m, w, h, x0, s, k - 1) + if joined(m, w, h, s, k - 1) {
            x0 + (k - 1) % w
        } else {
            0
        }
    }
}

/// Sum of the page rows of the pixels among the first `k` joined to `s`.
pub open spec fn comp_sum_y(m: Seq<u8>, w: int, h: int, y0: int, s: int, k: int) -> int
    decreases k,
{
    if k <= 0 {
        0
    } else {
        comp_sum_y(m, w, h, y0, s, k - 1) + if joined(m, w, h, s, k - 1) {
            y0 + (k - 1) / w
        } else {
            0
        }
    }
}

/// Least page column of `s` and the pixels among the first `k` joined to it.
pub open spec fn comp_min_x(m: Seq<u8>, w: int, h: int, x0: int, s: int, k: int) -> int
    decreases k,
{
    if k <= 0 {
        x0 + s % w
    } else {
        let a = comp_min_x(m, w, h, x0, s, k - 1);
        let v = x0 + (k - 1) % w;
        if joined(m, w, h, s, k - 1) && v < a {
            v
        } else {
            a
        }
    }
}

/// Greatest page column of `s` and the pixels among the first `k` joined to it.
pub open spec fn comp_max_x(m: Seq<u8>, w: int, h: int, x0: int, s: int, k: int) -> int
    decreases k,
{
    if k <= 0 {
        x0 + s % w
    } else {
        let a = comp_max_x(m, w, h, x0, s, k - 1);
        let v = x0 + (k - 1) % w;
        if joined(m, w, h, s, k - 1) && v > a {
            v
        } else {
            a
        }
    }
}

/// Least page row of `s` and the pixels among the first `k` joined to it.
pub open spec fn comp_min_y(m: Seq<u8>, w: int, h: int, y0: int, s: int, k: int) -> int
    decreases k,
{
    if k <= 0 {
        y0 + s / w
    } else {
        let a = comp_min_y(m, w, h, y0, s, k - 1);
        let v = y0 + (k - 1) / w;
        if joined(m, w, h, s, k - 1) && v < a {
            v
        } else {
            a
        }
    }
}

/// Greatest page row of `s` and the pixels among the first `k` joined to it.
pub open spec fn comp_max_y(m: Seq<u8>, w: int, h: int, y0: int, s: int, k: int) -> int
    decreases k,
{
    if k <= 0 {
        y0 + s / w
    } else {
        let a = comp_max_y(m, w, h, y0, s, k - 1);
        let v = y0 + (k - 1) / w;
        if joined(m, w, h, s, k - 1) && v > a {
            v
        } else {
            a
        }
    }
}

/// `b` summarises the pixels among the first `k` joined to `s`, placed at
/// `(x0, y0)` on the page.
pub open spec fn blob_summarises(
    b: Blob,
    m: Seq<u8>,
    w: int,
    h: int,
    x0: int,
    y0: int,
    s: int,
    k: int,
) -> bool {
    &&& b.area == comp_area(m, w, h, s, k)
    &&& b.sum_x == comp_sum_x(m, w, h, x0, s, k)
    &&& b.sum_y == comp_sum_y(m, w, h, y0, s, k)
    &&& b.min_x == comp_min_x(m, w, h, x0, s, k)
    &&& b.max_x == comp_max_x(m, w, h, x0, s, k)
    &&& b.min_y == comp_min_y(m, w, h, y0, s, k)
    &&& b.max_y == comp_max_y(m, w, h, y0, s, k)
}

/// Pixel `i` is ink and the first pixel, in raster order, of its component.
pub open spec fn is_leader(m: Seq<u8>, w: int, h: int, i: int) -> bool {
    &&& is_ink(m, w * h, i)
    &&& forall|j: int| 0 <= j < i ==> !#[trigger] joined(m, w, h, j, i)
}

/// The first pixels of the components that start among the first `k`
/// pixels, in raster order.
pub open spec fn leaders(m: Seq<u8>, w: int, h: int, k: int) -> Seq<int>
    decreases k,
{
    if k <= 0 {
        Seq::empty()
    } else if is_leader(m, w, h, k - 1) {
        leaders(m, w, h, k - 1).push(k - 1)
    } else {
        leaders(m, w, h, k - 1)
    }
}

proof fn lemma_leaders_below(m: Seq<u8>, w: int, h: int, k: int)
    requires
        0 <= k,
    ensures
        forall|t: int| 0 <= t < leaders(m, w, h, k).len() ==> 0 <= #[trigger] leaders(m, w, h, k)[t] < k,
    decreases k,
{
    if k > 0 {
        lemma_leaders_below(m, w, h, k - 1);
        let l = leaders(m, w, h, k - 1);
        assert forall|t: int| 0 <= t < leaders(m, w, h, k).len() implies 0 <= #[trigger] leaders(
            m,
            w,
            h,
            k,
        )[t] < k by {
            if t < l.len() {
                assert(leaders(m, w, h, k)[t] == l[t]);
            }
        }
    }
}

/// Sizes and coordinates of a partial component stay in range.
proof fn lemma_comp_bounds(m: Seq<u8>, w: int, h: int, x0: int, y0: int, s: int, k: int)
    requires
        0 < w,
        0 < h,
        0 <= k <= w * h,
        0 <= s < w * h,
        0 <= x0,
        0 <= y0,
        x0 + w <= u32::MAX,
        y0 + h <= u32::MAX,
    ensures
        comp_area(m, w, h, s, k) <= k,
        0 <= comp_sum_x(m, w, h, x0, s, k) <= comp_area(m, w, h, s, k) * 0xffff_ffff,
        0 <= comp_sum_y(m, w, h, y0, s, k) <= comp_area(m, w, h, s, k) * 0xffff_ffff,
        x0 <= comp_min_x(m, w, h, x0, s, k) < x0 + w,
        x0 <= comp_max_x(m, w, h, x0, s, k) < x0 + w,
        y0 <= comp_min_y(m, w, h, y0, s, k) < y0 + h,
        y0 <= comp_max_y(m, w, h, y0, s, k) < y0 + h,
    decreases k,
{
    lemma_coords(w, h, s);
    if k > 0 {
        lemma_comp_bounds(m, w, h, x0, y0, s, k - 1);
        lemma_coords(w, h, k - 1);
        let a = comp_area(m, w, h, s, k - 1);
        assert((a + 1) * 0xffff_ffff == a * 0xffff_ffff + 0xffff_ffff) by (nonlinear_arith);
        assert(a * 0xffff_ffff <= (a + 1) * 0xffff_ffff) by (nonlinear_arith)
            requires
                a >= 0,
        ;
    }
}

/// With nothing before `k` joined to `s`, the partial component is empty
/// and its box is `s` itself.
proof fn lemma_comp_none(m: Seq<u8>, w: int, h: int, x0: int, y0: int, s: int, k: int)
    requires
        0 <= k,
        forall|j: int| 0 <= j < k ==> !#[trigger] joined(m, w, h, s, j),
    ensures
        comp_area(m, w, h, s, k) == 0,
        comp_sum_x(m, w, h, x0, s, k) == 0,
        comp_sum_y(m, w, h, y0, s, k) == 0,
        comp_min_x(m, w, h, x0, s, k) == x0 + s % w,
        comp_max_x(m, w, h, x0, s, k) == x0 + s % w,
        comp_min_y(m, w, h, y0, s, k) == y0 + s / w,
        comp_max_y(m, w, h, y0, s, k) == y0 + s / w,
    decreases k,
{
    if k > 0 {
        assert(!joined(m, w, h, s, k - 1));
        lemma_comp_none(m, w, h, x0, y0, s, k - 1);
    }
}

/// Scanning pixel `k` leaves alone every partial component it is not joined to.
proof fn lemma_comp_skip(m: Seq<u8>, w: int, h: int, x0: int, y0: int, s: int, k: int, b: Blob)
    requires
        0 <= k,
        !joined(m, w, h, s, k),
        blob_summarises(b, m, w, h, x0, y0, s, k),
    ensures
        blob_summarises(b, m, w, h, x0, y0, s, k + 1),
{
}

/// The blobs of the rectangle `[x0, x1) x [y0, y1)` of a `bw` by `bh`
/// binary page (ink is 0): one for each 4-connected component of its ink, in
/// the raster order of the components' first pixels. Coordinates past the
/// page's edge read its last column or row.
pub fn extract_blobs(binary: &[u8], bw: u32, bh: u32, x0: u32, y0: u32, x1: u32, y1: u32) -> (blobs: Vec<Blob>)
    requires
        x0 <= x1,
        y0 <= y1,
        binary@.len() == (bw as int) * (bh as int),
        ((x1 - x0) as int) * ((y1 - y0) as int) <= u32::MAX,
        x0 < x1 && y0 < y1 ==> bw > 0 && bh > 0,
    ensures
        ({
            let w = (x1 - x0) as int;
            let h = (y1 - y0) as int;
            let m = region_mask(binary@, bw as int, bh as int, x0 as int, y0 as int, w, h);
            let l = leaders(m, w, h, w * h);
            &&& blobs@.len() == l.len()
            &&& forall|t: int|
                0 <= t < l.len() ==> blob_summarises(
                    #[trigger] blobs@[t],
                    m,
                    w,
                    h,
                    x0 as int,
                    y0 as int,
                    l[t],
                    w * h,
                )
        }),
{
    let w = x1 - x0;
    let h = y1 - y0;
    if w == 0 || h == 0 {
        proof {
            assert((w as int) * (h as int) == 0) by (nonlinear_arith)
                requires
                    w == 0 || h == 0,
            ;
        }
        return Vec::new();
    }
    let m = region_pixels(binary, bw, bh, x0, y0, w, h);
    let (mut parent, mut rank) = label_components(&m, w, h);
    let n = (w as usize) * (h as usize);
    let ghost wi = w as int;
    let ghost hi = h as int;
    let ghost xi = x0 as int;
    let ghost yi = y0 as int;
    let ghost mm = m@;
    let ghost p1 = parent@;
    let ghost r1 = rank@;
    proof {
        assert(prefix_mask(mm, wi * hi) =~= mm);
    }
    let mut slot: Vec<usize> = vec![0usize; n];
    let mut blobs: Vec<Blob> = Vec::new();
    let mut idx: usize = 0;
    let mut ix: u32 = 0;
    let mut iy: u32 = 0;
    while idx < n
        invariant
            n == wi * hi,
            wi == w as int,
            hi == h as int,
            xi == x0 as int,
            yi == y0 as int,
            w > 0,
            h > 0,
            n <= u32::MAX,
            xi + wi <= u32::MAX,
            yi + hi <= u32::MAX,
            m@ == mm,
            mm.len() == n,
            0 <= idx <= n,
            ix < w,
            idx == iy * wi + ix,
            uf_wf(p1, r1),
            p1.len() == n,
            labels_match(mm, wi, hi, wi * hi, p1, r1),
            prefix_mask(mm, wi * hi) == mm,
            uf_wf(parent@, rank@),
            rank@ == r1,
            parent@.len() == n,
            forall|j: int| 0 <= j < n ==> #[trigger] root_of(parent@, rank@, j) == root_of(p1, r1, j),
            slot@.len() == n,
            blobs@.len() == leaders(mm, wi, hi, idx as int).len(),
            forall|t: int|
                0 <= t < leaders(mm, wi, hi, idx as int).len() ==> slot@[root_of(
                    p1,
                    r1,
                    #[trigger] leaders(mm, wi, hi, idx as int)[t],
                )] == t + 1,
            forall|t: int|
                0 <= t < leaders(mm, wi, hi, idx as int).len() ==> blob_summarises(
                    #[trigger] blobs@[t],
                    mm,
                    wi,
                    hi,
                    xi,
                    yi,
                    leaders(mm, wi, hi, idx as int)[t],
                    idx as int,
                ),
            forall|r: int|
                0 <= r < n && #[trigger] slot@[r] != 0 ==> slot@[r] <= leaders(
                    mm,
                    wi,
                    hi,
                    idx as int,
                ).len() && root_of(p1, r1, leaders(mm, wi, hi, idx as int)[slot@[r] - 1]) == r,
            forall|j: int| 0 <= j < idx && mm[j] == 0 ==> slot@[#[trigger] root_of(p1, r1, j)] != 0,
        decreases n - idx,
    {
        let q = idx;
        let ghost qi = q as int;
        let ghost l0 = leaders(mm, wi, hi, qi);
        let ghost l1 = leaders(mm, wi, hi, qi + 1);
        let ghost blobs0 = blobs@;
        let ghost slot0 = slot@;
        proof {
            lemma_grid_step(wi, hi, qi, ix as int, iy as int);
            lemma_leaders_below(mm, wi, hi, qi);
            lemma_root_of(p1, r1, qi);
        }
        if m[q] == 0 {
            let ghost pb = parent@;
            proof {
                assert(root_of(pb, rank@, qi) == root_of(p1, r1, qi));
            }
            let r = find(parent.as_mut_slice(), rank.as_slice(), q);
            proof {
                assert(r == root_of(p1, r1, qi));
            }
            let ax = x0 + ix;
            let ay = y0 + iy;
            let sr = slot[r];
            if sr == 0 {
                proof {
                    assert forall|j: int| 0 <= j < qi implies !#[trigger] joined(mm, wi, hi, j, qi) by {
                        if joined(mm, wi, hi, j, qi) {
                            lemma_connected_ends(mm, wi, hi, false, j, qi);
                            assert(same_set(p1, r1, j, qi));
                            assert(slot0[root_of(p1, r1, j)] != 0);
                        }
                    }
                    assert(is_leader(mm, wi, hi, qi));
                    assert(l1 == l0.push(qi));
                    assert forall|j: int| 0 <= j < qi implies !#[trigger] joined(mm, wi, hi, qi, j) by {
                        if joined(mm, wi, hi, qi, j) {
                            lemma_connected_sym(mm, wi, hi, false, qi, j);
                            assert(joined(mm, wi, hi, j, qi));
                        }
                    }
                    lemma_comp_none(mm, wi, hi, xi, yi, qi, qi);
                    lemma_connected_refl(mm, wi, hi, false, qi);
                }
                let b = Blob {
                    area: 1,
                    sum_x: ax as u64,
                    sum_y: ay as u64,
                    min_x: ax,
                    max_x: ax,
                    min_y: ay,
                    max_y: ay,
                };
                blobs.push(b);
                slot.set(r, blobs.len());
                proof {
                    assert(slot@ == slot0.update(r as int, (blobs0.len() + 1) as usize));
                    assert(blob_summarises(b, mm, wi, hi, xi, yi, qi, qi + 1));
                    assert forall|t: int| 0 <= t < l1.len() implies slot@[root_of(
                        p1,
                        r1,
                        #[trigger] l1[t],
                    )] == t + 1 by {
                        if t < l0.len() {
                            let s = l0[t];
                            lemma_root_of(p1, r1, s);
                            assert(l1[t] == s);
                            assert(slot0[root_of(p1, r1, s)] == t + 1);
                        }
                    }
                    assert forall|t: int| 0 <= t < l1.len() implies blob_summarises(
                        #[trigger] blobs@[t],
                        mm,
                        wi,
                        hi,
                        xi,
                        yi,
                        l1[t],
                        qi + 1,
                    ) by {
                        if t < l0.len() {
                            let s = l0[t];
                            lemma_root_of(p1, r1, s);
                            assert(l1[t] == s);
                            assert(blobs@[t] == blobs0[t]);
                            assert(blob_summarises(blobs0[t], mm, wi, hi, xi, yi, s, qi));
                            assert(slot0[root_of(p1, r1, l0[t])] == t + 1);
                            assert(root_of(p1, r1, s) != r);
                            assert(!same_set(p1, r1, s, qi));
                            lemma_comp_skip(mm, wi, hi, xi, yi, s, qi, blobs0[t]);
                        } else {
                            assert(blobs@[t] == b);
                        }
                    }
                    assert forall|rr: int| 0 <= rr < n && #[trigger] slot@[rr] != 0 implies slot@[rr]
                        <= l1.len() && root_of(p1, r1, l1[slot@[rr] - 1]) == rr by {
                        if rr != r {
                            assert(slot0[rr] == slot@[rr]);
                            assert(l1[slot0[rr] - 1] == l0[slot0[rr] - 1]);
                        }
                    }
                    assert forall|j: int| 0 <= j < qi + 1 && mm[j] == 0 implies slot@[
                        #[trigger] root_of(p1, r1, j)
                    ] != 0 by {
                        if j < qi {
                            lemma_root_of(p1, r1, j);
                            assert(slot0[root_of(p1, r1, j)] != 0);
                        }
                    }
                }
            } else {
                let t = sr - 1;
                let ghost s = l0[t as int];
                proof {
                    lemma_root_of(p1, r1, s);
                    assert(root_of(p1, r1, s) == r);
                    assert(same_set(p1, r1, s, qi));
                    assert(joined(mm, wi, hi, s, qi));
                    assert(!is_leader(mm, wi, hi, qi)) by {
                        assert(joined(mm, wi, hi, s, qi));
                    }
                    assert(l1 == l0);
                    lemma_comp_bounds(mm, wi, hi, xi, yi, s, qi);
                    assert(comp_area(mm, wi, hi, s, qi) * 0xffff_ffff + 0xffff_ffff <= u64::MAX) by (nonlinear_arith)
                        requires
                            comp_area(mm, wi, hi, s, qi) <= qi,
                            qi < n,
                            n <= u32::MAX,
                    ;
                    assert(blob_summarises(blobs0[t as int], mm, wi, hi, xi, yi, s, qi));
                }
                let ob = blobs[t];
                let nb = Blob {
                    area: ob.area + 1,
                    sum_x: ob.sum_x + ax as u64,
                    sum_y: ob.sum_y + ay as u64,
                    min_x: if ax < ob.min_x {
                        ax
                    } else {
                        ob.min_x
                    },
                    max_x: if ax > ob.max_x {
                        ax
                    } else {
                        ob.max_x
                    },
                    min_y: if ay < ob.min_y {
                        ay
                    } else {
                        ob.min_y
                    },
                    max_y: if ay > ob.max_y {
                        ay
                    } else {
                        ob.max_y
                    },
                };
                proof {
                    assert(blob_summarises(nb, mm, wi, hi, xi, yi, s, qi + 1));
                }
                blobs.set(t, nb);
                proof {
                    assert forall|t2: int| 0 <= t2 < l1.len() implies blob_summarises(
                        #[trigger] blobs@[t2],
                        mm,
                        wi,
                        hi,
                        xi,
                        yi,
                        l1[t2],
                        qi + 1,
                    ) by {
                        if t2 == t {
                            assert(blobs@[t2] == nb);
                        } else {
                            let s2 = l0[t2];
                            lemma_root_of(p1, r1, s2);
                            assert(blob_summarises(blobs0[t2], mm, wi, hi, xi, yi, s2, qi));
                            assert(slot@[root_of(p1, r1, l0[t2])] == t2 + 1);
                            assert(root_of(p1, r1, s2) != r);
                            assert(!same_set(p1, r1, s2, qi));
                            lemma_comp_skip(mm, wi, hi, xi, yi, s2, qi, blobs0[t2]);
                        }
                    }
                }
            }
        } else {
            proof {
                assert(!is_leader(mm, wi, hi, qi));
                assert(l1 == l0);
                assert forall|t: int| 0 <= t < l1.len() implies blob_summarises(
                    #[trigger] blobs@[t],
                    mm,
                    wi,
                    hi,
                    xi,
                    yi,
                    l1[t],
                    qi + 1,
                ) by {
                    let s = l0[t];
                    assert(blob_summarises(blobs0[t], mm, wi, hi, xi, yi, s, qi));
                    if joined(mm, wi, hi, s, qi) {
                        lemma_connected_ends(mm, wi, hi, false, s, qi);
                    }
                    lemma_comp_skip(mm, wi, hi, xi, yi, s, qi, blobs0[t]);
                }
            }
        }
        idx += 1;
        ix += 1;
        if ix == w {
            ix = 0;
            iy += 1;
        }
        proof {
            assert(leaders(mm, wi, hi, idx as int) == l1);
        }
    }
    blobs
}

proof fn lemma_leader_listed(m: Seq<u8>, w: int, h: int, s: int, k: int)
    requires
        0 <= s < k,
        is_leader(m, w, h, s),
    ensures
        leaders(m, w, h, k).contains(s),
    decreases k,
{
    if s < k - 1 {
        lemma_leader_listed(m, w, h, s, k - 1);
        let l = leaders(m, w, h, k - 1);
        let i = choose|i: int| 0 <= i < l.len() && l[i] == s;
        assert(leaders(m, w, h, k)[i] == s);
    } else {
        let l = leaders(m, w, h, k);
        assert(l[l.len() - 1] == s);
    }
}

proof fn lemma_has_leader(m: Seq<u8>, w: int, h: int, i: int) -> (s: int)
    requires
        is_ink(m, w * h, i),
    ensures
        0 <= s <= i,
        is_leader(m, w, h, s),
        joined(m, w, h, s, i),
    decreases i,
{
    if is_leader(m, w, h, i) {
        lemma_connected_refl(m, w, h, false, i);
        i
    } else {
        let j = choose|j: int| 0 <= j < i && #[trigger] joined(m, w, h, j, i);
        lemma_connected_ends(m, w, h, false, j, i);
        let s = lemma_has_leader(m, w, h, j);
        lemma_connected_trans(m, w, h, false, s, j, i);
        s
    }
}

/// Every ink pixel of the grid lies in exactly one blob: exactly one of the
/// listed first pixels is joined to it.
pub proof fn lemma_blobs_partition(m: Seq<u8>, w: int, h: int, i: int)
    requires
        is_ink(m, w * h, i),
    ensures
        exists|t: int|
            0 <= t < leaders(m, w, h, w * h).len() && #[trigger] joined(
                m,
                w,
                h,
                leaders(m, w, h, w * h)[t],
                i,
            ),
        forall|t1: int, t2: int|
            0 <= t1 < leaders(m, w, h, w * h).len() && 0 <= t2 < leaders(m, w, h, w * h).len()
                && #[trigger] joined(m, w, h, leaders(m, w, h, w * h)[t1], i) && #[trigger] joined(
                m,
                w,
                h,
                leaders(m, w, h, w * h)[t2],
                i,
            ) ==> t1 == t2,
{
    let n = w * h;
    let l = leaders(m, w, h, n);
    let s = lemma_has_leader(m, w, h, i);
    lemma_leader_listed(m, w, h, s, n);
    let t = choose|t: int| 0 <= t < l.len() && l[t] == s;
    assert(joined(m, w, h, l[t], i));
    lemma_leaders_below(m, w, h, n);
    lemma_leaders_sorted(m, w, h, n);
    assert forall|t1: int, t2: int|
        0 <= t1 < l.len() && 0 <= t2 < l.len() && #[trigger] joined(m, w, h, l[t1], i) && #[trigger] joined(
            m,
            w,
            h,
            l[t2],
            i,
        ) implies t1 == t2 by {
        if t1 != t2 {
            let (a, b) = if t1 < t2 {
                (t1, t2)
            } else {
                (t2, t1)
            };
            assert(l[a] < l[b]);
            lemma_connected_sym(m, w, h, false, l[b], i);
            lemma_connected_trans(m, w, h, false, l[a], i, l[b]);
            lemma_leaders_are_leaders(m, w, h, n, b);
            assert(!joined(m, w, h, l[a], l[b]));
        }
    }
}

proof fn lemma_leaders_sorted(m: Seq<u8>, w: int, h: int, k: int)
    requires
        0 <= k,
    ensures
        forall|a: int, b: int|
            0 <= a < b < leaders(m, w, h, k).len() ==> #[trigger] leaders(m, w, h, k)[a] < #[trigger] leaders(
                m,
                w,
                h,
                k,
            )[b],
    decreases k,
{
    if k > 0 {
        lemma_leaders_sorted(m, w, h, k - 1);
        lemma_leaders_below(m, w, h, k - 1);
        let l0 = leaders(m, w, h, k - 1);
        let l = leaders(m, w, h, k);
        assert forall|a: int, b: int| 0 <= a < b < l.len() implies #[trigger] l[a] < #[trigger] l[b] by {
            assert(l[a] == l0[a]);
            if b < l0.len() {
                assert(l[b] == l0[b]);
            }
        }
    }
}

proof fn lemma_leaders_are_leaders(m: Seq<u8>, w: int, h: int, k: int, t: int)
    requires
        0 <= k,
        0 <= t < leaders(m, w, h, k).len(),
    ensures
        is_leader(m, w, h, leaders(m, w, h, k)[t]),
    decreases k,
{
    if k > 0 {
        let l0 = leaders(m, w, h, k - 1);
        if t < l0.len() {
            lemma_leaders_are_leaders(m, w, h, k - 1, t);
            assert(leaders(m, w, h, k)[t] == l0[t]);
        }
    }
}

} // verus!
