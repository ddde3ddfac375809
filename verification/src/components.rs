//! Connected components of ink (value 0) in a binary image, and the flood fill
//! that collects one of them.
use vstd::prelude::*;
use crate::grid::{col_of, row_of, inside, index_of, lemma_index_of, lemma_coords};

verus! {

/// Pixel `i` of a grid of `n` pixels is ink (value 0).
pub open spec fn is_ink(b: Seq<u8>, n: int, i: int) -> bool {
    0 <= i < n && b[i] == 0
}

/// Pixels `i` and `j` are distinct neighbours: 8-neighbours when `eight`,
/// otherwise 4-neighbours (same row or column, one step apart).
pub open spec fn adjacent(w: int, h: int, eight: bool, i: int, j: int) -> bool {
    &&& 0 <= i < w * h
    &&& 0 <= j < w * h
    &&& i != j
    &&& {
        let dx = col_of(w, i) - col_of(w, j);
        let dy = row_of(w, i) - row_of(w, j);
        if eight {
            -1 <= dx <= 1 && -1 <= dy <= 1
        } else {
            (dx == 0 && (dy == 1 || dy == -1)) || (dy == 0 && (dx == 1 || dx == -1))
        }
    }
}

/// Step `k` of path `p` joins neighbours.
pub open spec fn path_step(w: int, h: int, eight: bool, p: Seq<int>, k: int) -> bool {
    adjacent(w, h, eight, p[k], p[k + 1])
}

/// `p` is a non-empty walk through ink pixels, each step between neighbours.
pub open spec fn is_ink_path(b: Seq<u8>, w: int, h: int, eight: bool, p: Seq<int>) -> bool {
    &&& p.len() > 0
    &&& forall|k: int| 0 <= k < p.len() ==> is_ink(b, w * h, #[trigger] p[k])
    &&& forall|k: int| 0 <= k < p.len() - 1 ==> #[trigger] path_step(w, h, eight, p, k)
}

/// Ink pixels `s` and `t` lie in the same connected component.
pub open spec fn connected(b: Seq<u8>, w: int, h: int, eight: bool, s: int, t: int) -> bool {
    exists|p: Seq<int>|
        #[trigger] is_ink_path(b, w, h, eight, p) && p[0] == s && p[p.len() - 1] == t
}

/// The connected component of ink pixel `s`.
pub open spec fn component(b: Seq<u8>, w: int, h: int, eight: bool, s: int) -> Set<int> {
    Set::new(|t: int| connected(b, w, h, eight, s, t))
}

/// A set of pixels, given as flags, that holds only ink and holds every ink
/// neighbour of its members: a union of whole components.
pub open spec fn closed(b: Seq<u8>, w: int, h: int, eight: bool, vis: Seq<bool>) -> bool {
    &&& vis.len() == w * h
    &&& forall|i: int| 0 <= i < w * h && #[trigger] vis[i] ==> is_ink(b, w * h, i)
    &&& forall|i: int, j: int|
        0 <= i < w * h && vis[i] && is_ink(b, w * h, j) && #[trigger] adjacent(w, h, eight, i, j)
            ==> #[trigger] vis[j]
}

/// Number of set flags.
pub open spec fn count_true(s: Seq<bool>) -> nat
    decreases s.len(),
{
    if s.len() == 0 {
        0
    } else {
        count_true(s.drop_last()) + if s.last() {
            1nat
        } else {
            0nat
        }
    }
}

pub proof fn lemma_count_true_le(s: Seq<bool>)
    ensures
        count_true(s) <= s.len(),
    decreases s.len(),
{
    if s.len() > 0 {
        lemma_count_true_le(s.drop_last());
    }
}

pub proof fn lemma_count_true_zero(s: Seq<bool>)
    requires
        forall|i: int| 0 <= i < s.len() ==> !s[i],
    ensures
        count_true(s) == 0,
    decreases s.len(),
{
    if s.len() > 0 {
        lemma_count_true_zero(s.drop_last());
    }
}

pub proof fn lemma_count_true_update(s: Seq<bool>, j: int)
    requires
        0 <= j < s.len(),
        !s[j],
    ensures
        count_true(s.update(j, true)) == count_true(s) + 1,
    decreases s.len(),
{
    let t = s.update(j, true);
    if j == s.len() - 1 {
        assert(t.drop_last() =~= s.drop_last());
    } else {
        assert(t.drop_last() =~= s.drop_last().update(j, true));
        lemma_count_true_update(s.drop_last(), j);
    }
}

pub proof fn lemma_adjacent_symmetric(w: int, h: int, eight: bool, i: int, j: int)
    requires
        adjacent(w, h, eight, i, j),
    ensures
        adjacent(w, h, eight, j, i),
{
}

pub proof fn lemma_connected_refl(b: Seq<u8>, w: int, h: int, eight: bool, s: int)
    requires
        is_ink(b, w * h, s),
    ensures
        connected(b, w, h, eight, s, s),
{
    let p = seq![s];
    assert(is_ink_path(b, w, h, eight, p));
}

pub proof fn lemma_connected_ends(b: Seq<u8>, w: int, h: int, eight: bool, s: int, t: int)
    requires
        connected(b, w, h, eight, s, t),
    ensures
        is_ink(b, w * h, s),
        is_ink(b, w * h, t),
{
    let p = choose|p: Seq<int>|
        #[trigger] is_ink_path(b, w, h, eight, p) && p[0] == s && p[p.len() - 1] == t;
    assert(is_ink(b, w * h, p[0]));
    assert(is_ink(b, w * h, p[p.len() - 1]));
}

pub proof fn lemma_connected_step(b: Seq<u8>, w: int, h: int, eight: bool, s: int, t: int, u: int)
    requires
        connected(b, w, h, eight, s, t),
        adjacent(w, h, eight, t, u),
        is_ink(b, w * h, u),
    ensures
        connected(b, w, h, eight, s, u),
{
    let p = choose|p: Seq<int>|
        #[trigger] is_ink_path(b, w, h, eight, p) && p[0] == s && p[p.len() - 1] == t;
    let q = p.push(u);
    assert forall|k: int| 0 <= k < q.len() implies is_ink(b, w * h, #[trigger] q[k]) by {
        if k < p.len() {
            assert(q[k] == p[k]);
        }
    }
    assert forall|k: int| 0 <= k < q.len() - 1 implies #[trigger] path_step(w, h, eight, q, k) by {
        if k < p.len() - 1 {
            assert(path_step(w, h, eight, p, k));
        }
    }
    assert(is_ink_path(b, w, h, eight, q));
}

pub proof fn lemma_connected_sym(b: Seq<u8>, w: int, h: int, eight: bool, s: int, t: int)
    requires
        connected(b, w, h, eight, s, t),
    ensures
        connected(b, w, h, eight, t, s),
{
    let p = choose|p: Seq<int>|
        #[trigger] is_ink_path(b, w, h, eight, p) && p[0] == s && p[p.len() - 1] == t;
    let q = p.reverse();
    assert forall|k: int| 0 <= k < q.len() implies is_ink(b, w * h, #[trigger] q[k]) by {
        assert(q[k] == p[p.len() - 1 - k]);
    }
    assert forall|k: int| 0 <= k < q.len() - 1 implies #[trigger] path_step(w, h, eight, q, k) by {
        let m = p.len() - 2 - k;
        assert(path_step(w, h, eight, p, m));
        assert(q[k] == p[m + 1]);
        assert(q[k + 1] == p[m]);
        lemma_adjacent_symmetric(w, h, eight, p[m], p[m + 1]);
    }
    assert(is_ink_path(b, w, h, eight, q));
}

pub proof fn lemma_connected_trans(
    b: Seq<u8>,
    w: int,
    h: int,
    eight: bool,
    s: int,
    t: int,
    u: int,
)
    requires
        connected(b, w, h, eight, s, t),
        connected(b, w, h, eight, t, u),
    ensures
        connected(b, w, h, eight, s, u),
{
    let p1 = choose|p: Seq<int>|
        #[trigger] is_ink_path(b, w, h, eight, p) && p[0] == s && p[p.len() - 1] == t;
    let p2 = choose|p: Seq<int>|
        #[trigger] is_ink_path(b, w, h, eight, p) && p[0] == t && p[p.len() - 1] == u;
    let tail = p2.subrange(1, p2.len() as int);
    let q = p1 + tail;
    assert forall|k: int| 0 <= k < q.len() implies is_ink(b, w * h, #[trigger] q[k]) by {
        if k < p1.len() {
            assert(q[k] == p1[k]);
        } else {
            assert(q[k] == p2[k - p1.len() + 1]);
        }
    }
    assert forall|k: int| 0 <= k < q.len() - 1 implies #[trigger] path_step(w, h, eight, q, k) by {
        if k < p1.len() - 1 {
            assert(path_step(w, h, eight, p1, k));
        } else if k == p1.len() - 1 {
            assert(path_step(w, h, eight, p2, 0));
        } else {
            let m = k - p1.len() + 1;
            assert(path_step(w, h, eight, p2, m));
        }
    }
    assert(is_ink_path(b, w, h, eight, q));
    if p2.len() == 1 {
        assert(q[q.len() - 1] == p1[p1.len() - 1]);
    } else {
        assert(q[q.len() - 1] == p2[p2.len() - 1]);
    }
}

proof fn lemma_closed_path(
    b: Seq<u8>,
    w: int,
    h: int,
    eight: bool,
    vis: Seq<bool>,
    p: Seq<int>,
    k: int,
)
    requires
        closed(b, w, h, eight, vis),
        is_ink_path(b, w, h, eight, p),
        vis[p[0]],
        0 <= k < p.len(),
    ensures
        vis[p[k]],
    decreases k,
{
    if k > 0 {
        lemma_closed_path(b, w, h, eight, vis, p, k - 1);
        assert(path_step(w, h, eight, p, k - 1));
        assert(is_ink(b, w * h, p[k]));
        assert(is_ink(b, w * h, p[k - 1]));
    }
}

/// A union of whole components that holds `s` holds every pixel connected to `s`.
pub proof fn lemma_closed_contains(
    b: Seq<u8>,
    w: int,
    h: int,
    eight: bool,
    vis: Seq<bool>,
    s: int,
    t: int,
)
    requires
        closed(b, w, h, eight, vis),
        0 <= s < w * h,
        vis[s],
        connected(b, w, h, eight, s, t),
    ensures
        vis[t],
{
    let p = choose|p: Seq<int>|
        #[trigger] is_ink_path(b, w, h, eight, p) && p[0] == s && p[p.len() - 1] == t;
    lemma_closed_path(b, w, h, eight, vis, p, p.len() - 1);
}

/// Index of `(x, y)`, or -1 when it falls outside the grid.
pub open spec fn target(w: int, h: int, x: int, y: int) -> int {
    if inside(w, h, x, y) {
        index_of(w, x, y)
    } else {
        -1
    }
}

/// Marks pixel `(x, y)` visited and pushes it when it lies inside the grid,
/// is ink and is not yet visited.
fn visit(
    b: &[u8],
    w: u32,
    h: u32,
    visited: &mut Vec<bool>,
    stack: &mut Vec<usize>,
    x: i64,
    y: i64,
)
    requires
        (w as int) * (h as int) <= u32::MAX,
        b@.len() >= (w as int) * (h as int),
        old(visited)@.len() == (w as int) * (h as int),
        -2 <= x <= u32::MAX as int + 2,
        -2 <= y <= u32::MAX as int + 2,
    ensures
        ({
            let t = target(w as int, h as int, x as int, y as int);
            if t >= 0 && b@[t] == 0 && !old(visited)@[t] {
                &&& final(visited)@ == old(visited)@.update(t, true)
                &&& final(stack)@ == old(stack)@.push(t as usize)
            } else {
                &&& final(visited)@ == old(visited)@
                &&& final(stack)@ == old(stack)@
            }
        }),
{
    if x < 0 || y < 0 || x >= w as i64 || y >= h as i64 {
        return;
    }
    proof {
        lemma_index_of(w as int, h as int, x as int, y as int);
    }
    let j = (y as usize) * (w as usize) + (x as usize);
    if !visited[j] && b[j] == 0 {
        visited[j] = true;
        stack.push(j);
    }
}

/// For a pixel inside the grid, the 8 (or 4) neighbours are exactly the
/// in-grid targets of the unit offsets.
proof fn lemma_neighbour_target(w: int, h: int, eight: bool, i: int, j: int)
    requires
        0 < w,
        0 <= i < w * h,
        0 <= j < w * h,
    ensures
        adjacent(w, h, eight, i, j) <==> ({
            let dx = col_of(w, j) - col_of(w, i);
            let dy = row_of(w, j) - row_of(w, i);
            &&& j == target(w, h, col_of(w, i) + dx, row_of(w, i) + dy)
            &&& (dx != 0 || dy != 0)
            &&& if eight {
                -1 <= dx <= 1 && -1 <= dy <= 1
            } else {
                (dx == 0 && (dy == 1 || dy == -1)) || (dy == 0 && (dx == 1 || dx == -1))
            }
        }),
{
    lemma_coords(w, h, i);
    lemma_coords(w, h, j);
    if col_of(w, i) == col_of(w, j) && row_of(w, i) == row_of(w, j) {
        assert(i == j);
    }
}

/// Targets of distinct in-grid offsets from one pixel differ.
proof fn lemma_target_offsets(w: int, h: int, i: int, dx: int, dy: int)
    requires
        0 < w,
        0 <= i < w * h,
        -1 <= dx <= 1,
        -1 <= dy <= 1,
    ensures
        ({
            let t = target(w, h, col_of(w, i) + dx, row_of(w, i) + dy);
            t >= 0 ==> {
                &&& t < w * h
                &&& col_of(w, t) == col_of(w, i) + dx
                &&& row_of(w, t) == row_of(w, i) + dy
            }
        }),
{
    lemma_coords(w, h, i);
    let x = col_of(w, i) + dx;
    let y = row_of(w, i) + dy;
    if inside(w, h, x, y) {
        lemma_index_of(w, h, x, y);
    }
}


/// Column offsets of the neighbours, in visiting order.
pub open spec fn offsets_dx(eight: bool) -> Seq<int> {
    if eight {
        seq![-1, 0, 1, -1, 1, -1, 0, 1]
    } else {
        seq![-1, 1, 0, 0]
    }
}

/// Row offsets of the neighbours, in visiting order.
pub open spec fn offsets_dy(eight: bool) -> Seq<int> {
    if eight {
        seq![-1, -1, -1, 0, 0, 1, 1, 1]
    } else {
        seq![0, 0, -1, 1]
    }
}

/// Target of the `k`-th neighbour offset of pixel `i`.
pub open spec fn offset_target(w: int, h: int, eight: bool, i: int, k: int) -> int {
    target(w, h, col_of(w, i) + offsets_dx(eight)[k], row_of(w, i) + offsets_dy(eight)[k])
}

proof fn lemma_offset_table(w: int, h: int, eight: bool, i: int, j: int)
    requires
        0 < w,
        0 <= i < w * h,
        0 <= j < w * h,
    ensures
        offsets_dx(eight).len() == offsets_dy(eight).len(),
        offsets_dx(eight).len() == if eight { 8int } else { 4int },
        adjacent(w, h, eight, i, j) <==> exists|k: int|
            0 <= k < offsets_dx(eight).len() && #[trigger] offset_target(w, h, eight, i, k) == j,
{
    lemma_neighbour_target(w, h, eight, i, j);
    let dxs = offsets_dx(eight);
    let dys = offsets_dy(eight);
    let m = dxs.len() as int;
    if adjacent(w, h, eight, i, j) {
        let dx = col_of(w, j) - col_of(w, i);
        let dy = row_of(w, j) - row_of(w, i);
        let k: int = if eight {
            let s = (dy + 1) * 3 + (dx + 1);
            if s < 4 { s } else { s - 1 }
        } else {
            if dy == 0 { if dx == -1 { 0 } else { 1 } } else { if dy == -1 { 2 } else { 3 } }
        };
        assert(dxs[k] == dx && dys[k] == dy);
        assert(offset_target(w, h, eight, i, k) == j);
    }
    if exists|k: int| 0 <= k < m && #[trigger] offset_target(w, h, eight, i, k) == j {
        let k = choose|k: int| 0 <= k < m && #[trigger] offset_target(w, h, eight, i, k) == j;
        lemma_target_offsets(w, h, i, dxs[k], dys[k]);
    }
}

/// Visits every in-grid neighbour of pixel `idx` (8 of them when `eight`,
/// otherwise 4): unvisited ink neighbours are marked and pushed.
fn visit_neighbours(
    b: &[u8],
    w: u32,
    h: u32,
    eight: bool,
    visited: &mut Vec<bool>,
    stack: &mut Vec<usize>,
    idx: usize,
)
    requires
        (w as int) * (h as int) <= u32::MAX,
        b@.len() >= (w as int) * (h as int),
        old(visited)@.len() == (w as int) * (h as int),
        idx < (w as int) * (h as int),
    ensures
        final(visited)@.len() == old(visited)@.len(),
        forall|i: int|
            0 <= i < (w as int) * (h as int) ==> #[trigger] final(visited)@[i] == (old(visited)@[i]
                || (b@[i] == 0 && adjacent(w as int, h as int, eight, idx as int, i))),
        final(stack)@.len() >= old(stack)@.len(),
        final(stack)@.subrange(0, old(stack)@.len() as int) == old(stack)@,
        forall|k: int|
            old(stack)@.len() <= k < final(stack)@.len() ==> {
                let v = #[trigger] final(stack)@[k] as int;
                &&& 0 <= v < (w as int) * (h as int)
                &&& b@[v] == 0
                &&& !old(visited)@[v]
                &&& adjacent(w as int, h as int, eight, idx as int, v)
            },
        forall|k1: int, k2: int|
            old(stack)@.len() <= k1 < k2 < final(stack)@.len() ==> #[trigger] final(stack)@[k1]
                != #[trigger] final(stack)@[k2],
        count_true(final(visited)@) == count_true(old(visited)@) + (final(stack)@.len()
            - old(stack)@.len()),
        forall|i: int|
            0 <= i < (w as int) * (h as int) && #[trigger] final(visited)@[i] && !old(visited)@[i]
                ==> exists|q: int|
                old(stack)@.len() <= q < final(stack)@.len() && final(stack)@[q] as int == i,
{
    let ghost n = (w as int) * (h as int);
    let ghost vis0 = visited@;
    let ghost st0 = stack@;
    let wu = w as usize;
    let x = (idx % wu) as i64;
    let y = (idx / wu) as i64;
    proof {
        lemma_coords(w as int, h as int, idx as int);
    }
    let dxs: [i64; 8] = [-1, 0, 1, -1, 1, -1, 0, 1];
    let dys: [i64; 8] = [-1, -1, -1, 0, 0, 1, 1, 1];
    let dxs4: [i64; 4] = [-1, 1, 0, 0];
    let dys4: [i64; 4] = [0, 0, -1, 1];
    let m: usize = if eight { 8 } else { 4 };
    let ghost tx = offsets_dx(eight);
    let ghost ty = offsets_dy(eight);
    assert(tx.len() == m && ty.len() == m);
    let mut k: usize = 0;
    while k < m
        invariant
            0 <= k <= m,
            m == if eight { 8usize } else { 4usize },
            tx == offsets_dx(eight),
            ty == offsets_dy(eight),
            tx.len() == m,
            ty.len() == m,
            dxs@ == seq![-1i64, 0i64, 1i64, -1i64, 1i64, -1i64, 0i64, 1i64],
            dys@ == seq![-1i64, -1i64, -1i64, 0i64, 0i64, 1i64, 1i64, 1i64],
            dxs4@ == seq![-1i64, 1i64, 0i64, 0i64],
            dys4@ == seq![0i64, 0i64, -1i64, 1i64],
            n == (w as int) * (h as int),
            n <= u32::MAX,
            b@.len() >= n,
            0 <= idx < n,
            0 < w,
            x == col_of(w as int, idx as int),
            y == row_of(w as int, idx as int),
            0 <= x < w,
            0 <= y < h,
            visited@.len() == n,
            forall|i: int|
                0 <= i < n ==> #[trigger] visited@[i] == (vis0[i] || (b@[i] == 0 && exists|k2: int|
                    0 <= k2 < k && #[trigger] offset_target(w as int, h as int, eight, idx as int, k2)
                        == i)),
            stack@.len() >= st0.len(),
            stack@.subrange(0, st0.len() as int) == st0,
            forall|q: int|
                st0.len() <= q < stack@.len() ==> {
                    let v = #[trigger] stack@[q] as int;
                    &&& 0 <= v < n
                    &&& b@[v] == 0
                    &&& !vis0[v]
                    &&& exists|k2: int|
                        0 <= k2 < k && #[trigger] offset_target(w as int, h as int, eight, idx as int, k2)
                            == v
                },
            forall|q: int| st0.len() <= q < stack@.len() ==> visited@[#[trigger] stack@[q] as int],
            forall|k1: int, k2: int|
                st0.len() <= k1 < k2 < stack@.len() ==> #[trigger] stack@[k1] != #[trigger] stack@[k2],
            count_true(visited@) == count_true(vis0) + (stack@.len() - st0.len()),
            forall|i: int|
                0 <= i < n && #[trigger] visited@[i] && !vis0[i] ==> exists|q: int|
                    st0.len() <= q < stack@.len() && stack@[q] as int == i,
        decreases m - k,
    {
        let (dx, dy) = if eight { (dxs[k], dys[k]) } else { (dxs4[k], dys4[k]) };
        assert(dx == tx[k as int] && dy == ty[k as int]);
        let ghost vis1 = visited@;
        let ghost st1 = stack@;
        let ghost t = offset_target(w as int, h as int, eight, idx as int, k as int);
        visit(b, w, h, visited, stack, x + dx, y + dy);
        proof {
            lemma_target_offsets(w as int, h as int, idx as int, dx as int, dy as int);
            if t >= 0 && b@[t] == 0 && !vis1[t] {
                lemma_count_true_update(vis1, t);
                assert forall|q: int| st0.len() <= q < stack@.len() implies {
                    let v = #[trigger] stack@[q] as int;
                    &&& 0 <= v < n
                    &&& b@[v] == 0
                    &&& !vis0[v]
                    &&& exists|k2: int|
                        0 <= k2 < k + 1 && #[trigger] offset_target(w as int, h as int, eight, idx as int, k2)
                            == v
                } by {
                    if q < st1.len() {
                        assert(stack@[q] == st1[q]);
                    } else {
                        assert(offset_target(w as int, h as int, eight, idx as int, k as int) == t);
                    }
                }
                assert forall|k1: int, k2: int|
                    st0.len() <= k1 < k2 < stack@.len() implies #[trigger] stack@[k1]
                        != #[trigger] stack@[k2] by {
                    if k2 == stack@.len() - 1 {
                        assert(visited@[stack@[k1] as int] || true);
                        assert(vis1[st1[k1] as int]);
                    } else {
                        assert(stack@[k1] == st1[k1]);
                        assert(stack@[k2] == st1[k2]);
                    }
                }
                assert(stack@.subrange(0, st0.len() as int) =~= st0) by {
                    assert(st1.subrange(0, st0.len() as int) == st0);
                }
                assert forall|i: int|
                    0 <= i < n && #[trigger] visited@[i] && !vis0[i] implies exists|q: int|
                    st0.len() <= q < stack@.len() && stack@[q] as int == i by {
                    if i == t {
                        assert(stack@[stack@.len() - 1] as int == i);
                    } else {
                        assert(vis1[i]);
                        let q = choose|q: int| st0.len() <= q < st1.len() && st1[q] as int == i;
                        assert(stack@[q] == st1[q]);
                    }
                }
            }
            assert forall|i: int| 0 <= i < n implies #[trigger] visited@[i] == (vis0[i] || (b@[i] == 0
                && exists|k2: int|
                0 <= k2 < k + 1 && #[trigger] offset_target(w as int, h as int, eight, idx as int, k2)
                    == i)) by {
                if exists|k2: int|
                    0 <= k2 < k + 1 && #[trigger] offset_target(w as int, h as int, eight, idx as int, k2)
                        == i {
                    let k2 = choose|k2: int|
                        0 <= k2 < k + 1 && #[trigger] offset_target(w as int, h as int, eight, idx as int, k2)
                            == i;
                    if k2 < k {
                        assert(exists|k3: int|
                            0 <= k3 < k && #[trigger] offset_target(w as int, h as int, eight, idx as int, k3)
                                == i);
                    }
                }
                if exists|k2: int|
                    0 <= k2 < k && #[trigger] offset_target(w as int, h as int, eight, idx as int, k2)
                        == i {
                    let k2 = choose|k2: int|
                        0 <= k2 < k && #[trigger] offset_target(w as int, h as int, eight, idx as int, k2)
                            == i;
                    assert(0 <= k2 < k + 1);
                }
            }
        }
        k += 1;
    }
    proof {
        assert forall|i: int| 0 <= i < n implies #[trigger] visited@[i] == (vis0[i] || (b@[i] == 0
            && adjacent(w as int, h as int, eight, idx as int, i))) by {
            lemma_offset_table(w as int, h as int, eight, idx as int, i);
        }
        assert forall|q: int| st0.len() <= q < stack@.len() implies adjacent(
            w as int,
            h as int,
            eight,
            idx as int,
            #[trigger] stack@[q] as int,
        ) by {
            lemma_offset_table(w as int, h as int, eight, idx as int, stack@[q] as int);
        }
    }
}


/// Collects the connected component of the unvisited ink pixel `start`,
/// marking its pixels visited. `visited` must hold whole components only.
pub(crate) fn flood_fill(
    b: &[u8],
    w: u32,
    h: u32,
    eight: bool,
    visited: &mut Vec<bool>,
    start: usize,
) -> (comp: Vec<usize>)
    requires
        (w as int) * (h as int) <= u32::MAX,
        b@.len() >= (w as int) * (h as int),
        start < (w as int) * (h as int),
        b@[start as int] == 0,
        !old(visited)@[start as int],
        closed(b@, w as int, h as int, eight, old(visited)@),
    ensures
        final(visited)@.len() == old(visited)@.len(),
        forall|i: int|
            0 <= i < (w as int) * (h as int) ==> #[trigger] final(visited)@[i] == (old(visited)@[i]
                || connected(b@, w as int, h as int, eight, start as int, i)),
        closed(b@, w as int, h as int, eight, final(visited)@),
        forall|k: int|
            0 <= k < comp@.len() ==> {
                let v = #[trigger] comp@[k] as int;
                &&& 0 <= v < (w as int) * (h as int)
                &&& connected(b@, w as int, h as int, eight, start as int, v)
                &&& !old(visited)@[v]
            },
        forall|i: int|
            0 <= i < (w as int) * (h as int) && connected(b@, w as int, h as int, eight, start as int, i)
                ==> comp@.contains(i as usize),
        comp@.no_duplicates(),
        count_true(final(visited)@) == count_true(old(visited)@) + comp@.len(),
{
    let ghost n = (w as int) * (h as int);
    let ghost wi = w as int;
    let ghost hi = h as int;
    let ghost vis0 = visited@;
    proof {
        assert(0 < w) by (nonlinear_arith)
            requires
                0 <= start < (w as int) * (h as int),
        ;
        lemma_connected_refl(b@, wi, hi, eight, start as int);
        lemma_count_true_update(vis0, start as int);
    }
    visited[start] = true;
    let mut stack: Vec<usize> = Vec::new();
    stack.push(start);
    let mut comp: Vec<usize> = Vec::new();
    proof {
        assert(stack@[0] == start);
        assert forall|i: int|
            0 <= i < n && #[trigger] visited@[i] implies vis0[i] || comp@.contains(i as usize)
            || stack@.contains(i as usize) by {
            if i == start as int {
                assert(stack@[0] == start);
            }
        }
    }
    while stack.len() > 0
        invariant
            n == wi * hi,
            wi == w as int,
            hi == h as int,
            0 < w,
            n <= u32::MAX,
            b@.len() >= n,
            0 <= start < n,
            closed(b@, wi, hi, eight, vis0),
            vis0.len() == n,
            visited@.len() == n,
            forall|k: int|
                0 <= k < stack@.len() ==> {
                    let v = #[trigger] stack@[k] as int;
                    &&& 0 <= v < n
                    &&& visited@[v]
                    &&& !vis0[v]
                    &&& connected(b@, wi, hi, eight, start as int, v)
                },
            forall|k: int|
                0 <= k < comp@.len() ==> {
                    let v = #[trigger] comp@[k] as int;
                    &&& 0 <= v < n
                    &&& visited@[v]
                    &&& !vis0[v]
                    &&& connected(b@, wi, hi, eight, start as int, v)
                },
            forall|i: int|
                0 <= i < n && #[trigger] visited@[i] ==> vis0[i] || comp@.contains(i as usize)
                    || stack@.contains(i as usize),
            forall|i: int| 0 <= i < n && vis0[i] ==> #[trigger] visited@[i],
            forall|k: int, j: int|
                0 <= k < comp@.len() && is_ink(b@, n, j) && #[trigger] adjacent(
                    wi,
                    hi,
                    eight,
                    comp@[k] as int,
                    j,
                ) ==> #[trigger] visited@[j],
            comp@.no_duplicates(),
            stack@.no_duplicates(),
            forall|k1: int, k2: int|
                0 <= k1 < comp@.len() && 0 <= k2 < stack@.len() ==> #[trigger] comp@[k1]
                    != #[trigger] stack@[k2],
            count_true(visited@) == count_true(vis0) + comp@.len() + stack@.len(),
            comp@.contains(start) || stack@.contains(start),
        decreases n - comp@.len(),
    {
        let ghost vis_a = visited@;
        let ghost comp_a = comp@;
        let ghost stack_a = stack@;
        let idx = stack.pop().unwrap();
        let ghost stack_b = stack@;
        assert(stack_b == stack_a.subrange(0, stack_a.len() - 1));
        assert(idx == stack_a[stack_a.len() - 1]);
        comp.push(idx);
        visit_neighbours(b, w, h, eight, visited, &mut stack, idx);
        proof {
            let st = stack@;
            let cp = comp@;
            let vs = visited@;
            lemma_count_true_le(vs);
            assert forall|k: int| 0 <= k < stack_b.len() implies st[k] == stack_a[k] by {
                assert(st.subrange(0, stack_b.len() as int)[k] == stack_b[k]);
            }
            assert forall|k: int| 0 <= k < st.len() implies {
                let v = #[trigger] st[k] as int;
                &&& 0 <= v < n
                &&& vs[v]
                &&& !vis0[v]
                &&& connected(b@, wi, hi, eight, start as int, v)
            } by {
                if k < stack_b.len() {
                    assert(st[k] == stack_b[k]);
                    assert(stack_b[k] == stack_a[k]);
                } else {
                    let v = st[k] as int;
                    lemma_connected_step(b@, wi, hi, eight, start as int, idx as int, v);
                }
            }
            assert forall|k: int| 0 <= k < cp.len() implies {
                let v = #[trigger] cp[k] as int;
                &&& 0 <= v < n
                &&& vs[v]
                &&& !vis0[v]
                &&& connected(b@, wi, hi, eight, start as int, v)
            } by {
                if k < comp_a.len() {
                    assert(cp[k] == comp_a[k]);
                }
            }
            assert forall|i: int|
                0 <= i < n && #[trigger] vs[i] implies vis0[i] || cp.contains(i as usize)
                || st.contains(i as usize) by {
                if vis_a[i] {
                    if comp_a.contains(i as usize) {
                        let k = choose|k: int| 0 <= k < comp_a.len() && comp_a[k] == i as usize;
                        assert(cp[k] == i as usize);
                    } else if stack_a.contains(i as usize) {
                        let k = choose|k: int| 0 <= k < stack_a.len() && stack_a[k] == i as usize;
                        if k == stack_a.len() - 1 {
                            assert(cp[cp.len() - 1] == i as usize);
                        } else {
                            assert(stack_b[k] == i as usize);
                            assert(st[k] == i as usize);
                        }
                    }
                } else {
                    let k = choose|k: int|
                        stack_b.len() <= k < st.len() && st[k] as int == i;
                    assert(st[k] as int == i);
                }
            }
            assert forall|k: int, j: int|
                0 <= k < cp.len() && is_ink(b@, n, j) && #[trigger] adjacent(
                    wi,
                    hi,
                    eight,
                    cp[k] as int,
                    j,
                ) implies #[trigger] vs[j] by {
                if k < comp_a.len() {
                    assert(cp[k] == comp_a[k]);
                    assert(vis_a[j]);
                }
            }
            assert forall|k1: int, k2: int|
                0 <= k1 < cp.len() && 0 <= k2 < st.len() implies #[trigger] cp[k1]
                != #[trigger] st[k2] by {
                if k2 < stack_b.len() {
                    assert(st[k2] == stack_a[k2]);
                    if k1 < comp_a.len() {
                        assert(cp[k1] == comp_a[k1]);
                    } else {
                        assert(cp[k1] == stack_a[stack_a.len() - 1]);
                    }
                } else {
                    assert(!vis_a[st[k2] as int]);
                    if k1 < comp_a.len() {
                        assert(cp[k1] == comp_a[k1]);
                        assert(vis_a[comp_a[k1] as int]);
                    } else {
                        assert(vis_a[stack_a[stack_a.len() - 1] as int]);
                    }
                }
            }
            assert(cp.no_duplicates()) by {
                assert forall|k1: int, k2: int|
                    0 <= k1 < cp.len() && 0 <= k2 < cp.len() && k1 != k2 implies cp[k1]
                    != cp[k2] by {
                    if k1 < comp_a.len() && k2 < comp_a.len() {
                        assert(cp[k1] == comp_a[k1]);
                        assert(cp[k2] == comp_a[k2]);
                    } else if k1 < comp_a.len() {
                        assert(cp[k1] == comp_a[k1]);
                        assert(comp_a[k1] != stack_a[stack_a.len() - 1]);
                    } else if k2 < comp_a.len() {
                        assert(cp[k2] == comp_a[k2]);
                        assert(comp_a[k2] != stack_a[stack_a.len() - 1]);
                    }
                }
            }
            assert(st.no_duplicates()) by {
                assert forall|k1: int, k2: int|
                    0 <= k1 < st.len() && 0 <= k2 < st.len() && k1 != k2 implies st[k1]
                    != st[k2] by {
                    if k1 < stack_b.len() && k2 < stack_b.len() {
                        assert(st[k1] == stack_a[k1]);
                        assert(st[k2] == stack_a[k2]);
                    } else if k1 < stack_b.len() {
                        assert(st[k1] == stack_a[k1]);
                        assert(vis_a[stack_a[k1] as int]);
                        assert(!vis_a[st[k2] as int]);
                    } else if k2 < stack_b.len() {
                        assert(st[k2] == stack_a[k2]);
                        assert(vis_a[stack_a[k2] as int]);
                        assert(!vis_a[st[k1] as int]);
                    } else if k1 < k2 {
                        assert(st[k1] != st[k2]);
                    } else {
                        assert(st[k2] != st[k1]);
                    }
                }
            }
            if comp_a.contains(start) {
                let k = choose|k: int| 0 <= k < comp_a.len() && comp_a[k] == start;
                assert(cp[k] == start);
            } else {
                let k = choose|k: int| 0 <= k < stack_a.len() && stack_a[k] == start;
                if k == stack_a.len() - 1 {
                    assert(cp[cp.len() - 1] == start);
                } else {
                    assert(st[k] == start);
                }
            }
        }
    }
    proof {
        let vs = visited@;
        let cp = comp@;
        assert(cp.contains(start));
        let ks = choose|k: int| 0 <= k < cp.len() && cp[k] == start;
        assert(vs[cp[ks] as int]);
        assert(closed(b@, wi, hi, eight, vs)) by {
            assert forall|i: int| 0 <= i < n && #[trigger] vs[i] implies is_ink(b@, n, i) by {
                if !vis0[i] {
                    let k = choose|k: int| 0 <= k < cp.len() && cp[k] == i as usize;
                    lemma_connected_ends(b@, wi, hi, eight, start as int, cp[k] as int);
                }
            }
            assert forall|i: int, j: int|
                0 <= i < n && vs[i] && is_ink(b@, n, j) && #[trigger] adjacent(
                    wi,
                    hi,
                    eight,
                    i,
                    j,
                ) implies #[trigger] vs[j] by {
                if vis0[i] {
                    assert(vis0[j]);
                } else {
                    let k = choose|k: int| 0 <= k < cp.len() && cp[k] == i as usize;
                    assert(adjacent(wi, hi, eight, cp[k] as int, j));
                }
            }
        }
        assert forall|i: int| 0 <= i < n implies #[trigger] vs[i] == (vis0[i] || connected(
            b@,
            wi,
            hi,
            eight,
            start as int,
            i,
        )) by {
            if vs[i] && !vis0[i] {
                let k = choose|k: int| 0 <= k < cp.len() && cp[k] == i as usize;
                assert(connected(b@, wi, hi, eight, start as int, cp[k] as int));
            }
            if connected(b@, wi, hi, eight, start as int, i) {
                lemma_closed_contains(b@, wi, hi, eight, vs, start as int, i);
            }
        }
        assert forall|i: int|
            0 <= i < n && connected(b@, wi, hi, eight, start as int, i) implies cp.contains(
            i as usize,
        ) by {
            if vis0[i] {
                lemma_connected_sym(b@, wi, hi, eight, start as int, i);
                lemma_closed_contains(b@, wi, hi, eight, vis0, i, start as int);
            }
            assert(vs[i]);
        }
    }
    comp
}


/// Pixels connected to one another have the same component.
pub proof fn lemma_component_same(b: Seq<u8>, w: int, h: int, eight: bool, s: int, i: int)
    requires
        connected(b, w, h, eight, s, i),
    ensures
        component(b, w, h, eight, s) == component(b, w, h, eight, i),
{
    lemma_connected_sym(b, w, h, eight, s, i);
    assert forall|t: int| #[trigger] component(b, w, h, eight, s).contains(t) <==> component(
        b,
        w,
        h,
        eight,
        i,
    ).contains(t) by {
        if connected(b, w, h, eight, s, t) {
            lemma_connected_trans(b, w, h, eight, i, s, t);
        }
        if connected(b, w, h, eight, i, t) {
            lemma_connected_trans(b, w, h, eight, s, i, t);
        }
    }
    assert(component(b, w, h, eight, s) =~= component(b, w, h, eight, i));
}

/// A duplicate-free list of exactly the pixels of a component has the
/// component's size.
pub proof fn lemma_component_len(
    b: Seq<u8>,
    w: int,
    h: int,
    eight: bool,
    s: int,
    comp: Seq<usize>,
)
    requires
        comp.no_duplicates(),
        forall|k: int|
            0 <= k < comp.len() ==> {
                let v = #[trigger] comp[k] as int;
                &&& 0 <= v < w * h
                &&& connected(b, w, h, eight, s, v)
            },
        forall|i: int|
            0 <= i < w * h && connected(b, w, h, eight, s, i) ==> comp.contains(i as usize),
        0 <= w * h <= usize::MAX,
    ensures
        component(b, w, h, eight, s).finite(),
        component(b, w, h, eight, s).len() == comp.len(),
        comp.len() <= w * h,
{
    let s2 = comp.map_values(|v: usize| v as int);
    assert(s2.no_duplicates()) by {
        assert forall|k1: int, k2: int|
            0 <= k1 < s2.len() && 0 <= k2 < s2.len() && k1 != k2 implies s2[k1] != s2[k2] by {
            assert(comp[k1] != comp[k2]);
        }
    }
    assert forall|t: int| #[trigger] component(b, w, h, eight, s).contains(t) <==> s2.to_set().contains(
        t,
    ) by {
        if connected(b, w, h, eight, s, t) {
            lemma_connected_ends(b, w, h, eight, s, t);
            assert(comp.contains(t as usize));
            let k = choose|k: int| 0 <= k < comp.len() && comp[k] == t as usize;
            assert(s2[k] == comp[k] as int);
            assert(s2[k] == t);
        }
        if s2.to_set().contains(t) {
            assert(s2.contains(t));
            let k = choose|k: int| 0 <= k < s2.len() && s2[k] == t;
            assert(comp[k] as int == t);
        }
    }
    assert(component(b, w, h, eight, s) =~= s2.to_set());
    s2.unique_seq_to_set();
    vstd::seq_lib::seq_to_set_is_finite(s2);
    let r = vstd::set_lib::set_int_range(0, w * h);
    vstd::set_lib::lemma_int_range(0, w * h);
    assert(s2.to_set().subset_of(r)) by {
        assert forall|t: int| s2.to_set().contains(t) implies r.contains(t) by {
            assert(s2.contains(t));
            let k = choose|k: int| 0 <= k < s2.len() && s2[k] == t;
            assert(s2[k] == comp[k] as int);
        }
    }
    vstd::set_lib::lemma_len_subset(s2.to_set(), r);
}

/// Sets every listed pixel to 255 (white).
pub(crate) fn blank_pixels(binary: &mut [u8], comp: &Vec<usize>)
    requires
        forall|q: int| 0 <= q < comp@.len() ==> (#[trigger] comp@[q] as int) < old(binary)@.len(),
    ensures
        final(binary)@.len() == old(binary)@.len(),
        forall|i: int|
            0 <= i < old(binary)@.len() ==> #[trigger] final(binary)@[i] == if exists|q: int|
                0 <= q < comp@.len() && comp@[q] as int == i {
                255u8
            } else {
                old(binary)@[i]
            },
{
    let ghost bin_a = binary@;
    let mut k: usize = 0;
    while k < comp.len()
        invariant
            0 <= k <= comp@.len(),
            binary@.len() == bin_a.len(),
            forall|q: int| 0 <= q < comp@.len() ==> (#[trigger] comp@[q] as int) < bin_a.len(),
            forall|i: int|
                0 <= i < bin_a.len() ==> #[trigger] binary@[i] == if exists|q: int|
                    0 <= q < k && comp@[q] as int == i {
                    255u8
                } else {
                    bin_a[i]
                },
        decreases comp@.len() - k,
    {
        binary[comp[k]] = 255;
        proof {
            assert forall|i: int| 0 <= i < bin_a.len() implies #[trigger] binary@[i] == if exists|q: int|
                0 <= q < k + 1 && comp@[q] as int == i {
                255u8
            } else {
                bin_a[i]
            } by {
                if i == comp@[k as int] as int {
                    assert(comp@[k as int] as int == i);
                } else if exists|q: int| 0 <= q < k + 1 && comp@[q] as int == i {
                    let q = choose|q: int| 0 <= q < k + 1 && comp@[q] as int == i;
                    assert(q < k);
                }
            }
        }
        k += 1;
    }
}

/// Blanks (sets to 255) every ink component, 4-connected, of fewer than
/// `min_area` pixels. A buffer shorter than `w * h` is left as it is.
pub fn remove_small_black_components(binary: &mut [u8], w: u32, h: u32, min_area: u32)
    requires
        (w as int) * (h as int) <= u32::MAX,
    ensures
        final(binary)@.len() == old(binary)@.len(),
        old(binary)@.len() < (w as int) * (h as int) ==> final(binary)@ == old(binary)@,
        old(binary)@.len() >= (w as int) * (h as int) ==> forall|i: int|
            0 <= i < old(binary)@.len() ==> #[trigger] final(binary)@[i] == if i < (w as int) * (
            h as int) && old(binary)@[i] == 0 && component(old(binary)@, w as int, h as int, false, i).len()
                < min_area {
                255u8
            } else {
                old(binary)@[i]
            },
{
    let n = (w as usize) * (h as usize);
    if binary.len() < n {
        return;
    }
    let ghost wi = w as int;
    let ghost hi = h as int;
    let orig: Vec<u8> = vstd::slice::slice_to_vec(binary);
    let ghost b0 = orig@;
    let mut visited: Vec<bool> = vec![false; n];
    assert(forall|i: int| 0 <= i < n ==> !visited@[i]);
    let mut start: usize = 0;
    while start < n
        invariant
            n == wi * hi,
            wi == w as int,
            hi == h as int,
            n <= u32::MAX,
            b0 == old(binary)@,
            orig@ == b0,
            b0.len() >= n,
            binary@.len() == b0.len(),
            0 <= start <= n,
            closed(b0, wi, hi, false, visited@),
            forall|j: int| 0 <= j < start && is_ink(b0, n as int, j) ==> #[trigger] visited@[j],
            forall|i: int|
                0 <= i < b0.len() ==> #[trigger] binary@[i] == if i < n && visited@[i] && component(
                    b0,
                    wi,
                    hi,
                    false,
                    i,
                ).len() < min_area {
                    255u8
                } else {
                    b0[i]
                },
        decreases n - start,
    {
        if !visited[start] && orig[start] == 0 {
            let ghost vis_a = visited@;
            let ghost bin_a = binary@;
            let comp = flood_fill(orig.as_slice(), w, h, false, &mut visited, start);
            proof {
                lemma_component_len(b0, wi, hi, false, start as int, comp@);
            }
            if (comp.len() as u32) < min_area {
                blank_pixels(binary, &comp);
            }
            proof {
                let small = comp@.len() < min_area;
                assert(small ==> forall|i: int| 0 <= i < b0.len() ==> #[trigger] binary@[i] == if exists|q: int|
                    0 <= q < comp@.len() && comp@[q] as int == i {
                    255u8
                } else {
                    bin_a[i]
                });
                assert(!small ==> binary@ == bin_a);
                assert forall|i: int| 0 <= i < b0.len() implies #[trigger] binary@[i] == if i < n
                    && visited@[i] && component(b0, wi, hi, false, i).len() < min_area {
                    255u8
                } else {
                    b0[i]
                } by {
                    if i < n && visited@[i] && !vis_a[i] {
                        assert(connected(b0, wi, hi, false, start as int, i));
                        lemma_component_same(b0, wi, hi, false, start as int, i);
                        assert(comp@.contains(i as usize));
                        let q = choose|q: int| 0 <= q < comp@.len() && comp@[q] == i as usize;
                        assert(comp@[q] as int == i);
                        assert(component(b0, wi, hi, false, i).len() == comp@.len());
                        if small {
                            assert(binary@[i] == 255u8);
                        } else {
                            assert(binary@[i] == bin_a[i]);
                        }
                    } else {
                        if exists|q: int| 0 <= q < comp@.len() && comp@[q] as int == i {
                            let q = choose|q: int| 0 <= q < comp@.len() && comp@[q] as int == i;
                            assert(!vis_a[comp@[q] as int]);
                        }
                    }
                }
                assert forall|j: int| 0 <= j < start + 1 && is_ink(b0, n as int, j) implies #[trigger] visited@[j] by {
                    if j == start {
                        lemma_connected_refl(b0, wi, hi, false, j);
                    } else {
                        assert(vis_a[j]);
                    }
                }
            }
        } else {
            proof {
                assert forall|j: int| 0 <= j < start + 1 && is_ink(b0, n as int, j) implies #[trigger] visited@[j] by {
                    if j < start {
                    }
                }
            }
        }
        start += 1;
    }
    proof {
        assert forall|i: int| 0 <= i < b0.len() implies #[trigger] binary@[i] == if i < n && b0[i] == 0
            && component(b0, wi, hi, false, i).len() < min_area {
            255u8
        } else {
            b0[i]
        } by {
            if i < n && b0[i] == 0 {
                assert(is_ink(b0, n as int, i));
                assert(visited@[i]);
            }
            if i < n && visited@[i] {
                assert(is_ink(b0, n as int, i));
            }
        }
    }
}

} // verus!
