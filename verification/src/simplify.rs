//! Douglas-Peucker simplification of integer polylines and closed polygons,
//! with the tolerance a rational `num / den` and exact integer distances.
use vstd::prelude::*;

verus! {

/// Largest coordinate magnitude the exact arithmetic handles: a squared
/// cross product of coordinate differences (at most 2^86) times a squared
/// tolerance denominator (at most 2^32) stays within `i128`. A cell is far
/// smaller (120 pixels a side at 10 pixels per millimetre).
pub const COORD_LIMIT: i32 = 0x10_0000;

/// Largest numerator or denominator of a tolerance (the one used is 3 / 2).
pub const EPS_LIMIT: u32 = 0x1_0000;

pub open spec fn coords_ok(p: Seq<(i32, i32)>) -> bool {
    forall|i: int|
        0 <= i < p.len() ==> -COORD_LIMIT <= (#[trigger] p[i]).0 <= COORD_LIMIT && -COORD_LIMIT
            <= p[i].1 <= COORD_LIMIT
}

/// Squared length of segment `lo`-`hi`.
pub open spec fn seg_len2(p: Seq<(i32, i32)>, lo: int, hi: int) -> int {
    let dx = p[hi].0 - p[lo].0;
    let dy = p[hi].1 - p[lo].1;
    dx * dx + dy * dy
}

/// How far point `i` is from segment `lo`-`hi`, up to a factor common to the
/// segment: the squared distance to `p[lo]` when the segment is a point, else
/// the squared cross product (the squared distance to the line times the
/// squared length).
pub open spec fn seg_key(p: Seq<(i32, i32)>, lo: int, hi: int, i: int) -> int {
    let dx = p[hi].0 - p[lo].0;
    let dy = p[hi].1 - p[lo].1;
    let ex = p[i].0 - p[lo].0;
    let ey = p[i].1 - p[lo].1;
    if seg_len2(p, lo, hi) == 0 {
        ex * ex + ey * ey
    } else {
        let c = dx * ey - dy * ex;
        c * c
    }
}

/// Point `i` lies farther than `num / den` from segment `lo`-`hi` (from its
/// line, or from its single point when the ends coincide).
pub open spec fn exceeds(p: Seq<(i32, i32)>, lo: int, hi: int, i: int, num: int, den: int) -> bool {
    if seg_len2(p, lo, hi) == 0 {
        seg_key(p, lo, hi, i) * den * den > num * num
    } else {
        seg_key(p, lo, hi, i) * den * den > num * num * seg_len2(p, lo, hi)
    }
}

/// The first point among `lo + 1 .. j - 1` farthest from segment `lo`-`hi`
/// (`j >= lo + 2`).
pub open spec fn farthest(p: Seq<(i32, i32)>, lo: int, hi: int, j: int) -> int
    decreases j - lo,
{
    if j <= lo + 2 {
        lo + 1
    } else {
        let m = farthest(p, lo, hi, j - 1);
        if seg_key(p, lo, hi, j - 1) > seg_key(p, lo, hi, m) {
            j - 1
        } else {
            m
        }
    }
}

/// The interior points of `lo`-`hi` that Douglas-Peucker keeps: the farthest
/// point when it exceeds the tolerance, and recursively those of both halves.
pub open spec fn dp_keep(p: Seq<(i32, i32)>, lo: int, hi: int, num: int, den: int) -> Set<int>
    decreases hi - lo,
{
    if hi <= lo + 1 {
        Set::empty()
    } else {
        let f = farthest(p, lo, hi, hi);
        if lo < f < hi && exceeds(p, lo, hi, f, num, den) {
            set![f].union(dp_keep(p, lo, f, num, den)).union(dp_keep(p, f, hi, num, den))
        } else {
            Set::empty()
        }
    }
}

/// The points of `p[0..k]` whose index is in `s`, in order.
pub open spec fn select(p: Seq<(i32, i32)>, s: Set<int>, k: int) -> Seq<(i32, i32)>
    decreases k,
{
    if k <= 0 {
        Seq::empty()
    } else if s.contains(k - 1) {
        select(p, s, k - 1).push(p[k - 1])
    } else {
        select(p, s, k - 1)
    }
}

/// Indices kept by Douglas-Peucker on an open polyline: both ends and
/// `dp_keep` of the whole.
pub open spec fn dp_kept(p: Seq<(i32, i32)>, num: int, den: int) -> Set<int> {
    set![0int, p.len() - 1].union(dp_keep(p, 0, p.len() - 1, num, den))
}

/// Douglas-Peucker on an open polyline.
pub open spec fn spec_dp_open(p: Seq<(i32, i32)>, num: int, den: int) -> Seq<(i32, i32)> {
    if p.len() <= 2 {
        p
    } else {
        select(p, dp_kept(p, num, den), p.len() as int)
    }
}

proof fn lemma_farthest_range(p: Seq<(i32, i32)>, lo: int, hi: int, j: int)
    requires
        lo + 2 <= j,
    ensures
        lo < farthest(p, lo, hi, j) < j,
        forall|i: int| lo < i < j ==> #[trigger] seg_key(p, lo, hi, i) <= seg_key(p, lo, hi, farthest(p, lo, hi, j)),
    decreases j - lo,
{
    if j > lo + 2 {
        lemma_farthest_range(p, lo, hi, j - 1);
    }
}

proof fn lemma_dp_keep_range(p: Seq<(i32, i32)>, lo: int, hi: int, num: int, den: int)
    ensures
        forall|i: int| #[trigger] dp_keep(p, lo, hi, num, den).contains(i) ==> lo < i < hi,
    decreases hi - lo,
{
    if hi > lo + 1 {
        let f = farthest(p, lo, hi, hi);
        if lo < f < hi && exceeds(p, lo, hi, f, num, den) {
            lemma_dp_keep_range(p, lo, f, num, den);
            lemma_dp_keep_range(p, f, hi, num, den);
            assert(dp_keep(p, lo, hi, num, den) == set![f].union(dp_keep(p, lo, f, num, den)).union(
                dp_keep(p, f, hi, num, den),
            ));
        } else {
            assert(dp_keep(p, lo, hi, num, den) == Set::<int>::empty());
        }
    } else {
        assert(dp_keep(p, lo, hi, num, den) == Set::<int>::empty());
    }
}

/// Sum of the interior sizes of the intervals on a stack.
spec fn stack_work(st: Seq<(usize, usize)>) -> nat
    decreases st.len(),
{
    if st.len() == 0 {
        0
    } else {
        let t = st.last();
        stack_work(st.drop_last()) + if t.1 > t.0 + 1 {
            (t.1 - t.0 - 1) as nat
        } else {
            0nat
        }
    }
}

/// Union of `dp_keep` over the intervals on a stack.
spec fn stack_keep(p: Seq<(i32, i32)>, st: Seq<(usize, usize)>, num: int, den: int) -> Set<int>
    decreases st.len(),
{
    if st.len() == 0 {
        Set::empty()
    } else {
        let t = st.last();
        stack_keep(p, st.drop_last(), num, den).union(dp_keep(p, t.0 as int, t.1 as int, num, den))
    }
}

/// The flags that are set.
spec fn flag_set(k: Seq<bool>) -> Set<int> {
    Set::new(|i: int| 0 <= i < k.len() && k[i])
}

fn sq_i128(v: i128) -> (r: i128)
    requires
        -0x1000_0000_0000 <= v <= 0x1000_0000_0000,
    ensures
        r == v * v,
        0 <= r <= 0x100_0000_0000_0000_0000_0000,
{
    proof {
        assert(0 <= v * v <= 0x100_0000_0000_0000_0000_0000) by (nonlinear_arith)
            requires
                -0x1000_0000_0000 <= v <= 0x1000_0000_0000,
        ;
    }
    v * v
}

/// `seg_key` and the tolerance test of point `i`.
fn key_of(p: &Vec<(i32, i32)>, lo: usize, hi: usize, i: usize, num: u32, den: u32) -> (r: (i128, bool))
    requires
        lo < p@.len(),
        hi < p@.len(),
        i < p@.len(),
        coords_ok(p@),
        num <= EPS_LIMIT,
        den <= EPS_LIMIT,
    ensures
        r.0 == seg_key(p@, lo as int, hi as int, i as int),
        r.1 == exceeds(p@, lo as int, hi as int, i as int, num as int, den as int),
        r.0 >= 0,
{
    let a = p[lo];
    let b = p[hi];
    let q = p[i];
    proof {
        assert(coords_ok(p@));
        assert(-COORD_LIMIT <= p@[lo as int].0 <= COORD_LIMIT && -COORD_LIMIT <= p@[lo as int].1 <= COORD_LIMIT);
        assert(-COORD_LIMIT <= p@[hi as int].0 <= COORD_LIMIT && -COORD_LIMIT <= p@[hi as int].1 <= COORD_LIMIT);
        assert(-COORD_LIMIT <= p@[i as int].0 <= COORD_LIMIT && -COORD_LIMIT <= p@[i as int].1 <= COORD_LIMIT);
    }
    let dx = (b.0 as i128) - (a.0 as i128);
    let dy = (b.1 as i128) - (a.1 as i128);
    let ex = (q.0 as i128) - (a.0 as i128);
    let ey = (q.1 as i128) - (a.1 as i128);
    let len2 = sq_i128(dx) + sq_i128(dy);
    let nn: i128 = num as i128;
    let dd: i128 = den as i128;
    proof {
        assert(0 <= nn * nn <= 0x1_0000_0000 && 0 <= dd * dd <= 0x1_0000_0000) by (nonlinear_arith)
            requires
                0 <= nn <= 0x1_0000,
                0 <= dd <= 0x1_0000,
        ;
    }
    let num2 = nn * nn;
    let den2 = dd * dd;
    if len2 == 0 {
        let k = sq_i128(ex) + sq_i128(ey);
        proof {
            assert(k * den2 <= 0x200_0000_0000_0000_0000_0000_0000_0000) by (nonlinear_arith)
                requires
                    0 <= k <= 0x200_0000_0000_0000_0000_0000,
                    0 <= den2 <= 0x1_0000_0000,
            ;
            assert(k * den2 == k * dd * dd) by (nonlinear_arith)
                requires
                    den2 == dd * dd,
            ;
        }
        (k, k * den2 > num2)
    } else {
        proof {
            assert(-0x400_0000_0000 <= dx * ey <= 0x400_0000_0000) by (nonlinear_arith)
                requires
                    -0x20_0000 <= dx <= 0x20_0000,
                    -0x20_0000 <= ey <= 0x20_0000,
            ;
            assert(-0x400_0000_0000 <= dy * ex <= 0x400_0000_0000) by (nonlinear_arith)
                requires
                    -0x20_0000 <= dy <= 0x20_0000,
                    -0x20_0000 <= ex <= 0x20_0000,
            ;
        }
        let c = dx * ey - dy * ex;
        let k = sq_i128(c);
        proof {
            assert(k * den2 <= 0x200_0000_0000_0000_0000_0000_0000_0000) by (nonlinear_arith)
                requires
                    0 <= k <= 0x100_0000_0000_0000_0000_0000,
                    0 <= den2 <= 0x1_0000_0000,
            ;
            assert(num2 * len2 <= 0x200_0000_0000_0000_0000_0000_0000_0000) by (nonlinear_arith)
                requires
                    0 <= len2 <= 0x200_0000_0000_0000_0000_0000,
                    0 <= num2 <= 0x1_0000_0000,
            ;
            assert(k * den2 == k * dd * dd) by (nonlinear_arith)
                requires
                    den2 == dd * dd,
            ;
            assert(num2 * len2 == nn * nn * len2) by (nonlinear_arith)
                requires
                    num2 == nn * nn,
            ;
        }
        (k, k * den2 > num2 * len2)
    }
}

fn copy_points(pts: &Vec<(i32, i32)>) -> (out: Vec<(i32, i32)>)
    ensures
        out@ == pts@,
{
    let mut out: Vec<(i32, i32)> = Vec::new();
    let mut i: usize = 0;
    while i < pts.len()
        invariant
            0 <= i <= pts@.len(),
            out@ == pts@.subrange(0, i as int),
        decreases pts@.len() - i,
    {
        out.push(pts[i]);
        i += 1;
        proof {
            assert(out@ =~= pts@.subrange(0, i as int));
        }
    }
    proof {
        assert(pts@.subrange(0, pts@.len() as int) =~= pts@);
    }
    out
}

/// Douglas-Peucker on an open polyline: both ends are kept; in a stretch
/// between kept points, the first point farthest from the chord is kept when
/// it lies farther than `num / den` (strictly), and both halves are treated
/// alike. Distances are exact: squared integer cross products. Polylines of at
/// most two points are returned as they are.
pub fn dp_open(pts: &Vec<(i32, i32)>, num: u32, den: u32) -> (out: Vec<(i32, i32)>)
    requires
        coords_ok(pts@),
        num <= EPS_LIMIT,
        den <= EPS_LIMIT,
    ensures
        out@ == spec_dp_open(pts@, num as int, den as int),
{
    let n = pts.len();
    if n <= 2 {
        return copy_points(pts);
    }
    let ghost p = pts@;
    let ghost ni = num as int;
    let ghost di = den as int;
    let ghost target = dp_kept(p, ni, di);
    let mut keep: Vec<bool> = Vec::new();
    while keep.len() < n
        invariant
            keep@.len() <= n,
            forall|k: int| 0 <= k < keep@.len() ==> keep@[k] == (k == 0 || k == n - 1),
        decreases n - keep@.len(),
    {
        let k = keep.len();
        keep.push(k == 0 || k == n - 1);
    }
    let mut stack: Vec<(usize, usize)> = Vec::new();
    stack.push((0, n - 1));
    proof {
        assert(stack@.drop_last() =~= Seq::<(usize, usize)>::empty());
        assert(stack@.last() == (0usize, (n - 1) as usize));
        assert(stack_keep(p, stack@.drop_last(), ni, di) == Set::<int>::empty());
        assert(stack_keep(p, stack@, ni, di) == Set::<int>::empty().union(
            dp_keep(p, 0, n - 1, ni, di),
        ));
        assert(flag_set(keep@) =~= set![0int, n - 1]);
        assert(flag_set(keep@).union(stack_keep(p, stack@, ni, di)) =~= target);
    }
    while stack.len() > 0
        invariant
            p == pts@,
            n == p.len(),
            n >= 3,
            coords_ok(p),
            num <= EPS_LIMIT,
            den <= EPS_LIMIT,
            ni == num,
            di == den,
            keep@.len() == n,
            forall|k: int| 0 <= k < stack@.len() ==> (#[trigger] stack@[k]).0 <= stack@[k].1 < n,
            flag_set(keep@).union(stack_keep(p, stack@, ni, di)) == target,
        decreases stack_work(stack@), stack@.len(),
    {
        let ghost st0 = stack@;
        let (lo, hi) = stack.pop().unwrap();
        proof {
            assert(stack@ == st0.drop_last());
            assert(st0.last() == (lo, hi));
        }
        if hi <= lo + 1 {
            proof {
                assert(dp_keep(p, lo as int, hi as int, ni, di) == Set::<int>::empty());
                assert(stack_keep(p, st0, ni, di) =~= stack_keep(p, stack@, ni, di));
                assert(stack_work(st0) == stack_work(st0.drop_last()));
            }
            continue;
        }
        let mut far: usize = lo + 1;
        let mut far_key: i128 = -1;
        let mut far_exceeds: bool = false;
        let mut i: usize = lo + 1;
        while i < hi
            invariant
                p == pts@,
                n == p.len(),
                coords_ok(p),
                num <= EPS_LIMIT,
                den <= EPS_LIMIT,
                ni == num,
                di == den,
                lo + 1 < hi < n,
                lo + 1 <= i <= hi,
                i == lo + 1 ==> far_key == -1,
                i > lo + 1 ==> far == farthest(p, lo as int, hi as int, i as int) && far_key == seg_key(
                    p,
                    lo as int,
                    hi as int,
                    far as int,
                ) && far_exceeds == exceeds(p, lo as int, hi as int, far as int, ni, di),
            decreases hi - i,
        {
            let (k, ex) = key_of(pts, lo, hi, i, num, den);
            if k > far_key {
                far = i;
                far_key = k;
                far_exceeds = ex;
            }
            i += 1;
        }
        proof {
            lemma_farthest_range(p, lo as int, hi as int, hi as int);
        }
        if far_exceeds {
            let ghost k0 = keep@;
            keep.set(far, true);
            stack.push((lo, far));
            stack.push((far, hi));
            proof {
                let st1 = stack@;
                assert(st1.drop_last().drop_last() =~= st0.drop_last());
                assert(st1.last() == (far, hi));
                assert(st1.drop_last().last() == (lo, far));
                assert(stack_keep(p, st1.drop_last(), ni, di) == stack_keep(p, st0.drop_last(), ni, di).union(
                    dp_keep(p, lo as int, far as int, ni, di),
                ));
                assert(stack_work(st1.drop_last()) == stack_work(st0.drop_last()) + (if far > lo + 1 {
                    (far - lo - 1) as nat
                } else {
                    0nat
                }));
                assert(stack_keep(p, st1, ni, di) == stack_keep(p, st0.drop_last(), ni, di).union(
                    dp_keep(p, lo as int, far as int, ni, di),
                ).union(dp_keep(p, far as int, hi as int, ni, di)));
                assert(stack_keep(p, st0, ni, di) == stack_keep(p, st0.drop_last(), ni, di).union(
                    dp_keep(p, lo as int, hi as int, ni, di),
                ));
                assert(stack_work(st1) == stack_work(st0.drop_last()) + (if far > lo + 1 {
                    (far - lo - 1) as nat
                } else {
                    0nat
                }) + (if hi > far + 1 {
                    (hi - far - 1) as nat
                } else {
                    0nat
                }));
                assert(stack_work(st0) == stack_work(st0.drop_last()) + (hi - lo - 1) as nat);
                assert(flag_set(keep@) =~= flag_set(k0).insert(far as int));
                assert(dp_keep(p, lo as int, hi as int, ni, di) == set![far as int].union(
                    dp_keep(p, lo as int, far as int, ni, di),
                ).union(dp_keep(p, far as int, hi as int, ni, di)));
                assert(flag_set(keep@).union(stack_keep(p, stack@, ni, di)) =~= flag_set(k0).union(
                    stack_keep(p, st0, ni, di),
                ));
            }
        } else {
            proof {
                assert(dp_keep(p, lo as int, hi as int, ni, di) == Set::<int>::empty());
                assert(stack_keep(p, st0, ni, di) =~= stack_keep(p, stack@, ni, di));
                assert(stack_work(st0) == stack_work(st0.drop_last()) + (hi - lo - 1) as nat);
            }
        }
    }
    proof {
        assert(stack_keep(p, stack@, ni, di) == Set::<int>::empty());
        assert(flag_set(keep@) =~= target);
    }
    let mut out: Vec<(i32, i32)> = Vec::new();
    let mut j: usize = 0;
    while j < n
        invariant
            p == pts@,
            n == p.len(),
            keep@.len() == n,
            flag_set(keep@) == target,
            0 <= j <= n,
            out@ == select(p, target, j as int),
        decreases n - j,
    {
        if keep[j] {
            out.push(pts[j]);
        }
        j += 1;
    }
    out
}

/// `a` comes before `b` with x first, then y.
pub open spec fn pt_lt(a: (i32, i32), b: (i32, i32)) -> bool {
    a.0 < b.0 || (a.0 == b.0 && a.1 < b.1)
}

/// The first index of the least point (x first, then y) among `p[0..j]`.
pub open spec fn least_index(p: Seq<(i32, i32)>, j: int) -> int
    decreases j,
{
    if j <= 1 {
        0
    } else {
        let m = least_index(p, j - 1);
        if pt_lt(p[j - 1], p[m]) {
            j - 1
        } else {
            m
        }
    }
}

/// The closed polygon `p` opened at index `a`: its points from `a` round to
/// `a` again.
pub open spec fn opened_at(p: Seq<(i32, i32)>, a: int) -> Seq<(i32, i32)> {
    Seq::new(p.len() + 1, |k: int| p[(a + k) % (p.len() as int)])
}

/// Douglas-Peucker on a closed polygon, anchored at its least point.
pub open spec fn spec_dp_closed(p: Seq<(i32, i32)>, num: int, den: int) -> Seq<(i32, i32)> {
    if p.len() < 4 {
        p
    } else {
        spec_dp_open(opened_at(p, least_index(p, p.len() as int)), num, den).drop_last()
    }
}

proof fn lemma_least_index(p: Seq<(i32, i32)>, j: int)
    requires
        1 <= j,
    ensures
        0 <= least_index(p, j) < j,
    decreases j,
{
    if j > 1 {
        lemma_least_index(p, j - 1);
    }
}

/// Douglas-Peucker on a closed polygon (no point repeated at the end): it is
/// opened at its least point (x first, then y), which is a true corner,
/// simplified as a polyline from that point round to it again, and closed by
/// dropping the repeated anchor. Polygons under four points are returned as
/// they are.
pub fn douglas_peucker_closed(pts: &Vec<(i32, i32)>, num: u32, den: u32) -> (out: Vec<(i32, i32)>)
    requires
        coords_ok(pts@),
        num <= EPS_LIMIT,
        den <= EPS_LIMIT,
    ensures
        out@ == spec_dp_closed(pts@, num as int, den as int),
{
    let n = pts.len();
    if n < 4 {
        return copy_points(pts);
    }
    let ghost p = pts@;
    let mut a: usize = 0;
    let mut i: usize = 1;
    while i < n
        invariant
            p == pts@,
            n == p.len(),
            1 <= i <= n,
            a < i,
            a == least_index(p, i as int),
        decreases n - i,
    {
        let (ix, iy) = pts[i];
        let (ax, ay) = pts[a];
        if ix < ax || (ix == ax && iy < ay) {
            a = i;
        }
        i += 1;
    }
    proof {
        lemma_least_index(p, n as int);
    }
    let mut rot: Vec<(i32, i32)> = Vec::new();
    let mut k: usize = 0;
    while k < n
        invariant
            p == pts@,
            n == p.len(),
            n >= 4,
            a < n,
            0 <= k <= n,
            rot@ =~= opened_at(p, a as int).subrange(0, k as int),
        decreases n - k,
    {
        let idx = if k < n - a {
            a + k
        } else {
            k - (n - a)
        };
        proof {
            if k < n - a {
                vstd::arithmetic::div_mod::lemma_small_mod((a + k) as nat, n as nat);
            } else {
                vstd::arithmetic::div_mod::lemma_mod_sub_multiples_vanish(a + k, n as int);
                vstd::arithmetic::div_mod::lemma_small_mod((a + k - n) as nat, n as nat);
            }
            assert(idx as int == (a as int + k as int) % (n as int));
        }
        rot.push(pts[idx]);
        k += 1;
        proof {
            assert(rot@ =~= opened_at(p, a as int).subrange(0, k as int));
        }
    }
    rot.push(pts[a]);
    proof {
        vstd::arithmetic::div_mod::lemma_mod_add_multiples_vanish(a as int, n as int);
        vstd::arithmetic::div_mod::lemma_small_mod(a as nat, n as nat);
        assert(opened_at(p, a as int)[n as int] == p[a as int]);
    }
    proof {
        assert(rot@ =~= opened_at(p, a as int));
        assert forall|q: int| 0 <= q < rot@.len() implies -COORD_LIMIT <= (#[trigger] rot@[q]).0
            <= COORD_LIMIT && -COORD_LIMIT <= rot@[q].1 <= COORD_LIMIT by {
            let r = (a as int + q) % (n as int);
            assert(0 <= r < n) by {
                vstd::arithmetic::div_mod::lemma_mod_bound(a as int + q, n as int);
            }
            assert(rot@[q] == p[r]);
        }
    }
    let mut out = dp_open(&rot, num, den);
    let ghost full = out@;
    out.pop();
    proof {
        assert(out@ =~= full.drop_last());
    }
    out
}

/// `a` and `b` are consecutive in `kept`: both kept (or the ends `lo` and
/// `hi` of the range), and nothing between them is kept.
pub open spec fn kept_neighbours(kept: Set<int>, lo: int, hi: int, a: int, b: int) -> bool {
    &&& lo <= a < b <= hi
    &&& (a == lo || kept.contains(a))
    &&& (b == hi || kept.contains(b))
    &&& forall|j: int| a < j < b ==> !#[trigger] kept.contains(j)
}

/// A point no farther from a segment than another point is not farther than
/// the tolerance when that one is not.
proof fn lemma_exceeds_mono(p: Seq<(i32, i32)>, lo: int, hi: int, i: int, f: int, num: int, den: int)
    requires
        seg_key(p, lo, hi, i) <= seg_key(p, lo, hi, f),
        !exceeds(p, lo, hi, f, num, den),
    ensures
        !exceeds(p, lo, hi, i, num, den),
{
    let ki = seg_key(p, lo, hi, i);
    let kf = seg_key(p, lo, hi, f);
    assert(ki * den * den <= kf * den * den) by (nonlinear_arith)
        requires
            ki <= kf,
    ;
}

proof fn lemma_dp_keep_tolerance(p: Seq<(i32, i32)>, lo: int, hi: int, num: int, den: int, i: int)
    requires
        lo < i < hi,
        !dp_keep(p, lo, hi, num, den).contains(i),
    ensures
        exists|a: int, b: int|
            kept_neighbours(dp_keep(p, lo, hi, num, den), lo, hi, a, b) && a < i < b && !#[trigger] exceeds(
                p,
                a,
                b,
                i,
                num,
                den,
            ),
    decreases hi - lo,
{
    let k = dp_keep(p, lo, hi, num, den);
    let f = farthest(p, lo, hi, hi);
    lemma_farthest_range(p, lo, hi, hi);
    if exceeds(p, lo, hi, f, num, den) {
        let kl = dp_keep(p, lo, f, num, den);
        let kr = dp_keep(p, f, hi, num, den);
        assert(k == set![f].union(kl).union(kr));
        lemma_dp_keep_range(p, lo, f, num, den);
        lemma_dp_keep_range(p, f, hi, num, den);
        assert(i != f);
        if i < f {
            lemma_dp_keep_tolerance(p, lo, f, num, den, i);
            let (a, b) = choose|a: int, b: int|
                kept_neighbours(kl, lo, f, a, b) && a < i < b && !#[trigger] exceeds(p, a, b, i, num, den);
            assert(kept_neighbours(k, lo, hi, a, b)) by {
                assert forall|j: int| a < j < b implies !#[trigger] k.contains(j) by {
                    assert(!kl.contains(j));
                    if kr.contains(j) {
                        assert(f < j);
                    }
                }
            }
            assert(!exceeds(p, a, b, i, num, den));
        } else {
            lemma_dp_keep_tolerance(p, f, hi, num, den, i);
            let (a, b) = choose|a: int, b: int|
                kept_neighbours(kr, f, hi, a, b) && a < i < b && !#[trigger] exceeds(p, a, b, i, num, den);
            assert(kept_neighbours(k, lo, hi, a, b)) by {
                assert forall|j: int| a < j < b implies !#[trigger] k.contains(j) by {
                    assert(!kr.contains(j));
                    if kl.contains(j) {
                        assert(j < f);
                    }
                }
            }
            assert(!exceeds(p, a, b, i, num, den));
        }
    } else {
        assert(k == Set::<int>::empty());
        lemma_exceeds_mono(p, lo, hi, i, f, num, den);
        assert(kept_neighbours(k, lo, hi, lo, hi));
        assert(!exceeds(p, lo, hi, i, num, den));
    }
}

/// Every point that Douglas-Peucker drops from an open polyline lies within
/// the tolerance `num / den` of the segment joining the kept points next to
/// it on either side; both ends are always kept.
pub proof fn lemma_dp_tolerance(p: Seq<(i32, i32)>, num: int, den: int, i: int)
    requires
        p.len() >= 3,
        0 <= i < p.len(),
    ensures
        dp_kept(p, num, den).contains(0),
        dp_kept(p, num, den).contains(p.len() - 1),
        !dp_kept(p, num, den).contains(i) ==> exists|a: int, b: int|
            kept_neighbours(dp_kept(p, num, den), 0, p.len() - 1, a, b) && a < i < b && !#[trigger] exceeds(
                p,
                a,
                b,
                i,
                num,
                den,
            ),
{
    let n = p.len() as int;
    let kept = dp_kept(p, num, den);
    let k = dp_keep(p, 0, n - 1, num, den);
    assert(kept.contains(0) && kept.contains(n - 1));
    if !kept.contains(i) {
        assert(0 < i < n - 1);
        lemma_dp_keep_tolerance(p, 0, n - 1, num, den, i);
        lemma_dp_keep_range(p, 0, n - 1, num, den);
        let (a, b) = choose|a: int, b: int|
            kept_neighbours(k, 0, n - 1, a, b) && a < i < b && !#[trigger] exceeds(p, a, b, i, num, den);
        assert(kept_neighbours(kept, 0, n - 1, a, b)) by {
            assert forall|j: int| a < j < b implies !#[trigger] kept.contains(j) by {
                assert(!k.contains(j));
            }
        }
    }
}

} // verus!
