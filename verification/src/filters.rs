//! Moire detection (variance of the Laplacian) and the 3x3 median filter.
use vstd::prelude::*;
use crate::grid::{col_of, row_of, inside, index_of, lemma_index_of, lemma_coords};

verus! {

/// Pixel `i` has all four 4-neighbours inside the image.
pub open spec fn interior(w: int, h: int, i: int) -> bool {
    1 <= col_of(w, i) < w - 1 && 1 <= row_of(w, i) < h - 1
}

/// Discrete Laplacian `4 c - up - down - left - right` at pixel `i`.
pub open spec fn laplacian(g: Seq<u8>, w: int, i: int) -> int {
    4 * (g[i] as int) - (g[i - w] as int) - (g[i + w] as int) - (g[i - 1] as int) - (g[i + 1] as int)
}

/// Sum of the Laplacian (or of its square) over the interior pixels below index `k`.
pub open spec fn laplacian_sum(g: Seq<u8>, w: int, h: int, k: int, squared: bool) -> int
    decreases k,
{
    if k <= 0 {
        0
    } else {
        laplacian_sum(g, w, h, k - 1, squared) + if interior(w, h, k - 1) {
            if squared {
                laplacian(g, w, k - 1) * laplacian(g, w, k - 1)
            } else {
                laplacian(g, w, k - 1)
            }
        } else {
            0
        }
    }
}

/// Moire test: the variance of the Laplacian over the interior pixels is at
/// least 500, i.e. `count * sum_sq - sum^2 >= 500 * count^2`.
pub open spec fn spec_moire(g: Seq<u8>, w: int, h: int) -> bool {
    if w < 3 || h < 3 {
        false
    } else {
        let c = (w - 2) * (h - 2);
        let s = laplacian_sum(g, w, h, w * h, false);
        let s2 = laplacian_sum(g, w, h, w * h, true);
        c * s2 - s * s >= 500 * (c * c)
    }
}

proof fn lemma_interior_neighbours(w: int, h: int, i: int)
    requires
        0 < w,
        0 <= i < w * h,
        interior(w, h, i),
    ensures
        0 <= i - w,
        i + w < w * h,
        0 <= i - 1,
        i + 1 < w * h,
{
    lemma_coords(w, h, i);
    let x = col_of(w, i);
    let y = row_of(w, i);
    lemma_index_of(w, h, x, y - 1);
    lemma_index_of(w, h, x, y + 1);
    assert(index_of(w, x, y - 1) == i - w) by (nonlinear_arith)
        requires
            index_of(w, x, y) == i,
    ;
    assert(index_of(w, x, y + 1) == i + w) by (nonlinear_arith)
        requires
            index_of(w, x, y) == i,
    ;
}

/// Whether the image shows a moire pattern: the variance of its Laplacian over
/// the interior pixels is at least 500. Images under 3 pixels wide or high
/// have no interior and show none.
pub fn detect_moire(gray: &[u8], w: u32, h: u32) -> (r: bool)
    requires
        (w as int) * (h as int) <= u32::MAX,
        w >= 3 && h >= 3 ==> gray@.len() >= (w as int) * (h as int),
    ensures
        r == spec_moire(gray@, w as int, h as int),
{
    if w < 3 || h < 3 {
        return false;
    }
    let n = (w as usize) * (h as usize);
    let wu = w as usize;
    let ghost wi = w as int;
    let ghost hi = h as int;
    let ghost g = gray@;
    let mut sum: i64 = 0;
    let mut sum_sq: i64 = 0;
    let mut i: usize = 0;
    while i < n
        invariant
            n == wi * hi,
            n <= u32::MAX,
            wi == w as int,
            hi == h as int,
            wu == w as usize,
            w >= 3,
            h >= 3,
            g == gray@,
            g.len() >= n,
            0 <= i <= n,
            sum == laplacian_sum(g, wi, hi, i as int, false),
            sum_sq == laplacian_sum(g, wi, hi, i as int, true),
            -1020 * i <= sum <= 1020 * i,
            0 <= sum_sq <= 1040400 * i,
        decreases n - i,
    {
        proof {
            lemma_coords(wi, hi, i as int);
        }
        let x = i % wu;
        let y = i / wu;
        if x >= 1 && x < wu - 1 && y >= 1 && y < (h as usize) - 1 {
            proof {
                lemma_interior_neighbours(wi, hi, i as int);
            }
            let lap = 4 * (gray[i] as i64) - (gray[i - wu] as i64) - (gray[i + wu] as i64) - (gray[i
                - 1] as i64) - (gray[i + 1] as i64);
            proof {
                assert(0 <= lap * lap <= 1040400) by (nonlinear_arith)
                    requires
                        -1020 <= lap <= 1020,
                ;
            }
            sum = sum + lap;
            sum_sq = sum_sq + lap * lap;
        }
        i += 1;
    }
    proof {
        let ni = n as int;
        assert(0 < (wi - 2) * (hi - 2) <= ni) by (nonlinear_arith)
            requires
                wi >= 3,
                hi >= 3,
                ni == wi * hi,
        ;
    }
    let c = ((w as i128) - 2) * ((h as i128) - 2);
    let s = sum as i128;
    let s2 = sum_sq as i128;
    proof {
        assert(0 <= c * s2 <= 4294967295 * (1040400 * 4294967295)) by (nonlinear_arith)
            requires
                0 < c <= 4294967295,
                0 <= s2 <= 1040400 * 4294967295,
        ;
        assert(-4380866640900 <= s <= 4380866640900);
        assert(0 <= s * s <= 19191992525350449552810000) by (nonlinear_arith)
            requires
                -4380866640900 <= s <= 4380866640900,
        ;
        assert(0 <= c * c <= 4294967295 * 4294967295) by (nonlinear_arith)
            requires
                0 < c <= 4294967295,
        ;
    }
    let a = c * s2;
    let b = s * s;
    let cc = c * c;
    let lhs = a - b;
    let rhs = 500 * cc;
    lhs >= rhs
}

/// Pushes the value of `(x, y)` when it lies inside the image.
pub open spec fn push_inside(s: Seq<u8>, g: Seq<u8>, w: int, h: int, x: int, y: int) -> Seq<u8> {
    if inside(w, h, x, y) {
        s.push(g[index_of(w, x, y)])
    } else {
        s
    }
}

/// The in-image values of the 3x3 neighbourhood of `(x, y)`, row by row.
pub open spec fn neighbourhood(g: Seq<u8>, w: int, h: int, x: int, y: int) -> Seq<u8> {
    let s0 = Seq::<u8>::empty();
    let s1 = push_inside(s0, g, w, h, x - 1, y - 1);
    let s2 = push_inside(s1, g, w, h, x, y - 1);
    let s3 = push_inside(s2, g, w, h, x + 1, y - 1);
    let s4 = push_inside(s3, g, w, h, x - 1, y);
    let s5 = push_inside(s4, g, w, h, x, y);
    let s6 = push_inside(s5, g, w, h, x + 1, y);
    let s7 = push_inside(s6, g, w, h, x - 1, y + 1);
    let s8 = push_inside(s7, g, w, h, x, y + 1);
    push_inside(s8, g, w, h, x + 1, y + 1)
}

/// Number of values at most `v`.
pub open spec fn count_le(s: Seq<u8>, v: int) -> nat
    decreases s.len(),
{
    if s.len() == 0 {
        0
    } else {
        count_le(s.drop_last(), v) + if s.last() <= v {
            1nat
        } else {
            0nat
        }
    }
}

/// `m` is the median of `s`: the smallest value with more than `len / 2`
/// values at most it (the value at index `len / 2` once `s` is sorted).
pub open spec fn is_median(s: Seq<u8>, m: int) -> bool {
    &&& count_le(s, m) > s.len() / 2
    &&& forall|v: int| v < m ==> #[trigger] count_le(s, v) <= s.len() / 2
}

proof fn lemma_count_le_all(s: Seq<u8>)
    ensures
        count_le(s, 255) == s.len(),
        forall|v: int| v < 0 ==> #[trigger] count_le(s, v) == 0,
    decreases s.len(),
{
    if s.len() > 0 {
        lemma_count_le_all(s.drop_last());
        assert forall|v: int| v < 0 implies #[trigger] count_le(s, v) == 0 by {
            assert(count_le(s.drop_last(), v) == 0);
        }
    }
}

/// The median is unique: at most one value satisfies `is_median`.
pub proof fn lemma_median_unique(s: Seq<u8>, m1: int, m2: int)
    requires
        is_median(s, m1),
        is_median(s, m2),
    ensures
        m1 == m2,
{
    if m1 < m2 {
        assert(count_le(s, m1) <= s.len() / 2);
    } else if m2 < m1 {
        assert(count_le(s, m2) <= s.len() / 2);
    }
}

fn push_if_inside(nb: &mut Vec<u8>, g: &[u8], w: u32, h: u32, x: i64, y: i64)
    requires
        (w as int) * (h as int) <= u32::MAX,
        g@.len() >= (w as int) * (h as int),
        -1 <= x <= u32::MAX,
        -1 <= y <= u32::MAX,
    ensures
        final(nb)@ == push_inside(old(nb)@, g@, w as int, h as int, x as int, y as int),
{
    if x >= 0 && y >= 0 && x < w as i64 && y < h as i64 {
        proof {
            lemma_index_of(w as int, h as int, x as int, y as int);
        }
        nb.push(g[(y as usize) * (w as usize) + (x as usize)]);
    }
}

fn count_le_exec(s: &Vec<u8>, v: u8) -> (c: usize)
    ensures
        c == count_le(s@, v as int),
{
    let mut c: usize = 0;
    let mut i: usize = 0;
    while i < s.len()
        invariant
            0 <= i <= s@.len(),
            c == count_le(s@.subrange(0, i as int), v as int),
            c <= i,
        decreases s@.len() - i,
    {
        proof {
            assert(s@.subrange(0, i + 1).drop_last() =~= s@.subrange(0, i as int));
        }
        if s[i] <= v {
            c += 1;
        }
        i += 1;
    }
    assert(s@.subrange(0, s@.len() as int) =~= s@);
    c
}

/// Median of a non-empty list of at most 9 values.
fn median_of(nb: &Vec<u8>) -> (m: u8)
    requires
        nb@.len() > 0,
    ensures
        is_median(nb@, m as int),
{
    let k = nb.len() / 2;
    let mut v: u16 = 0;
    proof {
        lemma_count_le_all(nb@);
    }
    while v < 256
        invariant
            0 <= v <= 256,
            k == nb@.len() / 2,
            nb@.len() > 0,
            count_le(nb@, 255) == nb@.len(),
            forall|u: int| u < v ==> #[trigger] count_le(nb@, u) <= k,
        decreases 256 - v,
    {
        let c = count_le_exec(nb, v as u8);
        if c > k {
            return v as u8;
        }
        proof {
            assert forall|u: int| u < v + 1 implies #[trigger] count_le(nb@, u) <= k by {
                if u < v {
                } else {
                    assert(u == v as int);
                }
            }
        }
        v += 1;
    }
    proof {
        assert(count_le(nb@, 255) <= k);
    }
    0
}

/// The median value of a non-empty list.
pub open spec fn median_value(s: Seq<u8>) -> int {
    choose|m: int| 0 <= m < 256 && is_median(s, m)
}

/// The 3x3 median filter of a `w` by `h` image.
pub open spec fn spec_median_filter(g: Seq<u8>, w: int, h: int) -> Seq<u8> {
    Seq::new(
        (w * h) as nat,
        |i: int| median_value(neighbourhood(g, w, h, col_of(w, i), row_of(w, i))) as u8,
    )
}

/// 3x3 median filter: each pixel becomes the median of its neighbourhood
/// clipped to the image (4, 6 or 9 values).
pub fn median_filter_3x3(gray: &[u8], w: u32, h: u32) -> (out: Vec<u8>)
    requires
        (w as int) * (h as int) <= u32::MAX,
        gray@.len() >= (w as int) * (h as int),
    ensures
        out@.len() == (w as int) * (h as int),
        forall|i: int|
            0 <= i < (w as int) * (h as int) ==> is_median(
                neighbourhood(gray@, w as int, h as int, col_of(w as int, i), row_of(w as int, i)),
                #[trigger] out@[i] as int,
            ),
        out@ == spec_median_filter(gray@, w as int, h as int),
{
    let n = (w as usize) * (h as usize);
    let wu = w as usize;
    let mut out: Vec<u8> = Vec::new();
    let mut i: usize = 0;
    while i < n
        invariant
            n == (w as int) * (h as int),
            n <= u32::MAX,
            wu == w as usize,
            gray@.len() >= n,
            0 <= i <= n,
            out@.len() == i,
            forall|j: int|
                0 <= j < i ==> is_median(
                    neighbourhood(gray@, w as int, h as int, col_of(w as int, j), row_of(w as int, j)),
                    #[trigger] out@[j] as int,
                ),
        decreases n - i,
    {
        proof {
            lemma_coords(w as int, h as int, i as int);
        }
        let x = (i % wu) as i64;
        let y = (i / wu) as i64;
        let mut nb: Vec<u8> = Vec::new();
        push_if_inside(&mut nb, gray, w, h, x - 1, y - 1);
        push_if_inside(&mut nb, gray, w, h, x, y - 1);
        push_if_inside(&mut nb, gray, w, h, x + 1, y - 1);
        push_if_inside(&mut nb, gray, w, h, x - 1, y);
        let ghost before_centre = nb@;
        push_if_inside(&mut nb, gray, w, h, x, y);
        assert(nb@.len() == before_centre.len() + 1);
        push_if_inside(&mut nb, gray, w, h, x + 1, y);
        push_if_inside(&mut nb, gray, w, h, x - 1, y + 1);
        push_if_inside(&mut nb, gray, w, h, x, y + 1);
        push_if_inside(&mut nb, gray, w, h, x + 1, y + 1);
        let m = median_of(&nb);
        out.push(m);
        proof {
            assert forall|j: int| 0 <= j < i + 1 implies is_median(
                neighbourhood(gray@, w as int, h as int, col_of(w as int, j), row_of(w as int, j)),
                #[trigger] out@[j] as int,
            ) by {
                if j < i {
                    assert(out@[j] == out@.subrange(0, i as int)[j]);
                }
            }
        }
        i += 1;
    }
    proof {
        assert forall|j: int| 0 <= j < n implies #[trigger] out@[j] == spec_median_filter(
            gray@,
            w as int,
            h as int,
        )[j] by {
            let nb = neighbourhood(gray@, w as int, h as int, col_of(w as int, j), row_of(w as int, j));
            let m = out@[j] as int;
            assert(0 <= m < 256 && is_median(nb, m));
            let c = median_value(nb);
            lemma_median_unique(nb, m, c);
        }
        assert(out@ =~= spec_median_filter(gray@, w as int, h as int));
    }
    out
}

} // verus!
