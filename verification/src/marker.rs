//! Integer steps of corner-marker detection: thresholding a page, clearing
//! the ink that touches the page's border (desk and background around the
//! paper), and counting the ink round a marker to tell the page's orientation.
use vstd::prelude::*;
use crate::grid::{col_of, row_of, lemma_coords};
use crate::components::{
    is_ink, connected, closed, flood_fill, lemma_closed_contains, lemma_connected_ends,
    lemma_connected_refl,
};

verus! {

/// Thresholding: values at or below `threshold` become ink (0), the others
/// white (255).
pub fn binarize(gray: &[u8], threshold: u8) -> (out: Vec<u8>)
    ensures
        out@.len() == gray@.len(),
        forall|i: int|
            0 <= i < gray@.len() ==> #[trigger] out@[i] == if gray@[i] <= threshold {
                0u8
            } else {
                255u8
            },
{
    let mut out: Vec<u8> = Vec::new();
    let mut i: usize = 0;
    while i < gray.len()
        invariant
            0 <= i <= gray@.len(),
            out@.len() == i,
            forall|j: int|
                0 <= j < i ==> #[trigger] out@[j] == if gray@[j] <= threshold {
                    0u8
                } else {
                    255u8
                },
        decreases gray@.len() - i,
    {
        out.push(if gray[i] <= threshold { 0 } else { 255 });
        i += 1;
    }
    out
}

/// Number of the first `n` values of `s` that equal `v`.
pub open spec fn value_count(s: Seq<u8>, n: int, v: int) -> nat
    decreases n,
{
    if n <= 0 {
        0
    } else {
        value_count(s, n - 1, v) + if s[n - 1] == v {
            1nat
        } else {
            0nat
        }
    }
}

/// Histogram of a grey page, the first step of Otsu's threshold: bin `v`
/// holds the number of pixels of value `v`.
pub fn gray_histogram(gray: &[u8]) -> (hist: Vec<u64>)
    ensures
        hist@.len() == 256,
        forall|v: int| 0 <= v < 256 ==> #[trigger] hist@[v] == value_count(gray@, gray@.len() as int, v),
{
    let mut hist: Vec<u64> = Vec::new();
    while hist.len() < 256
        invariant
            hist@.len() <= 256,
            forall|v: int| 0 <= v < hist@.len() ==> #[trigger] hist@[v] == 0,
        decreases 256 - hist@.len(),
    {
        hist.push(0);
    }
    let mut i: usize = 0;
    while i < gray.len()
        invariant
            0 <= i <= gray@.len(),
            hist@.len() == 256,
            forall|v: int| 0 <= v < 256 ==> #[trigger] hist@[v] == value_count(gray@, i as int, v),
            forall|v: int| 0 <= v < 256 ==> #[trigger] value_count(gray@, i as int, v) <= i,
        decreases gray@.len() - i,
    {
        let g = gray[i] as usize;
        assert(hist@[g as int] <= i);
        hist.set(g, hist[g] + 1);
        proof {
            assert forall|v: int| 0 <= v < 256 implies #[trigger] value_count(gray@, i + 1, v) <= i + 1 by {
                assert(value_count(gray@, i as int, v) <= i);
            }
        }
        i += 1;
    }
    hist
}

/// Pixel `i` lies in the first or last column or row of a `w` by `h` grid.
pub open spec fn on_border(w: int, h: int, i: int) -> bool {
    col_of(w, i) == 0 || col_of(w, i) == w - 1 || row_of(w, i) == 0 || row_of(w, i) == h - 1
}

/// Pixel `i` is joined by ink (4-connected) to an ink pixel on the border
/// among the pixels before `k`.
pub open spec fn reached_from_border(b: Seq<u8>, w: int, h: int, k: int, i: int) -> bool {
    exists|s: int| 0 <= s < k && on_border(w, h, s) && #[trigger] connected(b, w, h, false, s, i)
}

/// Whites out (255) every ink pixel 4-connected to ink on the border of the
/// `w` by `h` page; every other pixel keeps its value.
pub fn mask_border_background(binary: &mut [u8], w: u32, h: u32)
    requires
        old(binary)@.len() == (w as int) * (h as int),
        (w as int) * (h as int) <= u32::MAX,
        h > 0,
        w > 0 || h <= 2,
    ensures
        final(binary)@.len() == old(binary)@.len(),
        forall|i: int|
            0 <= i < old(binary)@.len() ==> #[trigger] final(binary)@[i] == if reached_from_border(
                old(binary)@,
                w as int,
                h as int,
                (w as int) * (h as int),
                i,
            ) {
                255u8
            } else {
                old(binary)@[i]
            },
        final(binary)@ == border_masked(old(binary)@, w as int, h as int),
{
    let n = (w as usize) * (h as usize);
    let ghost wi = w as int;
    let ghost hi = h as int;
    let ghost b0 = binary@;
    if n == 0 {
        proof {
            assert forall|i: int| 0 <= i < b0.len() implies !reached_from_border(b0, wi, hi, 0, i) by {
            }
            assert(binary@ =~= border_masked(b0, wi, hi));
        }
        return;
    }
    let orig: Vec<u8> = vstd::slice::slice_to_vec(binary);
    let mut visited: Vec<bool> = vec![false; n];
    proof {
        assert(closed(b0, wi, hi, false, visited@)) by {
            assert forall|i: int| 0 <= i < wi * hi && #[trigger] visited@[i] implies is_ink(b0, wi * hi, i) by {
            }
        }
    }
    let mut k: usize = 0;
    while k < n
        invariant
            n == wi * hi,
            wi == w as int,
            hi == h as int,
            n <= u32::MAX,
            w > 0,
            orig@ == b0,
            b0.len() == n,
            binary@ == b0,
            0 <= k <= n,
            visited@.len() == n,
            closed(b0, wi, hi, false, visited@),
            forall|i: int| 0 <= i < n ==> #[trigger] visited@[i] == reached_from_border(b0, wi, hi, k as int, i),
        decreases n - k,
    {
        let ghost ki = k as int;
        let ghost vis0 = visited@;
        let col = (k as u32) % w;
        let row = (k as u32) / w;
        let border = col == 0 || col == w - 1 || row == 0 || row == h - 1;
        proof {
            assert(col == col_of(wi, ki) && row == row_of(wi, ki));
            assert(border == on_border(wi, hi, ki));
        }
        if border && orig[k] == 0 && !visited[k] {
            let _ = flood_fill(orig.as_slice(), w, h, false, &mut visited, k);
        }
        proof {
            assert forall|i: int| 0 <= i < n implies #[trigger] visited@[i] == reached_from_border(
                b0,
                wi,
                hi,
                ki + 1,
                i,
            ) by {
                if reached_from_border(b0, wi, hi, ki + 1, i) {
                    let s = choose|s: int|
                        0 <= s < ki + 1 && on_border(wi, hi, s) && #[trigger] connected(b0, wi, hi, false, s, i);
                    if s < ki {
                        assert(reached_from_border(b0, wi, hi, ki, i));
                    } else {
                        lemma_connected_ends(b0, wi, hi, false, s, i);
                        if vis0[ki] {
                            lemma_closed_contains(b0, wi, hi, false, vis0, ki, i);
                        }
                    }
                }
                if visited@[i] && !vis0[i] {
                    assert(connected(b0, wi, hi, false, ki, i));
                }
                if vis0[i] {
                    let s = choose|s: int|
                        0 <= s < ki && on_border(wi, hi, s) && #[trigger] connected(b0, wi, hi, false, s, i);
                    assert(0 <= s < ki + 1 && on_border(wi, hi, s) && connected(b0, wi, hi, false, s, i));
                }
            }
        }
        k += 1;
    }
    let mut i: usize = 0;
    while i < n
        invariant
            n == wi * hi,
            b0.len() == n,
            binary@.len() == n,
            visited@.len() == n,
            0 <= i <= n,
            forall|j: int| 0 <= j < n ==> #[trigger] visited@[j] == reached_from_border(b0, wi, hi, n as int, j),
            forall|j: int|
                0 <= j < n ==> #[trigger] binary@[j] == if j < i && visited@[j] {
                    255u8
                } else {
                    b0[j]
                },
        decreases n - i,
    {
        if visited[i] {
            binary[i] = 255;
        }
        i += 1;
    }
    proof {
        assert(binary@ =~= border_masked(b0, wi, hi));
    }
}

/// The page that `mask_border_background` leaves.
pub open spec fn border_masked(b: Seq<u8>, w: int, h: int) -> Seq<u8> {
    Seq::new(b.len(), |i: int| if reached_from_border(b, w, h, w * h, i) { 255u8 } else { b[i] })
}

/// After the border background is cleared no ink is left on the border, no
/// ink is joined to the border, and clearing it again changes nothing.
pub proof fn lemma_border_mask_settles(b: Seq<u8>, w: int, h: int)
    requires
        b.len() == w * h,
        0 < w,
        0 < h,
    ensures
        forall|s: int| 0 <= s < w * h && on_border(w, h, s) ==> border_masked(b, w, h)[s] != 0,
        forall|i: int| 0 <= i < w * h ==> !#[trigger] reached_from_border(border_masked(b, w, h), w, h, w * h, i),
        border_masked(border_masked(b, w, h), w, h) == border_masked(b, w, h),
{
    let m = border_masked(b, w, h);
    assert forall|s: int| 0 <= s < w * h && on_border(w, h, s) implies m[s] != 0 by {
        if b[s] == 0 {
            lemma_connected_refl(b, w, h, false, s);
            assert(reached_from_border(b, w, h, w * h, s));
        }
    }
    assert forall|i: int| 0 <= i < w * h implies !#[trigger] reached_from_border(m, w, h, w * h, i) by {
        if reached_from_border(m, w, h, w * h, i) {
            let s = choose|s: int| 0 <= s < w * h && on_border(w, h, s) && #[trigger] connected(m, w, h, false, s, i);
            lemma_connected_ends(m, w, h, false, s, i);
        }
    }
    assert(border_masked(m, w, h) =~= m);
}

/// Pixel `(x, y)` lies within distance `r` of `(cx, cy)`.
pub open spec fn in_disc(x: int, y: int, cx: int, cy: int, r: int) -> bool {
    (x - cx) * (x - cx) + (y - cy) * (y - cy) <= r * r
}

/// Pixels of row `y`, columns `x0..x1`, of the `w`-wide binary image `b`
/// that lie in the disc (and are ink, when `ink_only`).
pub open spec fn disc_row_count(
    b: Seq<u8>,
    w: int,
    y: int,
    x0: int,
    x1: int,
    cx: int,
    cy: int,
    r: int,
    ink_only: bool,
) -> nat
    decreases x1 - x0,
{
    if x1 <= x0 {
        0
    } else {
        disc_row_count(b, w, y, x0, x1 - 1, cx, cy, r, ink_only) + if in_disc(x1 - 1, y, cx, cy, r) && (!ink_only
            || b[y * w + x1 - 1] == 0) {
            1nat
        } else {
            0nat
        }
    }
}

/// The same count over rows `y0..y1`.
pub open spec fn disc_count(
    b: Seq<u8>,
    w: int,
    x0: int,
    x1: int,
    y0: int,
    y1: int,
    cx: int,
    cy: int,
    r: int,
    ink_only: bool,
) -> nat
    decreases y1 - y0,
{
    if y1 <= y0 {
        0
    } else {
        disc_count(b, w, x0, x1, y0, y1 - 1, cx, cy, r, ink_only) + disc_row_count(
            b,
            w,
            y1 - 1,
            x0,
            x1,
            cx,
            cy,
            r,
            ink_only,
        )
    }
}

/// The part of the square `[c - r, c + r]` that lies in `[0, n)`, as a
/// half-open range.
pub open spec fn clip_span(c: int, r: int, n: int) -> (int, int) {
    let lo = if c - r <= 0 {
        0
    } else if c - r < n {
        c - r
    } else {
        n
    };
    let hi = if c + r + 1 < n { c + r + 1 } else { n };
    if hi <= lo { (lo, lo) } else { (lo, hi) }
}

proof fn lemma_disc_row_bound(b: Seq<u8>, w: int, y: int, x0: int, x1: int, cx: int, cy: int, r: int, ink: bool)
    requires
        x0 <= x1,
    ensures
        disc_row_count(b, w, y, x0, x1, cx, cy, r, ink) <= x1 - x0,
        disc_row_count(b, w, y, x0, x1, cx, cy, r, true) <= disc_row_count(b, w, y, x0, x1, cx, cy, r, false),
    decreases x1 - x0,
{
    if x1 > x0 {
        lemma_disc_row_bound(b, w, y, x0, x1 - 1, cx, cy, r, ink);
    }
}

proof fn lemma_disc_bound(b: Seq<u8>, w: int, x0: int, x1: int, y0: int, y1: int, cx: int, cy: int, r: int, ink: bool)
    requires
        x0 <= x1,
        y0 <= y1,
    ensures
        disc_count(b, w, x0, x1, y0, y1, cx, cy, r, ink) <= (x1 - x0) * (y1 - y0),
        disc_count(b, w, x0, x1, y0, y1, cx, cy, r, true) <= disc_count(b, w, x0, x1, y0, y1, cx, cy, r, false),
    decreases y1 - y0,
{
    if y1 > y0 {
        lemma_disc_bound(b, w, x0, x1, y0, y1 - 1, cx, cy, r, ink);
        lemma_disc_row_bound(b, w, y1 - 1, x0, x1, cx, cy, r, ink);
        assert((x1 - x0) * (y1 - 1 - y0) + (x1 - x0) == (x1 - x0) * (y1 - y0)) by (nonlinear_arith);
    }
}

/// Around `(cx, cy)`, within `radius`: the number of ink pixels and the
/// number of pixels of the `w` by `h` image in the disc, both counted over
/// the disc's bounding square clipped to the image.
pub fn disc_ink_count(binary: &[u8], w: u32, h: u32, cx: i32, cy: i32, radius: u32) -> (r: (u32, u32))
    requires
        binary@.len() == (w as int) * (h as int),
        2 * radius * radius <= i32::MAX,
        i32::MIN <= cx - radius && cx + radius <= i32::MAX,
        i32::MIN <= cy - radius && cy + radius <= i32::MAX,
    ensures
        ({
            let xs = clip_span(cx as int, radius as int, w as int);
            let ys = clip_span(cy as int, radius as int, h as int);
            &&& r.0 == disc_count(binary@, w as int, xs.0, xs.1, ys.0, ys.1, cx as int, cy as int, radius as int, true)
            &&& r.1 == disc_count(binary@, w as int, xs.0, xs.1, ys.0, ys.1, cx as int, cy as int, radius as int, false)
        }),
{
    let ghost b = binary@;
    let ghost wi = w as int;
    let ghost hi = h as int;
    let ghost ri = radius as int;
    let len = binary.len();
    let r = radius as i64;
    let xl: i64 = if (cx as i64) - r <= 0 {
        0
    } else if (cx as i64) - r < (w as i64) {
        (cx as i64) - r
    } else {
        w as i64
    };
    let xh0: i64 = if (cx as i64) + r + 1 < (w as i64) { (cx as i64) + r + 1 } else { w as i64 };
    let xh: i64 = if xh0 <= xl { xl } else { xh0 };
    let yl: i64 = if (cy as i64) - r <= 0 {
        0
    } else if (cy as i64) - r < (h as i64) {
        (cy as i64) - r
    } else {
        h as i64
    };
    let yh0: i64 = if (cy as i64) + r + 1 < (h as i64) { (cy as i64) + r + 1 } else { h as i64 };
    let yh: i64 = if yh0 <= yl { yl } else { yh0 };
    let ghost xs = clip_span(cx as int, ri, wi);
    let ghost ys = clip_span(cy as int, ri, hi);
    proof {
        assert(xs == (xl as int, xh as int));
        assert(ys == (yl as int, yh as int));
        lemma_disc_bound(b, wi, xl as int, xh as int, yl as int, yh as int, cx as int, cy as int, ri, true);
        assert((xh - xl) * (yh - yl) <= (2 * ri + 1) * (2 * ri + 1)) by (nonlinear_arith)
            requires
                0 <= xh - xl <= 2 * ri + 1,
                0 <= yh - yl <= 2 * ri + 1,
        ;
        assert(ri <= 32767) by (nonlinear_arith)
            requires
                2 * ri * ri <= i32::MAX,
                0 <= ri,
        ;
        assert((2 * ri + 1) * (2 * ri + 1) <= 0xffff_ffff) by (nonlinear_arith)
            requires
                0 <= ri <= 32767,
        ;
    }
    let mut black: u32 = 0;
    let mut total: u32 = 0;
    let mut y = yl;
    while y < yh
        invariant
            b == binary@,
            b.len() == wi * hi,
            len == b.len(),
            wi == w as int,
            hi == h as int,
            ri == radius as int,
            r == radius as i64,
            2 * radius * radius <= i32::MAX,
            0 <= xl <= xh <= w,
            0 <= yl <= y <= yh <= h,
            (xh - xl) * (yh - yl) <= 0xffff_ffff,
            black == disc_count(b, wi, xl as int, xh as int, yl as int, y as int, cx as int, cy as int, ri, true),
            total == disc_count(b, wi, xl as int, xh as int, yl as int, y as int, cx as int, cy as int, ri, false),
            total <= (xh - xl) * (y - yl),
            black <= total,
        decreases yh - y,
    {
        let mut x = xl;
        proof {
            assert((xh - xl) * (y - yl) + (xh - xl) == (xh - xl) * (y + 1 - yl)) by (nonlinear_arith);
            assert((xh - xl) * (y + 1 - yl) <= (xh - xl) * (yh - yl)) by (nonlinear_arith)
                requires
                    y + 1 <= yh,
                    xh - xl >= 0,
            ;
        }
        while x < xh
            invariant
                b == binary@,
                b.len() == wi * hi,
                len == b.len(),
                wi == w as int,
                hi == h as int,
                ri == radius as int,
                r == radius as i64,
                2 * radius * radius <= i32::MAX,
                0 <= xl <= x <= xh <= w,
                0 <= yl <= y < yh <= h,
                (xh - xl) * (y + 1 - yl) <= 0xffff_ffff,
                black == disc_count(b, wi, xl as int, xh as int, yl as int, y as int, cx as int, cy as int, ri, true)
                    + disc_row_count(b, wi, y as int, xl as int, x as int, cx as int, cy as int, ri, true),
                total == disc_count(b, wi, xl as int, xh as int, yl as int, y as int, cx as int, cy as int, ri, false)
                    + disc_row_count(b, wi, y as int, xl as int, x as int, cx as int, cy as int, ri, false),
                total <= (xh - xl) * (y - yl) + (x - xl),
                black <= total,
                (xh - xl) * (y - yl) + (xh - xl) == (xh - xl) * (y + 1 - yl),
            decreases xh - x,
        {
            let dx = x - cx as i64;
            let dy = y - cy as i64;
            proof {
                assert(dx * dx + dy * dy <= 0x10_0000_0000_0000_0000) by (nonlinear_arith)
                    requires
                        -0x2_0000_0000 <= dx <= 0x2_0000_0000,
                        -0x2_0000_0000 <= dy <= 0x2_0000_0000,
                ;
                assert(0 <= dx * dx && 0 <= dy * dy) by (nonlinear_arith);
                assert(r * r <= i32::MAX) by (nonlinear_arith)
                    requires
                        2 * ri * ri <= i32::MAX,
                        r == ri,
                ;
                lemma_disc_row_bound(b, wi, y as int, xl as int, x as int, cx as int, cy as int, ri, true);
            }
            let inside = (dx as i128) * (dx as i128) + (dy as i128) * (dy as i128) <= (r as i128) * (r as i128);
            if inside {
                proof {
                    crate::grid::lemma_index_of(wi, hi, x as int, y as int);
                }
                total += 1;
                if binary[(y as usize) * (w as usize) + (x as usize)] == 0 {
                    black += 1;
                }
            }
            x += 1;
        }
        y += 1;
    }
    (black, total)
}

/// Ink density of a disc count `(ink, pixels)` as a fraction `(num, den)`;
/// an empty disc has density 0.
pub open spec fn density(c: (u32, u32)) -> (int, int) {
    if c.1 == 0 {
        (0, 1)
    } else {
        (c.0 as int, c.1 as int)
    }
}

/// Disc count `a` is denser in ink than disc count `b`.
pub open spec fn denser(a: (u32, u32), b: (u32, u32)) -> bool {
    density(a).0 * density(b).1 > density(b).0 * density(a).1
}

/// Marker `k` is the first of the four with the highest ink density.
pub open spec fn first_densest(c: Seq<(u32, u32)>, k: int) -> bool {
    &&& 0 <= k < 4
    &&& forall|j: int| 0 <= j < k ==> denser(c[k], #[trigger] c[j])
    &&& forall|j: int| k < j < 4 ==> !denser(#[trigger] c[j], c[k])
}

/// Clockwise turn that brings the filled marker found at corner `k` (top
/// left, top right, bottom left, bottom right) to the top left.
pub open spec fn turn_for_corner(k: int) -> u32 {
    if k == 0 {
        0
    } else if k == 1 {
        270
    } else if k == 2 {
        90
    } else {
        180
    }
}

/// Density is a preorder: denser than `b` and `b` at least as dense as `c`
/// gives denser than `c`.
proof fn lemma_denser_trans(a: (u32, u32), b: (u32, u32), c: (u32, u32))
    requires
        denser(a, b),
        !denser(c, b),
    ensures
        denser(a, c),
{
    let (an, ad) = density(a);
    let (bn, bd) = density(b);
    let (cn, cd) = density(c);
    assert(an * cd > cn * ad) by (nonlinear_arith)
        requires
            an * bd > bn * ad,
            cn * bd <= bn * cd,
            ad > 0,
            bd > 0,
            cd > 0,
            an >= 0,
            bn >= 0,
            cn >= 0,
    ;
}

/// Whether disc count `a` is denser in ink than `b`, by cross
/// multiplication.
fn is_denser(a: (u32, u32), b: (u32, u32)) -> (r: bool)
    ensures
        r == denser(a, b),
{
    let (an, ad): (u64, u64) = if a.1 == 0 { (0, 1) } else { (a.0 as u64, a.1 as u64) };
    let (bn, bd): (u64, u64) = if b.1 == 0 { (0, 1) } else { (b.0 as u64, b.1 as u64) };
    proof {
        assert(an * bd <= u64::MAX && bn * ad <= u64::MAX) by (nonlinear_arith)
            requires
                an <= u32::MAX,
                bd <= u32::MAX,
                bn <= u32::MAX,
                ad <= u32::MAX,
        ;
    }
    an * bd > bn * ad
}

/// The page's orientation from the ink counted in a disc round each of the
/// four markers (top left, top right, bottom left, bottom right): the filled
/// marker is the first with the highest ink density, and the turn is the
/// clockwise one that brings it to the top left.
pub fn orientation_from_counts(counts: [(u32, u32); 4]) -> (r: (usize, u32))
    ensures
        first_densest(counts@, r.0 as int),
        r.1 == turn_for_corner(r.0 as int),
{
    let mut best: usize = 0;
    let mut j: usize = 1;
    while j < 4
        invariant
            1 <= j <= 4,
            best < j,
            forall|i: int| 0 <= i < best ==> denser(counts@[best as int], #[trigger] counts@[i]),
            forall|i: int| best < i < j ==> !denser(#[trigger] counts@[i], counts@[best as int]),
        decreases 4 - j,
    {
        if is_denser(counts[j], counts[best]) {
            proof {
                assert forall|i: int| 0 <= i < j implies denser(counts@[j as int], #[trigger] counts@[i]) by {
                    if i != best {
                        if i < best {
                            assert(denser(counts@[best as int], counts@[i]));
                            assert(!denser(counts@[i], counts@[best as int])) by {
                                let (bn, bd) = density(counts@[best as int]);
                                let (xn, xd) = density(counts@[i]);
                                assert(!(xn * bd > bn * xd)) by (nonlinear_arith)
                                    requires
                                        bn * xd > xn * bd,
                                ;
                            }
                        }
                        lemma_denser_trans(counts@[j as int], counts@[best as int], counts@[i]);
                    }
                }
            }
            best = j;
        }
        j += 1;
    }
    let turn: u32 = if best == 0 {
        0
    } else if best == 1 {
        270
    } else if best == 2 {
        90
    } else {
        180
    };
    (best, turn)
}

} // verus!
