//! Binarization of grey images: a global threshold, Sauvola's local threshold
//! computed from integral images, and their union.
use vstd::prelude::*;
use crate::grid::{col_of, row_of, index_of, lemma_index_of, lemma_coords};

verus! {

/// Grey values below this are ink for the global threshold.
pub const GLOBAL_INK_THRESHOLD: u8 = 180;

/// Side of Sauvola's local window, in pixels.
pub const SAUVOLA_WINDOW: u32 = 15;

/// The value of pixel `i`, or its square.
pub open spec fn pix(g: Seq<u8>, i: int, squared: bool) -> int {
    if squared {
        (g[i] as int) * (g[i] as int)
    } else {
        g[i] as int
    }
}

/// Sum of the pixels (or squares) of row `y` from column `x0` to `x1` inclusive.
pub open spec fn row_sum(g: Seq<u8>, w: int, y: int, x0: int, x1: int, squared: bool) -> int
    decreases x1 - x0 + 1,
{
    if x1 < x0 {
        0
    } else {
        row_sum(g, w, y, x0, x1 - 1, squared) + pix(g, index_of(w, x1, y), squared)
    }
}

/// Sum of the pixels (or squares) of the window `[x0, x1] x [y0, y1]`.
pub open spec fn window_sum(
    g: Seq<u8>,
    w: int,
    x0: int,
    y0: int,
    x1: int,
    y1: int,
    squared: bool,
) -> int
    decreases y1 - y0 + 1,
{
    if y1 < y0 {
        0
    } else {
        window_sum(g, w, x0, y0, x1, y1 - 1, squared) + row_sum(g, w, y1, x0, x1, squared)
    }
}

/// Sum of the top-left `x` by `y` block: the integral image at `(x - 1, y - 1)`.
pub open spec fn prefix(g: Seq<u8>, w: int, x: int, y: int, squared: bool) -> int {
    window_sum(g, w, 0, 0, x - 1, y - 1, squared)
}

/// `s` is the integral image of `g` (of its squares when `squared`): entry
/// `(x, y)` is the sum over `[0, x] x [0, y]`.
pub open spec fn is_integral(s: Seq<i64>, g: Seq<u8>, w: int, h: int, squared: bool) -> bool {
    &&& s.len() == w * h
    &&& forall|i: int|
        0 <= i < w * h ==> #[trigger] s[i] == prefix(g, w, col_of(w, i) + 1, row_of(w, i) + 1, squared)
}

/// The value `rect_sum` reads off an integral image for `[x0, x1] x [y0, y1]`.
pub open spec fn spec_rect_sum(s: Seq<i64>, w: int, x0: int, y0: int, x1: int, y1: int) -> int {
    let br = s[y1 * w + x1] as int;
    let tl = if x0 > 0 && y0 > 0 {
        s[(y0 - 1) * w + x0 - 1] as int
    } else {
        0
    };
    let top = if y0 > 0 {
        s[(y0 - 1) * w + x1] as int
    } else {
        0
    };
    let left = if x0 > 0 {
        s[y1 * w + x0 - 1] as int
    } else {
        0
    };
    br + tl - top - left
}

proof fn lemma_row_sum_split(g: Seq<u8>, w: int, y: int, x0: int, x1: int, squared: bool)
    requires
        0 <= x0 <= x1 + 1,
    ensures
        row_sum(g, w, y, x0, x1, squared) == row_sum(g, w, y, 0, x1, squared) - row_sum(
            g,
            w,
            y,
            0,
            x0 - 1,
            squared,
        ),
    decreases x1 - x0 + 1,
{
    if x1 >= x0 {
        lemma_row_sum_split(g, w, y, x0, x1 - 1, squared);
    }
}

proof fn lemma_window_split(
    g: Seq<u8>,
    w: int,
    x0: int,
    y0: int,
    x1: int,
    y1: int,
    squared: bool,
)
    requires
        0 <= x0 <= x1 + 1,
        0 <= y0 <= y1 + 1,
    ensures
        window_sum(g, w, x0, y0, x1, y1, squared) == prefix(g, w, x1 + 1, y1 + 1, squared) - prefix(
            g,
            w,
            x0,
            y1 + 1,
            squared,
        ) - prefix(g, w, x1 + 1, y0, squared) + prefix(g, w, x0, y0, squared),
    decreases y1 - y0 + 1,
{
    if y1 >= y0 {
        lemma_window_split(g, w, x0, y0, x1, y1 - 1, squared);
        lemma_row_sum_split(g, w, y1, x0, x1, squared);
        lemma_window_prefix_rows(g, w, x1 + 1, y1, y0, squared);
        lemma_window_prefix_rows(g, w, x0, y1, y0, squared);
    } else {
        assert(y1 + 1 == y0);
    }
}

/// The block sum above row `y0` plus the rows `y0..=y1` is the block sum up to `y1`.
proof fn lemma_window_prefix_rows(g: Seq<u8>, w: int, x: int, y1: int, y0: int, squared: bool)
    requires
        0 <= y0 <= y1 + 1,
    ensures
        prefix(g, w, x, y1 + 1, squared) == prefix(g, w, x, y1, squared) + row_sum(
            g,
            w,
            y1,
            0,
            x - 1,
            squared,
        ) || y1 < 0,
{
}

/// Law of integral images: `rect_sum` over an integral image gives the window sum.
pub proof fn lemma_rect_sum_is_window_sum(
    s: Seq<i64>,
    g: Seq<u8>,
    w: int,
    h: int,
    x0: int,
    y0: int,
    x1: int,
    y1: int,
    squared: bool,
)
    requires
        is_integral(s, g, w, h, squared),
        0 <= x0 <= x1 < w,
        0 <= y0 <= y1 < h,
    ensures
        spec_rect_sum(s, w, x0, y0, x1, y1) == window_sum(g, w, x0, y0, x1, y1, squared),
{
    lemma_window_split(g, w, x0, y0, x1, y1, squared);
    lemma_index_of(w, h, x1, y1);
    assert(s[index_of(w, x1, y1)] == prefix(g, w, x1 + 1, y1 + 1, squared));
    if x0 > 0 && y0 > 0 {
        lemma_index_of(w, h, x0 - 1, y0 - 1);
        assert(s[index_of(w, x0 - 1, y0 - 1)] == prefix(g, w, x0, y0, squared));
    } else {
        assert(prefix(g, w, x0, y0, squared) == 0) by {
            if x0 == 0 && y0 > 0 {
                lemma_zero_width(g, w, y0 - 1, squared);
            }
        }
    }
    if y0 > 0 {
        lemma_index_of(w, h, x1, y0 - 1);
        assert(s[index_of(w, x1, y0 - 1)] == prefix(g, w, x1 + 1, y0, squared));
    }
    if x0 > 0 {
        lemma_index_of(w, h, x0 - 1, y1);
        assert(s[index_of(w, x0 - 1, y1)] == prefix(g, w, x0, y1 + 1, squared));
    } else {
        lemma_zero_width(g, w, y1, squared);
    }
}

/// A block of width zero sums to zero.
proof fn lemma_zero_width(g: Seq<u8>, w: int, y: int, squared: bool)
    ensures
        window_sum(g, w, 0, 0, -1, y, squared) == 0,
    decreases y + 1,
{
    if y >= 0 {
        lemma_zero_width(g, w, y - 1, squared);
    }
}

/// Sum of an integral image's rectangle `[x0, x1] x [y0, y1]`, by inclusion
/// and exclusion of the entries at its corners.
pub fn rect_sum(integral: &[i64], w: u32, x0: i32, y0: i32, x1: i32, y1: i32) -> (r: i64)
    requires
        0 <= x0 <= x1 < w <= i32::MAX,
        0 <= y0 <= y1,
        (y1 as int) * (w as int) + (x1 as int) < integral@.len(),
        (y1 as int) * (w as int) + (x1 as int) <= i32::MAX,
        ({
            let s = integral@;
            let wi = w as int;
            let br = s[y1 * wi + x1] as int;
            let tl = if x0 > 0 && y0 > 0 {
                s[(y0 - 1) * wi + x0 - 1] as int
            } else {
                0
            };
            let top = if y0 > 0 {
                s[(y0 - 1) * wi + x1] as int
            } else {
                0
            };
            &&& i64::MIN <= br + tl <= i64::MAX
            &&& i64::MIN <= br + tl - top <= i64::MAX
            &&& i64::MIN <= spec_rect_sum(s, wi, x0 as int, y0 as int, x1 as int, y1 as int)
                <= i64::MAX
        }),
    ensures
        r == spec_rect_sum(integral@, w as int, x0 as int, y0 as int, x1 as int, y1 as int),
{
    proof {
        assert(0 <= (y0 as int) * (w as int) <= (y1 as int) * (w as int)) by (nonlinear_arith)
            requires
                0 <= y0 <= y1,
                0 < w,
        ;
        assert(((y0 as int) - 1) * (w as int) == (y0 as int) * (w as int) - (w as int))
            by (nonlinear_arith);
    }
    let w = w as i32;
    let br = integral[(y1 * w + x1) as usize];
    let tl = if x0 > 0 && y0 > 0 {
        integral[((y0 - 1) * w + x0 - 1) as usize]
    } else {
        0
    };
    let top = if y0 > 0 {
        integral[((y0 - 1) * w + x1) as usize]
    } else {
        0
    };
    let left = if x0 > 0 {
        integral[(y1 * w + x0 - 1) as usize]
    } else {
        0
    };
    br + tl - top - left
}


/// Largest value of a pixel (or its square).
pub open spec fn pix_max(squared: bool) -> int {
    if squared {
        65025
    } else {
        255
    }
}

proof fn lemma_row_sum_bounds(g: Seq<u8>, w: int, h: int, y: int, x0: int, x1: int, squared: bool)
    requires
        0 <= x0,
        x1 < w,
        0 <= y < h,
        x0 <= x1 + 1,
        g.len() >= w * h,
    ensures
        0 <= row_sum(g, w, y, x0, x1, squared) <= pix_max(squared) * (x1 - x0 + 1),
    decreases x1 - x0 + 1,
{
    if x1 >= x0 {
        lemma_row_sum_bounds(g, w, h, y, x0, x1 - 1, squared);
        lemma_index_of(w, h, x1, y);
        let v = g[index_of(w, x1, y)] as int;
        assert(0 <= v * v <= 65025) by (nonlinear_arith)
            requires
                0 <= v <= 255,
        ;
        assert(0 <= pix(g, index_of(w, x1, y), squared) <= pix_max(squared));
        let m = pix_max(squared);
        assert(m * (x1 - x0 + 1) == m * (x1 - 1 - x0 + 1) + m) by (nonlinear_arith);
        assert(row_sum(g, w, y, x0, x1, squared) == row_sum(g, w, y, x0, x1 - 1, squared) + pix(
            g,
            index_of(w, x1, y),
            squared,
        ));
    }
}

proof fn lemma_window_sum_bounds(
    g: Seq<u8>,
    w: int,
    h: int,
    x0: int,
    y0: int,
    x1: int,
    y1: int,
    squared: bool,
)
    requires
        0 <= x0 <= x1 + 1,
        x1 < w,
        0 <= y0 <= y1 + 1,
        y1 < h,
        g.len() >= w * h,
    ensures
        0 <= window_sum(g, w, x0, y0, x1, y1, squared) <= pix_max(squared) * ((x1 - x0 + 1) * (y1
            - y0 + 1)),
    decreases y1 - y0 + 1,
{
    if y1 >= y0 {
        lemma_window_sum_bounds(g, w, h, x0, y0, x1, y1 - 1, squared);
        lemma_row_sum_bounds(g, w, h, y1, x0, x1, squared);
        let m = pix_max(squared);
        let a = x1 - x0 + 1;
        let b = y1 - y0;
        assert(m * (a * b) + m * a == m * (a * (b + 1))) by (nonlinear_arith);
    }
}

/// Integral images of the pixels and of their squares.
fn integral_images(gray: &[u8], w: u32, h: u32) -> (r: (Vec<i64>, Vec<i64>))
    requires
        0 < (w as int) * (h as int) <= i32::MAX,
        gray@.len() >= (w as int) * (h as int),
    ensures
        is_integral(r.0@, gray@, w as int, h as int, false),
        is_integral(r.1@, gray@, w as int, h as int, true),
        forall|j: int|
            0 <= j < (w as int) * (h as int) ==> 0 <= #[trigger] r.0@[j] <= 255 * ((w as int) * (
            h as int)),
        forall|j: int|
            0 <= j < (w as int) * (h as int) ==> 0 <= #[trigger] r.1@[j] <= 65025 * ((w as int) * (
            h as int)),
{
    let n = (w as usize) * (h as usize);
    let wu = w as usize;
    let ghost wi = w as int;
    let ghost hi = h as int;
    let ghost g = gray@;
    proof {
        assert(0 < w) by (nonlinear_arith)
            requires
                0 < (w as int) * (h as int),
                0 <= h,
        ;
    }
    let mut sum: Vec<i64> = Vec::new();
    let mut sq: Vec<i64> = Vec::new();
    let mut i: usize = 0;
    while i < n
        invariant
            n == wi * hi,
            0 < n <= i32::MAX,
            wi == w as int,
            hi == h as int,
            wu == w as usize,
            0 < w,
            g == gray@,
            g.len() >= n,
            0 <= i <= n,
            sum@.len() == i,
            sq@.len() == i,
            forall|j: int|
                0 <= j < i ==> #[trigger] sum@[j] == prefix(g, wi, col_of(wi, j) + 1, row_of(wi, j) + 1, false),
            forall|j: int|
                0 <= j < i ==> #[trigger] sq@[j] == prefix(g, wi, col_of(wi, j) + 1, row_of(wi, j) + 1, true),
            forall|j: int| 0 <= j < i ==> 0 <= #[trigger] sum@[j] <= 255 * n,
            forall|j: int| 0 <= j < i ==> 0 <= #[trigger] sq@[j] <= 65025 * n,
        decreases n - i,
    {
        proof {
            lemma_coords(wi, hi, i as int);
        }
        let x = i % wu;
        let y = i / wu;
        let ghost xi = x as int;
        let ghost yi = y as int;
        let val = gray[i] as i64;
        assert(0 <= val * val <= 65025) by (nonlinear_arith)
            requires
                0 <= val <= 255,
        ;
        let val_sq = val * val;
        proof {
            lemma_index_of(wi, hi, xi, yi);
            lemma_window_sum_bounds(g, wi, hi, 0, 0, xi, yi, false);
            lemma_window_sum_bounds(g, wi, hi, 0, 0, xi, yi, true);
            lemma_window_sum_bounds(g, wi, hi, 0, 0, xi - 1, yi, false);
            lemma_window_sum_bounds(g, wi, hi, 0, 0, xi - 1, yi, true);
            lemma_window_sum_bounds(g, wi, hi, 0, 0, xi, yi - 1, false);
            lemma_window_sum_bounds(g, wi, hi, 0, 0, xi, yi - 1, true);
            lemma_window_sum_bounds(g, wi, hi, 0, 0, xi - 1, yi - 1, false);
            lemma_window_sum_bounds(g, wi, hi, 0, 0, xi - 1, yi - 1, true);
            assert((xi + 1) * (yi + 1) <= n) by (nonlinear_arith)
                requires
                    0 <= xi < wi,
                    0 <= yi < hi,
                    n == wi * hi,
            ;
            assert(0 <= xi * (yi + 1) <= n && 0 <= (xi + 1) * yi <= n && 0 <= xi * yi <= n)
                by (nonlinear_arith)
                requires
                    0 <= xi < wi,
                    0 <= yi < hi,
                    n == wi * hi,
            ;
            assert(255 * ((xi + 1) * (yi + 1)) <= 255 * n && 65025 * ((xi + 1) * (yi + 1)) <= 65025 * n)
                by (nonlinear_arith)
                requires
                    (xi + 1) * (yi + 1) <= n,
            ;
            // The new entry from its three neighbours (inclusion and exclusion).
            assert(prefix(g, wi, xi + 1, yi + 1, false) == prefix(g, wi, xi + 1, yi, false) + row_sum(
                g,
                wi,
                yi,
                0,
                xi,
                false,
            ));
            assert(prefix(g, wi, xi + 1, yi + 1, true) == prefix(g, wi, xi + 1, yi, true) + row_sum(
                g,
                wi,
                yi,
                0,
                xi,
                true,
            ));
            if xi > 0 {
                assert(prefix(g, wi, xi, yi + 1, false) == prefix(g, wi, xi, yi, false) + row_sum(
                    g,
                    wi,
                    yi,
                    0,
                    xi - 1,
                    false,
                ));
                assert(prefix(g, wi, xi, yi + 1, true) == prefix(g, wi, xi, yi, true) + row_sum(
                    g,
                    wi,
                    yi,
                    0,
                    xi - 1,
                    true,
                ));
            } else {
                lemma_zero_width(g, wi, yi, false);
                lemma_zero_width(g, wi, yi, true);
                if yi > 0 {
                    lemma_zero_width(g, wi, yi - 1, false);
                    lemma_zero_width(g, wi, yi - 1, true);
                }
            }
        }
        proof {
            if xi > 0 {
                lemma_index_of(wi, hi, xi - 1, yi);
                assert(index_of(wi, xi - 1, yi) == i - 1);
            }
            if yi > 0 {
                lemma_index_of(wi, hi, xi, yi - 1);
                assert(index_of(wi, xi, yi - 1) == i - wi) by (nonlinear_arith)
                    requires
                        index_of(wi, xi, yi) == i,
                ;
                if xi > 0 {
                    lemma_index_of(wi, hi, xi - 1, yi - 1);
                    assert(index_of(wi, xi - 1, yi - 1) == i - wi - 1) by (nonlinear_arith)
                        requires
                            index_of(wi, xi, yi) == i,
                    ;
                }
            }
        }
        let left = if x > 0 { sum[i - 1] } else { 0 };
        let up = if y > 0 { sum[i - wu] } else { 0 };
        let diag = if x > 0 && y > 0 { sum[i - wu - 1] } else { 0 };
        let left_sq = if x > 0 { sq[i - 1] } else { 0 };
        let up_sq = if y > 0 { sq[i - wu] } else { 0 };
        let diag_sq = if x > 0 && y > 0 { sq[i - wu - 1] } else { 0 };
        sum.push(val + left + up - diag);
        sq.push(val_sq + left_sq + up_sq - diag_sq);
        proof {
            assert forall|j: int| 0 <= j < i + 1 implies #[trigger] sum@[j] == prefix(
                g,
                wi,
                col_of(wi, j) + 1,
                row_of(wi, j) + 1,
                false,
            ) by {
                if j == i {
                }
            }
            assert forall|j: int| 0 <= j < i + 1 implies #[trigger] sq@[j] == prefix(
                g,
                wi,
                col_of(wi, j) + 1,
                row_of(wi, j) + 1,
                true,
            ) by {
                if j == i {
                }
            }
        }
        i += 1;
    }
    (sum, sq)
}


/// Sauvola's decision for a pixel of value `v` whose window has `c` pixels,
/// pixel sum `s` and sum of squares `s2`: `v` lies below the threshold
/// `T = mean * (1 + k * (sd / R - 1))` with `k = 1/5` and `R = 128`, decided in
/// exact arithmetic (multiplied out by `640 * c * c`, square root squared away).
pub open spec fn sauvola_ink(v: int, c: int, s: int, s2: int) -> bool {
    let d = if c * s2 - s * s > 0 {
        c * s2 - s * s
    } else {
        0
    };
    let l = 640 * c * c * v - 512 * s * c;
    l < 0 || l * l < s * s * d
}

/// Sauvola's verdict (0 = ink, 255 = background) on pixel `i`, with a window
/// reaching `half` pixels each way, clipped to the image.
pub open spec fn sauvola_px(g: Seq<u8>, w: int, h: int, half: int, i: int) -> u8 {
    let x = col_of(w, i);
    let y = row_of(w, i);
    let x0 = if x - half > 0 {
        x - half
    } else {
        0
    };
    let y0 = if y - half > 0 {
        y - half
    } else {
        0
    };
    let x1 = if x + half < w - 1 {
        x + half
    } else {
        w - 1
    };
    let y1 = if y + half < h - 1 {
        y + half
    } else {
        h - 1
    };
    let c = (x1 - x0 + 1) * (y1 - y0 + 1);
    if sauvola_ink(
        g[i] as int,
        c,
        window_sum(g, w, x0, y0, x1, y1, false),
        window_sum(g, w, x0, y0, x1, y1, true),
    ) {
        0u8
    } else {
        255u8
    }
}

/// Sauvola binarization of a `w` by `h` grey image with a `window`-pixel window.
pub open spec fn spec_sauvola(g: Seq<u8>, w: int, h: int, window: int) -> Seq<u8> {
    Seq::new((w * h) as nat, |i: int| sauvola_px(g, w, h, window / 2, i))
}

proof fn lemma_sauvola_bounds(c: int, s: int, s2: int, v: int)
    requires
        0 <= c <= 65025,
        0 <= s <= 255 * c,
        0 <= s2 <= 65025 * c,
        0 <= v <= 255,
    ensures
        0 <= c * s2 <= 300_000_000_000_000,
        0 <= s * s <= 300_000_000_000_000,
        0 <= 640 * c <= 50_000_000,
        0 <= 640 * c * c <= 3_000_000_000_000,
        0 <= 640 * c * c * v <= 1_000_000_000_000_000,
        0 <= 512 * s <= 10_000_000_000,
        0 <= 512 * s * c <= 1_000_000_000_000_000,
        ({
            let l = 640 * c * c * v - 512 * s * c;
            0 <= l * l <= 1_000_000_000_000_000_000_000_000_000_000
        }),
        0 <= s * s * (c * s2) <= 100_000_000_000_000_000_000_000_000_000,
{
    assert(0 <= c * s2 <= 274941996890625) by (nonlinear_arith)
        requires
            0 <= c <= 65025,
            0 <= s2 <= 65025 * c,
    ;
    assert(0 <= s <= 16581375) by (nonlinear_arith)
        requires
            0 <= c <= 65025,
            0 <= s <= 255 * c,
    ;
    assert(0 <= s * s <= 274941996890625) by (nonlinear_arith)
        requires
            0 <= s <= 16581375,
    ;
    assert(0 <= 640 * c * c <= 2706081000000) by (nonlinear_arith)
        requires
            0 <= c <= 65025,
    ;
    assert(0 <= 640 * c * c * v <= 690050655000000) by (nonlinear_arith)
        requires
            0 <= 640 * c * c <= 2706081000000,
            0 <= v <= 255,
    ;
    assert(0 <= 512 * s * c <= 552040401600000) by (nonlinear_arith)
        requires
            0 <= s <= 16581375,
            0 <= c <= 65025,
    ;
    let l = 640 * c * c * v - 512 * s * c;
    assert(0 <= l * l <= 1_000_000_000_000_000_000_000_000_000_000) by (nonlinear_arith)
        requires
            -1_000_000_000_000_000 <= l <= 1_000_000_000_000_000,
    ;
    assert(0 <= s * s * (c * s2) <= 100_000_000_000_000_000_000_000_000_000) by (nonlinear_arith)
        requires
            0 <= s * s <= 300_000_000_000_000,
            0 <= c * s2 <= 300_000_000_000_000,
    ;
}

/// Exact form of Sauvola's comparison for one pixel.
fn sauvola_decide(v: u8, c: i64, s: i64, s2: i64) -> (ink: bool)
    requires
        0 <= c <= 65025,
        0 <= s <= 255 * c,
        0 <= s2 <= 65025 * c,
    ensures
        ink == sauvola_ink(v as int, c as int, s as int, s2 as int),
{
    let c = c as i128;
    let v = v as i128;
    let s = s as i128;
    let s2 = s2 as i128;
    proof {
        lemma_sauvola_bounds(c as int, s as int, s2 as int, v as int);
    }
    let dd = c * s2 - s * s;
    let d = if dd > 0 { dd } else { 0 };
    proof {
        assert(0 <= s * s * d <= 100_000_000_000_000_000_000_000_000_000) by (nonlinear_arith)
            requires
                0 <= s * s <= 300_000_000_000_000,
                0 <= d <= 300_000_000_000_000,
        ;
    }
    let l = 640 * c * c * v - 512 * s * c;
    l < 0 || l * l < s * s * d
}

/// Pixel and squared-pixel sums of the window `[x0, x1] x [y0, y1]`.
fn window_sums(
    gray: &[u8],
    sum: &Vec<i64>,
    sq: &Vec<i64>,
    w: u32,
    h: u32,
    x0: i64,
    y0: i64,
    x1: i64,
    y1: i64,
) -> (r: (i64, i64))
    requires
        0 < (w as int) * (h as int) <= i32::MAX,
        w <= (w as int) * (h as int),
        gray@.len() >= (w as int) * (h as int),
        is_integral(sum@, gray@, w as int, h as int, false),
        is_integral(sq@, gray@, w as int, h as int, true),
        forall|j: int|
            0 <= j < (w as int) * (h as int) ==> 0 <= #[trigger] sum@[j] <= 255 * ((w as int) * (
            h as int)),
        forall|j: int|
            0 <= j < (w as int) * (h as int) ==> 0 <= #[trigger] sq@[j] <= 65025 * ((w as int) * (
            h as int)),
        0 <= x0 <= x1 < w,
        0 <= y0 <= y1 < h,
    ensures
        r.0 == window_sum(gray@, w as int, x0 as int, y0 as int, x1 as int, y1 as int, false),
        r.1 == window_sum(gray@, w as int, x0 as int, y0 as int, x1 as int, y1 as int, true),
{
    let ghost wi = w as int;
    let ghost hi = h as int;
    let ghost n = wi * hi;
    let ghost g = gray@;
    proof {
        let (a, b, c, d) = (x0 as int, y0 as int, x1 as int, y1 as int);
        lemma_index_of(wi, hi, c, d);
        if a > 0 && b > 0 {
            lemma_index_of(wi, hi, a - 1, b - 1);
        }
        if b > 0 {
            lemma_index_of(wi, hi, c, b - 1);
        }
        if a > 0 {
            lemma_index_of(wi, hi, a - 1, d);
        }
        lemma_rect_sum_is_window_sum(sum@, g, wi, hi, a, b, c, d, false);
        lemma_rect_sum_is_window_sum(sq@, g, wi, hi, a, b, c, d, true);
        assert(255 * n <= 1_000_000_000_000 && 65025 * n <= 200_000_000_000_000);
    }
    let s = rect_sum(sum.as_slice(), w, x0 as i32, y0 as i32, x1 as i32, y1 as i32);
    let s2 = rect_sum(sq.as_slice(), w, x0 as i32, y0 as i32, x1 as i32, y1 as i32);
    (s, s2)
}

/// Sauvola's verdict on pixel `i`, from the integral images.
fn sauvola_at(
    gray: &[u8],
    sum: &Vec<i64>,
    sq: &Vec<i64>,
    w: u32,
    h: u32,
    half: i64,
    i: usize,
) -> (r: u8)
    requires
        0 < (w as int) * (h as int) <= i32::MAX,
        0 < w <= (w as int) * (h as int),
        0 < h <= (w as int) * (h as int),
        gray@.len() >= (w as int) * (h as int),
        0 <= half <= 127,
        is_integral(sum@, gray@, w as int, h as int, false),
        is_integral(sq@, gray@, w as int, h as int, true),
        forall|j: int|
            0 <= j < (w as int) * (h as int) ==> 0 <= #[trigger] sum@[j] <= 255 * ((w as int) * (
            h as int)),
        forall|j: int|
            0 <= j < (w as int) * (h as int) ==> 0 <= #[trigger] sq@[j] <= 65025 * ((w as int) * (
            h as int)),
        i < (w as int) * (h as int),
    ensures
        r == sauvola_px(gray@, w as int, h as int, half as int, i as int),
{
    let ghost wi = w as int;
    let ghost hi = h as int;
    let ghost g = gray@;
    let wu = w as usize;
    proof {
        lemma_coords(wi, hi, i as int);
    }
    let x = (i % wu) as i64;
    let y = (i / wu) as i64;
    let x0 = if x - half > 0 { x - half } else { 0 };
    let y0 = if y - half > 0 { y - half } else { 0 };
    let x1 = if x + half < w as i64 - 1 { x + half } else { w as i64 - 1 };
    let y1 = if y + half < h as i64 - 1 { y + half } else { h as i64 - 1 };
    let (s, s2) = window_sums(gray, sum, sq, w, h, x0, y0, x1, y1);
    proof {
        let (a, b, cc, d) = (x0 as int, y0 as int, x1 as int, y1 as int);
        assert(0 <= (cc - a + 1) * (d - b + 1) <= 65025) by (nonlinear_arith)
            requires
                1 <= cc - a + 1 <= 255,
                1 <= d - b + 1 <= 255,
        ;
        lemma_window_sum_bounds(g, wi, hi, a, b, cc, d, false);
        lemma_window_sum_bounds(g, wi, hi, a, b, cc, d, true);
    }
    let c = (x1 - x0 + 1) * (y1 - y0 + 1);
    let ink = sauvola_decide(gray[i], c, s, s2);
    if ink {
        0
    } else {
        255
    }
}

/// Sauvola adaptive binarization (0 = ink, 255 = background): each pixel is
/// compared with a threshold from the mean and standard deviation of the
/// `window_size` square around it (clipped to the image), both read off
/// integral images. An empty image gives an empty result.
pub fn sauvola_binarize(gray: &[u8], w: u32, h: u32, window_size: u32) -> (out: Vec<u8>)
    requires
        (w as int) * (h as int) <= i32::MAX,
        gray@.len() >= (w as int) * (h as int),
        window_size <= 255,
    ensures
        out@ == spec_sauvola(gray@, w as int, h as int, window_size as int),
{
    let n = (w as usize) * (h as usize);
    if n == 0 {
        let out: Vec<u8> = Vec::new();
        assert(out@ =~= spec_sauvola(gray@, w as int, h as int, window_size as int));
        return out;
    }
    let ghost wi = w as int;
    let ghost hi = h as int;
    let ghost g = gray@;
    let (sum, sq) = integral_images(gray, w, h);
    let wu = w as usize;
    let half = (window_size / 2) as i64;
    proof {
        assert(0 < w && 0 < h) by (nonlinear_arith)
            requires
                0 < (w as int) * (h as int),
                0 <= w,
                0 <= h,
        ;
        assert(w <= n && h <= n) by (nonlinear_arith)
            requires
                0 < w,
                0 < h,
                n == (w as int) * (h as int),
        ;
    }
    let mut out: Vec<u8> = Vec::new();
    let mut i: usize = 0;
    while i < n
        invariant
            n == wi * hi,
            0 < n <= i32::MAX,
            wi == w as int,
            hi == h as int,
            wu == w as usize,
            0 < w <= n,
            0 < h <= n,
            g == gray@,
            g.len() >= n,
            0 <= half <= 127,
            half == (window_size / 2) as int,
            is_integral(sum@, g, wi, hi, false),
            is_integral(sq@, g, wi, hi, true),
            forall|j: int| 0 <= j < n ==> 0 <= #[trigger] sum@[j] <= 255 * n,
            forall|j: int| 0 <= j < n ==> 0 <= #[trigger] sq@[j] <= 65025 * n,
            0 <= i <= n,
            out@.len() == i,
            forall|j: int|
                0 <= j < i ==> #[trigger] out@[j] == spec_sauvola(g, wi, hi, window_size as int)[j],
        decreases n - i,
    {
        let v = sauvola_at(gray, &sum, &sq, w, h, half, i);
        out.push(v);
        i += 1;
    }
    assert(out@ =~= spec_sauvola(g, wi, hi, window_size as int));
    out
}

/// Global threshold: values below `threshold` become ink (0), others 255.
pub fn global_binarize(gray: &[u8], threshold: u8) -> (out: Vec<u8>)
    ensures
        out@.len() == gray@.len(),
        forall|i: int|
            0 <= i < gray@.len() ==> #[trigger] out@[i] == if gray@[i] < threshold {
                0u8
            } else {
                255u8
            },
{
    let mut out: Vec<u8> = Vec::new();
    let mut i: usize = 0;
    while i < gray.len()
        invariant
            0 <= i <= gray@.len(),
            out@.len() == i,
            forall|j: int|
                0 <= j < i ==> #[trigger] out@[j] == if gray@[j] < threshold {
                    0u8
                } else {
                    255u8
                },
        decreases gray@.len() - i,
    {
        out.push(if gray[i] < threshold { 0 } else { 255 });
        i += 1;
    }
    out
}

/// Hybrid binarization of pixel `i`: ink when the global threshold or
/// Sauvola's window calls it ink.
pub open spec fn hybrid_px(g: Seq<u8>, w: int, h: int, i: int) -> u8 {
    if g[i] < GLOBAL_INK_THRESHOLD || sauvola_px(g, w, h, (SAUVOLA_WINDOW / 2) as int, i) == 0 {
        0u8
    } else {
        255u8
    }
}

/// Hybrid binarization of a `w` by `h` grey image.
pub open spec fn spec_hybrid(g: Seq<u8>, w: int, h: int) -> Seq<u8> {
    Seq::new((w * h) as nat, |i: int| hybrid_px(g, w, h, i))
}

/// Hybrid binarization: the union of the ink of a global threshold (which
/// fills the inside of broad dark strokes, where the local contrast vanishes)
/// and of Sauvola's local threshold (which catches faint pencil lines).
pub fn binarize_hybrid(gray: &[u8], w: u32, h: u32) -> (out: Vec<u8>)
    requires
        (w as int) * (h as int) <= i32::MAX,
        gray@.len() >= (w as int) * (h as int),
    ensures
        out@.len() == (w as int) * (h as int),
        forall|i: int|
            0 <= i < (w as int) * (h as int) ==> #[trigger] out@[i] == hybrid_px(
                gray@,
                w as int,
                h as int,
                i,
            ),
        out@ == spec_hybrid(gray@, w as int, h as int),
        forall|i: int|
            0 <= i < (w as int) * (h as int) ==> (#[trigger] out@[i] == 0 <==> (gray@[i] < GLOBAL_INK_THRESHOLD
                || spec_sauvola(gray@, w as int, h as int, SAUVOLA_WINDOW as int)[i] == 0)),
        forall|i: int| 0 <= i < (w as int) * (h as int) ==> (#[trigger] out@[i] == 0 || out@[i] == 255),
{
    let global = global_binarize(gray, GLOBAL_INK_THRESHOLD);
    let sauvola = sauvola_binarize(gray, w, h, SAUVOLA_WINDOW);
    let n = sauvola.len();
    let mut out: Vec<u8> = Vec::new();
    let mut i: usize = 0;
    while i < n
        invariant
            n == (w as int) * (h as int),
            global@.len() == gray@.len(),
            gray@.len() >= n,
            sauvola@ == spec_sauvola(gray@, w as int, h as int, SAUVOLA_WINDOW as int),
            forall|j: int|
                0 <= j < gray@.len() ==> #[trigger] global@[j] == if gray@[j] < GLOBAL_INK_THRESHOLD {
                    0u8
                } else {
                    255u8
                },
            0 <= i <= n,
            out@.len() == i,
            forall|j: int|
                0 <= j < i ==> #[trigger] out@[j] == hybrid_px(gray@, w as int, h as int, j),
        decreases n - i,
    {
        out.push(if global[i] == 0 || sauvola[i] == 0 { 0 } else { 255 });
        i += 1;
    }
    assert(out@ =~= spec_hybrid(gray@, w as int, h as int));
    proof {
        lemma_hybrid_is_union(gray@, w as int, h as int);
    }
    out
}

/// The hybrid binarization's ink is exactly the union of the two thresholds'
/// ink: a pixel is ink when it lies below the global threshold or when
/// Sauvola's local threshold (the result of `sauvola_binarize` with the
/// hybrid's window) calls it ink, so a faint pencil line that only the local
/// threshold sees is kept; every other pixel is background.
pub proof fn lemma_hybrid_is_union(g: Seq<u8>, w: int, h: int)
    requires
        0 <= w,
        0 <= h,
    ensures
        spec_hybrid(g, w, h).len() == w * h,
        forall|i: int|
            0 <= i < w * h ==> (#[trigger] spec_hybrid(g, w, h)[i] == 0 <==> (g[i] < GLOBAL_INK_THRESHOLD
                || spec_sauvola(g, w, h, SAUVOLA_WINDOW as int)[i] == 0)),
        forall|i: int|
            0 <= i < w * h ==> (#[trigger] spec_hybrid(g, w, h)[i] == 0 || spec_hybrid(g, w, h)[i] == 255),
{
    assert(0 <= w * h) by (nonlinear_arith)
        requires
            0 <= w,
            0 <= h,
    ;
}

} // verus!
