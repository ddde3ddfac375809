//! Integer steps of the page corrections applied after the perspective warp:
//! cyan guide removal, the paper-white level, painting out light grid-line
//! residue, locating a vertical grid line and summing a colour sample. Images
//! are RGBA, four bytes per pixel, row-major.
use vstd::prelude::*;
use crate::raster::{in_rect, lemma_pixel_index, Brush, paint_rect_where};

verus! {

/// Pixels darker than this mean luminance are handwriting and are kept.
pub const CYAN_MIN_BRIGHTNESS: u32 = 140;

/// Least `min(g, b) - r` of a pixel removed as cyan.
pub const CYAN_SCORE_THRESHOLD: i32 = 3;

/// Luminance below which the histogram is not searched for the paper colour.
pub const PAPER_LUMINANCE_FLOOR: usize = 100;

/// Paper level returned when no pixel is light enough.
pub const PAPER_DEFAULT_LEVEL: u32 = 230;

/// A pixel `(r, g, b)` is light cyan: its mean is at least
/// `CYAN_MIN_BRIGHTNESS` and green and blue both exceed red by at least
/// `CYAN_SCORE_THRESHOLD`.
pub open spec fn is_cyan(r: u8, g: u8, b: u8) -> bool {
    &&& (r + g + b) / 3 >= CYAN_MIN_BRIGHTNESS
    &&& (if g < b { g as int } else { b as int }) - r >= CYAN_SCORE_THRESHOLD
}

/// Pixel `p` of an RGBA buffer is light cyan.
pub open spec fn pixel_is_cyan(s: Seq<u8>, p: int) -> bool {
    is_cyan(s[4 * p], s[4 * p + 1], s[4 * p + 2])
}

/// Number of light cyan pixels among the first `k`.
pub open spec fn cyan_count(s: Seq<u8>, k: int) -> nat
    decreases k,
{
    if k <= 0 {
        0
    } else {
        cyan_count(s, k - 1) + if pixel_is_cyan(s, k - 1) {
            1nat
        } else {
            0nat
        }
    }
}

/// Turns every light cyan pixel opaque white and keeps the others; also
/// gives the number of pixels turned.
pub fn remove_cyan_pixels(rgba: &[u8]) -> (r: (Vec<u8>, u64))
    requires
        rgba@.len() % 4 == 0,
    ensures
        r.0@.len() == rgba@.len(),
        forall|i: int|
            0 <= i < rgba@.len() ==> #[trigger] r.0@[i] == if pixel_is_cyan(rgba@, i / 4) {
                255u8
            } else {
                rgba@[i]
            },
        r.1 == cyan_count(rgba@, (rgba@.len() / 4) as int),
{
    let len = rgba.len();
    let n = len / 4;
    let mut out: Vec<u8> = Vec::new();
    let mut count: u64 = 0;
    let mut p: usize = 0;
    while p < n
        invariant
            n == rgba@.len() / 4,
            rgba@.len() == 4 * n,
            len == rgba@.len(),
            0 <= p <= n,
            out@.len() == 4 * p,
            forall|i: int|
                0 <= i < 4 * p ==> #[trigger] out@[i] == if pixel_is_cyan(rgba@, i / 4) {
                    255u8
                } else {
                    rgba@[i]
                },
            count == cyan_count(rgba@, p as int),
            count <= p,
        decreases n - p,
    {
        let r = rgba[4 * p];
        let g = rgba[4 * p + 1];
        let b = rgba[4 * p + 2];
        let a = rgba[4 * p + 3];
        let avg = (r as u32 + g as u32 + b as u32) / 3;
        let score = (if g < b { g as i32 } else { b as i32 }) - r as i32;
        let cyan = avg >= CYAN_MIN_BRIGHTNESS && score >= CYAN_SCORE_THRESHOLD;
        proof {
            assert(cyan == pixel_is_cyan(rgba@, p as int));
        }
        if cyan {
            out.push(255);
            out.push(255);
            out.push(255);
            out.push(255);
            count += 1;
        } else {
            out.push(r);
            out.push(g);
            out.push(b);
            out.push(a);
        }
        proof {
            assert forall|i: int| 0 <= i < 4 * (p + 1) implies #[trigger] out@[i] == if pixel_is_cyan(
                rgba@,
                i / 4,
            ) {
                255u8
            } else {
                rgba@[i]
            } by {
                if i >= 4 * p {
                    assert(i / 4 == p as int);
                }
            }
        }
        p += 1;
    }
    (out, count)
}

/// Luminance of a pixel, weights 299, 587 and 114 per thousand, rounded down.
pub open spec fn luminance(r: u8, g: u8, b: u8) -> int {
    (r * 299 + g * 587 + b * 114) / 1000
}

/// Number of pixels among the first `k` whose luminance is `v`.
pub open spec fn lum_count(s: Seq<u8>, v: int, k: int) -> nat
    decreases k,
{
    if k <= 0 {
        0
    } else {
        lum_count(s, v, k - 1) + if luminance(s[4 * (k - 1)], s[4 * (k - 1) + 1], s[4 * (k - 1) + 2]) == v {
            1nat
        } else {
            0nat
        }
    }
}

/// The paper level of an image: the most frequent luminance from
/// `PAPER_LUMINANCE_FLOOR` up, the lowest on a tie; `PAPER_DEFAULT_LEVEL`
/// when no pixel is that light.
pub open spec fn is_paper_level(s: Seq<u8>, m: int) -> bool {
    let n = (s.len() / 4) as int;
    if forall|v: int| PAPER_LUMINANCE_FLOOR <= v < 256 ==> lum_count(s, v, n) == 0 {
        m == PAPER_DEFAULT_LEVEL
    } else {
        &&& PAPER_LUMINANCE_FLOOR <= m < 256
        &&& forall|v: int| PAPER_LUMINANCE_FLOOR <= v < 256 ==> lum_count(s, v, n) <= lum_count(s, m, n)
        &&& forall|v: int| PAPER_LUMINANCE_FLOOR <= v < m ==> lum_count(s, v, n) < lum_count(s, m, n)
    }
}

/// The paper level of the image (see `is_paper_level`).
pub fn paper_white_mode(rgba: &[u8]) -> (m: u32)
    requires
        rgba@.len() % 4 == 0,
    ensures
        is_paper_level(rgba@, m as int),
{
    let len = rgba.len();
    let n = len / 4;
    let ghost s = rgba@;
    let mut hist: Vec<u64> = vec![0u64; 256];
    let mut p: usize = 0;
    while p < n
        invariant
            n == s.len() / 4,
            s.len() == 4 * n,
            len == s.len(),
            s == rgba@,
            0 <= p <= n,
            hist@.len() == 256,
            forall|v: int| 0 <= v < 256 ==> #[trigger] hist@[v] == lum_count(s, v, p as int),
            forall|v: int| 0 <= v < 256 ==> #[trigger] hist@[v] <= p,
        decreases n - p,
    {
        let r = rgba[4 * p];
        let g = rgba[4 * p + 1];
        let b = rgba[4 * p + 2];
        let lum = (r as u32 * 299 + g as u32 * 587 + b as u32 * 114) / 1000;
        let l = if lum < 255 { lum } else { 255 };
        proof {
            assert(lum == luminance(r, g, b));
            assert(lum <= 255) by (nonlinear_arith)
                requires
                    lum == (r as int * 299 + g as int * 587 + b as int * 114) / 1000,
                    r <= 255,
                    g <= 255,
                    b <= 255,
            ;
        }
        let c = hist[l as usize];
        hist.set(l as usize, c + 1);
        p += 1;
    }
    let mut mode: u32 = PAPER_DEFAULT_LEVEL;
    let mut best: u64 = 0;
    let mut v: usize = PAPER_LUMINANCE_FLOOR;
    while v < 256
        invariant
            PAPER_LUMINANCE_FLOOR <= v <= 256,
            hist@.len() == 256,
            forall|u: int| 0 <= u < 256 ==> #[trigger] hist@[u] == lum_count(s, u, n as int),
            best == 0 ==> mode == PAPER_DEFAULT_LEVEL,
            best == 0 ==> forall|u: int| PAPER_LUMINANCE_FLOOR <= u < v ==> lum_count(s, u, n as int) == 0,
            best > 0 ==> PAPER_LUMINANCE_FLOOR <= mode < v && best == lum_count(s, mode as int, n as int),
            forall|u: int| PAPER_LUMINANCE_FLOOR <= u < v ==> lum_count(s, u, n as int) <= best,
            best > 0 ==> forall|u: int| PAPER_LUMINANCE_FLOOR <= u < mode ==> lum_count(s, u, n as int) < best,
        decreases 256 - v,
    {
        let c = hist[v];
        if c > best {
            best = c;
            mode = v as u32;
        }
        v += 1;
    }
    proof {
        if best > 0 {
            assert(lum_count(s, mode as int, n as int) > 0);
        }
    }
    mode
}

/// A pixel light enough (luminance at least 150) to be painted over when
/// erasing grid lines; darker pixels are ink and are kept.
pub open spec fn is_overpaintable_spec(r: u8, g: u8, b: u8) -> bool {
    r * 299 + g * 587 + b * 114 >= 150 * 1000
}

/// Whether a pixel may be painted over (see `is_overpaintable_spec`).
pub fn is_overpaintable(r: u8, g: u8, b: u8) -> (ok: bool)
    ensures
        ok == is_overpaintable_spec(r, g, b),
{
    r as u32 * 299 + g as u32 * 587 + b as u32 * 114 >= 150 * 1000
}

/// Paints opaque white the pixels of the rectangle `[x_lo, x_hi) x [y_lo,
/// y_hi)` (clipped to the `w` by `h` image) that are light enough; every other
/// byte is kept.
pub fn paint_light_rect(rgba: &mut [u8], w: u32, h: u32, x_lo: u32, x_hi: u32, y_lo: u32, y_hi: u32)
    requires
        old(rgba)@.len() == 4 * (w as int) * (h as int),
    ensures
        final(rgba)@.len() == old(rgba)@.len(),
        forall|i: int|
            0 <= i < old(rgba)@.len() ==> #[trigger] final(rgba)@[i] == if in_rect(
                w as int,
                i,
                x_lo as int,
                x_hi as int,
                y_lo as int,
                y_hi as int,
            ) && is_overpaintable_spec(
                old(rgba)@[4 * (i / 4)],
                old(rgba)@[4 * (i / 4) + 1],
                old(rgba)@[4 * (i / 4) + 2],
            ) {
                255u8
            } else {
                old(rgba)@[i]
            },
{
    paint_rect_where(rgba, w, h, x_lo, x_hi, y_lo, y_hi, Brush::Light, [255u8; 4]);
}

/// Row scanned `dy` rows from `y`, held at the top edge.
pub open spec fn scan_row(y: int, dy: int) -> int {
    if y + dy < 0 {
        0
    } else {
        y + dy
    }
}

/// The pixel `dx` columns from `ex`, on the row `dy` rows from `y`, lies in the
/// `w` by `h` binary image and is ink.
pub open spec fn line_hit(b: Seq<u8>, w: int, h: int, ex: int, y: int, dy: int, dx: int) -> bool {
    let sy = scan_row(y, dy);
    let x = ex + dx;
    &&& sy < h
    &&& 0 <= x < w
    &&& b[sy * w + x] == 0
}

/// `(dy1, dx1)` comes no later than `(dy2, dx2)` in the scan (rows first).
pub open spec fn scan_le(dy1: int, dx1: int, dy2: int, dx2: int) -> bool {
    dy1 < dy2 || (dy1 == dy2 && dx1 <= dx2)
}

/// `(dy, dx)` is a hit within the search window.
pub open spec fn window_hit(b: Seq<u8>, w: int, h: int, ex: int, y: int, range: int, dy: int, dx: int) -> bool {
    -2 <= dy <= 2 && -range <= dx <= range && line_hit(b, w, h, ex, y, dy, dx)
}

/// Absolute value.
pub open spec fn abs_int(v: int) -> int {
    if v < 0 {
        -v
    } else {
        v
    }
}

/// Hit `(dy, dx)` is the one the search keeps: no hit is nearer to the
/// expected column, and of the hits as near it comes first.
pub open spec fn best_hit(b: Seq<u8>, w: int, h: int, ex: int, y: int, range: int, dy: int, dx: int) -> bool {
    &&& window_hit(b, w, h, ex, y, range, dy, dx)
    &&& forall|dy2: int, dx2: int|
        #[trigger] window_hit(b, w, h, ex, y, range, dy2, dx2) ==> abs_int(dx) < abs_int(dx2) || (abs_int(dx)
            == abs_int(dx2) && scan_le(dy, dx, dy2, dx2))
}

/// `(dy, dx)` comes before the cursor `(cdy, cdx)` in the scan.
pub open spec fn scanned(cdy: int, cdx: int, dy: int, dx: int) -> bool {
    dy < cdy || (dy == cdy && dx < cdx)
}

/// What the search holds after scanning up to the cursor: with nothing
/// found, the distance bound is past the window and no hit was scanned;
/// otherwise `(bdy, bdx)` is a scanned hit at distance `md`, and no scanned
/// hit is nearer or as near and earlier.
pub open spec fn search_state(
    b: Seq<u8>,
    w: int,
    h: int,
    ex: int,
    y: int,
    rg: int,
    found: bool,
    md: int,
    bdy: int,
    bdx: int,
    cdy: int,
    cdx: int,
) -> bool {
    if !found {
        &&& md == rg + 1
        &&& forall|dy2: int, dx2: int|
            #[trigger] window_hit(b, w, h, ex, y, rg, dy2, dx2) ==> !scanned(cdy, cdx, dy2, dx2)
    } else {
        &&& window_hit(b, w, h, ex, y, rg, bdy, bdx)
        &&& scanned(cdy, cdx, bdy, bdx)
        &&& md == abs_int(bdx)
        &&& forall|dy2: int, dx2: int|
            #[trigger] window_hit(b, w, h, ex, y, rg, dy2, dx2) && scanned(cdy, cdx, dy2, dx2) ==> abs_int(bdx)
                < abs_int(dx2) || (abs_int(bdx) == abs_int(dx2) && scan_le(bdy, bdx, dy2, dx2))
    }
}

/// Looks for a vertical grid line near column `expected_x`: the ink pixel
/// nearest that column within `search_range` columns, on the five rows
/// around `y` (rows above the top read the top row); of equally near pixels,
/// the first found row by row, left to right. Gives its column.
pub fn find_grid_line_x(binary: &[u8], w: u32, h: u32, expected_x: i32, y: u32, search_range: i32) -> (r: Option<i32>)
    requires
        binary@.len() == (w as int) * (h as int),
        y <= i32::MAX - 2,
        search_range < i32::MAX,
        search_range >= 0 ==> i32::MIN <= expected_x - search_range && expected_x + search_range <= i32::MAX,
    ensures
        r is None <==> !exists|dy: int, dx: int|
            #[trigger] window_hit(binary@, w as int, h as int, expected_x as int, y as int, search_range as int, dy, dx),
        r matches Some(x) ==> exists|dy: int, dx: int|
            #[trigger] best_hit(binary@, w as int, h as int, expected_x as int, y as int, search_range as int, dy, dx)
                && x == expected_x + dx,
{
    let ghost b = binary@;
    let ghost wi = w as int;
    let ghost hi = h as int;
    let ghost ex = expected_x as int;
    let ghost yi = y as int;
    let ghost rg = search_range as int;
    let len = binary.len();
    let mut best_x: Option<i32> = None;
    let mut min_dist: i32 = search_range + 1;
    let ghost mut bdy: int = 0;
    let ghost mut bdx: int = 0;
    let mut dy: i32 = -2;
    while dy <= 2
        invariant
            b == binary@,
            b.len() == wi * hi,
            len == b.len(),
            wi == w as int,
            hi == h as int,
            ex == expected_x as int,
            yi == y as int,
            rg == search_range as int,
            y <= i32::MAX - 2,
            search_range < i32::MAX,
            search_range >= 0 ==> i32::MIN <= expected_x - search_range && expected_x + search_range <= i32::MAX,
            -2 <= dy <= 3,
            search_state(b, wi, hi, ex, yi, rg, best_x is Some, min_dist as int, bdy, bdx, dy as int, -rg),
            best_x matches Some(x) ==> x == ex + bdx,
        decreases 3 - dy,
    {
        let t = y as i32 + dy;
        let sy: u32 = if t < 0 { 0 } else { t as u32 };
        proof {
            assert(sy == scan_row(yi, dy as int));
        }
        if sy < h && search_range >= 0 {
            let mut dx: i32 = -search_range;
            while dx <= search_range
                invariant
                    b == binary@,
                    b.len() == wi * hi,
                    len == b.len(),
                    wi == w as int,
                    hi == h as int,
                    ex == expected_x as int,
                    yi == y as int,
                    rg == search_range as int,
                    0 <= search_range < i32::MAX,
                    i32::MIN <= expected_x - search_range && expected_x + search_range <= i32::MAX,
                    -2 <= dy <= 2,
                    sy == scan_row(yi, dy as int),
                    sy < h,
                    -search_range <= dx <= search_range + 1,
                    search_state(b, wi, hi, ex, yi, rg, best_x is Some, min_dist as int, bdy, bdx, dy as int, dx as int),
                    best_x matches Some(x) ==> x == ex + bdx,
                decreases search_range + 1 - dx,
            {
                let ghost found0 = best_x is Some;
                let ghost md0 = min_dist as int;
                let ghost bdy0 = bdy;
                let ghost bdx0 = bdx;
                let x = expected_x + dx;
                let ad = if dx < 0 { -dx } else { dx };
                let mut hit = false;
                if x >= 0 && (x as u32) < w {
                    proof {
                        crate::grid::lemma_index_of(wi, hi, x as int, sy as int);
                    }
                    hit = binary[(sy as usize) * (w as usize) + (x as usize)] == 0;
                }
                proof {
                    assert(hit == window_hit(b, wi, hi, ex, yi, rg, dy as int, dx as int));
                }
                if hit && ad < min_dist {
                    min_dist = ad;
                    best_x = Some(x);
                    proof {
                        bdy = dy as int;
                        bdx = dx as int;
                    }
                }
                proof {
                    lemma_search_step(b, wi, hi, ex, yi, rg, found0, md0, bdy0, bdx0, dy as int, dx as int);
                }
                dx += 1;
            }
            proof {
                lemma_search_row_end(b, wi, hi, ex, yi, rg, best_x is Some, min_dist as int, bdy, bdx, dy as int);
            }
        } else {
            proof {
                lemma_search_row_empty(b, wi, hi, ex, yi, rg, best_x is Some, min_dist as int, bdy, bdx, dy as int);
            }
        }
        dy += 1;
    }
    proof {
        if best_x is Some {
            assert(best_hit(b, wi, hi, ex, yi, rg, bdy, bdx));
        }
    }
    best_x
}

/// Scanning `(dy, dx)` keeps the search state.
proof fn lemma_search_step(
    b: Seq<u8>,
    w: int,
    h: int,
    ex: int,
    y: int,
    rg: int,
    found: bool,
    md: int,
    bdy: int,
    bdx: int,
    dy: int,
    dx: int,
)
    requires
        search_state(b, w, h, ex, y, rg, found, md, bdy, bdx, dy, dx),
    ensures
        ({
            let hit = window_hit(b, w, h, ex, y, rg, dy, dx);
            if hit && abs_int(dx) < md {
                search_state(b, w, h, ex, y, rg, true, abs_int(dx), dy, dx, dy, dx + 1)
            } else {
                search_state(b, w, h, ex, y, rg, found, md, bdy, bdx, dy, dx + 1)
            }
        }),
{
    let hit = window_hit(b, w, h, ex, y, rg, dy, dx);
    if hit && abs_int(dx) < md {
        assert forall|dy2: int, dx2: int|
            #[trigger] window_hit(b, w, h, ex, y, rg, dy2, dx2) && scanned(dy, dx + 1, dy2, dx2) implies abs_int(dx)
            < abs_int(dx2) || (abs_int(dx) == abs_int(dx2) && scan_le(dy, dx, dy2, dx2)) by {
            if scanned(dy, dx, dy2, dx2) {
                if !found {
                } else {
                }
            }
        }
    } else {
        if found {
            assert forall|dy2: int, dx2: int|
                #[trigger] window_hit(b, w, h, ex, y, rg, dy2, dx2) && scanned(dy, dx + 1, dy2, dx2) implies abs_int(bdx)
                < abs_int(dx2) || (abs_int(bdx) == abs_int(dx2) && scan_le(bdy, bdx, dy2, dx2)) by {
                if !scanned(dy, dx, dy2, dx2) {
                    assert(dy2 == dy && dx2 == dx);
                }
            }
        } else {
            assert forall|dy2: int, dx2: int| #[trigger] window_hit(b, w, h, ex, y, rg, dy2, dx2) implies !scanned(
                dy,
                dx + 1,
                dy2,
                dx2,
            ) by {
                if scanned(dy, dx + 1, dy2, dx2) && !scanned(dy, dx, dy2, dx2) {
                    assert(dy2 == dy && dx2 == dx);
                    assert(abs_int(dx) <= rg);
                }
            }
        }
    }
}

/// At the end of a row the cursor moves to the start of the next.
proof fn lemma_search_row_end(
    b: Seq<u8>,
    w: int,
    h: int,
    ex: int,
    y: int,
    rg: int,
    found: bool,
    md: int,
    bdy: int,
    bdx: int,
    dy: int,
)
    requires
        search_state(b, w, h, ex, y, rg, found, md, bdy, bdx, dy, rg + 1),
    ensures
        search_state(b, w, h, ex, y, rg, found, md, bdy, bdx, dy + 1, -rg),
{
    assert forall|dy2: int, dx2: int|
        #[trigger] window_hit(b, w, h, ex, y, rg, dy2, dx2) implies (scanned(dy + 1, -rg, dy2, dx2) <==> scanned(
            dy,
            rg + 1,
            dy2,
            dx2,
        )) by {
    }
    if found {
        assert(scanned(dy + 1, -rg, bdy, bdx));
    }
}

/// A row with no hits in the window moves the cursor to the next row.
proof fn lemma_search_row_empty(
    b: Seq<u8>,
    w: int,
    h: int,
    ex: int,
    y: int,
    rg: int,
    found: bool,
    md: int,
    bdy: int,
    bdx: int,
    dy: int,
)
    requires
        search_state(b, w, h, ex, y, rg, found, md, bdy, bdx, dy, -rg),
        scan_row(y, dy) >= h || rg < 0,
    ensures
        search_state(b, w, h, ex, y, rg, found, md, bdy, bdx, dy + 1, -rg),
{
    assert forall|dy2: int, dx2: int|
        #[trigger] window_hit(b, w, h, ex, y, rg, dy2, dx2) implies (scanned(dy + 1, -rg, dy2, dx2) <==> scanned(
            dy,
            -rg,
            dy2,
            dx2,
        )) by {
    }
}

/// Sum of channel `c` over pixels `x0..x1` of row `y` of a `w`-wide RGBA image.
pub open spec fn row_channel_sum(s: Seq<u8>, w: int, c: int, y: int, x0: int, x1: int) -> int
    decreases x1 - x0,
{
    if x1 <= x0 {
        0
    } else {
        row_channel_sum(s, w, c, y, x0, x1 - 1) + s[4 * (y * w + x1 - 1) + c]
    }
}

/// Sum of channel `c` over the rectangle `[x0, x1) x [y0, y1)`.
pub open spec fn rect_channel_sum(s: Seq<u8>, w: int, c: int, x0: int, x1: int, y0: int, y1: int) -> int
    decreases y1 - y0,
{
    if y1 <= y0 {
        0
    } else {
        rect_channel_sum(s, w, c, x0, x1, y0, y1 - 1) + row_channel_sum(s, w, c, y1 - 1, x0, x1)
    }
}

proof fn lemma_row_sum_bound(s: Seq<u8>, w: int, c: int, y: int, x0: int, x1: int)
    requires
        x0 <= x1,
    ensures
        0 <= row_channel_sum(s, w, c, y, x0, x1) <= 255 * (x1 - x0),
    decreases x1 - x0,
{
    if x1 > x0 {
        lemma_row_sum_bound(s, w, c, y, x0, x1 - 1);
    }
}

proof fn lemma_rect_sum_bound(s: Seq<u8>, w: int, c: int, x0: int, x1: int, y0: int, y1: int)
    requires
        x0 <= x1,
        y0 <= y1,
    ensures
        0 <= rect_channel_sum(s, w, c, x0, x1, y0, y1) <= 255 * (x1 - x0) * (y1 - y0),
    decreases y1 - y0,
{
    if y1 > y0 {
        lemma_rect_sum_bound(s, w, c, x0, x1, y0, y1 - 1);
        lemma_row_sum_bound(s, w, c, y1 - 1, x0, x1);
        assert(255 * (x1 - x0) * (y1 - 1 - y0) + 255 * (x1 - x0) == 255 * (x1 - x0) * (y1 - y0)) by (nonlinear_arith);
    }
}

/// Sums of the red, green and blue channels over the `rw` by `rh` rectangle
/// at `(x, y)`, clipped to the `w` by `h` image, and the number of pixels
/// summed.
pub fn region_rgb_sums(rgba: &[u8], w: u32, h: u32, x: u32, y: u32, rw: u32, rh: u32) -> (r: (u128, u128, u128, u64))
    requires
        rgba@.len() == 4 * (w as int) * (h as int),
        x + rw <= u32::MAX + 1,
        y + rh <= u32::MAX + 1,
    ensures
        ({
            let xe = if x + rw < w { x + rw } else { w as int };
            let ye = if y + rh < h { y + rh } else { h as int };
            let xs = if x < xe { x as int } else { xe };
            let ys = if y < ye { y as int } else { ye };
            &&& r.0 == rect_channel_sum(rgba@, w as int, 0, xs, xe, ys, ye)
            &&& r.1 == rect_channel_sum(rgba@, w as int, 1, xs, xe, ys, ye)
            &&& r.2 == rect_channel_sum(rgba@, w as int, 2, xs, xe, ys, ye)
            &&& r.3 == (xe - xs) * (ye - ys)
        }),
{
    let ghost s = rgba@;
    let ghost wi = w as int;
    let ghost hi = h as int;
    let len = rgba.len();
    let xe: u32 = if (x as u64) + (rw as u64) < (w as u64) { x + rw } else { w };
    let ye: u32 = if (y as u64) + (rh as u64) < (h as u64) { y + rh } else { h };
    let xs: u32 = if x < xe { x } else { xe };
    let ys: u32 = if y < ye { y } else { ye };
    proof {
        lemma_rect_sum_bound(s, wi, 0, xs as int, xe as int, ys as int, ye as int);
        lemma_rect_sum_bound(s, wi, 1, xs as int, xe as int, ys as int, ye as int);
        lemma_rect_sum_bound(s, wi, 2, xs as int, xe as int, ys as int, ye as int);
    }
    let mut sr: u128 = 0;
    let mut sg: u128 = 0;
    let mut sb: u128 = 0;
    let mut py = ys;
    while py < ye
        invariant
            s == rgba@,
            s.len() == 4 * wi * hi,
            len == s.len(),
            wi == w as int,
            hi == h as int,
            xs <= xe <= w,
            ys <= py <= ye <= h,
            sr == rect_channel_sum(s, wi, 0, xs as int, xe as int, ys as int, py as int),
            sg == rect_channel_sum(s, wi, 1, xs as int, xe as int, ys as int, py as int),
            sb == rect_channel_sum(s, wi, 2, xs as int, xe as int, ys as int, py as int),
        decreases ye - py,
    {
        proof {
            lemma_rect_sum_bound(s, wi, 0, xs as int, xe as int, ys as int, py + 1);
            lemma_rect_sum_bound(s, wi, 1, xs as int, xe as int, ys as int, py + 1);
            lemma_rect_sum_bound(s, wi, 2, xs as int, xe as int, ys as int, py + 1);
            assert(255 * (xe - xs) * (py + 1 - ys) <= 255 * 0x1_0000_0000 * 0x1_0000_0000) by (nonlinear_arith)
                requires
                    0 <= xe - xs <= 0xffff_ffff,
                    0 <= py + 1 - ys <= 0xffff_ffff,
            ;
        }
        let mut px = xs;
        while px < xe
            invariant
                s == rgba@,
                s.len() == 4 * wi * hi,
                len == s.len(),
                wi == w as int,
                hi == h as int,
                xs <= px <= xe <= w,
                ys <= py < ye <= h,
                sr == rect_channel_sum(s, wi, 0, xs as int, xe as int, ys as int, py as int)
                    + row_channel_sum(s, wi, 0, py as int, xs as int, px as int),
                sg == rect_channel_sum(s, wi, 1, xs as int, xe as int, ys as int, py as int)
                    + row_channel_sum(s, wi, 1, py as int, xs as int, px as int),
                sb == rect_channel_sum(s, wi, 2, xs as int, xe as int, ys as int, py as int)
                    + row_channel_sum(s, wi, 2, py as int, xs as int, px as int),
                rect_channel_sum(s, wi, 0, xs as int, xe as int, ys as int, py + 1) <= u128::MAX,
                rect_channel_sum(s, wi, 1, xs as int, xe as int, ys as int, py + 1) <= u128::MAX,
                rect_channel_sum(s, wi, 2, xs as int, xe as int, ys as int, py + 1) <= u128::MAX,
            decreases xe - px,
        {
            proof {
                lemma_pixel_index(wi, hi, px as int, py as int);
                lemma_row_sum_bound(s, wi, 0, py as int, (px + 1) as int, xe as int);
                lemma_row_sum_bound(s, wi, 1, py as int, (px + 1) as int, xe as int);
                lemma_row_sum_bound(s, wi, 2, py as int, (px + 1) as int, xe as int);
                lemma_row_split(s, wi, 0, py as int, xs as int, (px + 1) as int, xe as int);
                lemma_row_split(s, wi, 1, py as int, xs as int, (px + 1) as int, xe as int);
                lemma_row_split(s, wi, 2, py as int, xs as int, (px + 1) as int, xe as int);
            }
            let base = 4 * ((py as usize) * (w as usize) + (px as usize));
            sr = sr + rgba[base] as u128;
            sg = sg + rgba[base + 1] as u128;
            sb = sb + rgba[base + 2] as u128;
            px += 1;
        }
        py += 1;
    }
    proof {
        assert((xe - xs) * (ye - ys) <= 0xffff_ffff * 0xffff_ffff) by (nonlinear_arith)
            requires
                0 <= xe - xs <= 0xffff_ffff,
                0 <= ye - ys <= 0xffff_ffff,
        ;
    }
    let count = ((xe - xs) as u64) * ((ye - ys) as u64);
    (sr, sg, sb, count)
}

/// A row sum splits at any column between its ends.
proof fn lemma_row_split(s: Seq<u8>, w: int, c: int, y: int, x0: int, xm: int, x1: int)
    requires
        x0 <= xm <= x1,
    ensures
        row_channel_sum(s, w, c, y, x0, x1) == row_channel_sum(s, w, c, y, x0, xm) + row_channel_sum(
            s,
            w,
            c,
            y,
            xm,
            x1,
        ),
    decreases x1 - xm,
{
    if x1 > xm {
        lemma_row_split(s, w, c, y, x0, xm, x1 - 1);
    }
}

} // verus!
