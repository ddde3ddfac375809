//! CLAHE: contrast-limited adaptive histogram equalization on a 4x4 grid of
//! tiles, with bilinear interpolation between the tiles' lookup tables. All
//! arithmetic is exact (rationals rounded half up).
use vstd::prelude::*;
use crate::grid::{col_of, row_of, index_of, lemma_index_of, lemma_coords};

verus! {

/// Tiles per side.
pub const CLAHE_GRID: u32 = 4;

/// Clip limit factor: a histogram bin may hold at most 3 times the average.
pub const CLAHE_CLIP: u32 = 3;

/// Pixels equal to `v` in row `y`, columns `[x0, x1)`.
pub open spec fn row_count(g: Seq<u8>, w: int, y: int, x0: int, x1: int, v: int) -> nat
    decreases x1 - x0,
{
    if x1 <= x0 {
        0
    } else {
        row_count(g, w, y, x0, x1 - 1, v) + if g[index_of(w, x1 - 1, y)] == v {
            1nat
        } else {
            0nat
        }
    }
}

/// Pixels equal to `v` in rows `[y0, y1)`, columns `[x0, x1)`.
pub open spec fn region_count(g: Seq<u8>, w: int, x0: int, x1: int, y0: int, y1: int, v: int) -> nat
    decreases y1 - y0,
{
    if y1 <= y0 {
        0
    } else {
        region_count(g, w, x0, x1, y0, y1 - 1, v) + row_count(g, w, y1 - 1, x0, x1, v)
    }
}

/// A tile: columns `[r.0, r.1)`, rows `[r.2, r.3)`.
pub open spec fn tile_count(g: Seq<u8>, w: int, r: (int, int, int, int), v: int) -> nat {
    region_count(g, w, r.0, r.1, r.2, r.3, v)
}

/// Pixels of a tile.
pub open spec fn tile_pixels(r: (int, int, int, int)) -> int {
    (r.1 - r.0) * (r.3 - r.2)
}

/// Clip limit of a tile of `pc` pixels: `max(floor(3 * pc / 256), 1)`.
pub open spec fn clip_limit(pc: int) -> int {
    if CLAHE_CLIP * pc / 256 > 1 {
        CLAHE_CLIP * pc / 256
    } else {
        1
    }
}

/// Histogram mass above the clip limit in bins below `k`.
pub open spec fn excess(g: Seq<u8>, w: int, r: (int, int, int, int), clip: int, k: int) -> int
    decreases k,
{
    if k <= 0 {
        0
    } else {
        excess(g, w, r, clip, k - 1) + if tile_count(g, w, r, k - 1) > clip {
            tile_count(g, w, r, k - 1) - clip
        } else {
            0
        }
    }
}

/// Bin `v` after clipping and even redistribution of the excess (the first
/// `excess % 256` bins get one more).
pub open spec fn redistributed(g: Seq<u8>, w: int, r: (int, int, int, int), v: int) -> int {
    let clip = clip_limit(tile_pixels(r));
    let ex = excess(g, w, r, clip, 256);
    let c = tile_count(g, w, r, v);
    (if c > clip {
        clip
    } else {
        c as int
    }) + ex / 256 + if v < ex % 256 {
        1int
    } else {
        0int
    }
}

/// Cumulative redistributed histogram up to bin `v` inclusive.
pub open spec fn cdf(g: Seq<u8>, w: int, r: (int, int, int, int), v: int) -> int
    decreases v + 1,
{
    if v < 0 {
        0
    } else {
        cdf(g, w, r, v - 1) + redistributed(g, w, r, v)
    }
}

/// First positive cumulative value from bin `k` on (0 when there is none).
pub open spec fn cdf_min_from(g: Seq<u8>, w: int, r: (int, int, int, int), k: int) -> int
    decreases 256 - k,
{
    if k >= 256 {
        0
    } else if cdf(g, w, r, k) > 0 {
        cdf(g, w, r, k)
    } else {
        cdf_min_from(g, w, r, k + 1)
    }
}

/// `a - b`, or 0 when `b` exceeds `a`.
pub open spec fn sub0(a: int, b: int) -> int {
    if a > b {
        a - b
    } else {
        0
    }
}

/// The tile's lookup table at grey value `v`: the equalized value
/// `round(255 * (cdf(v) - cdf_min) / (pixels - cdf_min))`, capped at 255; the
/// identity when the denominator is 0; all 0 for an empty tile.
pub open spec fn lut_value(g: Seq<u8>, w: int, r: (int, int, int, int), v: int) -> int {
    let pc = tile_pixels(r);
    if pc == 0 {
        0
    } else {
        let cm = cdf_min_from(g, w, r, 0);
        let denom = sub0(pc, cm);
        if denom == 0 {
            v
        } else {
            let q = (2 * 255 * sub0(cdf(g, w, r, v), cm) + denom) / (2 * denom);
            if q > 255 {
                255
            } else {
                q
            }
        }
    }
}

/// Rectangle of tile `(tx, ty)` in a `w` by `h` image; the last row and
/// column of tiles take the remainder.
pub open spec fn tile_rect(w: int, h: int, tx: int, ty: int) -> (int, int, int, int) {
    let tw = w / 4;
    let th = h / 4;
    let x0 = tx * tw;
    let y0 = ty * th;
    (x0, if tx == 3 {
        w
    } else {
        x0 + tw
    }, y0, if ty == 3 {
        h
    } else {
        y0 + th
    })
}


/// Histogram of a tile (columns `[x0, x1)`, rows `[y0, y1)`).
pub(crate) fn tile_histogram(gray: &[u8], w: u32, h: u32, x0: usize, x1: usize, y0: usize, y1: usize) -> (hist: Vec<u64>)
    requires
        (w as int) * (h as int) <= u32::MAX,
        gray@.len() >= (w as int) * (h as int),
        x0 <= x1 <= w,
        y0 <= y1 <= h,
    ensures
        hist@.len() == 256,
        forall|v: int|
            0 <= v < 256 ==> #[trigger] hist@[v] == tile_count(
                gray@,
                w as int,
                (x0 as int, x1 as int, y0 as int, y1 as int),
                v,
            ),
        forall|v: int|
            0 <= v < 256 ==> #[trigger] hist@[v] <= tile_pixels(
                (x0 as int, x1 as int, y0 as int, y1 as int),
            ),
{
    let ghost g = gray@;
    let ghost wi = w as int;
    let ghost hi = h as int;
    let ghost r = (x0 as int, x1 as int, y0 as int, y1 as int);
    let mut hist: Vec<u64> = Vec::new();
    let mut k: usize = 0;
    while k < 256
        invariant
            0 <= k <= 256,
            hist@.len() == k,
            forall|v: int| 0 <= v < k ==> #[trigger] hist@[v] == 0,
        decreases 256 - k,
    {
        hist.push(0);
        k += 1;
    }
    let wu = w as usize;
    let mut y = y0;
    while y < y1
        invariant
            g == gray@,
            wi == w as int,
            hi == h as int,
            wu == w as usize,
            wi * hi <= u32::MAX,
            g.len() >= wi * hi,
            x0 <= x1 <= w,
            y0 <= y <= y1 <= h,
            hist@.len() == 256,
            forall|v: int|
                0 <= v < 256 ==> #[trigger] hist@[v] == region_count(g, wi, x0 as int, x1 as int, y0 as int, y as int, v),
            forall|v: int| 0 <= v < 256 ==> #[trigger] hist@[v] <= (y - y0) * (x1 - x0),
        decreases y1 - y,
    {
        let mut x = x0;
        while x < x1
            invariant
                g == gray@,
                wi == w as int,
                hi == h as int,
                wu == w as usize,
                wi * hi <= u32::MAX,
                g.len() >= wi * hi,
                x0 <= x <= x1 <= w,
                y0 <= y < y1 <= h,
                hist@.len() == 256,
                forall|v: int|
                    0 <= v < 256 ==> #[trigger] hist@[v] == region_count(g, wi, x0 as int, x1 as int, y0 as int, y as int, v)
                        + row_count(g, wi, y as int, x0 as int, x as int, v),
                forall|v: int| 0 <= v < 256 ==> #[trigger] hist@[v] <= (y - y0) * (x1 - x0) + (x - x0),
            decreases x1 - x,
        {
            proof {
                lemma_index_of(wi, hi, x as int, y as int);
                assert((y - y0) * (x1 - x0) + (x - x0) < (y1 - y0) * (x1 - x0)) by (nonlinear_arith)
                    requires
                        y0 <= y < y1,
                        x0 <= x < x1,
                ;
                assert((y1 - y0) * (x1 - x0) <= wi * hi) by (nonlinear_arith)
                    requires
                        0 <= y0 <= y1 <= hi,
                        0 <= x0 <= x1 <= wi,
                ;
            }
            let val = gray[y * wu + x] as usize;
            let ghost old_hist = hist@;
            hist[val] = hist[val] + 1;
            proof {
                assert forall|v: int| 0 <= v < 256 implies #[trigger] hist@[v] == region_count(
                    g,
                    wi,
                    x0 as int,
                    x1 as int,
                    y0 as int,
                    y as int,
                    v,
                ) + row_count(g, wi, y as int, x0 as int, x + 1, v) by {
                    assert(row_count(g, wi, y as int, x0 as int, x + 1, v) == row_count(
                        g,
                        wi,
                        y as int,
                        x0 as int,
                        x as int,
                        v,
                    ) + if g[index_of(wi, x as int, y as int)] == v {
                        1nat
                    } else {
                        0nat
                    });
                }
            }
            x += 1;
        }
        proof {
            assert forall|v: int| 0 <= v < 256 implies #[trigger] hist@[v] <= (y + 1 - y0) * (x1 - x0) by {
                assert((y - y0) * (x1 - x0) + (x1 - x0) == (y + 1 - y0) * (x1 - x0)) by (nonlinear_arith);
            }
        }
        y += 1;
    }
    proof {
        assert((y1 - y0) * (x1 - x0) == tile_pixels(r)) by (nonlinear_arith)
            requires
                r == (x0 as int, x1 as int, y0 as int, y1 as int),
        ;
    }
    hist
}

/// Clipped bins and the excess above the clip limit.
fn clip_histogram(hist: &Vec<u64>, clip: u64, Ghost(g): Ghost<Seq<u8>>, Ghost(w): Ghost<int>, Ghost(r): Ghost<(int, int, int, int)>) -> (res: (Vec<u64>, u64))
    requires
        hist@.len() == 256,
        forall|v: int| 0 <= v < 256 ==> #[trigger] hist@[v] == tile_count(g, w, r, v),
        forall|v: int| 0 <= v < 256 ==> #[trigger] hist@[v] <= u32::MAX,
    ensures
        res.0@.len() == 256,
        forall|v: int|
            0 <= v < 256 ==> #[trigger] res.0@[v] == if hist@[v] > clip {
                clip
            } else {
                hist@[v]
            },
        res.1 == excess(g, w, r, clip as int, 256),
        res.1 <= 256 * u32::MAX,
{
    let mut clipped: Vec<u64> = Vec::new();
    let mut ex: u64 = 0;
    let mut v: usize = 0;
    while v < 256
        invariant
            0 <= v <= 256,
            hist@.len() == 256,
            forall|u: int| 0 <= u < 256 ==> #[trigger] hist@[u] == tile_count(g, w, r, u),
            forall|u: int| 0 <= u < 256 ==> #[trigger] hist@[u] <= u32::MAX,
            clipped@.len() == v,
            forall|u: int|
                0 <= u < v ==> #[trigger] clipped@[u] == if hist@[u] > clip {
                    clip
                } else {
                    hist@[u]
                },
            ex == excess(g, w, r, clip as int, v as int),
            ex <= v * u32::MAX,
        decreases 256 - v,
    {
        let c = hist[v];
        if c > clip {
            ex = ex + (c - clip);
            clipped.push(clip);
        } else {
            clipped.push(c);
        }
        v += 1;
    }
    (clipped, ex)
}

proof fn lemma_cdf_min_skip(g: Seq<u8>, w: int, r: (int, int, int, int), v: int)
    requires
        0 <= v <= 256,
        forall|u: int| 0 <= u < v ==> #[trigger] cdf(g, w, r, u) <= 0,
    ensures
        cdf_min_from(g, w, r, 0) == cdf_min_from(g, w, r, v),
    decreases v,
{
    if v > 0 {
        lemma_cdf_min_skip(g, w, r, v - 1);
    }
}

/// Lookup table of a tile.
fn tile_lut(gray: &[u8], w: u32, h: u32, x0: usize, x1: usize, y0: usize, y1: usize) -> (lut: Vec<u8>)
    requires
        (w as int) * (h as int) <= u32::MAX,
        gray@.len() >= (w as int) * (h as int),
        x0 <= x1 <= w,
        y0 <= y1 <= h,
    ensures
        lut@.len() == 256,
        forall|v: int|
            0 <= v < 256 ==> #[trigger] lut@[v] as int == lut_value(
                gray@,
                w as int,
                (x0 as int, x1 as int, y0 as int, y1 as int),
                v,
            ),
{
    let ghost g = gray@;
    let ghost wi = w as int;
    let ghost r = (x0 as int, x1 as int, y0 as int, y1 as int);
    proof {
        assert((y1 - y0) * (x1 - x0) <= (w as int) * (h as int)) by (nonlinear_arith)
            requires
                0 <= y0 <= y1 <= h,
                0 <= x0 <= x1 <= w,
        ;
        assert((x1 - x0) * (y1 - y0) == (y1 - y0) * (x1 - x0)) by (nonlinear_arith);
    }
    let hist = tile_histogram(gray, w, h, x0, x1, y0, y1);
    let pc = ((x1 - x0) * (y1 - y0)) as u64;
    let mut lut: Vec<u8> = Vec::new();
    if pc == 0 {
        let mut k: usize = 0;
        while k < 256
            invariant
                0 <= k <= 256,
                lut@.len() == k,
                tile_pixels(r) == 0,
                forall|v: int| 0 <= v < k ==> #[trigger] lut@[v] as int == lut_value(g, wi, r, v),
            decreases 256 - k,
        {
            lut.push(0);
            k += 1;
        }
        return lut;
    }
    let clip: u64 = if 3 * pc / 256 > 1 { 3 * pc / 256 } else { 1 };
    let (clipped, ex) = clip_histogram(&hist, clip, Ghost(g), Ghost(wi), Ghost(r));
    let per_bin = ex / 256;
    let rem = ex % 256;
    // Cumulative redistributed histogram.
    let mut cdfv: Vec<u64> = Vec::new();
    let mut acc: u64 = 0;
    let mut v: usize = 0;
    while v < 256
        invariant
            0 <= v <= 256,
            clipped@.len() == 256,
            hist@.len() == 256,
            forall|u: int| 0 <= u < 256 ==> #[trigger] hist@[u] == tile_count(g, wi, r, u),
            forall|u: int|
                0 <= u < 256 ==> #[trigger] clipped@[u] == if hist@[u] > clip {
                    clip
                } else {
                    hist@[u]
                },
            clip as int == clip_limit(tile_pixels(r)),
            ex == excess(g, wi, r, clip as int, 256),
            per_bin == ex / 256,
            rem == ex % 256,
            clip <= u32::MAX,
            per_bin <= u32::MAX,
            cdfv@.len() == v,
            acc == cdf(g, wi, r, v - 1),
            acc <= v * 8589934591,
            forall|u: int| 0 <= u < v ==> #[trigger] cdfv@[u] == cdf(g, wi, r, u),
            forall|u: int| 0 <= u < v ==> #[trigger] cdfv@[u] <= 256 * 8589934591,
        decreases 256 - v,
    {
        let extra: u64 = if (v as u64) < rem { 1 } else { 0 };
        assert(clipped@[v as int] <= clip);
        assert(acc + clipped@[v as int] + per_bin + extra <= (v + 1) * 8589934591);
        acc = acc + clipped[v] + per_bin + extra;
        cdfv.push(acc);
        v += 1;
    }
    // First positive cumulative value.
    let mut cm: u64 = 0;
    let mut found = false;
    let mut k: usize = 0;
    while k < 256 && !found
        invariant
            0 <= k <= 256,
            cdfv@.len() == 256,
            forall|u: int| 0 <= u < 256 ==> #[trigger] cdfv@[u] == cdf(g, wi, r, u),
            !found ==> forall|u: int| 0 <= u < k ==> #[trigger] cdf(g, wi, r, u) <= 0,
            !found ==> cm == 0,
            found ==> cm == cdf_min_from(g, wi, r, 0),
        decreases 256 - k,
    {
        if cdfv[k] > 0 {
            proof {
                lemma_cdf_min_skip(g, wi, r, k as int);
            }
            cm = cdfv[k];
            found = true;
        }
        k += 1;
    }
    proof {
        if !found {
            lemma_cdf_min_skip(g, wi, r, 256);
        }
    }
    let denom: u64 = if pc > cm { pc - cm } else { 0 };
    let mut k: usize = 0;
    while k < 256
        invariant
            0 <= k <= 256,
            cdfv@.len() == 256,
            forall|u: int| 0 <= u < 256 ==> #[trigger] cdfv@[u] == cdf(g, wi, r, u),
            forall|u: int| 0 <= u < 256 ==> #[trigger] cdfv@[u] <= 256 * 8589934591,
            pc <= u32::MAX,
            cm == cdf_min_from(g, wi, r, 0),
            pc as int == tile_pixels(r),
            pc > 0,
            denom as int == sub0(pc as int, cm as int),
            lut@.len() == k,
            forall|u: int| 0 <= u < k ==> #[trigger] lut@[u] as int == lut_value(g, wi, r, u),
        decreases 256 - k,
    {
        let val: u8 = if denom == 0 {
            k as u8
        } else {
            let c = cdfv[k];
            let diff: u64 = if c > cm { c - cm } else { 0 };
            assert(diff <= 256 * 8589934591);
            assert(denom <= u32::MAX);
            assert(510 * diff <= 510 * (256 * 8589934591)) by (nonlinear_arith)
                requires
                    diff <= 256 * 8589934591,
            ;
            let num = 510 * diff + denom;
            let den = 2 * denom;
            let q = num / den;
            if q > 255 { 255 } else { q as u8 }
        };
        lut.push(val);
        k += 1;
    }
    lut
}


/// Tile index along one axis, clamped to the grid.
pub open spec fn clamp_tile(q: int) -> int {
    if q < 0 {
        0
    } else if q > 3 {
        3
    } else {
        q
    }
}

/// CLAHE output at pixel `i`: the lookup tables of the (up to) four tiles
/// whose centres surround the pixel, interpolated bilinearly at the pixel's
/// grey value. With `d = 2 * tile_w`, the pixel sits at `(2x - tile_w) / d`
/// tiles from the first tile centre: the integer part (clamped to the grid)
/// picks the tiles, the remainder is the weight. The result is rounded half
/// up and capped at 255.
pub open spec fn clahe_px(g: Seq<u8>, w: int, h: int, i: int) -> int {
    let tw = w / 4;
    let th = h / 4;
    let x = col_of(w, i);
    let y = row_of(w, i);
    let dx = 2 * tw;
    let dy = 2 * th;
    let nx = 2 * x - tw;
    let ny = 2 * y - th;
    let tx0 = clamp_tile(nx / dx);
    let ty0 = clamp_tile(ny / dy);
    let tx1 = if tx0 + 1 < 3 {
        tx0 + 1
    } else {
        3
    };
    let ty1 = if ty0 + 1 < 3 {
        ty0 + 1
    } else {
        3
    };
    let ax = nx % dx;
    let ay = ny % dy;
    let val = g[i] as int;
    let v00 = lut_value(g, w, tile_rect(w, h, tx0, ty0), val);
    let v10 = lut_value(g, w, tile_rect(w, h, tx1, ty0), val);
    let v01 = lut_value(g, w, tile_rect(w, h, tx0, ty1), val);
    let v11 = lut_value(g, w, tile_rect(w, h, tx1, ty1), val);
    bilinear(v00, v10, v01, v11, ax, ay, dx, dy)
}

/// Bilinear interpolation of four corner values with weights `ax / dx` and
/// `ay / dy`, rounded half up and capped at 255.
pub open spec fn bilinear(v00: int, v10: int, v01: int, v11: int, ax: int, ay: int, dx: int, dy: int) -> int {
    let num = v00 * (dx - ax) * (dy - ay) + v10 * ax * (dy - ay) + v01 * (dx - ax) * ay + v11 * ax
        * ay;
    let q = (2 * num + dx * dy) / (2 * (dx * dy));
    if q > 255 {
        255
    } else {
        q
    }
}

/// CLAHE of a `w` by `h` grey image: empty for an empty image; the input
/// itself when the image is too small for 4x4 tiles.
pub open spec fn spec_clahe(g: Seq<u8>, w: int, h: int) -> Seq<u8> {
    if w == 0 || h == 0 {
        Seq::empty()
    } else if w / 4 == 0 || h / 4 == 0 {
        g
    } else {
        Seq::new((w * h) as nat, |i: int| clahe_px(g, w, h, i) as u8)
    }
}

/// Floor division and remainder of `a` by `d`, for `-d < a`.
fn floor_div_mod(a: i64, d: i64) -> (r: (i64, i64))
    requires
        0 < d,
        -d < a,
    ensures
        r.0 == a as int / d as int,
        r.1 == a as int % d as int,
{
    if a < 0 {
        proof {
            vstd::arithmetic::div_mod::lemma_fundamental_div_mod_converse(a as int, d as int, -1, a + d);
        }
        (-1, a + d)
    } else {
        (a / d, a % d)
    }
}

/// Rectangle of tile `(tx, ty)`.
fn tile_rect_exec(w: u32, h: u32, tx: usize, ty: usize) -> (r: (usize, usize, usize, usize))
    requires
        tx < 4,
        ty < 4,
    ensures
        r.0 as int == tile_rect(w as int, h as int, tx as int, ty as int).0,
        r.1 as int == tile_rect(w as int, h as int, tx as int, ty as int).1,
        r.2 as int == tile_rect(w as int, h as int, tx as int, ty as int).2,
        r.3 as int == tile_rect(w as int, h as int, tx as int, ty as int).3,
        r.0 <= r.1 <= w,
        r.2 <= r.3 <= h,
{
    let tw = (w / 4) as usize;
    let th = (h / 4) as usize;
    proof {
        assert(tx * tw + tw <= w) by (nonlinear_arith)
            requires
                tx < 4,
                tw == w / 4,
        ;
        assert(ty * th + th <= h) by (nonlinear_arith)
            requires
                ty < 4,
                th == h / 4,
        ;
        assert(tx * tw <= w && ty * th <= h) by (nonlinear_arith)
            requires
                tx < 4,
                tw == w / 4,
                ty < 4,
                th == h / 4,
        ;
    }
    let x0 = tx * tw;
    let y0 = ty * th;
    let x1 = if tx == 3 { w as usize } else { x0 + tw };
    let y1 = if ty == 3 { h as usize } else { y0 + th };
    (x0, x1, y0, y1)
}

/// The lookup tables of the 16 tiles, tile `t = 4 * ty + tx` at `256 * t`.
pub open spec fn luts_ok(luts: Seq<u8>, g: Seq<u8>, w: int, h: int) -> bool {
    &&& luts.len() == 16 * 256
    &&& forall|t: int, v: int|
        0 <= t < 16 && 0 <= v < 256 ==> #[trigger] luts[t * 256 + v] as int == lut_value(
            g,
            w,
            tile_rect(w, h, t % 4, t / 4),
            v,
        )
}

fn all_tile_luts(gray: &[u8], w: u32, h: u32) -> (luts: Vec<u8>)
    requires
        (w as int) * (h as int) <= u32::MAX,
        gray@.len() >= (w as int) * (h as int),
    ensures
        luts_ok(luts@, gray@, w as int, h as int),
{
    let mut luts: Vec<u8> = Vec::new();
    let mut t: usize = 0;
    while t < 16
        invariant
            (w as int) * (h as int) <= u32::MAX,
            gray@.len() >= (w as int) * (h as int),
            0 <= t <= 16,
            luts@.len() == t * 256,
            forall|t2: int, v: int|
                0 <= t2 < t && 0 <= v < 256 ==> #[trigger] luts@[t2 * 256 + v] as int == lut_value(
                    gray@,
                    w as int,
                    tile_rect(w as int, h as int, t2 % 4, t2 / 4),
                    v,
                ),
        decreases 16 - t,
    {
        let (x0, x1, y0, y1) = tile_rect_exec(w, h, t % 4, t / 4);
        let lut = tile_lut(gray, w, h, x0, x1, y0, y1);
        let ghost before = luts@;
        let mut v: usize = 0;
        while v < 256
            invariant
                0 <= v <= 256,
                0 <= t < 16,
                lut@.len() == 256,
                luts@.len() == t * 256 + v,
                forall|k: int| 0 <= k < t * 256 ==> #[trigger] luts@[k] == before[k],
                forall|u: int| 0 <= u < v ==> #[trigger] luts@[t * 256 + u] == lut@[u],
            decreases 256 - v,
        {
            luts.push(lut[v]);
            v += 1;
        }
        proof {
            assert forall|t2: int, u: int|
                0 <= t2 < t + 1 && 0 <= u < 256 implies #[trigger] luts@[t2 * 256 + u] as int
                == lut_value(gray@, w as int, tile_rect(w as int, h as int, t2 % 4, t2 / 4), u) by {
                if t2 < t {
                    assert(t2 * 256 + u < t * 256) by (nonlinear_arith)
                        requires
                            t2 < t,
                            u < 256,
                    ;
                    assert(luts@[t2 * 256 + u] == before[t2 * 256 + u]);
                } else {
                    assert(t2 == t);
                    assert(luts@[t * 256 + u] == lut@[u]);
                }
            }
        }
        t += 1;
    }
    luts
}

/// CLAHE output at pixel `i`.
#[verifier::rlimit(40)]
#[verifier::spinoff_prover]
fn clahe_pixel(gray: &[u8], luts: &Vec<u8>, w: u32, h: u32, i: usize) -> (r: u8)
    requires
        (w as int) * (h as int) <= u32::MAX,
        gray@.len() >= (w as int) * (h as int),
        w / 4 > 0,
        h / 4 > 0,
        i < (w as int) * (h as int),
        luts_ok(luts@, gray@, w as int, h as int),
    ensures
        r as int == clahe_px(gray@, w as int, h as int, i as int),
{
    let ghost wi = w as int;
    let ghost hi = h as int;
    proof {
        lemma_coords(wi, hi, i as int);
    }
    let wu = w as usize;
    let x = (i % wu) as i64;
    let y = (i / wu) as i64;
    let tw = (w / 4) as i64;
    let th = (h / 4) as i64;
    let dx = 2 * tw;
    let dy = 2 * th;
    let (qx, ax) = floor_div_mod(2 * x - tw, dx);
    let (qy, ay) = floor_div_mod(2 * y - th, dy);
    let tx0: i64 = if qx < 0 { 0 } else if qx > 3 { 3 } else { qx };
    let ty0: i64 = if qy < 0 { 0 } else if qy > 3 { 3 } else { qy };
    let tx1: i64 = if tx0 + 1 < 3 { tx0 + 1 } else { 3 };
    let ty1: i64 = if ty0 + 1 < 3 { ty0 + 1 } else { 3 };
    let val = gray[i] as usize;
    proof {
        assert(((ty0 * 4 + tx0) as int) % 4 == tx0 && ((ty0 * 4 + tx0) as int) / 4 == ty0);
        assert(((ty0 * 4 + tx1) as int) % 4 == tx1 && ((ty0 * 4 + tx1) as int) / 4 == ty0);
        assert(((ty1 * 4 + tx0) as int) % 4 == tx0 && ((ty1 * 4 + tx0) as int) / 4 == ty1);
        assert(((ty1 * 4 + tx1) as int) % 4 == tx1 && ((ty1 * 4 + tx1) as int) / 4 == ty1);
    }
    let v00 = luts[((ty0 * 4 + tx0) as usize) * 256 + val] as u64;
    let v10 = luts[((ty0 * 4 + tx1) as usize) * 256 + val] as u64;
    let v01 = luts[((ty1 * 4 + tx0) as usize) * 256 + val] as u64;
    let v11 = luts[((ty1 * 4 + tx1) as usize) * 256 + val] as u64;
    proof {
        assert(dx as int * dy as int <= 4_294_967_295) by (nonlinear_arith)
            requires
                dx == 2 * (wi / 4),
                dy == 2 * (hi / 4),
                wi * hi <= 4_294_967_295,
                0 <= wi,
                0 <= hi,
        ;
    }
    interpolate(v00, v10, v01, v11, ax as u64, ay as u64, dx as u64, dy as u64)
}

/// `bilinear` in machine arithmetic.
fn interpolate(v00: u64, v10: u64, v01: u64, v11: u64, ax: u64, ay: u64, dxu: u64, dyu: u64) -> (r: u8)
    requires
        v00 <= 255,
        v10 <= 255,
        v01 <= 255,
        v11 <= 255,
        ax < dxu,
        ay < dyu,
        dxu * dyu <= 4_294_967_295,
    ensures
        r as int == bilinear(v00 as int, v10 as int, v01 as int, v11 as int, ax as int, ay as int, dxu as int, dyu as int),
{
    proof {
        assert(v00 * (dxu - ax) * (dyu - ay) <= 255 * (dxu * dyu)) by (nonlinear_arith)
            requires
                v00 <= 255,
                ax < dxu,
                ay < dyu,
        ;
        assert(v10 * ax * (dyu - ay) <= 255 * (dxu * dyu)) by (nonlinear_arith)
            requires
                v10 <= 255,
                ax < dxu,
                ay < dyu,
        ;
        assert(v01 * (dxu - ax) * ay <= 255 * (dxu * dyu)) by (nonlinear_arith)
            requires
                v01 <= 255,
                ax < dxu,
                ay < dyu,
        ;
        assert(v11 * ax * ay <= 255 * (dxu * dyu)) by (nonlinear_arith)
            requires
                v11 <= 255,
                ax < dxu,
                ay < dyu,
        ;
        assert(0 < dxu * dyu) by (nonlinear_arith)
            requires
                0 < dxu,
                0 < dyu,
        ;
    }
    let area = dxu * dyu;
    proof {
        assert(v00 * (dxu - ax) <= 255 * dxu && v10 * ax <= 255 * dxu && v01 * (dxu - ax) <= 255 * dxu
            && v11 * ax <= 255 * dxu) by (nonlinear_arith)
            requires
                v00 <= 255,
                v10 <= 255,
                v01 <= 255,
                v11 <= 255,
                ax < dxu,
        ;
        assert(dxu <= 4_294_967_295) by (nonlinear_arith)
            requires
                dxu * dyu <= 4_294_967_295,
                0 < dyu,
        ;
    }
    let p00 = v00 * (dxu - ax);
    let p10 = v10 * ax;
    let p01 = v01 * (dxu - ax);
    let p11 = v11 * ax;
    let t00 = p00 * (dyu - ay);
    let t10 = p10 * (dyu - ay);
    let t01 = p01 * ay;
    let t11 = p11 * ay;
    let num = t00 + t10 + t01 + t11;
    let q = (2 * num + area) / (2 * area);
    if q > 255 {
        255
    } else {
        q as u8
    }
}


/// CLAHE (contrast-limited adaptive histogram equalization) on a 4x4 grid of
/// tiles: each tile's histogram is clipped at 3 times its average bin, the
/// excess spread evenly, and the cumulative histogram turned into a lookup
/// table; each pixel interpolates bilinearly between the tables of the tiles
/// around it. An empty image gives an empty result; an image less than 4
/// pixels wide or high is returned as it is.
pub fn apply_clahe(gray: &[u8], w: u32, h: u32) -> (out: Vec<u8>)
    requires
        (w as int) * (h as int) <= u32::MAX,
        (w / 4 > 0 && h / 4 > 0) ==> gray@.len() >= (w as int) * (h as int),
    ensures
        out@ == spec_clahe(gray@, w as int, h as int),
{
    if w == 0 || h == 0 {
        return Vec::new();
    }
    if w / 4 == 0 || h / 4 == 0 {
        return vstd::slice::slice_to_vec(gray);
    }
    let luts = all_tile_luts(gray, w, h);
    let n = (w as usize) * (h as usize);
    let mut out: Vec<u8> = Vec::new();
    let mut i: usize = 0;
    while i < n
        invariant
            n == (w as int) * (h as int),
            n <= u32::MAX,
            w / 4 > 0,
            h / 4 > 0,
            gray@.len() >= n,
            luts_ok(luts@, gray@, w as int, h as int),
            0 <= i <= n,
            out@.len() == i,
            forall|j: int| 0 <= j < i ==> #[trigger] out@[j] == clahe_px(gray@, w as int, h as int, j) as u8,
        decreases n - i,
    {
        let v = clahe_pixel(gray, &luts, w, h, i);
        out.push(v);
        i += 1;
    }
    assert(out@ =~= spec_clahe(gray@, w as int, h as int));
    out
}

} // verus!
