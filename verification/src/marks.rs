//! Hand-drawn-looking marks for the check column of a filled-in test page:
//! a tick made of two thick strokes and a cross made of two diagonals.
//! The tick is laid out in `i32` and each coordinate reaches the image as
//! `v as u32`, so a negative one wraps round and lands outside any image of
//! ordinary size.
use vstd::prelude::*;
use crate::raster::{lemma_pixel_index, lemma_pixel_of};

verus! {

/// The `u32` that `v as u32` gives for an `i32` value `v`.
pub open spec fn wrap32(v: int) -> int {
    if v < 0 {
        v + 0x1_0000_0000
    } else {
        v
    }
}

/// The `i32` that `x as i32` gives for a `u32` value `x`.
pub open spec fn signed32(x: int) -> int {
    if x < 0x8000_0000 {
        x
    } else {
        x - 0x1_0000_0000
    }
}

/// Row offset of column `i` of a stroke that moves one row every `q`
/// columns, downwards or (`rising`) upwards.
pub open spec fn stroke_offset(i: int, q: int, rising: bool) -> int {
    if rising {
        -(i / q)
    } else {
        i / q
    }
}

/// Pixel `(x, y)` lies on the five-pixel-thick stroke whose column `i`
/// (`0 <= i < len`) stands at `x0 + i` and is centred on row
/// `y0 + stroke_offset(i)`, each coordinate cast from `i32` to `u32`; with
/// `skip_top` the stroke leaves row 0 alone.
pub open spec fn on_stroke(
    x: int,
    y: int,
    x0: int,
    y0: int,
    len: int,
    q: int,
    rising: bool,
    skip_top: bool,
) -> bool {
    let i = signed32(x) - x0;
    let t = signed32(y) - y0 - stroke_offset(i, q, rising);
    0 <= i < len && -2 <= t <= 2 && (!skip_top || y > 0)
}

/// Every row a stroke's columns reach, two rows either side of the centre
/// included, is an `i32` value.
pub open spec fn stroke_rows_fit(y0: int, len: int, q: int, rising: bool) -> bool {
    len <= 0 || if rising {
        y0 + 2 <= i32::MAX && i32::MIN <= y0 - (len - 1) / q - 2
    } else {
        i32::MIN <= y0 - 2 && y0 + (len - 1) / q + 2 <= i32::MAX
    }
}

/// `v as u32` for an `i32` value held in an `i64`.
fn wrap_to_u32(v: i64) -> (r: u32)
    requires
        i32::MIN <= v <= i32::MAX,
    ensures
        r == wrap32(v as int),
{
    if v < 0 {
        (v + 0x1_0000_0000) as u32
    } else {
        v as u32
    }
}

/// Sets pixel `(x, y)` of a `w` by `h` RGBA image to `color`.
fn put_pixel(rgba: &mut [u8], w: u32, h: u32, x: u32, y: u32, color: [u8; 4])
    requires
        old(rgba)@.len() == 4 * (w as int) * (h as int),
        x < w,
        y < h,
    ensures
        final(rgba)@.len() == old(rgba)@.len(),
        forall|j: int|
            0 <= j < old(rgba)@.len() ==> #[trigger] final(rgba)@[j] == if j / 4 == (y as int) * (w as int)
                + (x as int) {
                color@[j % 4]
            } else {
                old(rgba)@[j]
            },
{
    let n = rgba.len();
    proof {
        lemma_pixel_index(w as int, h as int, x as int, y as int);
        assert(n == 4 * (w as int) * (h as int));
    }
    let base = 4 * ((y as usize) * (w as usize) + (x as usize));
    rgba[base] = color[0];
    rgba[base + 1] = color[1];
    rgba[base + 2] = color[2];
    rgba[base + 3] = color[3];
}

/// `on_stroke` restricted to the columns before `ci`, and to the rows before
/// `ct` of column `ci`: what a stroke painted column by column, row by row,
/// has painted so far.
spec fn stroke_upto(
    x: int,
    y: int,
    x0: int,
    y0: int,
    len: int,
    q: int,
    rising: bool,
    skip_top: bool,
    ci: int,
    ct: int,
) -> bool {
    let i = signed32(x) - x0;
    let t = signed32(y) - y0 - stroke_offset(i, q, rising);
    on_stroke(x, y, x0, y0, len, q, rising, skip_top) && (i < ci || (i == ci && t < ct))
}

/// Paints `color` over every pixel of the `w` by `h` image that lies on the
/// stroke `on_stroke(.., x0, y0, len, q, rising, skip_top)`; every other byte
/// is kept.
fn paint_stroke(
    rgba: &mut [u8],
    w: u32,
    h: u32,
    x0: i64,
    y0: i64,
    len: u64,
    q: u64,
    rising: bool,
    skip_top: bool,
    color: [u8; 4],
)
    requires
        old(rgba)@.len() == 4 * (w as int) * (h as int),
        0 < q,
        i32::MIN <= x0,
        x0 + len <= i32::MAX + 1,
        stroke_rows_fit(y0 as int, len as int, q as int, rising),
    ensures
        final(rgba)@.len() == old(rgba)@.len(),
        forall|j: int|
            0 <= j < old(rgba)@.len() ==> #[trigger] final(rgba)@[j] == if on_stroke(
                (j / 4) % (w as int),
                (j / 4) / (w as int),
                x0 as int,
                y0 as int,
                len as int,
                q as int,
                rising,
                skip_top,
            ) {
                color@[j % 4]
            } else {
                old(rgba)@[j]
            },
{
    let ghost s0 = rgba@;
    let ghost wi = w as int;
    let ghost hi = h as int;
    let mut i: u64 = 0;
    while i < len
        invariant
            0 <= i <= len,
            rgba@.len() == s0.len(),
            s0.len() == 4 * wi * hi,
            wi == w as int,
            hi == h as int,
            0 < q,
            i32::MIN <= x0,
            x0 + len <= i32::MAX + 1,
            stroke_rows_fit(y0 as int, len as int, q as int, rising),
            forall|j: int|
                0 <= j < s0.len() ==> #[trigger] rgba@[j] == if stroke_upto(
                    (j / 4) % wi,
                    (j / 4) / wi,
                    x0 as int,
                    y0 as int,
                    len as int,
                    q as int,
                    rising,
                    skip_top,
                    i as int,
                    -2,
                ) {
                    color@[j % 4]
                } else {
                    s0[j]
                },
        decreases len - i,
    {
        let step = i / q;
        proof {
            vstd::arithmetic::div_mod::lemma_div_is_ordered(i as int, (len - 1) as int, q as int);
            vstd::arithmetic::div_mod::lemma_div_pos_is_pos(i as int, q as int);
        }
        let off: i64 = if rising {
            -(step as i64)
        } else {
            step as i64
        };
        assert(off == stroke_offset(i as int, q as int, rising));
        let vx: i64 = x0 + i as i64;
        let px = wrap_to_u32(vx);
        let mut t: i64 = -2;
        while t <= 2
            invariant
                -2 <= t <= 3,
                0 <= i < len,
                rgba@.len() == s0.len(),
                s0.len() == 4 * wi * hi,
                wi == w as int,
                hi == h as int,
                vx == x0 + i,
                px == wrap32(vx as int),
                i32::MIN <= vx <= i32::MAX,
                off == stroke_offset(i as int, q as int, rising),
                i32::MIN <= y0 + off - 2,
                y0 + off + 2 <= i32::MAX,
                forall|j: int|
                    0 <= j < s0.len() ==> #[trigger] rgba@[j] == if stroke_upto(
                        (j / 4) % wi,
                        (j / 4) / wi,
                        x0 as int,
                        y0 as int,
                        len as int,
                        q as int,
                        rising,
                        skip_top,
                        i as int,
                        t as int,
                    ) {
                        color@[j % 4]
                    } else {
                        s0[j]
                    },
            decreases 3 - t,
        {
            let vy: i64 = y0 + off + t;
            let py = wrap_to_u32(vy);
            let ghost before = rgba@;
            let paint = px < w && py < h && (!skip_top || py > 0);
            if paint {
                put_pixel(rgba, w, h, px, py, color);
            }
            proof {
                assert forall|j: int| 0 <= j < s0.len() implies #[trigger] rgba@[j] == if stroke_upto(
                    (j / 4) % wi,
                    (j / 4) / wi,
                    x0 as int,
                    y0 as int,
                    len as int,
                    q as int,
                    rising,
                    skip_top,
                    i as int,
                    t + 1,
                ) {
                    color@[j % 4]
                } else {
                    s0[j]
                } by {
                    lemma_pixel_of(wi, hi, j);
                    let x = (j / 4) % wi;
                    let y = (j / 4) / wi;
                    let hit = signed32(x) == vx && signed32(y) == vy;
                    assert(hit <== (x == px && y == py));
                    assert(hit ==> (x == px && y == py));
                    if paint {
                        lemma_pixel_index(wi, hi, px as int, py as int);
                        assert((j / 4 == (py as int) * wi + (px as int)) == (x == px && y == py));
                    }
                }
            }
            t += 1;
        }
        i += 1;
    }
}

/// Arm length of the tick drawn into a check column `check_h` pixels high:
/// the height read as an `i32`, but at least 8.
pub open spec fn tick_arm(check_h: u32) -> int {
    if 8 < check_h < 0x8000_0000 {
        check_h as int
    } else {
        8
    }
}

/// Every `i32` that the tick's arithmetic passes through, for a tick centred
/// on `(mx, my)` with arm `arm`, is in range.
pub open spec fn tick_fits(mx: int, my: int, arm: int) -> bool {
    &&& i32::MIN <= mx - arm / 2
    &&& mx - arm / 2 + 3 * arm - 1 <= i32::MAX
    &&& 2 * arm <= i32::MAX
    &&& i32::MIN <= my - arm / 4 - 2
    &&& my - arm / 4 + (arm - 1) / 2 + 2 <= i32::MAX
    &&& my + arm / 4 + 2 <= i32::MAX
    &&& i32::MIN <= my + arm / 4 - (2 * arm - 1) / 3 - 2
}

/// Pixel `(x, y)` lies on the tick centred on `(mx, my)` with arm `arm`: a
/// short stroke of `arm` columns falling one row every two columns, from
/// `arm / 2` left of the centre and `arm / 4` above it, then a long stroke of
/// `2 arm` columns rising one row every three columns, from `arm / 2` right
/// of the centre and `arm / 4` below it, which spares row 0.
pub open spec fn on_tick(x: int, y: int, mx: int, my: int, arm: int) -> bool {
    ||| on_stroke(x, y, mx - arm / 2, my - arm / 4, arm, 2, false, false)
    ||| on_stroke(x, y, mx - arm / 2 + arm, my + arm / 4, 2 * arm, 3, true, true)
}

/// Draws a tick in `color` into the `w` by `h` image, centred on
/// `(mid_x, mid_y)` with the arm of a check column `check_h` pixels high
/// (see `on_tick`; the coordinates are read as `i32` values); every pixel
/// off the tick is kept.
pub fn draw_check_tick(rgba: &mut [u8], w: u32, h: u32, mid_x: u32, mid_y: u32, check_h: u32, color: [u8; 4])
    requires
        old(rgba)@.len() == 4 * (w as int) * (h as int),
        tick_fits(signed32(mid_x as int), signed32(mid_y as int), tick_arm(check_h)),
    ensures
        final(rgba)@.len() == old(rgba)@.len(),
        forall|j: int|
            0 <= j < old(rgba)@.len() ==> #[trigger] final(rgba)@[j] == if on_tick(
                (j / 4) % (w as int),
                (j / 4) / (w as int),
                signed32(mid_x as int),
                signed32(mid_y as int),
                tick_arm(check_h),
            ) {
                color@[j % 4]
            } else {
                old(rgba)@[j]
            },
{
    let ghost s0 = rgba@;
    let mx: i64 = if mid_x < 0x8000_0000 {
        mid_x as i64
    } else {
        mid_x as i64 - 0x1_0000_0000
    };
    let my: i64 = if mid_y < 0x8000_0000 {
        mid_y as i64
    } else {
        mid_y as i64 - 0x1_0000_0000
    };
    let arm: u64 = if check_h > 8 && check_h < 0x8000_0000 {
        check_h as u64
    } else {
        8
    };
    let half = (arm / 2) as i64;
    let quarter = (arm / 4) as i64;
    paint_stroke(rgba, w, h, mx - half, my - quarter, arm, 2, false, false, color);
    let ghost s1 = rgba@;
    paint_stroke(rgba, w, h, mx - half + arm as i64, my + quarter, 2 * arm, 3, true, true, color);
    proof {
        assert forall|j: int| 0 <= j < s0.len() implies #[trigger] rgba@[j] == if on_tick(
            (j / 4) % (w as int),
            (j / 4) / (w as int),
            mx as int,
            my as int,
            arm as int,
        ) {
            color@[j % 4]
        } else {
            s0[j]
        } by {
            assert(s1[j] == if on_stroke(
                (j / 4) % (w as int),
                (j / 4) / (w as int),
                mx - half,
                my - quarter,
                arm as int,
                2,
                false,
                false,
            ) {
                color@[j % 4]
            } else {
                s0[j]
            });
        }
    }
}

/// Pixel `(x, y)` lies on the cross drawn into a check column whose cell is
/// `cell_px` wide and `check_h` high, with its top-left corner at
/// `(check_x, check_y)`: for each of the `cell_px - 8` columns `i` from 4 in
/// from the left, with `k = i (check_h - 4) / (cell_px - 8)`, three pixels
/// down from `check_y + 2 + k` and three down from `check_y + check_h - 2 - k`.
pub open spec fn on_x_mark(x: int, y: int, check_x: int, check_y: int, cell_px: int, check_h: int) -> bool {
    let i = x - check_x - 4;
    let k = i * (check_h - 4) / (cell_px - 8);
    &&& 0 <= i < cell_px - 8
    &&& {
        ||| check_y + 2 + k <= y < check_y + 5 + k
        ||| check_y + check_h - 2 - k <= y < check_y + check_h + 1 - k
    }
}

/// The cross's `u32` arithmetic neither underflows nor overflows.
pub open spec fn x_mark_fits(check_x: int, check_y: int, cell_px: int, check_h: int) -> bool {
    &&& 8 <= cell_px
    &&& 4 <= check_h
    &&& cell_px > 8 ==> {
        &&& check_x + cell_px - 5 <= u32::MAX
        &&& (cell_px - 9) * (check_h - 4) <= u32::MAX
        &&& check_y + check_h <= u32::MAX
    }
}

/// What `draw_x_mark` has painted before row `cdy` of the bands of column
/// `ci`.
spec fn x_mark_upto(
    x: int,
    y: int,
    check_x: int,
    check_y: int,
    cell_px: int,
    check_h: int,
    ci: int,
    cdy: int,
) -> bool {
    let i = x - check_x - 4;
    let k = i * (check_h - 4) / (cell_px - 8);
    &&& on_x_mark(x, y, check_x, check_y, cell_px, check_h)
    &&& (i < ci || (i == ci && (check_y + 2 + k <= y < check_y + 2 + k + cdy || check_y + check_h - 2 - k
        <= y < check_y + check_h - 2 - k + cdy)))
}

/// Draws the cross of `on_x_mark` in `color` into the `w` by `h` image; every
/// pixel off the cross is kept.
pub fn draw_x_mark(
    rgba: &mut [u8],
    w: u32,
    h: u32,
    check_x: u32,
    check_y: u32,
    cell_px: u32,
    check_h: u32,
    color: [u8; 4],
)
    requires
        old(rgba)@.len() == 4 * (w as int) * (h as int),
        x_mark_fits(check_x as int, check_y as int, cell_px as int, check_h as int),
    ensures
        final(rgba)@.len() == old(rgba)@.len(),
        forall|j: int|
            0 <= j < old(rgba)@.len() ==> #[trigger] final(rgba)@[j] == if on_x_mark(
                (j / 4) % (w as int),
                (j / 4) / (w as int),
                check_x as int,
                check_y as int,
                cell_px as int,
                check_h as int,
            ) {
                color@[j % 4]
            } else {
                old(rgba)@[j]
            },
{
    let ghost s0 = rgba@;
    let ghost wi = w as int;
    let ghost hi = h as int;
    let ghost cx = check_x as int;
    let ghost cy = check_y as int;
    let ghost cp = cell_px as int;
    let ghost ch = check_h as int;
    let span = cell_px - 8;
    let rise = check_h - 4;
    let mut i: u32 = 0;
    while i < span
        invariant
            0 <= i <= span,
            span == cell_px - 8,
            rise == check_h - 4,
            x_mark_fits(cx, cy, cp, ch),
            cx == check_x as int,
            cy == check_y as int,
            cp == cell_px as int,
            ch == check_h as int,
            rgba@.len() == s0.len(),
            s0.len() == 4 * wi * hi,
            wi == w as int,
            hi == h as int,
            forall|j: int|
                0 <= j < s0.len() ==> #[trigger] rgba@[j] == if x_mark_upto((j / 4) % wi, (j / 4) / wi, cx, cy, cp, ch, i as int, 0) {
                    color@[j % 4]
                } else {
                    s0[j]
                },
        decreases span - i,
    {
        proof {
            vstd::arithmetic::mul::lemma_mul_inequality(i as int, (span - 1) as int, rise as int);
            vstd::arithmetic::mul::lemma_mul_inequality(i as int, span as int, rise as int);
            vstd::arithmetic::mul::lemma_mul_nonnegative(i as int, rise as int);
            vstd::arithmetic::mul::lemma_mul_is_commutative(span as int, rise as int);
            vstd::arithmetic::div_mod::lemma_div_is_ordered((i * rise) as int, (span * rise) as int, span as int);
            vstd::arithmetic::div_mod::lemma_div_multiples_vanish(rise as int, span as int);
            vstd::arithmetic::div_mod::lemma_div_pos_is_pos((i * rise) as int, span as int);
        }
        let k = i * rise / span;
        assert(k <= rise);
        let x1 = check_x + 4 + i;
        let y1 = check_y + 2 + k;
        let y2 = check_y + check_h - 2 - k;
        let mut dy: u32 = 0;
        while dy < 3
            invariant
                0 <= dy <= 3,
                i < span,
                span == cell_px - 8,
                rise == check_h - 4,
                k == (i as int) * (rise as int) / (span as int),
                k <= rise,
                x1 == cx + 4 + i,
                y1 == cy + 2 + k,
                y2 == cy + ch - 2 - k,
                x_mark_fits(cx, cy, cp, ch),
                cx == check_x as int,
                cy == check_y as int,
                cp == cell_px as int,
                ch == check_h as int,
                rgba@.len() == s0.len(),
                s0.len() == 4 * wi * hi,
                wi == w as int,
                hi == h as int,
                forall|j: int|
                    0 <= j < s0.len() ==> #[trigger] rgba@[j] == if x_mark_upto(
                        (j / 4) % wi,
                        (j / 4) / wi,
                        cx,
                        cy,
                        cp,
                        ch,
                        i as int,
                        dy as int,
                    ) {
                        color@[j % 4]
                    } else {
                        s0[j]
                    },
            decreases 3 - dy,
        {
            let ghost before = rgba@;
            let p1 = x1 < w && y1 + dy < h;
            if p1 {
                put_pixel(rgba, w, h, x1, y1 + dy, color);
            }
            let ghost mid = rgba@;
            let p2 = x1 < w && y2 + dy < h;
            if p2 {
                put_pixel(rgba, w, h, x1, y2 + dy, color);
            }
            proof {
                assert forall|j: int| 0 <= j < s0.len() implies #[trigger] rgba@[j] == if x_mark_upto(
                    (j / 4) % wi,
                    (j / 4) / wi,
                    cx,
                    cy,
                    cp,
                    ch,
                    i as int,
                    dy + 1,
                ) {
                    color@[j % 4]
                } else {
                    s0[j]
                } by {
                    lemma_pixel_of(wi, hi, j);
                    let x = (j / 4) % wi;
                    let y = (j / 4) / wi;
                    if p1 {
                        lemma_pixel_index(wi, hi, x1 as int, (y1 + dy) as int);
                        assert((j / 4 == ((y1 + dy) as int) * wi + (x1 as int)) == (x == x1 && y == y1 + dy));
                    }
                    if p2 {
                        lemma_pixel_index(wi, hi, x1 as int, (y2 + dy) as int);
                        assert((j / 4 == ((y2 + dy) as int) * wi + (x1 as int)) == (x == x1 && y == y2 + dy));
                    }
                    assert(mid[j] == if p1 && x == x1 && y == y1 + dy {
                        color@[j % 4]
                    } else {
                        before[j]
                    });
                }
            }
            dy += 1;
        }
        i += 1;
    }
}

} // verus!
