//! Painting into RGBA images (four bytes per pixel, row-major): rectangles,
//! discs and rings, the shapes a template page is drawn with.
use vstd::prelude::*;
use crate::pagefix::{is_overpaintable, is_overpaintable_spec};

verus! {

/// Byte `i` of a `w`-wide RGBA image belongs to a pixel of `[x_lo, x_hi) x
/// [y_lo, y_hi)`.
pub open spec fn in_rect(w: int, i: int, x_lo: int, x_hi: int, y_lo: int, y_hi: int) -> bool {
    let p = i / 4;
    x_lo <= p % w < x_hi && y_lo <= p / w < y_hi
}

/// Which pixels of a rectangle a painting takes.
#[derive(Clone, Copy, Debug, PartialEq, Eq, Structural)]
pub enum Brush {
    /// Every pixel.
    Solid,
    /// Pixels light enough to paint over (see `is_overpaintable_spec`).
    Light,
    /// Pixels whose squared distance from `(cx, cy)` lies in `[r2_in, r2_out]`.
    Ring { cx: i32, cy: i32, r2_in: i64, r2_out: i64 },
}

/// Squared distance of pixel `p` of a `w`-wide image from `(cx, cy)`.
pub open spec fn dist2(w: int, p: int, cx: int, cy: int) -> int {
    (p % w - cx) * (p % w - cx) + (p / w - cy) * (p / w - cy)
}

/// Brush `br` takes pixel `p` of the `w`-wide image `s`.
pub open spec fn brush_takes(br: Brush, s: Seq<u8>, w: int, p: int) -> bool {
    match br {
        Brush::Solid => true,
        Brush::Light => is_overpaintable_spec(s[4 * p], s[4 * p + 1], s[4 * p + 2]),
        Brush::Ring { cx, cy, r2_in, r2_out } => r2_in <= dist2(w, p, cx as int, cy as int) <= r2_out,
    }
}

/// Whether the brush takes the pixel `(x, y)` whose colour is `(r, g, b)`.
fn brush_hits(br: Brush, x: u32, y: u32, r: u8, g: u8, b: u8) -> (t: bool)
    ensures
        t == match br {
            Brush::Solid => true,
            Brush::Light => is_overpaintable_spec(r, g, b),
            Brush::Ring { cx, cy, r2_in, r2_out } => r2_in <= (x - cx) * (x - cx) + (y - cy) * (y - cy)
                <= r2_out,
        },
{
    match br {
        Brush::Solid => true,
        Brush::Light => is_overpaintable(r, g, b),
        Brush::Ring { cx, cy, r2_in, r2_out } => {
            let dx = x as i128 - cx as i128;
            let dy = y as i128 - cy as i128;
            proof {
                assert(0 <= dx * dx <= 0x4_0000_0000_0000_0000 && 0 <= dy * dy <= 0x4_0000_0000_0000_0000)
                    by (nonlinear_arith)
                    requires
                        -0x2_0000_0000 <= dx <= 0x2_0000_0000,
                        -0x2_0000_0000 <= dy <= 0x2_0000_0000,
                ;
            }
            let d2 = dx * dx + dy * dy;
            r2_in as i128 <= d2 && d2 <= r2_out as i128
        },
    }
}

/// Paints `color` over the pixels of the rectangle `[x_lo, x_hi) x [y_lo,
/// y_hi)` (clipped to the `w` by `h` image) that the brush takes, judged on
/// the image as it was; every other byte is kept.
pub fn paint_rect_where(
    rgba: &mut [u8],
    w: u32,
    h: u32,
    x_lo: u32,
    x_hi: u32,
    y_lo: u32,
    y_hi: u32,
    br: Brush,
    color: [u8; 4],
)
    requires
        old(rgba)@.len() == 4 * (w as int) * (h as int),
    ensures
        final(rgba)@.len() == old(rgba)@.len(),
        forall|i: int|
            0 <= i < old(rgba)@.len() ==> #[trigger] final(rgba)@[i] == if in_rect(
                w as int,
                i,
                x_lo as int,
                x_hi as int,
                y_lo as int,
                y_hi as int,
            ) && brush_takes(br, old(rgba)@, w as int, i / 4) {
                color@[i % 4]
            } else {
                old(rgba)@[i]
            },
{
    let ghost s0 = rgba@;
    let ghost wi = w as int;
    let ghost hi = h as int;
    let len = rgba.len();
    let xe = if x_hi < w { x_hi } else { w };
    let ye = if y_hi < h { y_hi } else { h };
    let mut y = y_lo;
    while y < ye
        invariant
            rgba@.len() == s0.len(),
            s0.len() == 4 * wi * hi,
            len == s0.len(),
            wi == w as int,
            hi == h as int,
            xe <= w,
            ye <= h,
            xe == if x_hi < w { x_hi } else { w },
            ye == if y_hi < h { y_hi } else { h },
            y_lo <= y,
            y <= ye || y == y_lo,
            forall|i: int|
                0 <= i < s0.len() ==> #[trigger] rgba@[i] == if in_rect(wi, i, x_lo as int, x_hi as int, y_lo as int, y as int)
                    && brush_takes(br, s0, wi, i / 4) {
                    color@[i % 4]
                } else {
                    s0[i]
                },
        decreases ye - y,
    {
        let mut x = x_lo;
        while x < xe
            invariant
                rgba@.len() == s0.len(),
                s0.len() == 4 * wi * hi,
                len == s0.len(),
                wi == w as int,
                hi == h as int,
                xe <= w,
                y < ye,
                ye <= h,
                xe == if x_hi < w { x_hi } else { w },
                x_lo <= x,
                x <= xe || x == x_lo,
                forall|i: int|
                    0 <= i < s0.len() ==> #[trigger] rgba@[i] == if (in_rect(wi, i, x_lo as int, x_hi as int, y_lo as int, y as int)
                        || (i / 4 / wi == y && x_lo <= (i / 4) % wi < x)) && brush_takes(br, s0, wi, i / 4) {
                        color@[i % 4]
                    } else {
                        s0[i]
                    },
            decreases xe - x,
        {
            let ghost pi = (y as int) * wi + (x as int);
            proof {
                lemma_pixel_index(wi, hi, x as int, y as int);
            }
            let base = 4 * ((y as usize) * (w as usize) + (x as usize));
            let r = rgba[base];
            let g = rgba[base + 1];
            let b = rgba[base + 2];
            proof {
                assert(r == s0[base as int] && g == s0[base + 1] && b == s0[base + 2]) by {
                    assert(base as int / 4 == pi);
                }
                assert(brush_takes(br, s0, wi, pi) == match br {
                    Brush::Solid => true,
                    Brush::Light => is_overpaintable_spec(r, g, b),
                    Brush::Ring { cx, cy, r2_in, r2_out } => r2_in <= (x - cx) * (x - cx) + (y - cy) * (y - cy)
                        <= r2_out,
                });
            }
            let ghost old_s = rgba@;
            if brush_hits(br, x, y, r, g, b) {
                rgba[base] = color[0];
                rgba[base + 1] = color[1];
                rgba[base + 2] = color[2];
                rgba[base + 3] = color[3];
            }
            proof {
                assert forall|i: int| 0 <= i < s0.len() implies #[trigger] rgba@[i] == if (in_rect(wi, i, x_lo as int, x_hi as int, y_lo as int, y as int)
                    || (i / 4 / wi == y && x_lo <= (i / 4) % wi < x + 1)) && brush_takes(br, s0, wi, i / 4) {
                    color@[i % 4]
                } else {
                    s0[i]
                } by {
                    lemma_pixel_of(wi, hi, i);
                    if base <= i < base + 4 {
                        assert(i / 4 == pi);
                        assert(pi % wi == x && pi / wi == y);
                        assert(!in_rect(wi, i, x_lo as int, x_hi as int, y_lo as int, y as int));
                        assert(i % 4 == i - base);
                    } else {
                        assert(i / 4 != pi);
                        assert(rgba@[i] == old_s[i]);
                    }
                }
            }
            x += 1;
        }
        proof {
            assert forall|i: int| 0 <= i < s0.len() implies #[trigger] rgba@[i] == if in_rect(wi, i, x_lo as int, x_hi as int, y_lo as int, y + 1)
                && brush_takes(br, s0, wi, i / 4) {
                color@[i % 4]
            } else {
                s0[i]
            } by {
                lemma_pixel_of(wi, hi, i);
            }
        }
        y += 1;
    }
    proof {
        assert forall|i: int| 0 <= i < s0.len() implies #[trigger] rgba@[i] == if in_rect(wi, i, x_lo as int, x_hi as int, y_lo as int, y_hi as int)
            && brush_takes(br, s0, wi, i / 4) {
            color@[i % 4]
        } else {
            s0[i]
        } by {
            lemma_pixel_of(wi, hi, i);
        }
    }
}

/// Byte offsets of pixel `(x, y)` of a `w` by `h` RGBA image.
pub proof fn lemma_pixel_index(w: int, h: int, x: int, y: int)
    requires
        0 <= x < w,
        0 <= y < h,
    ensures
        0 <= y * w + x < w * h,
        4 * (y * w + x) + 3 < 4 * w * h,
        (y * w + x) % w == x,
        (y * w + x) / w == y,
        forall|k: int| 0 <= k < 4 ==> #[trigger] ((4 * (y * w + x) + k) / 4) == y * w + x,
{
    crate::grid::lemma_index_of(w, h, x, y);
    assert(4 * (y * w + x) + 3 < 4 * w * h) by (nonlinear_arith)
        requires
            0 <= y * w + x < w * h,
    ;
}

/// Column and row of the pixel that byte `i` belongs to.
pub proof fn lemma_pixel_of(w: int, h: int, i: int)
    requires
        0 <= w,
        0 <= h,
        0 <= i < 4 * w * h,
    ensures
        0 < w,
        0 <= (i / 4) % w < w,
        0 <= (i / 4) / w < h,
        0 <= 4 * (i / 4) && 4 * (i / 4) + 3 < 4 * w * h,
        i / 4 == ((i / 4) / w) * w + (i / 4) % w,
{
    assert(0 <= i / 4 < w * h && 0 < w) by (nonlinear_arith)
        requires
            0 <= i < 4 * w * h,
            0 <= w,
            0 <= h,
    ;
    assert(4 * (i / 4) + 3 < 4 * w * h) by (nonlinear_arith)
        requires
            0 <= i / 4 < w * h,
    ;
    crate::grid::lemma_coords(w, h, i / 4);
}

/// Fills the `w` by `h` rectangle at `(x, y)`, clipped to the `iw` by `ih`
/// image, with `color`.
pub fn fill_rect(rgba: &mut [u8], iw: u32, ih: u32, x: u32, y: u32, w: u32, h: u32, color: [u8; 4])
    requires
        old(rgba)@.len() == 4 * (iw as int) * (ih as int),
        w > 0 && h > 0 ==> x + w <= u32::MAX + 1 && y + h <= u32::MAX + 1,
    ensures
        final(rgba)@.len() == old(rgba)@.len(),
        forall|i: int|
            0 <= i < old(rgba)@.len() ==> #[trigger] final(rgba)@[i] == if in_rect(
                iw as int,
                i,
                x as int,
                x + w,
                y as int,
                y + h,
            ) {
                color@[i % 4]
            } else {
                old(rgba)@[i]
            },
{
    let ghost s0 = rgba@;
    let x_hi: u32 = if (x as u64) + (w as u64) < (iw as u64) { x + w } else { iw };
    let y_hi: u32 = if (y as u64) + (h as u64) < (ih as u64) { y + h } else { ih };
    paint_rect_where(rgba, iw, ih, x, x_hi, y, y_hi, Brush::Solid, color);
    proof {
        assert forall|i: int| 0 <= i < s0.len() implies #[trigger] rgba@[i] == if in_rect(
            iw as int,
            i,
            x as int,
            x + w,
            y as int,
            y + h,
        ) {
            color@[i % 4]
        } else {
            s0[i]
        } by {
            lemma_pixel_of(iw as int, ih as int, i);
        }
    }
}

/// Byte `i` of an `iw` by `ih` image belongs to the outline that
/// `draw_rect_outline` draws for the `w` by `h` rectangle at `(x, y)`: its
/// top and left edges where they fall inside the image, and its bottom and
/// right edges on the last row and column of the rectangle clipped to the
/// image.
pub open spec fn on_outline(iw: int, ih: int, i: int, x: int, y: int, w: int, h: int) -> bool {
    let mx = if x + w < iw { x + w } else { iw };
    let my = if y + h < ih { y + h } else { ih };
    ||| (y < ih && in_rect(iw, i, x, mx, y, y + 1))
    ||| (my > 0 && in_rect(iw, i, x, mx, my - 1, my))
    ||| (x < iw && in_rect(iw, i, x, x + 1, y, my))
    ||| (mx > 0 && in_rect(iw, i, mx - 1, mx, y, my))
}

/// Draws the one-pixel outline of the `w` by `h` rectangle at `(x, y)` (see
/// `on_outline`) in `color`.
pub fn draw_rect_outline(rgba: &mut [u8], iw: u32, ih: u32, x: u32, y: u32, w: u32, h: u32, color: [u8; 4])
    requires
        old(rgba)@.len() == 4 * (iw as int) * (ih as int),
        x + w <= u32::MAX,
        y + h <= u32::MAX,
    ensures
        final(rgba)@.len() == old(rgba)@.len(),
        forall|i: int|
            0 <= i < old(rgba)@.len() ==> #[trigger] final(rgba)@[i] == if on_outline(
                iw as int,
                ih as int,
                i,
                x as int,
                y as int,
                w as int,
                h as int,
            ) {
                color@[i % 4]
            } else {
                old(rgba)@[i]
            },
{
    let ghost s0 = rgba@;
    let ghost wi = iw as int;
    let ghost hi = ih as int;
    let mx = if x + w < iw { x + w } else { iw };
    let my = if y + h < ih { y + h } else { ih };
    let ghost a = y < ih;
    let ghost b = my > 0;
    let ghost c = x < iw;
    let ghost d = mx > 0;
    if y < ih {
        paint_rect_where(rgba, iw, ih, x, mx, y, y + 1, Brush::Solid, color);
    }
    let ghost s1 = rgba@;
    if my > 0 {
        paint_rect_where(rgba, iw, ih, x, mx, my - 1, my, Brush::Solid, color);
    }
    let ghost s2 = rgba@;
    if x < iw {
        paint_rect_where(rgba, iw, ih, x, x + 1, y, my, Brush::Solid, color);
    }
    let ghost s3 = rgba@;
    if mx > 0 {
        paint_rect_where(rgba, iw, ih, mx - 1, mx, y, my, Brush::Solid, color);
    }
    proof {
        assert forall|i: int| 0 <= i < s0.len() implies #[trigger] rgba@[i] == if on_outline(
            wi,
            hi,
            i,
            x as int,
            y as int,
            w as int,
            h as int,
        ) {
            color@[i % 4]
        } else {
            s0[i]
        } by {
            assert(s1[i] == if a && in_rect(wi, i, x as int, mx as int, y as int, y + 1) {
                color@[i % 4]
            } else {
                s0[i]
            });
            assert(s2[i] == if b && in_rect(wi, i, x as int, mx as int, my - 1, my as int) {
                color@[i % 4]
            } else {
                s1[i]
            });
            assert(s3[i] == if c && in_rect(wi, i, x as int, x + 1, y as int, my as int) {
                color@[i % 4]
            } else {
                s2[i]
            });
        }
    }
}

/// Paints `color` over the pixels of the image whose squared distance from
/// `(cx, cy)` lies in `[r2_in, r * r]`.
fn paint_ring(rgba: &mut [u8], iw: u32, ih: u32, cx: i32, cy: i32, r: i32, r2_in: i64, color: [u8; 4])
    requires
        old(rgba)@.len() == 4 * (iw as int) * (ih as int),
        0 <= r,
        0 <= r2_in,
    ensures
        final(rgba)@.len() == old(rgba)@.len(),
        forall|i: int|
            0 <= i < old(rgba)@.len() ==> #[trigger] final(rgba)@[i] == if r2_in <= dist2(
                iw as int,
                i / 4,
                cx as int,
                cy as int,
            ) <= r * r {
                color@[i % 4]
            } else {
                old(rgba)@[i]
            },
{
    let ghost s0 = rgba@;
    let ghost wi = iw as int;
    let ghost hi = ih as int;
    let xl: i64 = if (cx as i64) - (r as i64) > 0 { (cx as i64) - (r as i64) } else { 0 };
    let xh: i64 = if (cx as i64) + (r as i64) + 1 < (iw as i64) { (cx as i64) + (r as i64) + 1 } else { iw as i64 };
    let yl: i64 = if (cy as i64) - (r as i64) > 0 { (cy as i64) - (r as i64) } else { 0 };
    let yh: i64 = if (cy as i64) + (r as i64) + 1 < (ih as i64) { (cy as i64) + (r as i64) + 1 } else { ih as i64 };
    if xh <= xl || yh <= yl {
        proof {
            assert forall|i: int| 0 <= i < s0.len() implies !(r2_in <= #[trigger] dist2(wi, i / 4, cx as int, cy as int) <= r * r) by {
                lemma_pixel_of(wi, hi, i);
                lemma_disc_box(wi, i / 4, cx as int, cy as int, r as int);
            }
        }
        return;
    }
    proof {
        assert((r as int) * (r as int) <= 0x4000_0000_0000_0000) by (nonlinear_arith)
            requires
                0 <= r <= i32::MAX,
        ;
    }
    let r2 = (r as i64) * (r as i64);
    paint_rect_where(
        rgba,
        iw,
        ih,
        xl as u32,
        xh as u32,
        yl as u32,
        yh as u32,
        Brush::Ring { cx, cy, r2_in, r2_out: r2 },
        color,
    );
    proof {
        assert forall|i: int| 0 <= i < s0.len() implies #[trigger] rgba@[i] == if r2_in <= dist2(
            wi,
            i / 4,
            cx as int,
            cy as int,
        ) <= r * r {
            color@[i % 4]
        } else {
            s0[i]
        } by {
            lemma_pixel_of(wi, hi, i);
            lemma_disc_box(wi, i / 4, cx as int, cy as int, r as int);
        }
    }
}

/// A pixel within distance `r` of the centre lies within `r` columns and
/// rows of it.
proof fn lemma_disc_box(w: int, p: int, cx: int, cy: int, r: int)
    requires
        0 <= r,
    ensures
        dist2(w, p, cx, cy) <= r * r ==> cx - r <= p % w <= cx + r && cy - r <= p / w <= cy + r,
        dist2(w, p, cx, cy) >= 0,
{
    let dx = p % w - cx;
    let dy = p / w - cy;
    assert(dx * dx >= 0 && dy * dy >= 0) by (nonlinear_arith);
    if dist2(w, p, cx, cy) <= r * r {
        assert(-r <= dx <= r) by (nonlinear_arith)
            requires
                dx * dx <= r * r,
                0 <= r,
        ;
        assert(-r <= dy <= r) by (nonlinear_arith)
            requires
                dy * dy <= r * r,
                0 <= r,
        ;
    }
}

/// Draws the filled disc of radius `radius` about `(cx, cy)` in `color`: the
/// pixels at squared distance at most `radius * radius`. A negative radius
/// draws nothing.
pub fn draw_filled_circle(rgba: &mut [u8], iw: u32, ih: u32, cx: i32, cy: i32, radius: i32, color: [u8; 4])
    requires
        old(rgba)@.len() == 4 * (iw as int) * (ih as int),
        radius > i32::MIN,
        radius >= 0 ==> 2 * radius * radius <= i32::MAX,
        radius >= 0 ==> i32::MIN <= cx - radius && cx + radius <= i32::MAX,
        radius >= 0 ==> i32::MIN <= cy - radius && cy + radius <= i32::MAX,
    ensures
        final(rgba)@.len() == old(rgba)@.len(),
        forall|i: int|
            0 <= i < old(rgba)@.len() ==> #[trigger] final(rgba)@[i] == if radius >= 0 && dist2(
                iw as int,
                i / 4,
                cx as int,
                cy as int,
            ) <= radius * radius {
                color@[i % 4]
            } else {
                old(rgba)@[i]
            },
{
    if radius < 0 {
        return;
    }
    let ghost s0 = rgba@;
    paint_ring(rgba, iw, ih, cx, cy, radius, 0, color);
    proof {
        assert forall|i: int| 0 <= i < s0.len() implies 0 <= #[trigger] dist2(iw as int, i / 4, cx as int, cy as int) by {
            lemma_disc_box(iw as int, i / 4, cx as int, cy as int, radius as int);
        }
    }
}

/// Draws the ring of outer radius `radius` and width `thickness` about
/// `(cx, cy)` in `color`: the pixels whose squared distance lies between
/// `max(radius - thickness, 0)` squared and `radius` squared. A negative
/// radius draws nothing.
pub fn draw_circle_outline(
    rgba: &mut [u8],
    iw: u32,
    ih: u32,
    cx: i32,
    cy: i32,
    radius: i32,
    thickness: i32,
    color: [u8; 4],
)
    requires
        old(rgba)@.len() == 4 * (iw as int) * (ih as int),
        radius > i32::MIN,
        i32::MIN <= radius - thickness <= i32::MAX,
        radius >= 0 ==> 2 * radius * radius <= i32::MAX,
        radius >= 0 ==> i32::MIN <= cx - radius && cx + radius <= i32::MAX,
        radius >= 0 ==> i32::MIN <= cy - radius && cy + radius <= i32::MAX,
    ensures
        final(rgba)@.len() == old(rgba)@.len(),
        forall|i: int|
            0 <= i < old(rgba)@.len() ==> #[trigger] final(rgba)@[i] == if radius >= 0 && ({
                let r_in = if radius - thickness > 0 { radius - thickness } else { 0 };
                r_in * r_in <= dist2(iw as int, i / 4, cx as int, cy as int) <= radius * radius
            }) {
                color@[i % 4]
            } else {
                old(rgba)@[i]
            },
{
    if radius < 0 {
        return;
    }
    let r_in: i32 = if radius - thickness > 0 { radius - thickness } else { 0 };
    proof {
        assert((r_in as int) * (r_in as int) <= 0x4000_0000_0000_0000) by (nonlinear_arith)
            requires
                0 <= r_in <= i32::MAX,
        ;
        assert(0 <= (r_in as int) * (r_in as int)) by (nonlinear_arith);
    }
    paint_ring(rgba, iw, ih, cx, cy, radius, (r_in as i64) * (r_in as i64), color);
}

/// Byte `i` of the `w` by `h` crop at `(x, y)` of an `iw` by `ih` image:
/// the matching byte of the image, or white (255) past its edge.
pub open spec fn crop_byte(s: Seq<u8>, iw: int, ih: int, x: int, y: int, w: int, i: int) -> u8 {
    let p = i / 4;
    let sx = x + p % w;
    let sy = y + p / w;
    if sx < iw && sy < ih {
        s[4 * (sy * iw + sx) + i % 4]
    } else {
        255u8
    }
}

/// The `w` by `h` region at `(x, y)` of an `iw` by `ih` image, white where
/// it lies past the image.
pub fn crop_rgba(rgba: &[u8], iw: u32, ih: u32, x: u32, y: u32, w: u32, h: u32) -> (out: Vec<u8>)
    requires
        rgba@.len() == 4 * (iw as int) * (ih as int),
        w > 0 && h > 0 ==> x + w <= u32::MAX + 1 && y + h <= u32::MAX + 1,
        4 * (w as int) * (h as int) <= usize::MAX,
    ensures
        out@.len() == 4 * (w as int) * (h as int),
        forall|i: int|
            0 <= i < out@.len() ==> #[trigger] out@[i] == crop_byte(
                rgba@,
                iw as int,
                ih as int,
                x as int,
                y as int,
                w as int,
                i,
            ),
{
    let ghost s = rgba@;
    let ghost wi = w as int;
    let ghost hi = h as int;
    let mut out: Vec<u8> = Vec::new();
    if w == 0 || h == 0 {
        proof {
            assert(4 * wi * hi == 0) by (nonlinear_arith)
                requires
                    wi == 0 || hi == 0,
            ;
        }
        return out;
    }
    let len = rgba.len();
    proof {
        assert(4 * wi * hi == 4 * (wi * hi)) by (nonlinear_arith);
    }
    let n = (w as usize) * (h as usize);
    let mut p: usize = 0;
    let mut dx: u32 = 0;
    let mut dy: u32 = 0;
    while p < n
        invariant
            s == rgba@,
            s.len() == 4 * (iw as int) * (ih as int),
            len == s.len(),
            wi == w as int,
            hi == h as int,
            w > 0,
            h > 0,
            x + w <= u32::MAX + 1,
            y + h <= u32::MAX + 1,
            n == wi * hi,
            4 * n <= usize::MAX,
            0 <= p <= n,
            dx < w,
            p == dy * wi + dx,
            out@.len() == 4 * p,
            forall|i: int|
                0 <= i < 4 * p ==> #[trigger] out@[i] == crop_byte(s, iw as int, ih as int, x as int, y as int, wi, i),
        decreases n - p,
    {
        proof {
            crate::blobs::lemma_grid_step(wi, hi, p as int, dx as int, dy as int);
        }
        let sx = x as u64 + dx as u64;
        let sy = y as u64 + dy as u64;
        if sx < iw as u64 && sy < ih as u64 {
            proof {
                lemma_pixel_index(iw as int, ih as int, sx as int, sy as int);
            }
            let base = 4 * ((sy as usize) * (iw as usize) + (sx as usize));
            out.push(rgba[base]);
            out.push(rgba[base + 1]);
            out.push(rgba[base + 2]);
            out.push(rgba[base + 3]);
        } else {
            out.push(255);
            out.push(255);
            out.push(255);
            out.push(255);
        }
        proof {
            assert forall|i: int| 0 <= i < 4 * (p + 1) implies #[trigger] out@[i] == crop_byte(
                s,
                iw as int,
                ih as int,
                x as int,
                y as int,
                wi,
                i,
            ) by {
                if i >= 4 * p {
                    assert(i / 4 == p as int);
                    assert(i % 4 == i - 4 * p);
                }
            }
        }
        p += 1;
        dx += 1;
        if dx == w {
            dx = 0;
            dy += 1;
        }
    }
    out
}

/// A binary image as opaque RGBA: ink (0) black, anything else white.
pub fn binary_to_rgba(gray: &[u8], w: u32, h: u32) -> (out: Vec<u8>)
    requires
        gray@.len() >= (w as int) * (h as int),
        4 * (w as int) * (h as int) <= usize::MAX,
    ensures
        out@.len() == 4 * (w as int) * (h as int),
        forall|i: int|
            0 <= i < out@.len() ==> #[trigger] out@[i] == if i % 4 == 3 || gray@[i / 4] != 0 {
                255u8
            } else {
                0u8
            },
{
    let ghost n0 = (w as int) * (h as int);
    proof {
        assert(4 * (w as int) * (h as int) == 4 * n0) by (nonlinear_arith)
            requires
                n0 == (w as int) * (h as int),
        ;
    }
    let n = (w as usize) * (h as usize);
    let mut out: Vec<u8> = Vec::new();
    let mut p: usize = 0;
    while p < n
        invariant
            n == n0,
            4 * n <= usize::MAX,
            gray@.len() >= n,
            0 <= p <= n,
            out@.len() == 4 * p,
            forall|i: int|
                0 <= i < 4 * p ==> #[trigger] out@[i] == if i % 4 == 3 || gray@[i / 4] != 0 {
                    255u8
                } else {
                    0u8
                },
        decreases n - p,
    {
        let v: u8 = if gray[p] == 0 { 0 } else { 255 };
        out.push(v);
        out.push(v);
        out.push(v);
        out.push(255);
        proof {
            assert forall|i: int| 0 <= i < 4 * (p + 1) implies #[trigger] out@[i] == if i % 4 == 3 || gray@[i / 4]
                != 0 {
                255u8
            } else {
                0u8
            } by {
                if i >= 4 * p {
                    assert(i / 4 == p as int);
                    assert(i % 4 == i - 4 * p);
                }
            }
        }
        p += 1;
    }
    out
}

/// Width and height of a `w` by `h` image turned by `degrees`: a quarter
/// turn swaps them.
pub open spec fn turned_size(w: int, h: int, degrees: int) -> (int, int) {
    if degrees == 90 || degrees == 270 {
        (h, w)
    } else {
        (w, h)
    }
}

/// The source pixel of pixel `(ox, oy)` of a `w` by `h` image turned
/// clockwise by `degrees` (0, 90, 180 or 270; any other angle leaves the
/// image as it is).
pub open spec fn turned_source(w: int, h: int, degrees: int, ox: int, oy: int) -> (int, int) {
    if degrees == 90 {
        (oy, h - 1 - ox)
    } else if degrees == 180 {
        (w - 1 - ox, h - 1 - oy)
    } else if degrees == 270 {
        (w - 1 - oy, ox)
    } else {
        (ox, oy)
    }
}

/// Byte `i` of the turned image.
pub open spec fn turned_byte(s: Seq<u8>, w: int, h: int, degrees: int, i: int) -> u8 {
    let ow = turned_size(w, h, degrees).0;
    let p = i / 4;
    let src = turned_source(w, h, degrees, p % ow, p / ow);
    s[4 * (src.1 * w + src.0) + i % 4]
}

/// Turns a `w` by `h` RGBA image clockwise by 90, 180 or 270 degrees (any
/// other angle copies it); gives the pixels, the new width and the new height.
pub fn rotate_rgba(rgba: &[u8], w: u32, h: u32, degrees: u32) -> (r: (Vec<u8>, u32, u32))
    requires
        rgba@.len() == 4 * (w as int) * (h as int),
    ensures
        r.1 == turned_size(w as int, h as int, degrees as int).0,
        r.2 == turned_size(w as int, h as int, degrees as int).1,
        r.0@.len() == rgba@.len(),
        forall|i: int|
            0 <= i < r.0@.len() ==> #[trigger] r.0@[i] == turned_byte(rgba@, w as int, h as int, degrees as int, i),
{
    let ghost s = rgba@;
    let ghost wi = w as int;
    let ghost hi = h as int;
    let ghost di = degrees as int;
    let (ow, oh) = if degrees == 90 || degrees == 270 { (h, w) } else { (w, h) };
    let ghost owi = ow as int;
    let ghost ohi = oh as int;
    let len = rgba.len();
    let mut out: Vec<u8> = Vec::new();
    if ow == 0 || oh == 0 {
        proof {
            assert(4 * wi * hi == 0) by (nonlinear_arith)
                requires
                    wi == 0 || hi == 0,
            ;
        }
        return (out, ow, oh);
    }
    proof {
        assert(owi * ohi == wi * hi) by (nonlinear_arith)
            requires
                (owi == wi && ohi == hi) || (owi == hi && ohi == wi),
        ;
        assert(4 * wi * hi == 4 * (wi * hi)) by (nonlinear_arith);
    }
    let n = (ow as usize) * (oh as usize);
    let mut p: usize = 0;
    let mut ox: u32 = 0;
    let mut oy: u32 = 0;
    while p < n
        invariant
            s == rgba@,
            s.len() == 4 * wi * hi,
            len == s.len(),
            wi == w as int,
            hi == h as int,
            di == degrees as int,
            owi == ow as int,
            ohi == oh as int,
            ow > 0,
            oh > 0,
            (owi, ohi) == turned_size(wi, hi, di),
            n == owi * ohi,
            n == wi * hi,
            0 <= p <= n,
            ox < ow,
            p == oy * owi + ox,
            out@.len() == 4 * p,
            forall|i: int| 0 <= i < 4 * p ==> #[trigger] out@[i] == turned_byte(s, wi, hi, di, i),
        decreases n - p,
    {
        proof {
            crate::blobs::lemma_grid_step(owi, ohi, p as int, ox as int, oy as int);
        }
        let (sx, sy) = if degrees == 90 {
            (oy, h - 1 - ox)
        } else if degrees == 180 {
            (w - 1 - ox, h - 1 - oy)
        } else if degrees == 270 {
            (w - 1 - oy, ox)
        } else {
            (ox, oy)
        };
        proof {
            assert((sx as int, sy as int) == turned_source(wi, hi, di, ox as int, oy as int));
            lemma_pixel_index(wi, hi, sx as int, sy as int);
        }
        let base = 4 * ((sy as usize) * (w as usize) + (sx as usize));
        out.push(rgba[base]);
        out.push(rgba[base + 1]);
        out.push(rgba[base + 2]);
        out.push(rgba[base + 3]);
        proof {
            assert forall|i: int| 0 <= i < 4 * (p + 1) implies #[trigger] out@[i] == turned_byte(s, wi, hi, di, i) by {
                if i >= 4 * p {
                    assert(i / 4 == p as int);
                    assert(i % 4 == i - 4 * p);
                }
            }
        }
        p += 1;
        ox += 1;
        if ox == ow {
            ox = 0;
            oy += 1;
        }
    }
    (out, ow, oh)
}

/// The bytes of a `w` by `h` RGBA image turned clockwise by `degrees`.
pub open spec fn turned_image(s: Seq<u8>, w: int, h: int, degrees: int) -> Seq<u8> {
    Seq::new(s.len(), |i: int| turned_byte(s, w, h, degrees, i))
}

/// The turn that undoes a turn by `degrees`: 90 and 270 undo each other,
/// 180 undoes itself, and any other angle copies.
pub open spec fn undoing_turn(degrees: int) -> int {
    if degrees == 90 {
        270
    } else if degrees == 270 {
        90
    } else {
        degrees
    }
}

/// Byte `k` of pixel `(x, y)` of a `w`-wide RGBA image.
proof fn lemma_byte_of(w: int, h: int, x: int, y: int, k: int)
    requires
        0 <= x < w,
        0 <= y < h,
        0 <= k < 4,
    ensures
        (4 * (y * w + x) + k) / 4 == y * w + x,
        (4 * (y * w + x) + k) % 4 == k,
        0 <= 4 * (y * w + x) + k < 4 * w * h,
        (y * w + x) % w == x,
        (y * w + x) / w == y,
{
    lemma_pixel_index(w, h, x, y);
    vstd::arithmetic::div_mod::lemma_fundamental_div_mod_converse(4 * (y * w + x) + k, 4, y * w + x, k);
}

/// Turning an image and then turning it back gives the image again: 90
/// then 270 degrees, 270 then 90, 180 twice, or copying twice.
pub proof fn lemma_rotation_round_trip(s: Seq<u8>, w: int, h: int, degrees: int)
    requires
        0 <= w,
        0 <= h,
        s.len() == 4 * w * h,
    ensures
        turned_image(
            turned_image(s, w, h, degrees),
            turned_size(w, h, degrees).0,
            turned_size(w, h, degrees).1,
            undoing_turn(degrees),
        ) == s,
{
    let (w1, h1) = turned_size(w, h, degrees);
    let d2 = undoing_turn(degrees);
    let t1 = turned_image(s, w, h, degrees);
    let t2 = turned_image(t1, w1, h1, d2);
    assert(turned_size(w1, h1, d2) == (w, h));
    assert(w1 * h1 == w * h) by (nonlinear_arith)
        requires
            (w1 == w && h1 == h) || (w1 == h && h1 == w),
    ;
    assert(4 * w1 * h1 == 4 * w * h) by (nonlinear_arith)
        requires
            w1 * h1 == w * h,
    ;
    assert forall|i: int| 0 <= i < s.len() implies #[trigger] t2[i] == s[i] by {
        lemma_pixel_of(w, h, i);
        let p = i / 4;
        let k = i % 4;
        let x = p % w;
        let y = p / w;
        lemma_byte_of(w, h, x, y, k);
        assert(i == 4 * (y * w + x) + k);
        let src2 = turned_source(w1, h1, d2, x, y);
        assert(0 <= src2.0 < w1 && 0 <= src2.1 < h1);
        lemma_byte_of(w1, h1, src2.0, src2.1, k);
        let j = 4 * (src2.1 * w1 + src2.0) + k;
        assert(t2[i] == t1[j]);
        let p1 = src2.1 * w1 + src2.0;
        assert(j / 4 == p1 && j % 4 == k && p1 % w1 == src2.0 && p1 / w1 == src2.1);
        let src1 = turned_source(w, h, degrees, src2.0, src2.1);
        assert(src1 == (x, y));
        assert(t1[j] == turned_byte(s, w, h, degrees, j));
        assert(turned_byte(s, w, h, degrees, j) == s[4 * (y * w + x) + k]);
    }
    assert(t2 =~= s);
}

/// The pixels `x` of `[0, n)` with `lo <= x <= hi`, as a half-open range.
fn clip_range(lo: i64, hi: i64, n: u32) -> (r: (u32, u32))
    ensures
        r.0 <= r.1 <= n,
        ({
            let a = if lo < 0 { 0 } else if lo > n { n as int } else { lo as int };
            let b = if hi < 0 { 0 } else if hi >= n { n as int } else { hi + 1 };
            r == if b <= a { (a as u32, a as u32) } else { (a as u32, b as u32) }
        }),
{
    let a: i64 = if lo < 0 { 0 } else if lo > n as i64 { n as i64 } else { lo };
    let b: i64 = if hi < 0 { 0 } else if hi >= n as i64 { n as i64 } else { hi + 1 };
    if b <= a {
        (a as u32, a as u32)
    } else {
        (a as u32, b as u32)
    }
}

/// Byte `i` of a `w`-wide image belongs to the cross that `draw_cross` draws:
/// a bar `2 size + 1` long and three pixels thick each way through
/// `(cx, cy)`.
pub open spec fn on_cross(w: int, i: int, cx: int, cy: int, size: int) -> bool {
    let x = (i / 4) % w;
    let y = (i / 4) / w;
    size >= 0 && ((cx - size <= x <= cx + size && cy - 1 <= y <= cy + 1) || (cx - 1 <= x <= cx + 1 && cy - size
        <= y <= cy + size))
}

/// Draws a cross through `(cx, cy)` (see `on_cross`) in `color`; a negative
/// size draws nothing.
pub fn draw_cross(rgba: &mut [u8], iw: u32, ih: u32, cx: i32, cy: i32, size: i32, color: [u8; 4])
    requires
        old(rgba)@.len() == 4 * (iw as int) * (ih as int),
        size > i32::MIN,
        i32::MIN < cx - size - 1 && cx + size + 1 < i32::MAX,
        i32::MIN < cy - size - 1 && cy + size + 1 < i32::MAX,
    ensures
        final(rgba)@.len() == old(rgba)@.len(),
        forall|i: int|
            0 <= i < old(rgba)@.len() ==> #[trigger] final(rgba)@[i] == if on_cross(
                iw as int,
                i,
                cx as int,
                cy as int,
                size as int,
            ) {
                color@[i % 4]
            } else {
                old(rgba)@[i]
            },
{
    let ghost s0 = rgba@;
    let ghost wi = iw as int;
    let ghost hi = ih as int;
    if size < 0 {
        return;
    }
    let (ax0, ax1) = clip_range(cx as i64 - size as i64, cx as i64 + size as i64, iw);
    let (ay0, ay1) = clip_range(cy as i64 - 1, cy as i64 + 1, ih);
    paint_rect_where(rgba, iw, ih, ax0, ax1, ay0, ay1, Brush::Solid, color);
    let ghost s1 = rgba@;
    let (bx0, bx1) = clip_range(cx as i64 - 1, cx as i64 + 1, iw);
    let (by0, by1) = clip_range(cy as i64 - size as i64, cy as i64 + size as i64, ih);
    paint_rect_where(rgba, iw, ih, bx0, bx1, by0, by1, Brush::Solid, color);
    proof {
        assert forall|i: int| 0 <= i < s0.len() implies #[trigger] rgba@[i] == if on_cross(
            wi,
            i,
            cx as int,
            cy as int,
            size as int,
        ) {
            color@[i % 4]
        } else {
            s0[i]
        } by {
            lemma_pixel_of(wi, hi, i);
            assert(s1[i] == if in_rect(wi, i, ax0 as int, ax1 as int, ay0 as int, ay1 as int) {
                color@[i % 4]
            } else {
                s0[i]
            });
        }
    }
}

} // verus!
