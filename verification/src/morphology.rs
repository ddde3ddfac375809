//! 3x3 morphology on binary images (0 = ink, 255 = background) and the
//! ink-bleed compensation built on it.
use vstd::prelude::*;
use crate::grid::{col_of, row_of, inside, index_of, lemma_index_of, lemma_coords};

verus! {

/// `(x, y)` is background for erosion: outside the image, or exactly 255.
pub open spec fn white_at(b: Seq<u8>, w: int, h: int, x: int, y: int) -> bool {
    !inside(w, h, x, y) || b[index_of(w, x, y)] == 255
}

/// `(x, y)` is ink for dilation: inside the image and exactly 0.
pub open spec fn black_at(b: Seq<u8>, w: int, h: int, x: int, y: int) -> bool {
    inside(w, h, x, y) && b[index_of(w, x, y)] == 0
}

/// Some pixel of the 3x3 neighbourhood of `(x, y)` is background.
pub open spec fn near_white(b: Seq<u8>, w: int, h: int, x: int, y: int) -> bool {
    white_at(b, w, h, x - 1, y - 1) || white_at(b, w, h, x, y - 1) || white_at(b, w, h, x + 1, y - 1)
        || white_at(b, w, h, x - 1, y) || white_at(b, w, h, x, y) || white_at(b, w, h, x + 1, y)
        || white_at(b, w, h, x - 1, y + 1) || white_at(b, w, h, x, y + 1) || white_at(
        b,
        w,
        h,
        x + 1,
        y + 1,
    )
}

/// Some pixel of the 3x3 neighbourhood of `(x, y)` is ink.
pub open spec fn near_black(b: Seq<u8>, w: int, h: int, x: int, y: int) -> bool {
    black_at(b, w, h, x - 1, y - 1) || black_at(b, w, h, x, y - 1) || black_at(b, w, h, x + 1, y - 1)
        || black_at(b, w, h, x - 1, y) || black_at(b, w, h, x, y) || black_at(b, w, h, x + 1, y)
        || black_at(b, w, h, x - 1, y + 1) || black_at(b, w, h, x, y + 1) || black_at(
        b,
        w,
        h,
        x + 1,
        y + 1,
    )
}

/// 3x3 erosion: a pixel stays ink only when its whole neighbourhood is in the
/// image and none of it is 255.
pub open spec fn spec_erode(b: Seq<u8>, w: int, h: int) -> Seq<u8> {
    Seq::new(
        (w * h) as nat,
        |i: int|
            if near_white(b, w, h, col_of(w, i), row_of(w, i)) {
                255u8
            } else {
                0u8
            },
    )
}

/// 3x3 dilation: a pixel becomes ink when some in-image neighbour is 0.
pub open spec fn spec_dilate(b: Seq<u8>, w: int, h: int) -> Seq<u8> {
    Seq::new(
        (w * h) as nat,
        |i: int|
            if near_black(b, w, h, col_of(w, i), row_of(w, i)) {
                0u8
            } else {
                255u8
            },
    )
}

/// Opening (erode, then dilate) followed by closing (dilate, then erode).
pub open spec fn spec_open_close(b: Seq<u8>, w: int, h: int) -> Seq<u8> {
    spec_erode(spec_dilate(spec_dilate(spec_erode(b, w, h), w, h), w, h), w, h)
}

/// Number of 0 values.
pub open spec fn count_zero(s: Seq<u8>) -> nat
    decreases s.len(),
{
    if s.len() == 0 {
        0
    } else {
        count_zero(s.drop_last()) + if s.last() == 0 {
            1nat
        } else {
            0nat
        }
    }
}

fn white_at_exec(b: &[u8], w: u32, h: u32, x: i64, y: i64) -> (r: bool)
    requires
        (w as int) * (h as int) <= u32::MAX,
        b@.len() >= (w as int) * (h as int),
        -1 <= x <= u32::MAX,
        -1 <= y <= u32::MAX,
    ensures
        r == white_at(b@, w as int, h as int, x as int, y as int),
{
    if x < 0 || y < 0 || x >= w as i64 || y >= h as i64 {
        return true;
    }
    proof {
        lemma_index_of(w as int, h as int, x as int, y as int);
    }
    b[(y as usize) * (w as usize) + (x as usize)] == 255
}

fn black_at_exec(b: &[u8], w: u32, h: u32, x: i64, y: i64) -> (r: bool)
    requires
        (w as int) * (h as int) <= u32::MAX,
        b@.len() >= (w as int) * (h as int),
        -1 <= x <= u32::MAX,
        -1 <= y <= u32::MAX,
    ensures
        r == black_at(b@, w as int, h as int, x as int, y as int),
{
    if x < 0 || y < 0 || x >= w as i64 || y >= h as i64 {
        return false;
    }
    proof {
        lemma_index_of(w as int, h as int, x as int, y as int);
    }
    b[(y as usize) * (w as usize) + (x as usize)] == 0
}

/// 3x3 erosion: ink shrinks by one pixel; the outside of the image counts as
/// background, so ink on the border disappears.
pub fn morphological_erode(binary: &[u8], w: u32, h: u32) -> (out: Vec<u8>)
    requires
        (w as int) * (h as int) <= u32::MAX,
        binary@.len() >= (w as int) * (h as int),
    ensures
        out@ == spec_erode(binary@, w as int, h as int),
{
    let n = (w as usize) * (h as usize);
    let mut out: Vec<u8> = Vec::new();
    let mut i: usize = 0;
    while i < n
        invariant
            n == (w as int) * (h as int),
            n <= u32::MAX,
            binary@.len() >= n,
            0 <= i <= n,
            out@.len() == i,
            forall|j: int| 0 <= j < i ==> #[trigger] out@[j] == spec_erode(binary@, w as int, h as int)[j],
        decreases n - i,
    {
        proof {
            lemma_coords(w as int, h as int, i as int);
        }
        let x = (i % (w as usize)) as i64;
        let y = (i / (w as usize)) as i64;
        let white = white_at_exec(binary, w, h, x - 1, y - 1) || white_at_exec(binary, w, h, x, y - 1)
            || white_at_exec(binary, w, h, x + 1, y - 1) || white_at_exec(binary, w, h, x - 1, y)
            || white_at_exec(binary, w, h, x, y) || white_at_exec(binary, w, h, x + 1, y)
            || white_at_exec(binary, w, h, x - 1, y + 1) || white_at_exec(binary, w, h, x, y + 1)
            || white_at_exec(binary, w, h, x + 1, y + 1);
        out.push(if white { 255 } else { 0 });
        i += 1;
    }
    assert(out@ =~= spec_erode(binary@, w as int, h as int));
    out
}

/// 3x3 dilation: ink grows by one pixel (pixels outside the image are ignored).
pub fn morphological_dilate(binary: &[u8], w: u32, h: u32) -> (out: Vec<u8>)
    requires
        (w as int) * (h as int) <= u32::MAX,
        binary@.len() >= (w as int) * (h as int),
    ensures
        out@ == spec_dilate(binary@, w as int, h as int),
{
    let n = (w as usize) * (h as usize);
    let mut out: Vec<u8> = Vec::new();
    let mut i: usize = 0;
    while i < n
        invariant
            n == (w as int) * (h as int),
            n <= u32::MAX,
            binary@.len() >= n,
            0 <= i <= n,
            out@.len() == i,
            forall|j: int| 0 <= j < i ==> #[trigger] out@[j] == spec_dilate(binary@, w as int, h as int)[j],
        decreases n - i,
    {
        proof {
            lemma_coords(w as int, h as int, i as int);
        }
        let x = (i % (w as usize)) as i64;
        let y = (i / (w as usize)) as i64;
        let black = black_at_exec(binary, w, h, x - 1, y - 1) || black_at_exec(binary, w, h, x, y - 1)
            || black_at_exec(binary, w, h, x + 1, y - 1) || black_at_exec(binary, w, h, x - 1, y)
            || black_at_exec(binary, w, h, x, y) || black_at_exec(binary, w, h, x + 1, y)
            || black_at_exec(binary, w, h, x - 1, y + 1) || black_at_exec(binary, w, h, x, y + 1)
            || black_at_exec(binary, w, h, x + 1, y + 1);
        out.push(if black { 0 } else { 255 });
        i += 1;
    }
    assert(out@ =~= spec_dilate(binary@, w as int, h as int));
    out
}

/// Opening (removes small ink noise) followed by closing (fills small holes).
pub fn morphological_open_close(binary: &[u8], w: u32, h: u32) -> (out: Vec<u8>)
    requires
        (w as int) * (h as int) <= u32::MAX,
        binary@.len() >= (w as int) * (h as int),
    ensures
        out@ == spec_open_close(binary@, w as int, h as int),
{
    let opened = morphological_dilate(&morphological_erode(binary, w, h), w, h);
    morphological_erode(&morphological_dilate(&opened, w, h), w, h)
}

/// Counts the 0 values.
pub fn count_black(s: &[u8]) -> (c: usize)
    ensures
        c == count_zero(s@),
        c <= s@.len(),
{
    let mut c: usize = 0;
    let mut i: usize = 0;
    while i < s.len()
        invariant
            0 <= i <= s@.len(),
            c == count_zero(s@.subrange(0, i as int)),
            c <= i,
        decreases s@.len() - i,
    {
        proof {
            assert(s@.subrange(0, i + 1).drop_last() =~= s@.subrange(0, i as int));
        }
        if s[i] == 0 {
            c += 1;
        }
        i += 1;
    }
    assert(s@.subrange(0, s@.len() as int) =~= s@);
    c
}

/// Ink-bleed compensation: a 1-pixel erosion that undoes the thickening of
/// strokes by printing and scanning. It is skipped (the input is returned)
/// when the image has fewer than 8 ink pixels, or when erosion would leave
/// less than half of the ink (strokes too thin to erode).
pub fn compensate_ink_bleed(binary: &[u8], w: u32, h: u32) -> (out: Vec<u8>)
    requires
        (w as int) * (h as int) <= u32::MAX,
        count_zero(binary@) >= 8 ==> binary@.len() >= (w as int) * (h as int),
    ensures
        out@ == if count_zero(binary@) < 8 || 2 * count_zero(spec_erode(binary@, w as int, h as int))
            < count_zero(binary@) {
            binary@
        } else {
            spec_erode(binary@, w as int, h as int)
        },
{
    let before_black = count_black(binary);
    if before_black < 8 {
        return vstd::slice::slice_to_vec(binary);
    }
    let eroded = morphological_erode(binary, w, h);
    let after_black = count_black(&eroded);
    if 2 * (after_black as u64) < before_black as u64 {
        return vstd::slice::slice_to_vec(binary);
    }
    eroded
}

/// Erosion read at an in-image pixel.
proof fn lemma_erode_at(b: Seq<u8>, w: int, h: int, x: int, y: int)
    requires
        inside(w, h, x, y),
    ensures
        spec_erode(b, w, h)[index_of(w, x, y)] == if near_white(b, w, h, x, y) {
            255u8
        } else {
            0u8
        },
{
    lemma_index_of(w, h, x, y);
}

/// Dilation read at an in-image pixel.
proof fn lemma_dilate_at(b: Seq<u8>, w: int, h: int, x: int, y: int)
    requires
        inside(w, h, x, y),
    ensures
        spec_dilate(b, w, h)[index_of(w, x, y)] == if near_black(b, w, h, x, y) {
            0u8
        } else {
            255u8
        },
{
    lemma_index_of(w, h, x, y);
}

/// Opening (erosion, then dilation) never turns background into ink: a
/// pixel that is ink after it was not 255 before.
pub proof fn lemma_opening_adds_no_ink(b: Seq<u8>, w: int, h: int, i: int)
    requires
        0 <= w,
        0 <= h,
        b.len() >= w * h,
        0 <= i < w * h,
        spec_dilate(spec_erode(b, w, h), w, h)[i] == 0,
    ensures
        b[i] != 255,
{
    let e = spec_erode(b, w, h);
    assert(0 < w) by (nonlinear_arith)
        requires
            0 <= i < w * h,
            0 <= w,
            0 <= h,
    ;
    lemma_coords(w, h, i);
    let x = col_of(w, i);
    let y = row_of(w, i);
    assert(near_black(e, w, h, x, y));
    assert forall|dx: int, dy: int|
        -1 <= dx <= 1 && -1 <= dy <= 1 && #[trigger] black_at(e, w, h, x + dx, y + dy) implies !white_at(
        b,
        w,
        h,
        x,
        y,
    ) by {
        lemma_erode_at(b, w, h, x + dx, y + dy);
        assert(!near_white(b, w, h, x + dx, y + dy));
        assert(x == (x + dx) - dx && y == (y + dy) - dy);
    }
    assert(black_at(e, w, h, x - 1, y - 1) ==> black_at(e, w, h, x + -1, y + -1));
    assert(black_at(e, w, h, x, y - 1) ==> black_at(e, w, h, x + 0, y + -1));
    assert(black_at(e, w, h, x + 1, y - 1) ==> black_at(e, w, h, x + 1, y + -1));
    assert(black_at(e, w, h, x - 1, y) ==> black_at(e, w, h, x + -1, y + 0));
    assert(black_at(e, w, h, x, y) ==> black_at(e, w, h, x + 0, y + 0));
    assert(black_at(e, w, h, x + 1, y) ==> black_at(e, w, h, x + 1, y + 0));
    assert(black_at(e, w, h, x - 1, y + 1) ==> black_at(e, w, h, x + -1, y + 1));
    assert(black_at(e, w, h, x, y + 1) ==> black_at(e, w, h, x + 0, y + 1));
    assert(black_at(e, w, h, x + 1, y + 1) ==> black_at(e, w, h, x + 1, y + 1));
    assert(!white_at(b, w, h, x, y));
}

/// Closing (dilation, then erosion) keeps every ink pixel that is not on
/// the image's border; on the border, where the outside counts as
/// background, it may not.
pub proof fn lemma_closing_keeps_ink(b: Seq<u8>, w: int, h: int, x: int, y: int)
    requires
        b.len() >= w * h,
        1 <= x < w - 1,
        1 <= y < h - 1,
        b[index_of(w, x, y)] == 0,
    ensures
        spec_erode(spec_dilate(b, w, h), w, h)[index_of(w, x, y)] == 0,
{
    let d = spec_dilate(b, w, h);
    assert(black_at(b, w, h, x, y));
    assert forall|dx: int, dy: int| -1 <= dx <= 1 && -1 <= dy <= 1 implies !#[trigger] white_at(
        d,
        w,
        h,
        x + dx,
        y + dy,
    ) by {
        lemma_dilate_at(b, w, h, x + dx, y + dy);
        assert(x == (x + dx) - dx && y == (y + dy) - dy);
        assert(near_black(b, w, h, x + dx, y + dy));
    }
    assert(!white_at(d, w, h, x + -1, y + -1));
    assert(!white_at(d, w, h, x + 0, y + -1));
    assert(!white_at(d, w, h, x + 1, y + -1));
    assert(!white_at(d, w, h, x + -1, y + 0));
    assert(!white_at(d, w, h, x + 0, y + 0));
    assert(!white_at(d, w, h, x + 1, y + 0));
    assert(!white_at(d, w, h, x + -1, y + 1));
    assert(!white_at(d, w, h, x + 0, y + 1));
    assert(!white_at(d, w, h, x + 1, y + 1));
    lemma_erode_at(d, w, h, x, y);
}

/// Opening then closing keeps what the opening keeps and fills its pinholes:
/// away from the border, a pixel that is ink after the opening (erosion,
/// then dilation) stays ink, and a background pixel whose eight neighbours
/// are all ink after the opening becomes ink.
pub proof fn lemma_open_close_fills_holes(b: Seq<u8>, w: int, h: int, x: int, y: int)
    requires
        b.len() >= w * h,
        1 <= x < w - 1,
        1 <= y < h - 1,
        ({
            let o = spec_dilate(spec_erode(b, w, h), w, h);
            ||| o[index_of(w, x, y)] == 0
            ||| forall|dx: int, dy: int|
                -1 <= dx <= 1 && -1 <= dy <= 1 && (dx != 0 || dy != 0) ==> #[trigger] o[index_of(
                    w,
                    x + dx,
                    y + dy,
                )] == 0
        }),
    ensures
        spec_open_close(b, w, h)[index_of(w, x, y)] == 0,
{
    let o = spec_dilate(spec_erode(b, w, h), w, h);
    assert(0 <= w * h) by (nonlinear_arith)
        requires
            1 <= w,
            1 <= h,
    ;
    let d = spec_dilate(o, w, h);
    assert forall|dx: int, dy: int| -1 <= dx <= 1 && -1 <= dy <= 1 implies !#[trigger] white_at(
        d,
        w,
        h,
        x + dx,
        y + dy,
    ) by {
        lemma_dilate_at(o, w, h, x + dx, y + dy);
        if o[index_of(w, x, y)] == 0 {
            assert(black_at(o, w, h, x, y));
            assert(x == (x + dx) - dx && y == (y + dy) - dy);
        } else if dx != 0 || dy != 0 {
            assert(o[index_of(w, x + dx, y + dy)] == 0);
            assert(black_at(o, w, h, (x + dx) + 0, (y + dy) + 0));
        } else {
            assert(o[index_of(w, x + 1, y + 0)] == 0);
            assert(black_at(o, w, h, x + 1, y));
        }
        assert(near_black(o, w, h, x + dx, y + dy));
    }
    assert(!white_at(d, w, h, x + -1, y + -1));
    assert(!white_at(d, w, h, x + 0, y + -1));
    assert(!white_at(d, w, h, x + 1, y + -1));
    assert(!white_at(d, w, h, x + -1, y + 0));
    assert(!white_at(d, w, h, x + 0, y + 0));
    assert(!white_at(d, w, h, x + 1, y + 0));
    assert(!white_at(d, w, h, x + -1, y + 1));
    assert(!white_at(d, w, h, x + 0, y + 1));
    assert(!white_at(d, w, h, x + 1, y + 1));
    lemma_erode_at(d, w, h, x, y);
}

} // verus!
