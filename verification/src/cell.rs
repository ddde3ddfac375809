//! Reading one character of the template: the ink inside each of its two
//! cells, the mark in each check box, and the rule that adopts a cell.
use vstd::prelude::*;
use crate::binarize::{spec_hybrid, binarize_hybrid};
use crate::clahe::{spec_clahe, apply_clahe, region_count, tile_histogram};
use crate::components::{component, remove_small_black_components};
use crate::filters::{spec_moire, spec_median_filter, detect_moire, median_filter_3x3};
use crate::morphology::{
    spec_erode, spec_open_close, count_zero, morphological_open_close, count_black,
    compensate_ink_bleed,
};
use crate::quality::{
    CellQuality, MIN_SPECK_AREA, spec_gate, spec_gate_quality, apply_cell_quality_gate,
};

verus! {

/// State of a check box.
#[derive(Clone, Copy, Debug, PartialEq, Eq, Structural)]
pub enum CheckMark {
    Check,
    Empty,
}

/// Ink pixels out of the pixels of an area; the ink ratio is `black / total`.
#[derive(Clone, Copy, Debug, PartialEq, Eq, Structural)]
pub struct InkCount {
    pub black: usize,
    pub total: usize,
}

impl InkCount {
    /// Less than 2% ink; an area without pixels counts as blank.
    pub open spec fn spec_is_blank(self) -> bool {
        self.total == 0 || 50 * self.black < self.total
    }

    /// Less than 2% ink; an area without pixels counts as blank.
    pub fn is_blank(&self) -> (r: bool)
        ensures
            r == self.spec_is_blank(),
    {
        self.total == 0 || (self.black as u128) * 50 < self.total as u128
    }
}

/// What one cell of a character (index 0 left, 1 right) showed.
#[derive(Clone, Copy, Debug, PartialEq, Eq, Structural)]
pub struct SlotResult {
    pub cell_index: usize,
    pub is_empty: bool,
    pub ink: InkCount,
    pub check_mark: CheckMark,
    pub check_ink: InkCount,
}

/// Why a character's cells were adopted as they were.
#[derive(Clone, Copy, Debug, PartialEq, Eq, Structural)]
pub enum AdoptionReason {
    /// No cell was written in.
    BothEmpty,
    /// Only the given cell was written in.
    OnlyOneFilled(usize),
    /// Both were written in and only the given one was checked.
    OnlyOneChecked(usize),
    /// Both were written in and checked: the right one wins.
    BothChecked,
    /// Both were written in and none was checked: the right one wins.
    NoneChecked,
}

/// The adoption decision for one character of the template.
pub struct CharResult {
    pub row: usize,
    pub col: usize,
    pub slots: [SlotResult; 2],
    pub adopted: Vec<usize>,
    pub adoption_reason: AdoptionReason,
}

/// Indices of the written-in cells, in order.
pub open spec fn filled_cells(s: Seq<SlotResult>) -> Seq<usize>
    decreases s.len(),
{
    if s.len() == 0 {
        Seq::empty()
    } else if !s.last().is_empty {
        filled_cells(s.drop_last()).push(s.last().cell_index)
    } else {
        filled_cells(s.drop_last())
    }
}

/// Indices of the written-in cells whose box is checked, in order.
pub open spec fn checked_cells(s: Seq<SlotResult>) -> Seq<usize>
    decreases s.len(),
{
    if s.len() == 0 {
        Seq::empty()
    } else if !s.last().is_empty && s.last().check_mark == CheckMark::Check {
        checked_cells(s.drop_last()).push(s.last().cell_index)
    } else {
        checked_cells(s.drop_last())
    }
}

/// The adoption rule: nothing when no cell is written in; the only written-in
/// cell; of two written-in cells the only checked one, else the right one.
pub open spec fn spec_adoption(s: Seq<SlotResult>) -> (Seq<usize>, AdoptionReason) {
    let f = filled_cells(s);
    let c = checked_cells(s);
    if f.len() == 0 {
        (Seq::empty(), AdoptionReason::BothEmpty)
    } else if f.len() == 1 {
        (seq![f[0]], AdoptionReason::OnlyOneFilled(f[0]))
    } else if c.len() == 1 {
        (seq![c[0]], AdoptionReason::OnlyOneChecked(c[0]))
    } else if c.len() == 2 {
        (seq![1usize], AdoptionReason::BothChecked)
    } else {
        (seq![1usize], AdoptionReason::NoneChecked)
    }
}

/// Decides which cells of a character are adopted, and why.
pub fn judge_adoption(slots: &[SlotResult]) -> (r: (Vec<usize>, AdoptionReason))
    ensures
        r.0@ == spec_adoption(slots@).0,
        r.1 == spec_adoption(slots@).1,
{
    let mut filled: Vec<usize> = Vec::new();
    let mut checked: Vec<usize> = Vec::new();
    let mut i: usize = 0;
    while i < slots.len()
        invariant
            0 <= i <= slots@.len(),
            filled@ == filled_cells(slots@.subrange(0, i as int)),
            checked@ == checked_cells(slots@.subrange(0, i as int)),
        decreases slots@.len() - i,
    {
        let s = slots[i];
        proof {
            assert(slots@.subrange(0, i + 1).drop_last() =~= slots@.subrange(0, i as int));
            assert(slots@.subrange(0, i + 1).last() == s);
        }
        if !s.is_empty {
            filled.push(s.cell_index);
            if s.check_mark == CheckMark::Check {
                checked.push(s.cell_index);
            }
        }
        i += 1;
    }
    proof {
        assert(slots@.subrange(0, slots@.len() as int) =~= slots@);
    }
    if filled.len() == 0 {
        return (Vec::new(), AdoptionReason::BothEmpty);
    }
    if filled.len() == 1 {
        let idx = filled[0];
        let mut v: Vec<usize> = Vec::new();
        v.push(idx);
        proof {
            assert(v@ =~= seq![idx]);
        }
        return (v, AdoptionReason::OnlyOneFilled(idx));
    }
    if checked.len() == 1 {
        let idx = checked[0];
        let mut v: Vec<usize> = Vec::new();
        v.push(idx);
        proof {
            assert(v@ =~= seq![idx]);
        }
        return (v, AdoptionReason::OnlyOneChecked(idx));
    }
    let mut v: Vec<usize> = Vec::new();
    v.push(1);
    proof {
        assert(v@ =~= seq![1usize]);
    }
    if checked.len() == 2 {
        (v, AdoptionReason::BothChecked)
    } else {
        (v, AdoptionReason::NoneChecked)
    }
}

/// The adoption rules on a character's pair of cells (left index 0, right
/// index 1): both blank adopts nothing; one written-in cell is adopted; of two
/// written-in cells the only checked one is adopted, and the right one when
/// both or neither are checked. So at most one cell is adopted, and never a
/// blank one.
pub proof fn lemma_adoption_rules(left: SlotResult, right: SlotResult)
    requires
        left.cell_index == 0,
        right.cell_index == 1,
    ensures
        ({
            let r = spec_adoption(seq![left, right]).0;
            &&& (left.is_empty && right.is_empty) ==> r == Seq::<usize>::empty()
            &&& (!left.is_empty && right.is_empty) ==> r == seq![0usize]
            &&& (left.is_empty && !right.is_empty) ==> r == seq![1usize]
            &&& (!left.is_empty && !right.is_empty && left.check_mark == right.check_mark) ==> r
                == seq![1usize]
            &&& (!left.is_empty && !right.is_empty && left.check_mark == CheckMark::Check
                && right.check_mark == CheckMark::Empty) ==> r == seq![0usize]
            &&& (!left.is_empty && !right.is_empty && left.check_mark == CheckMark::Empty
                && right.check_mark == CheckMark::Check) ==> r == seq![1usize]
            &&& r.len() <= 1
            &&& forall|k: int|
                0 <= k < r.len() ==> (r[k] == 0 && !left.is_empty) || (r[k] == 1 && !right.is_empty)
        }),
{
    let s = seq![left, right];
    assert(s.drop_last() =~= seq![left]);
    assert(s.drop_last().drop_last() =~= Seq::<SlotResult>::empty());
    let f = filled_cells(s);
    let c = checked_cells(s);
    assert(filled_cells(seq![left]) == filled_cells(Seq::<SlotResult>::empty()).push(left.cell_index)
        || filled_cells(seq![left]) == filled_cells(Seq::<SlotResult>::empty()));
    assert(checked_cells(seq![left]) == checked_cells(Seq::<SlotResult>::empty()).push(left.cell_index)
        || checked_cells(seq![left]) == checked_cells(Seq::<SlotResult>::empty()));
}

/// Margin of the measured inner area: a fifth of the side, rounded.
pub open spec fn inner_margin(n: int) -> int {
    (2 * n + 5) / 10
}

/// The denoised binary image of a grey area: a 3x3 median filter when it shows
/// a moire pattern, then CLAHE, hybrid binarization and opening-closing.
pub open spec fn spec_denoised_binary(g: Seq<u8>, w: int, h: int) -> Seq<u8> {
    let g1 = if spec_moire(g, w, h) {
        spec_median_filter(g, w, h)
    } else {
        g
    };
    spec_open_close(spec_hybrid(spec_clahe(g1, w, h), w, h), w, h)
}

/// Blanks the 4-connected ink components of fewer than `min` pixels.
pub open spec fn spec_remove_specks(b: Seq<u8>, w: int, h: int, min: int) -> Seq<u8> {
    Seq::new(
        b.len(),
        |i: int|
            if i < w * h && b[i] == 0 && component(b, w, h, false, i).len() < min {
                255u8
            } else {
                b[i]
            },
    )
}

/// The binary image in which a cell's ink is measured.
pub open spec fn spec_inner_binary(g: Seq<u8>, w: int, h: int) -> Seq<u8> {
    spec_remove_specks(spec_denoised_binary(g, w, h), w, h, MIN_SPECK_AREA as int)
}

/// The ink of a cell's inner area (the cell without a fifth of each side).
pub open spec fn spec_inner_ink(g: Seq<u8>, w: int, h: int) -> InkCount {
    let mx = inner_margin(w);
    let my = inner_margin(h);
    if mx >= w - mx || my >= h - my {
        InkCount { black: 0, total: 0 }
    } else {
        InkCount {
            black: region_count(spec_inner_binary(g, w, h), w, mx, w - mx, my, h - my, 0) as usize,
            total: ((w - 2 * mx) * (h - 2 * my)) as usize,
        }
    }
}

proof fn lemma_inner_margin(n: int)
    requires
        0 <= n,
    ensures
        0 <= inner_margin(n) <= n,
{
}

fn denoised_binary(gray: &[u8], w: u32, h: u32) -> (out: Vec<u8>)
    requires
        (w as int) * (h as int) <= i32::MAX,
        gray@.len() == (w as int) * (h as int),
    ensures
        out@ == spec_denoised_binary(gray@, w as int, h as int),
        out@.len() == (w as int) * (h as int),
{
    let g1 = if detect_moire(gray, w, h) {
        median_filter_3x3(gray, w, h)
    } else {
        vstd::slice::slice_to_vec(gray)
    };
    let g2 = apply_clahe(g1.as_slice(), w, h);
    let b = binarize_hybrid(g2.as_slice(), w, h);
    morphological_open_close(b.as_slice(), w, h)
}

/// The ink of a cell's inner area, without a fifth of each side (rounded):
/// the grey cell is denoised and binarized as a whole (so that local
/// thresholds see the whole cell), specks of fewer than `MIN_SPECK_AREA`
/// pixels are removed, and the ink pixels of the inner area counted. A cell
/// too small to have an inner area measures 0 of 0.
pub fn measure_inner_black_ratio(gray: &[u8], w: u32, h: u32) -> (r: InkCount)
    requires
        (w as int) * (h as int) <= i32::MAX,
        gray@.len() == (w as int) * (h as int),
    ensures
        r == spec_inner_ink(gray@, w as int, h as int),
{
    let mx: u32 = ((2 * (w as u64) + 5) / 10) as u32;
    let my: u32 = ((2 * (h as u64) + 5) / 10) as u32;
    proof {
        lemma_inner_margin(w as int);
        lemma_inner_margin(h as int);
    }
    let ex = w - mx;
    let ey = h - my;
    if mx >= ex || my >= ey {
        return InkCount { black: 0, total: 0 };
    }
    let mut binary = denoised_binary(gray, w, h);
    let ghost b0 = binary@;
    remove_small_black_components(binary.as_mut_slice(), w, h, MIN_SPECK_AREA);
    proof {
        assert(binary@ =~= spec_remove_specks(b0, w as int, h as int, MIN_SPECK_AREA as int));
    }
    let hist = tile_histogram(binary.as_slice(), w, h, mx as usize, ex as usize, my as usize, ey as usize);
    let black = hist[0];
    proof {
        assert(black <= ((ex - mx) as int) * ((ey - my) as int));
        assert(((ex - mx) as int) * ((ey - my) as int) <= (w as int) * (h as int)) by (nonlinear_arith)
            requires
                0 <= ex - mx <= w,
                0 <= ey - my <= h,
        ;
    }
    InkCount { black: black as usize, total: ((ex - mx) as usize) * ((ey - my) as usize) }
}

/// No pixel of row `y`, columns `[x0, x1)`, has value `v`: the row counts none.
proof fn lemma_row_count_none(g: Seq<u8>, w: int, y: int, x0: int, x1: int, v: int)
    requires
        forall|x: int| x0 <= x < x1 ==> #[trigger] g[crate::grid::index_of(w, x, y)] != v,
    ensures
        crate::clahe::row_count(g, w, y, x0, x1, v) == 0,
    decreases x1 - x0,
{
    if x1 > x0 {
        lemma_row_count_none(g, w, y, x0, x1 - 1, v);
    }
}

/// No pixel of the region has value `v`: the region counts none.
proof fn lemma_region_count_none(g: Seq<u8>, w: int, x0: int, x1: int, y0: int, y1: int, v: int)
    requires
        forall|x: int, y: int| x0 <= x < x1 && y0 <= y < y1 ==> #[trigger] g[crate::grid::index_of(w, x, y)] != v,
    ensures
        region_count(g, w, x0, x1, y0, y1, v) == 0,
    decreases y1 - y0,
{
    if y1 > y0 {
        lemma_region_count_none(g, w, x0, x1, y0, y1 - 1, v);
        assert forall|x: int| x0 <= x < x1 implies #[trigger] g[crate::grid::index_of(w, x, y1 - 1)] != v by {
            assert(g[crate::grid::index_of(w, x, y1 - 1)] != v);
        }
        lemma_row_count_none(g, w, y1 - 1, x0, x1, v);
    }
}

/// A cell whose only ink, once denoised and binarized, lies in specks (4-
/// connected components of fewer than `MIN_SPECK_AREA` pixels) measures no
/// ink at all: scan dust and colour residue do not make a blank cell
/// written in.
pub proof fn lemma_specks_measure_blank(g: Seq<u8>, w: int, h: int)
    requires
        0 <= w,
        0 <= h,
        forall|i: int|
            0 <= i < w * h && spec_denoised_binary(g, w, h)[i] == 0 ==> #[trigger] component(
                spec_denoised_binary(g, w, h),
                w,
                h,
                false,
                i,
            ).len() < MIN_SPECK_AREA,
    ensures
        spec_inner_ink(g, w, h).black == 0,
{
    let d = spec_denoised_binary(g, w, h);
    let s = spec_inner_binary(g, w, h);
    let mx = inner_margin(w);
    let my = inner_margin(h);
    if !(mx >= w - mx || my >= h - my) {
        assert forall|x: int, y: int| mx <= x < w - mx && my <= y < h - my implies #[trigger] s[crate::grid::index_of(
            w,
            x,
            y,
        )] != 0 by {
            crate::grid::lemma_index_of(w, h, x, y);
            let i = crate::grid::index_of(w, x, y);
            if d[i] == 0 {
                assert(component(d, w, h, false, i).len() < MIN_SPECK_AREA);
            }
        }
        lemma_region_count_none(s, w, mx, w - mx, my, h - my, 0);
    }
}

/// A cell whose ink, once denoised and binarized, lies in components of at
/// least `MIN_SPECK_AREA` pixels measures all of it: the inner ink count is
/// the count of ink pixels of the inner area of the denoised binary image.
pub proof fn lemma_strokes_measured_whole(g: Seq<u8>, w: int, h: int)
    requires
        0 <= w,
        0 <= h,
        forall|i: int|
            0 <= i < w * h && spec_denoised_binary(g, w, h)[i] == 0 ==> #[trigger] component(
                spec_denoised_binary(g, w, h),
                w,
                h,
                false,
                i,
            ).len() >= MIN_SPECK_AREA,
    ensures
        inner_margin(w) < w - inner_margin(w) && inner_margin(h) < h - inner_margin(h) ==> spec_inner_ink(
            g,
            w,
            h,
        ).black == region_count(
            spec_denoised_binary(g, w, h),
            w,
            inner_margin(w),
            w - inner_margin(w),
            inner_margin(h),
            h - inner_margin(h),
            0,
        ) as usize,
{
    let d = spec_denoised_binary(g, w, h);
    let s = spec_inner_binary(g, w, h);
    assert(s =~= d);
}

/// The ink of a check box: the ink pixels of the whole denoised box; an empty
/// box has 0 of 0.
pub open spec fn spec_check_ink(g: Seq<u8>, w: int, h: int) -> InkCount {
    if w == 0 || h == 0 {
        InkCount { black: 0, total: 0 }
    } else {
        InkCount { black: count_zero(spec_denoised_binary(g, w, h)) as usize, total: (w * h) as usize }
    }
}

/// A box is checked when at least 2% of it is ink.
pub open spec fn spec_mark_of(c: InkCount) -> CheckMark {
    if c.spec_is_blank() {
        CheckMark::Empty
    } else {
        CheckMark::Check
    }
}

/// Reads a check box: the denoised binary box is counted, and the box is
/// checked when at least 2% of it is ink. An empty box reads empty, 0 of 0.
pub fn analyze_check_mark(gray: &[u8], w: u32, h: u32) -> (r: (CheckMark, InkCount))
    requires
        (w as int) * (h as int) <= i32::MAX,
        gray@.len() == (w as int) * (h as int),
    ensures
        r.1 == spec_check_ink(gray@, w as int, h as int),
        r.0 == spec_mark_of(r.1),
{
    if w == 0 || h == 0 {
        return (CheckMark::Empty, InkCount { black: 0, total: 0 });
    }
    let binary = denoised_binary(gray, w, h);
    let black = count_black(binary.as_slice());
    let count = InkCount { black, total: (w as usize) * (h as usize) };
    let mark = if count.is_blank() {
        CheckMark::Empty
    } else {
        CheckMark::Check
    };
    (mark, count)
}

/// Reads one cell of a character: its inner ink decides whether it is blank
/// (under 2% ink), and its check box is read.
pub fn read_slot(
    cell_index: usize,
    cell_gray: &[u8],
    cell_w: u32,
    cell_h: u32,
    check_gray: &[u8],
    check_w: u32,
    check_h: u32,
) -> (s: SlotResult)
    requires
        (cell_w as int) * (cell_h as int) <= i32::MAX,
        cell_gray@.len() == (cell_w as int) * (cell_h as int),
        (check_w as int) * (check_h as int) <= i32::MAX,
        check_gray@.len() == (check_w as int) * (check_h as int),
    ensures
        s.cell_index == cell_index,
        s.ink == spec_inner_ink(cell_gray@, cell_w as int, cell_h as int),
        s.is_empty == s.ink.spec_is_blank(),
        s.check_ink == spec_check_ink(check_gray@, check_w as int, check_h as int),
        s.check_mark == spec_mark_of(s.check_ink),
{
    let ink = measure_inner_black_ratio(cell_gray, cell_w, cell_h);
    let is_empty = ink.is_blank();
    let (check_mark, check_ink) = analyze_check_mark(check_gray, check_w, check_h);
    SlotResult { cell_index, is_empty, ink, check_mark, check_ink }
}

/// Ink-bleed compensation as a spec: erosion unless the image has fewer than 8
/// ink pixels or erosion would keep less than half of them.
pub open spec fn spec_compensate(b: Seq<u8>, w: int, h: int) -> Seq<u8> {
    if count_zero(b) < 8 || 2 * count_zero(spec_erode(b, w, h)) < count_zero(b) {
        b
    } else {
        spec_erode(b, w, h)
    }
}

/// The open-closed hybrid binarization of a CLAHE-equalized grey cell.
pub open spec fn spec_cell_binary(g: Seq<u8>, w: int, h: int) -> Seq<u8> {
    spec_open_close(spec_hybrid(spec_clahe(g, w, h), w, h), w, h)
}

/// Binarizes a grey cell for vectorization and gates its quality: CLAHE,
/// hybrid binarization, opening-closing, the quality gate, then ink-bleed
/// compensation (after the filtering, so that erosion cannot pull residue out of
/// the border band). An empty cell gives an empty image and the empty quality.
pub fn binarize_with_quality(gray: &[u8], w: u32, h: u32) -> (r: (Vec<u8>, CellQuality))
    requires
        (w as int) * (h as int) <= i32::MAX,
        gray@.len() == (w as int) * (h as int),
    ensures
        (w == 0 || h == 0) ==> r.0@.len() == 0 && r.1 == CellQuality::spec_empty(),
        (w > 0 && h > 0) ==> {
            let b = spec_cell_binary(gray@, w as int, h as int);
            &&& r.0@ == spec_compensate(spec_gate(b, w as int, h as int), w as int, h as int)
            &&& r.1 == spec_gate_quality(b, w as int, h as int)
        },
{
    if w == 0 || h == 0 {
        return (Vec::new(), CellQuality::empty());
    }
    let g = apply_clahe(gray, w, h);
    let b = binarize_hybrid(g.as_slice(), w, h);
    let mut binary = morphological_open_close(b.as_slice(), w, h);
    let ghost b0 = binary@;
    assert(b0.len() == (w as int) * (h as int));
    let quality = apply_cell_quality_gate(binary.as_mut_slice(), w, h);
    proof {
        assert(binary@ =~= spec_gate(b0, w as int, h as int));
    }
    let out = compensate_ink_bleed(binary.as_slice(), w, h);
    (out, quality)
}

/// Flags an adopted cell for review when its vectorization produced nothing,
/// whatever the cause (a guard emptied it, or the ink was lost before the
/// gate): an adopted cell that yields no glyph is never dropped silently.
pub fn flag_unvectorized(quality: &mut CellQuality, path_count: usize)
    ensures
        final(quality).needs_review == (old(quality).needs_review || path_count == 0),
        final(quality).removed_components == old(quality).removed_components,
        final(quality).removed_area == old(quality).removed_area,
        final(quality).kept_components == old(quality).kept_components,
        final(quality).kept_area == old(quality).kept_area,
        final(quality).total_pixels == old(quality).total_pixels,
{
    if path_count == 0 {
        quality.needs_review = true;
    }
}

} // verus!
