//! Template page layout: the character grid and page size in pixels at 300 dpi.
use vstd::prelude::*;

verus! {

/// Number of character columns on a page.
pub const COLS: usize = 4;

/// Number of character rows on a page.
pub const ROWS: usize = 12;

/// Row of the grid cell occupied by the centre marker.
pub const SKIPPED_ROW: usize = 6;

/// Column of the grid cell occupied by the centre marker.
pub const SKIPPED_COL: usize = 2;

/// Characters per page: every grid cell but the one under the centre marker.
pub const CHARS_PER_PAGE: usize = 47;

/// Page width in millimetres (A4).
pub const PAGE_WIDTH_MM: u32 = 210;

/// Page height in millimetres (A4).
pub const PAGE_HEIGHT_MM: u32 = 297;

/// Millimetres to pixels at 300 dpi, rounded to the nearest pixel
/// (`mm * 300 / 25.4`, halves rounded up).
pub open spec fn spec_mm_to_px_round(mm: int) -> int {
    (6000 * mm + 254) / 508
}

/// Whether `(row, col)` is the grid cell taken by the centre marker.
pub open spec fn spec_is_skipped(row: int, col: int) -> bool {
    row == SKIPPED_ROW && col == SKIPPED_COL
}

/// The character index of a grid cell: cells are numbered row by row, and the
/// skipped cell has no index, so the cells after it shift down by one.
pub open spec fn spec_char_index(row: int, col: int) -> Option<int> {
    if spec_is_skipped(row, col) {
        None
    } else {
        let linear = row * COLS + col;
        if linear < SKIPPED_ROW * COLS + SKIPPED_COL {
            Some(linear)
        } else {
            Some(linear - 1)
        }
    }
}

/// Millimetres to whole pixels at 300 dpi.
pub fn mm_to_px_round(mm: u32) -> (px: u32)
    requires
        mm <= 100_000,
    ensures
        px == spec_mm_to_px_round(mm as int),
{
    ((6000u64 * mm as u64 + 254) / 508) as u32
}

/// Page image width in pixels at 300 dpi.
pub fn image_width() -> (w: u32)
    ensures
        w == spec_mm_to_px_round(PAGE_WIDTH_MM as int),
        w == 2480,
{
    mm_to_px_round(PAGE_WIDTH_MM)
}

/// Page image height in pixels at 300 dpi.
pub fn image_height() -> (h: u32)
    ensures
        h == spec_mm_to_px_round(PAGE_HEIGHT_MM as int),
        h == 3508,
{
    mm_to_px_round(PAGE_HEIGHT_MM)
}

/// Whether the grid cell is the one occupied by the centre marker.
pub fn is_skipped_cell(row: usize, col: usize) -> (skipped: bool)
    ensures
        skipped == spec_is_skipped(row as int, col as int),
{
    row == SKIPPED_ROW && col == SKIPPED_COL
}

/// Character index (0 to 46 on a page) of a grid cell; `None` for the cell
/// under the centre marker.
pub fn grid_to_char_index(row: usize, col: usize) -> (idx: Option<usize>)
    requires
        row * COLS + col <= usize::MAX,
    ensures
        match idx {
            Some(i) => spec_char_index(row as int, col as int) == Some(i as int),
            None => spec_char_index(row as int, col as int) is None,
        },
{
    if is_skipped_cell(row, col) {
        return None;
    }
    let linear = row * COLS + col;
    let skip_linear = SKIPPED_ROW * COLS + SKIPPED_COL;
    if linear < skip_linear {
        Some(linear)
    } else {
        Some(linear - 1)
    }
}

/// Every grid cell but the skipped one gets an index below `CHARS_PER_PAGE`,
/// and no two cells share an index.
pub proof fn lemma_char_index_injective(r1: int, c1: int, r2: int, c2: int)
    requires
        0 <= r1 < ROWS,
        0 <= c1 < COLS,
        0 <= r2 < ROWS,
        0 <= c2 < COLS,
        !spec_is_skipped(r1, c1),
        !spec_is_skipped(r2, c2),
        spec_char_index(r1, c1) == spec_char_index(r2, c2),
    ensures
        r1 == r2 && c1 == c2,
        0 <= spec_char_index(r1, c1).unwrap() < CHARS_PER_PAGE,
{
}

/// Every index below `CHARS_PER_PAGE` belongs to exactly one grid cell: the
/// numbering is onto, so a page holds exactly `CHARS_PER_PAGE` characters.
pub proof fn lemma_char_index_onto(k: int)
    requires
        0 <= k < CHARS_PER_PAGE,
    ensures
        ({
            let linear = if k < SKIPPED_ROW * COLS + SKIPPED_COL { k } else { k + 1 };
            let row = linear / (COLS as int);
            let col = linear % (COLS as int);
            &&& 0 <= row < ROWS
            &&& 0 <= col < COLS
            &&& !spec_is_skipped(row, col)
            &&& spec_char_index(row, col) == Some(k)
        }),
{
}

} // verus!
