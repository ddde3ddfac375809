use mfc_cli::layout::{
    grid_to_char_index, image_height, image_width, is_skipped_cell, CHARS_PER_PAGE, COLS, ROWS,
    SKIPPED_COL, SKIPPED_ROW,
};

#[test]
fn chars_per_page_is_47() {
    assert_eq!(CHARS_PER_PAGE, 47);
}

#[test]
fn skipped_cell_is_excluded() {
    assert!(is_skipped_cell(SKIPPED_ROW, SKIPPED_COL));
    assert!(!is_skipped_cell(0, 0));
    assert!(!is_skipped_cell(SKIPPED_ROW, 0));
}

#[test]
fn grid_to_char_index_covers_47() {
    let mut count = 0;
    for row in 0..ROWS {
        for col in 0..COLS {
            if let Some(idx) = grid_to_char_index(row, col) {
                assert!(idx < CHARS_PER_PAGE, "idx={idx} out of range");
                count += 1;
            }
        }
    }
    assert_eq!(count, CHARS_PER_PAGE);
}

#[test]
fn skipped_cell_correct() {
    assert!(is_skipped_cell(6, 2));
    assert!(!is_skipped_cell(5, 2));
    assert!(!is_skipped_cell(6, 1));
    assert!(!is_skipped_cell(0, 0));
    assert!(!is_skipped_cell(11, 3));
}

#[test]
fn char_index_is_row_major_skipping_the_marker() {
    assert_eq!(grid_to_char_index(0, 0), Some(0));
    assert_eq!(grid_to_char_index(6, 1), Some(25));
    assert_eq!(grid_to_char_index(6, 2), None);
    assert_eq!(grid_to_char_index(6, 3), Some(26));
    assert_eq!(grid_to_char_index(11, 3), Some(46));
}

#[test]
fn char_indices_are_distinct() {
    let mut seen = vec![false; CHARS_PER_PAGE];
    for row in 0..ROWS {
        for col in 0..COLS {
            if let Some(idx) = grid_to_char_index(row, col) {
                assert!(!seen[idx]);
                seen[idx] = true;
            }
        }
    }
    assert!(seen.iter().all(|&s| s));
}

#[test]
fn page_size_in_pixels() {
    // A4 at 300 dpi, rounded.
    assert_eq!(image_width(), 2480);
    assert_eq!(image_height(), 3508);
}
