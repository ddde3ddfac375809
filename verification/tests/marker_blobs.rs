use mfc_cli::blobs::{extract_blobs, Blob};
use mfc_cli::marker::{binarize, gray_histogram, mask_border_background, orientation_from_counts};

fn page(w: usize, h: usize, ink: &[(usize, usize)]) -> Vec<u8> {
    let mut b = vec![255u8; w * h];
    for &(x, y) in ink {
        b[y * w + x] = 0;
    }
    b
}

#[test]
fn binarize_threshold_is_inclusive() {
    let out = binarize(&[0, 99, 100, 101, 255], 100);
    assert_eq!(out, vec![0, 0, 0, 255, 255]);
}

#[test]
fn blobs_are_four_connected_and_ordered_by_first_pixel() {
    // 6x4 page: an L-shaped blob at the top left, a diagonal neighbour that
    // stays separate, and a pair on the right.
    let ink = [(0, 0), (1, 0), (0, 1), (2, 2), (4, 1), (5, 1)];
    let b = page(6, 4, &ink);
    let blobs = extract_blobs(&b, 6, 4, 0, 0, 6, 4);
    assert_eq!(
        blobs,
        vec![
            Blob { area: 3, sum_x: 1, sum_y: 1, min_x: 0, max_x: 1, min_y: 0, max_y: 1 },
            Blob { area: 2, sum_x: 9, sum_y: 2, min_x: 4, max_x: 5, min_y: 1, max_y: 1 },
            Blob { area: 1, sum_x: 2, sum_y: 2, min_x: 2, max_x: 2, min_y: 2, max_y: 2 },
        ]
    );
    assert_eq!(blobs[0].width(), 2);
    assert_eq!(blobs[0].height(), 2);
}

#[test]
fn blobs_use_page_coordinates_of_the_region() {
    let ink = [(3, 2), (4, 2), (4, 3)];
    let b = page(8, 6, &ink);
    let blobs = extract_blobs(&b, 8, 6, 2, 1, 7, 5);
    assert_eq!(
        blobs,
        vec![Blob { area: 3, sum_x: 11, sum_y: 7, min_x: 3, max_x: 4, min_y: 2, max_y: 3 }]
    );
}

#[test]
fn blobs_past_the_edge_read_the_last_column() {
    // The region reaches two columns past a 3-wide page: those columns repeat
    // the last column, whose top pixel is ink.
    let b = page(3, 2, &[(2, 0)]);
    let blobs = extract_blobs(&b, 3, 2, 1, 0, 5, 1);
    assert_eq!(
        blobs,
        vec![Blob { area: 3, sum_x: 9, sum_y: 0, min_x: 2, max_x: 4, min_y: 0, max_y: 0 }]
    );
}

#[test]
fn blobs_of_an_empty_region() {
    let b = page(4, 4, &[(1, 1)]);
    assert!(extract_blobs(&b, 4, 4, 2, 2, 2, 4).is_empty());
    assert!(extract_blobs(&[], 0, 0, 0, 0, 0, 0).is_empty());
}

#[test]
fn blob_areas_add_up_to_the_ink() {
    let ink = [(0, 0), (2, 0), (2, 1), (1, 3), (3, 3), (3, 2), (0, 2)];
    let b = page(4, 4, &ink);
    let blobs = extract_blobs(&b, 4, 4, 0, 0, 4, 4);
    let total: u32 = blobs.iter().map(|b| b.area).sum();
    assert_eq!(total, ink.len() as u32);
    assert_eq!(blobs.len(), 5);
}

#[test]
fn border_background_is_cleared_interior_kept() {
    // 6x5: a band from the left edge reaching inward, and a separate blob inside.
    let ink = [(0, 2), (1, 2), (2, 2), (2, 1), (4, 2), (4, 3)];
    let mut b = page(6, 5, &ink);
    mask_border_background(&mut b, 6, 5);
    assert_eq!(b, page(6, 5, &[(4, 2), (4, 3)]));
}

#[test]
fn border_background_whole_frame() {
    let w = 5;
    let h = 4;
    let mut ink = Vec::new();
    for x in 0..w {
        ink.push((x, 0));
        ink.push((x, h - 1));
    }
    ink.push((2, 1));
    ink.push((2, 2));
    let mut b = page(w, h, &ink);
    mask_border_background(&mut b, w as u32, h as u32);
    assert!(b.iter().all(|&v| v == 255));
}

#[test]
fn histogram_counts_each_grey_value() {
    let gray = [0u8, 255, 7, 7, 128, 7, 0];
    let hist = gray_histogram(&gray);
    assert_eq!(hist.len(), 256);
    assert_eq!(hist[0], 2);
    assert_eq!(hist[7], 3);
    assert_eq!(hist[128], 1);
    assert_eq!(hist[255], 1);
    assert_eq!(hist.iter().sum::<u64>(), gray.len() as u64);
    assert!(gray_histogram(&[]).iter().all(|&c| c == 0));
}

#[test]
fn orientation_picks_the_first_densest_marker() {
    assert_eq!(orientation_from_counts([(900, 2800), (100, 2800), (120, 2800), (90, 2800)]), (0, 0));
    assert_eq!(orientation_from_counts([(10, 100), (50, 100), (50, 100), (0, 0)]), (1, 270));
    assert_eq!(orientation_from_counts([(10, 100), (5, 100), (30, 60), (0, 0)]), (2, 90));
    assert_eq!(orientation_from_counts([(1, 100), (1, 100), (1, 100), (3, 200)]), (3, 180));
    // empty discs count as density 0; all equal keeps the first
    assert_eq!(orientation_from_counts([(0, 0), (0, 10), (0, 0), (0, 5)]), (0, 0));
}
