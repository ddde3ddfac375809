use mfc_cli::pagefix::{
    find_grid_line_x, is_overpaintable, paint_light_rect, paper_white_mode, region_rgb_sums,
    remove_cyan_pixels,
};

fn rgba(pixels: &[(u8, u8, u8)]) -> Vec<u8> {
    let mut v = Vec::new();
    for &(r, g, b) in pixels {
        v.extend_from_slice(&[r, g, b, 200]);
    }
    v
}

#[test]
fn cyan_pixels_become_white_ink_and_gray_stay() {
    let img = rgba(&[(100, 200, 210), (10, 60, 70), (200, 200, 200), (150, 153, 160), (150, 152, 160)]);
    let (out, n) = remove_cyan_pixels(&img);
    assert_eq!(n, 2);
    assert_eq!(&out[0..4], &[255, 255, 255, 255]);
    assert_eq!(&out[4..8], &[10, 60, 70, 200]);
    assert_eq!(&out[8..12], &[200, 200, 200, 200]);
    assert_eq!(&out[12..16], &[255, 255, 255, 255]);
    assert_eq!(&out[16..20], &[150, 152, 160, 200]);
}

#[test]
fn paper_level_is_the_most_frequent_light_luminance() {
    let mut px = vec![(230, 230, 230); 5];
    px.extend(vec![(240, 240, 240); 3]);
    px.extend(vec![(20, 20, 20); 9]);
    assert_eq!(paper_white_mode(&rgba(&px)), 230);
}

#[test]
fn paper_level_ties_take_the_lower_and_dark_pages_default() {
    let px = vec![(220, 220, 220), (200, 200, 200), (220, 220, 220), (200, 200, 200)];
    assert_eq!(paper_white_mode(&rgba(&px)), 200);
    assert_eq!(paper_white_mode(&rgba(&[(10, 10, 10), (99, 99, 99)])), 230);
    assert_eq!(paper_white_mode(&[]), 230);
}

#[test]
fn overpaint_threshold_is_luminance_150() {
    assert!(is_overpaintable(150, 150, 150));
    assert!(!is_overpaintable(149, 149, 149));
    assert!(is_overpaintable(0, 255, 255));
    assert!(!is_overpaintable(255, 0, 255));
}

#[test]
fn light_pixels_in_the_rectangle_are_painted() {
    // 3x2 image: paint columns 1..3 of row 0, clipped rectangle reaches past the image.
    let mut img = rgba(&[(200, 200, 200), (200, 200, 200), (20, 20, 20), (200, 200, 200), (200, 200, 200), (200, 200, 200)]);
    paint_light_rect(&mut img, 3, 2, 1, 9, 0, 1);
    assert_eq!(
        img,
        rgba(&[(200, 200, 200), (255, 255, 255), (20, 20, 20), (200, 200, 200), (200, 200, 200), (200, 200, 200)])
            .iter()
            .enumerate()
            .map(|(i, &v)| if i == 7 { 255 } else { v })
            .collect::<Vec<u8>>()
    );
}

#[test]
fn grid_line_search_prefers_nearest_then_first_scanned() {
    let w = 10usize;
    let h = 5usize;
    let mut b = vec![255u8; w * h];
    b[2 * w + 3] = 0; // row 2, two columns left of 5
    b[0 * w + 7] = 0; // row 0, two columns right of 5
    assert_eq!(find_grid_line_x(&b, 10, 5, 5, 2, 3), Some(7));
    b[4 * w + 6] = 0; // row 4, one column right: nearer
    assert_eq!(find_grid_line_x(&b, 10, 5, 5, 2, 3), Some(6));
    assert_eq!(find_grid_line_x(&b, 10, 5, 5, 2, 0), None);
    assert_eq!(find_grid_line_x(&vec![255u8; w * h], 10, 5, 5, 2, 3), None);
}

#[test]
fn grid_line_search_reads_the_top_row_for_rows_above() {
    let mut b = vec![255u8; 6 * 3];
    b[1] = 0;
    assert_eq!(find_grid_line_x(&b, 6, 3, 2, 0, 1), Some(1));
}

#[test]
fn region_sums_clip_to_the_image() {
    let img = rgba(&[(1, 2, 3), (4, 5, 6), (7, 8, 9), (10, 11, 12)]);
    assert_eq!(region_rgb_sums(&img, 2, 2, 0, 0, 2, 2), (22, 26, 30, 4));
    assert_eq!(region_rgb_sums(&img, 2, 2, 1, 0, 5, 5), (14, 16, 18, 2));
    assert_eq!(region_rgb_sums(&img, 2, 2, 3, 3, 2, 2), (0, 0, 0, 0));
}
