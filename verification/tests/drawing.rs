use mfc_cli::imagein::{decode_oriented_rgba, ImageDecodeError};
use mfc_cli::marker::disc_ink_count;
use mfc_cli::marks::{draw_check_tick, draw_x_mark};
use mfc_cli::raster::{
    binary_to_rgba, crop_rgba, draw_circle_outline, draw_filled_circle, draw_rect_outline, fill_rect,
    rotate_rgba,
};

const INK: [u8; 4] = [0, 0, 0, 255];

fn blank(w: usize, h: usize) -> Vec<u8> {
    vec![255u8; 4 * w * h]
}

/// The pixels set to `INK`, as (x, y) pairs in raster order.
fn inked(img: &[u8], w: usize) -> Vec<(usize, usize)> {
    img.chunks(4)
        .enumerate()
        .filter(|(_, p)| *p == INK)
        .map(|(i, _)| (i % w, i / w))
        .collect()
}

#[test]
fn fill_rect_clips_to_the_image() {
    let mut img = blank(4, 3);
    fill_rect(&mut img, 4, 3, 2, 1, 5, 5, INK);
    assert_eq!(inked(&img, 4), vec![(2, 1), (3, 1), (2, 2), (3, 2)]);
}

#[test]
fn rect_outline_draws_the_four_edges() {
    let mut img = blank(5, 5);
    draw_rect_outline(&mut img, 5, 5, 1, 1, 3, 3, INK);
    assert_eq!(
        inked(&img, 5),
        vec![(1, 1), (2, 1), (3, 1), (1, 2), (3, 2), (1, 3), (2, 3), (3, 3)]
    );
}

#[test]
fn rect_outline_past_the_edge_closes_on_the_last_row_and_column() {
    let mut img = blank(4, 3);
    draw_rect_outline(&mut img, 4, 3, 2, 1, 10, 10, INK);
    assert_eq!(inked(&img, 4), vec![(2, 1), (3, 1), (2, 2), (3, 2)]);
}

#[test]
fn filled_circle_of_radius_one_is_a_plus() {
    let mut img = blank(5, 5);
    draw_filled_circle(&mut img, 5, 5, 2, 2, 1, INK);
    assert_eq!(inked(&img, 5), vec![(2, 1), (1, 2), (2, 2), (3, 2), (2, 3)]);
    let mut none = blank(5, 5);
    draw_filled_circle(&mut none, 5, 5, 2, 2, -1, INK);
    assert!(inked(&none, 5).is_empty());
}

#[test]
fn circle_outline_leaves_the_centre() {
    let mut img = blank(7, 7);
    draw_circle_outline(&mut img, 7, 7, 3, 3, 2, 1, INK);
    let px = inked(&img, 7);
    assert!(!px.contains(&(3, 3)));
    assert!(px.contains(&(3, 1)) && px.contains(&(1, 3)) && px.contains(&(5, 3)) && px.contains(&(3, 5)));
    assert!(px.contains(&(2, 2)));
    assert!(px.contains(&(3, 2)));
    assert!(!px.contains(&(4, 1)));
    // Partly off the image: only the visible part is drawn.
    let mut edge = blank(3, 3);
    draw_filled_circle(&mut edge, 3, 3, 0, 0, 1, INK);
    assert_eq!(inked(&edge, 3), vec![(0, 0), (1, 0), (0, 1)]);
}

#[test]
fn crop_pads_with_white() {
    let mut img = blank(3, 2);
    img[4..8].copy_from_slice(&[1, 2, 3, 4]);
    let out = crop_rgba(&img, 3, 2, 1, 0, 3, 2);
    assert_eq!(out.len(), 4 * 6);
    assert_eq!(&out[0..4], &[1, 2, 3, 4]);
    assert_eq!(&out[8..12], &[255, 255, 255, 255]);
    assert!(crop_rgba(&img, 3, 2, 0, 0, 0, 5).is_empty());
}

#[test]
fn binary_becomes_black_and_white() {
    assert_eq!(binary_to_rgba(&[0, 7, 255], 3, 1), vec![0, 0, 0, 255, 255, 255, 255, 255, 255, 255, 255, 255]);
}

#[test]
fn rotation_by_quarter_turns() {
    // 2x1 image: pixel A at (0,0), pixel B at (1,0).
    let a = [1u8, 1, 1, 1];
    let b = [2u8, 2, 2, 2];
    let img: Vec<u8> = a.iter().chain(b.iter()).copied().collect();
    let (r90, w90, h90) = rotate_rgba(&img, 2, 1, 90);
    assert_eq!((w90, h90), (1, 2));
    assert_eq!(r90, [a, b].concat());
    let (r180, w, h) = rotate_rgba(&img, 2, 1, 180);
    assert_eq!((w, h), (2, 1));
    assert_eq!(r180, [b, a].concat());
    let (r270, _, _) = rotate_rgba(&img, 2, 1, 270);
    assert_eq!(r270, [b, a].concat());
    let (r45, w, h) = rotate_rgba(&img, 2, 1, 45);
    assert_eq!((r45, w, h), (img.clone(), 2, 1));
    // Four quarter turns give the image back.
    let sq: Vec<u8> = (0..16u8).collect();
    let mut cur = (sq.clone(), 2u32, 2u32);
    for _ in 0..4 {
        cur = rotate_rgba(&cur.0, cur.1, cur.2, 90);
    }
    assert_eq!(cur.0, sq);
}

#[test]
fn disc_counts_ink_and_pixels() {
    // 5x5 binary with ink at the centre and one corner.
    let mut b = vec![255u8; 25];
    b[12] = 0;
    b[0] = 0;
    assert_eq!(disc_ink_count(&b, 5, 5, 2, 2, 1), (1, 5));
    assert_eq!(disc_ink_count(&b, 5, 5, 0, 0, 1), (1, 3));
    assert_eq!(disc_ink_count(&b, 5, 5, 10, 10, 2), (0, 0));
}

#[test]
fn cross_is_two_three_pixel_bars() {
    let mut img = blank(7, 7);
    mfc_cli::raster::draw_cross(&mut img, 7, 7, 3, 3, 2, INK);
    let px = inked(&img, 7);
    assert_eq!(px.len(), 5 * 3 * 2 - 9);
    assert!(px.contains(&(1, 2)) && px.contains(&(5, 4)) && px.contains(&(2, 1)) && px.contains(&(4, 5)));
    assert!(!px.contains(&(1, 1)) && !px.contains(&(0, 3)));
    let mut edge = blank(3, 3);
    mfc_cli::raster::draw_cross(&mut edge, 3, 3, 0, 0, 0, INK);
    assert_eq!(inked(&edge, 3), vec![(0, 0), (1, 0), (0, 1)]);
}

/// The tick as the page fixture lays it out, pixel by pixel.
fn tick_by_loops(img: &mut [u8], w: u32, h: u32, mid_x: u32, mid_y: u32, check_h: u32) {
    let mut put = |px: u32, py: u32| {
        let i = 4 * (py as usize * w as usize + px as usize);
        img[i..i + 4].copy_from_slice(&INK);
    };
    let arm = (check_h as i32).max(8);
    for i in 0..arm {
        for t in -2i32..=2 {
            let px = (mid_x as i32 - arm / 2 + i) as u32;
            let py = (mid_y as i32 - arm / 4 + i / 2 + t) as u32;
            if px < w && py < h {
                put(px, py);
            }
        }
    }
    for i in 0..(arm * 2) {
        for t in -2i32..=2 {
            let px = (mid_x as i32 - arm / 2 + arm + i) as u32;
            let py = (mid_y as i32 + arm / 4 - i / 3 + t) as u32;
            if px < w && py > 0 && py < h {
                put(px, py);
            }
        }
    }
}

/// The cross as the page fixture lays it out, pixel by pixel.
fn x_mark_by_loops(img: &mut [u8], w: u32, h: u32, check_x: u32, check_y: u32, cell_px: u32, check_h: u32) {
    let mut put = |px: u32, py: u32| {
        let i = 4 * (py as usize * w as usize + px as usize);
        img[i..i + 4].copy_from_slice(&INK);
    };
    let margin = 4u32;
    let span = cell_px - margin * 2;
    let rise = check_h - margin;
    for i in 0..span {
        let x1 = check_x + margin + i;
        let y1 = check_y + margin / 2 + (i * rise / span);
        let y2 = check_y + check_h - margin / 2 - (i * rise / span);
        for dy in 0..3 {
            if x1 < w {
                if y1 + dy < h {
                    put(x1, y1 + dy);
                }
                if y2 + dy < h {
                    put(x1, y2 + dy);
                }
            }
        }
    }
}

#[test]
fn tick_follows_the_two_strokes() {
    let (w, h) = (70u32, 40u32);
    let mut img = blank(w as usize, h as usize);
    draw_check_tick(&mut img, w, h, 20, 18, 12, INK);
    let mut expected = blank(w as usize, h as usize);
    tick_by_loops(&mut expected, w, h, 20, 18, 12);
    assert_eq!(img, expected);
    // the short stroke starts half an arm left of the centre, a quarter above it
    assert!(inked(&img, w as usize).contains(&(14, 13)));
    assert!(!inked(&img, w as usize).contains(&(13, 15)));
}

#[test]
fn tick_at_the_corner_drops_what_falls_off() {
    let (w, h) = (30u32, 20u32);
    let mut img = blank(w as usize, h as usize);
    draw_check_tick(&mut img, w, h, 1, 1, 3, INK);
    let mut expected = blank(w as usize, h as usize);
    tick_by_loops(&mut expected, w, h, 1, 1, 3);
    assert_eq!(img, expected);
    // the long stroke leaves row 0 alone, the short one does not
    let ink = inked(&img, w as usize);
    assert!(ink.contains(&(0, 0)));
    assert!(!ink.iter().any(|&(x, y)| y == 0 && x >= 5));
}

#[test]
fn x_mark_follows_the_two_diagonals() {
    let (w, h) = (50u32, 40u32);
    let mut img = blank(w as usize, h as usize);
    draw_x_mark(&mut img, w, h, 2, 3, 30, 20, INK);
    let mut expected = blank(w as usize, h as usize);
    x_mark_by_loops(&mut expected, w, h, 2, 3, 30, 20);
    assert_eq!(img, expected);
}

#[test]
fn x_mark_small_cell_exact_pixels() {
    let mut img = blank(12, 12);
    draw_x_mark(&mut img, 12, 12, 0, 0, 12, 8, INK);
    let mut ink = inked(&img, 12);
    ink.sort();
    // columns 4..8, k = column - 4; bands [2 + k, 5 + k) and [6 - k, 9 - k)
    let mut expected = Vec::new();
    for k in 0..4usize {
        for y in (2 + k..5 + k).chain(6 - k..9 - k) {
            if !expected.contains(&(4 + k, y)) {
                expected.push((4 + k, y));
            }
        }
    }
    expected.sort();
    assert_eq!(ink, expected);
}

#[test]
fn x_mark_past_the_edge_is_clipped() {
    let (w, h) = (20u32, 10u32);
    let mut img = blank(w as usize, h as usize);
    draw_x_mark(&mut img, w, h, 10, 2, 30, 20, INK);
    let mut expected = blank(w as usize, h as usize);
    x_mark_by_loops(&mut expected, w, h, 10, 2, 30, 20);
    assert_eq!(img, expected);
    assert!(!inked(&img, w as usize).is_empty());
}

#[test]
fn x_mark_in_the_narrowest_cell_draws_nothing() {
    let mut img = blank(10, 10);
    draw_x_mark(&mut img, 10, 10, 0, 0, 8, 6, INK);
    assert!(inked(&img, 10).is_empty());
}

#[test]
fn turning_back_gives_the_image_again() {
    let (w, h) = (5u32, 3u32);
    let img: Vec<u8> = (0..4 * w * h).map(|i| (i * 7 % 251) as u8).collect();
    for (d, back) in [(90u32, 270u32), (270, 90), (180, 180), (0, 0), (45, 45)] {
        let (t, tw, th) = rotate_rgba(&img, w, h, d);
        let (u, uw, uh) = rotate_rgba(&t, tw, th, back);
        assert_eq!((uw, uh), (w, h));
        assert_eq!(u, img, "turn {d} then {back}");
    }
}

#[test]
fn decode_oriented_rgba_reads_png_pixels() {
    let (w, h) = (3u32, 2u32);
    let raw: Vec<u8> = (0..4 * w * h).map(|i| (i * 11 % 256) as u8).collect();
    let img = image::RgbaImage::from_raw(w, h, raw.clone()).unwrap();
    let mut png = Vec::new();
    img.write_to(&mut std::io::Cursor::new(&mut png), image::ImageFormat::Png).unwrap();
    let (px, dw, dh) = decode_oriented_rgba(&png).unwrap();
    assert_eq!((dw, dh), (w, h));
    assert_eq!(px, raw);
    assert!(matches!(decode_oriented_rgba(b"not an image"), Err(ImageDecodeError::DecoderInit(_))));
}
