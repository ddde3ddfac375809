use mfc_cli::binarize::{binarize_hybrid, global_binarize, rect_sum, sauvola_binarize, SAUVOLA_WINDOW};
use mfc_cli::clahe::apply_clahe;
use mfc_cli::components::remove_small_black_components;
use mfc_cli::filters::{detect_moire, median_filter_3x3};
use mfc_cli::morphology::{
    compensate_ink_bleed, morphological_dilate, morphological_erode, morphological_open_close,
};
use mfc_cli::quality::MIN_SPECK_AREA;

#[test]
fn compensate_ink_bleed_shrinks_thick_stroke() {
    let w = 12u32;
    let h = 12u32;
    let mut binary = vec![255u8; (w * h) as usize];
    for y in 2..9 {
        for x in 2..9 {
            binary[(y * w + x) as usize] = 0;
        }
    }
    let before_black = binary.iter().filter(|&&v| v == 0).count();
    let out = compensate_ink_bleed(&binary, w, h);
    let after_black = out.iter().filter(|&&v| v == 0).count();
    assert!(after_black < before_black, "太いストロークは erosion で縮小するはず");
    assert_eq!(after_black, 25, "7x7 の 1px erosion 後は 5x5 = 25px");
}

#[test]
fn compensate_ink_bleed_preserves_thin_stroke() {
    let w = 9u32;
    let h = 9u32;
    let mut binary = vec![255u8; (w * h) as usize];
    for y in 1..8 {
        binary[(y * w + 4) as usize] = 0;
    }
    let original = binary.clone();
    let out = compensate_ink_bleed(&binary, w, h);
    assert_eq!(out, original, "細すぎるストロークは補正キャンセルで原形保持");
}

#[test]
fn compensate_ink_bleed_ignores_empty_cell() {
    let w = 9u32;
    let h = 9u32;
    let mut binary = vec![255u8; (w * h) as usize];
    binary[0] = 0;
    let original = binary.clone();
    let out = compensate_ink_bleed(&binary, w, h);
    assert_eq!(out, original, "ほぼ空白のセルは補正しない");
}

#[test]
fn remove_small_components_drops_specks_keeps_strokes() {
    let w = 20u32;
    let h = 20u32;
    let mut binary = vec![255u8; (w * h) as usize];
    for y in 1..3 {
        for x in 1..3 {
            binary[(y * w + x) as usize] = 0;
        }
    }
    for y in 10..16 {
        for x in 10..16 {
            binary[(y * w + x) as usize] = 0;
        }
    }
    remove_small_black_components(&mut binary, w, h, MIN_SPECK_AREA);
    assert_eq!(binary[(w + 1) as usize], 255, "面積4のスペックは消えるべき");
    assert_eq!(binary[(12 * w + 12) as usize], 0, "面積36のブロックは残るべき");
}

#[test]
fn remove_small_components_keeps_thin_stroke() {
    let w = 20u32;
    let h = 20u32;
    let mut binary = vec![255u8; (w * h) as usize];
    for x in 2..17 {
        binary[(10 * w + x) as usize] = 0;
    }
    remove_small_black_components(&mut binary, w, h, MIN_SPECK_AREA);
    assert_eq!(binary[(10 * w + 9) as usize], 0, "面積15の細線は残るべき");
}

#[test]
fn remove_small_components_short_buffer_untouched() {
    let mut short = vec![0u8; 5];
    remove_small_black_components(&mut short, 4, 4, MIN_SPECK_AREA);
    assert_eq!(short, vec![0u8; 5]);
}

#[test]
fn remove_small_components_uses_four_connectivity() {
    // Two diagonal pixels are two components of area 1 under 4-connectivity.
    let w = 6u32;
    let h = 6u32;
    let mut binary = vec![255u8; (w * h) as usize];
    binary[(2 * w + 2) as usize] = 0;
    binary[(3 * w + 3) as usize] = 0;
    remove_small_black_components(&mut binary, w, h, 2);
    assert!(binary.iter().all(|&v| v == 255));
}

#[test]
fn rect_sum_single_pixel_at_origin() {
    let integral: Vec<i64> = vec![1, 2, 3, 2, 4, 6, 3, 6, 9];
    assert_eq!(rect_sum(&integral, 3, 0, 0, 0, 0), 1);
    assert_eq!(rect_sum(&integral, 3, 0, 0, 2, 2), 9);
    assert_eq!(rect_sum(&integral, 3, 1, 1, 2, 2), 4);
}

#[test]
fn rect_sum_interior_window() {
    // Integral of a 3x3 image of ones: the middle column sums to 3.
    let integral: Vec<i64> = vec![1, 2, 3, 2, 4, 6, 3, 6, 9];
    assert_eq!(rect_sum(&integral, 3, 1, 0, 1, 2), 3);
    assert_eq!(rect_sum(&integral, 3, 0, 1, 2, 1), 3);
}

#[test]
fn erode_removes_isolated_black_pixel() {
    let w = 5u32;
    let h = 5u32;
    let mut binary = vec![255u8; (w * h) as usize];
    binary[(2 * w + 2) as usize] = 0;
    let result = morphological_erode(&binary, w, h);
    assert_eq!(result[(2 * w + 2) as usize], 255, "孤立黒点がErodeで消えるべき");
    assert!(result.iter().all(|&v| v == 255), "全ピクセルが白であるべき");
}

#[test]
fn dilate_removes_isolated_white_pixel() {
    let w = 5u32;
    let h = 5u32;
    let mut binary = vec![0u8; (w * h) as usize];
    binary[(2 * w + 2) as usize] = 255;
    let result = morphological_dilate(&binary, w, h);
    assert_eq!(result[(2 * w + 2) as usize], 0, "孤立白点がDilateで消えるべき");
    assert!(result.iter().all(|&v| v == 0), "全ピクセルが黒であるべき");
}

#[test]
fn open_close_removes_noise_preserves_stroke() {
    let w = 10u32;
    let h = 10u32;
    let mut binary = vec![255u8; (w * h) as usize];
    for y in 3..6u32 {
        for x in 3..6u32 {
            binary[(y * w + x) as usize] = 0;
        }
    }
    binary[0] = 0;
    let result = morphological_open_close(&binary, w, h);
    assert_eq!(result[0], 255, "孤立黒ノイズがOpeningで消えるべき");
    assert_eq!(result[(4 * w + 4) as usize], 0, "ストローク中心は保持されるべき");
}

#[test]
fn morphological_empty_image() {
    assert!(morphological_erode(&[], 0, 0).is_empty());
    assert!(morphological_dilate(&[], 0, 0).is_empty());
    assert!(morphological_open_close(&[], 0, 0).is_empty());
}

#[test]
fn erode_clears_ink_on_the_border() {
    // The outside of the image counts as background, so a full-ink image
    // keeps only its interior after erosion.
    let w = 4u32;
    let h = 3u32;
    let binary = vec![0u8; 12];
    let result = morphological_erode(&binary, w, h);
    let expected: Vec<u8> = vec![255, 255, 255, 255, 255, 0, 0, 255, 255, 255, 255, 255];
    assert_eq!(result, expected);
}

#[test]
fn clahe_uniform_image() {
    let w = 64u32;
    let h = 64u32;
    let gray = vec![128u8; (w * h) as usize];
    let result = apply_clahe(&gray, w, h);
    assert_eq!(result.len(), (w * h) as usize);
    let first = result[0];
    assert!(result.iter().all(|&v| v == first), "均一画像のCLAHE出力は均一であるべき");
}

#[test]
fn clahe_preserves_dimensions() {
    let w = 80u32;
    let h = 60u32;
    let gray: Vec<u8> = (0..(w * h)).map(|i| (i % 256) as u8).collect();
    let result = apply_clahe(&gray, w, h);
    assert_eq!(result.len(), gray.len(), "CLAHE出力サイズが入力と一致すべき");
}

#[test]
fn clahe_improves_contrast() {
    let w = 64u32;
    let h = 64u32;
    let gray: Vec<u8> = (0..(w * h)).map(|i| (118 + (i % 21)) as u8).collect();
    let input_min = *gray.iter().min().unwrap();
    let input_max = *gray.iter().max().unwrap();
    let input_range = input_max - input_min;
    let result = apply_clahe(&gray, w, h);
    let output_min = *result.iter().min().unwrap();
    let output_max = *result.iter().max().unwrap();
    let output_range = output_max - output_min;
    assert!(
        output_range > input_range,
        "CLAHEでダイナミックレンジが広がるべき: input={input_range}, output={output_range}"
    );
}

#[test]
fn clahe_tiny_image() {
    let gray = vec![128u8; 9];
    let result = apply_clahe(&gray, 3, 3);
    assert_eq!(result.len(), 9);
    let result = apply_clahe(&[], 0, 0);
    assert!(result.is_empty());
    let result = apply_clahe(&[200], 1, 1);
    assert_eq!(result.len(), 1);
}

#[test]
fn clahe_small_image_returned_as_is() {
    let gray: Vec<u8> = vec![10, 20, 30, 40, 50, 60];
    assert_eq!(apply_clahe(&gray, 3, 2), gray);
}

#[test]
fn detect_moire_uniform() {
    let w = 64u32;
    let h = 64u32;
    let gray = vec![128u8; (w * h) as usize];
    assert!(!detect_moire(&gray, w, h), "均一画像はモアレなしであるべき");
}

#[test]
fn detect_moire_stripe_pattern() {
    let w = 64u32;
    let h = 64u32;
    let gray: Vec<u8> = (0..(w * h))
        .map(|i| {
            let x = i % w;
            if x % 2 == 0 {
                0
            } else {
                255
            }
        })
        .collect();
    assert!(detect_moire(&gray, w, h), "縞模様画像はモアレありであるべき");
}

#[test]
fn detect_moire_needs_an_interior() {
    let gray: Vec<u8> = vec![0, 255, 0, 255, 0, 255];
    assert!(!detect_moire(&gray, 3, 2));
}

#[test]
fn median_filter_removes_salt_pepper() {
    let w = 8u32;
    let h = 8u32;
    let mut gray = vec![128u8; (w * h) as usize];
    gray[(3 * w + 3) as usize] = 255;
    gray[(4 * w + 4) as usize] = 0;
    let result = median_filter_3x3(&gray, w, h);
    assert_eq!(result.len(), (w * h) as usize);
    assert_eq!(result[(3 * w + 3) as usize], 128, "ソルトノイズが除去されるべき");
    assert_eq!(result[(4 * w + 4) as usize], 128, "ペッパーノイズが除去されるべき");
}

#[test]
fn median_filter_empty() {
    let result = median_filter_3x3(&[], 0, 0);
    assert!(result.is_empty(), "空画像は空Vecを返すべき");
}

#[test]
fn median_filter_corner_takes_upper_median() {
    // A corner pixel has 4 neighbours {0, 0, 100, 200}: the sorted list's
    // element at index 2 is 100.
    let gray: Vec<u8> = vec![0, 100, 0, 200];
    let result = median_filter_3x3(&gray, 2, 2);
    assert_eq!(result, vec![100, 100, 100, 100]);
}

#[test]
fn sauvola_uniform_white() {
    let w = 50u32;
    let h = 50u32;
    let gray = vec![255u8; (w * h) as usize];
    let binary = sauvola_binarize(&gray, w, h, SAUVOLA_WINDOW);
    let black_count = binary.iter().filter(|&&v| v == 0).count();
    assert_eq!(black_count, 0, "均一白画像は全白であるべき");
}

#[test]
fn sauvola_uniform_black() {
    let w = 50u32;
    let h = 50u32;
    let gray = vec![0u8; (w * h) as usize];
    let binary = sauvola_binarize(&gray, w, h, SAUVOLA_WINDOW);
    let black_count = binary.iter().filter(|&&v| v == 0).count();
    assert_eq!(black_count, 0, "均一黒画像はSauvolaでは全白（コントラストなし）");
}

#[test]
fn sauvola_detects_text_on_both_halves() {
    let w = 100u32;
    let h = 50u32;
    let mut gray = vec![0u8; (w * h) as usize];
    for y in 0..h {
        for x in 0..w {
            let idx = (y * w + x) as usize;
            gray[idx] = if x < 50 { 100 } else { 230 };
        }
    }
    for y in 20..30 {
        for x in 20..30 {
            gray[(y * w + x) as usize] = 30;
        }
    }
    for y in 20..30 {
        for x in 70..80 {
            gray[(y * w + x) as usize] = 30;
        }
    }
    let binary = sauvola_binarize(&gray, w, h, SAUVOLA_WINDOW);
    let left_text_black = (20..30u32)
        .flat_map(|y| (20..30u32).map(move |x| (y, x)))
        .filter(|&(y, x)| binary[(y * w + x) as usize] == 0)
        .count();
    let right_text_black = (20..30u32)
        .flat_map(|y| (70..80u32).map(move |x| (y, x)))
        .filter(|&(y, x)| binary[(y * w + x) as usize] == 0)
        .count();
    assert!(left_text_black > 50, "左半分の文字を検出すべき（検出={left_text_black}/100）");
    assert!(right_text_black > 50, "右半分の文字を検出すべき（検出={right_text_black}/100）");
}

#[test]
fn sauvola_empty_image() {
    let binary = sauvola_binarize(&[], 0, 0, SAUVOLA_WINDOW);
    assert!(binary.is_empty());
}

#[test]
fn global_binarize_threshold_is_strict() {
    let gray: Vec<u8> = vec![0, 179, 180, 181, 255];
    assert_eq!(global_binarize(&gray, 180), vec![0, 0, 255, 255, 255]);
}

#[test]
fn hybrid_catches_uniform_ink() {
    // Sauvola alone sees no contrast in a uniform dark image; the global
    // threshold still marks it as ink.
    let gray = vec![0u8; 400];
    let out = binarize_hybrid(&gray, 20, 20);
    assert!(out.iter().all(|&v| v == 0));
}

/// A scattered binary pattern with strokes, specks and holes.
fn speckled(w: u32, h: u32) -> Vec<u8> {
    (0..w * h)
        .map(|i| {
            let (x, y) = (i % w, i / w);
            let stroke = (3..7).contains(&x) || (4..6).contains(&y);
            let speck = (x * 7 + y * 13) % 11 == 0;
            let hole = (x * 5 + y * 3) % 17 == 0;
            if (stroke && !hole) || speck {
                0
            } else {
                255
            }
        })
        .collect()
}

#[test]
fn opening_adds_no_ink() {
    let (w, h) = (16u32, 12u32);
    let b = speckled(w, h);
    let opened = morphological_dilate(&morphological_erode(&b, w, h), w, h);
    for i in 0..(w * h) as usize {
        if opened[i] == 0 {
            assert_eq!(b[i], 0, "pixel {i}");
        }
    }
    // and it does remove the isolated specks
    assert!(opened.iter().filter(|&&v| v == 0).count() < b.iter().filter(|&&v| v == 0).count());
}

#[test]
fn closing_keeps_ink_off_the_border() {
    let (w, h) = (16u32, 12u32);
    let b = speckled(w, h);
    let closed = morphological_erode(&morphological_dilate(&b, w, h), w, h);
    for y in 1..h - 1 {
        for x in 1..w - 1 {
            let i = (y * w + x) as usize;
            if b[i] == 0 {
                assert_eq!(closed[i], 0, "pixel ({x}, {y})");
            }
        }
    }
    // on the border the outside counts as background
    let mut edge = vec![255u8; (w * h) as usize];
    edge[0] = 0;
    let closed_edge = morphological_erode(&morphological_dilate(&edge, w, h), w, h);
    assert_eq!(closed_edge[0], 255);
}
