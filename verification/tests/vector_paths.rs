use mfc_cli::contour::{choose_next, trace_boundary_loops};
use mfc_cli::quality::CellQuality;
use mfc_cli::simplify::{douglas_peucker_closed, dp_open};
use mfc_cli::vectorizer::{
    binary_has_ink, contour_command_counts, contour_polygons, extract_rects, poly_in_frame, vectorize_adopted_with_review,
    vectorize_binary_bbox_fit, vectorize_binary_runlength, GlyphFrame, PathCommand,
    CONTOUR_EPS_DEN, CONTOUR_EPS_NUM, MAX_CONTOURS,
};

fn make_binary(w: u32, h: u32, rects: &[(u32, u32, u32, u32)]) -> Vec<u8> {
    let mut buf = vec![255u8; (w * h) as usize];
    for &(x0, y0, x1, y1) in rects {
        for y in y0..y1 {
            for x in x0..x1 {
                buf[(y * w + x) as usize] = 0;
            }
        }
    }
    buf
}

fn make_shape(w: u32, h: u32, ink: &[(u32, u32, u32, u32)], holes: &[(u32, u32, u32, u32)]) -> Vec<u8> {
    let mut buf = make_binary(w, h, ink);
    for &(x0, y0, x1, y1) in holes {
        for y in y0..y1 {
            for x in x0..x1 {
                buf[(y * w + x) as usize] = 255;
            }
        }
    }
    buf
}

/// Twice the signed area of a polygon in image coordinates (y down).
fn area2(poly: &[(i32, i32)]) -> i64 {
    let n = poly.len();
    let mut s = 0i64;
    for i in 0..n {
        let (x0, y0) = poly[i];
        let (x1, y1) = poly[(i + 1) % n];
        s += x0 as i64 * y1 as i64 - x1 as i64 * y0 as i64;
    }
    s
}

#[test]
fn choose_next_pinch_selects_most_clockwise() {
    let cur = (5, 5);
    let outs = vec![(5, 4), (5, 6)];
    let idx = choose_next(&outs, Some((1, 0)), cur);
    assert_eq!(outs[idx], (5, 6), "右進入では下向き出口（最も時計回り）を選ぶ");
    let idx2 = choose_next(&outs, Some((-1, 0)), cur);
    assert_eq!(outs[idx2], (5, 4), "左進入では上向き出口を選ぶ");
    assert_eq!(choose_next(&[(1, 0)], None, cur), 0);
    assert_eq!(choose_next(&outs, None, cur), 0);
}

#[test]
fn choose_next_prefers_right_turn_over_straight() {
    // Entering rightwards, a turn down (clockwise) beats going straight and
    // going straight beats turning up.
    let cur = (5, 5);
    let outs = vec![(5, 4), (6, 5), (5, 6)];
    assert_eq!(choose_next(&outs, Some((1, 0)), cur), 2);
    let outs2 = vec![(5, 4), (6, 5)];
    assert_eq!(choose_next(&outs2, Some((1, 0)), cur), 1);
}

#[test]
fn binary_has_ink_cases() {
    assert!(!binary_has_ink(&[255, 255, 255, 255], 2, 2));
    assert!(binary_has_ink(&[255, 255, 0, 255], 2, 2));
    assert!(!binary_has_ink(&[0, 0], 2, 2));
    assert!(!binary_has_ink(&[255, 255, 255, 0], 3, 1));
}

#[test]
fn trace_single_pixel_is_clockwise_square() {
    let b = make_binary(3, 3, &[(1, 1, 2, 2)]);
    let loops = trace_boundary_loops(&b, 3, 3);
    assert_eq!(loops, vec![vec![(1, 1), (2, 1), (2, 2), (1, 2)]]);
    assert!(area2(&loops[0]) > 0);
}

#[test]
fn trace_ring_has_outer_and_hole_opposite() {
    let b = make_shape(6, 6, &[(1, 1, 5, 5)], &[(2, 2, 4, 4)]);
    let loops = trace_boundary_loops(&b, 6, 6);
    assert_eq!(loops.len(), 2);
    // Outer contour first (its least vertex comes first), then the hole.
    assert_eq!(loops[0][0], (1, 1));
    assert_eq!(loops[1][0], (2, 2));
    assert!(area2(&loops[0]) > 0);
    assert!(area2(&loops[1]) < 0);
    // Every boundary edge once: 16 outer + 8 hole edges.
    assert_eq!(loops[0].len() + loops[1].len(), 24);
}

#[test]
fn trace_diagonal_pinch_keeps_pixels_apart() {
    // Two pixels touching by a corner give two separate squares.
    let b = make_binary(3, 3, &[(0, 0, 1, 1), (1, 1, 2, 2)]);
    let loops = trace_boundary_loops(&b, 3, 3);
    assert_eq!(loops.len(), 2);
    assert_eq!(loops[0], vec![(0, 0), (1, 0), (1, 1), (0, 1)]);
    assert_eq!(loops[1], vec![(1, 1), (2, 1), (2, 2), (1, 2)]);
}

#[test]
fn trace_empty_and_full() {
    let b = make_binary(4, 4, &[]);
    assert!(trace_boundary_loops(&b, 4, 4).is_empty());
    let full = vec![0u8; 16];
    let loops = trace_boundary_loops(&full, 4, 4);
    assert_eq!(loops.len(), 1);
    assert_eq!(loops[0].len(), 16);
}

#[test]
fn dp_epsilon_boundary_keeps_and_drops() {
    let line = |d: i32| vec![(0i32, 0i32), (10, d), (20, 0)];
    assert_eq!(dp_open(&line(3), 2, 1).len(), 3, "eps<d は中間点を残す");
    assert_eq!(dp_open(&line(3), 4, 1).len(), 2, "eps>d は中間点を除去");
    assert_eq!(dp_open(&line(1), CONTOUR_EPS_NUM, CONTOUR_EPS_DEN).len(), 2, "微小凹凸は畳まれる");
    assert_eq!(
        dp_open(&line(3), CONTOUR_EPS_NUM, CONTOUR_EPS_DEN).len(),
        3,
        "有意な凹凸は保持される（過度に単純化しない）"
    );
}

#[test]
fn dp_epsilon_strict_boundary() {
    let line = |d: i32| vec![(0i32, 0i32), (10, d), (20, 0)];
    assert_eq!(dp_open(&line(3), 3, 1).len(), 2, "距離=eps ちょうどは除去（厳密 >）");
    assert_eq!(dp_open(&line(3), 2999, 1000).len(), 3, "eps を僅かに下回ると保持");
}

#[test]
fn dp_closed_preserves_rectangle_corners() {
    let mut poly = Vec::new();
    for x in 0..=20 {
        poly.push((x, 0));
    }
    for y in 1..=10 {
        poly.push((20, y));
    }
    for x in (0..20).rev() {
        poly.push((x, 10));
    }
    for y in (1..10).rev() {
        poly.push((0, y));
    }
    let simplified = douglas_peucker_closed(&poly, CONTOUR_EPS_NUM, CONTOUR_EPS_DEN);
    assert_eq!(simplified.len(), 4, "矩形は4角に簡約される: {simplified:?}");
    for corner in [(0, 0), (20, 0), (20, 10), (0, 10)] {
        assert!(simplified.contains(&corner), "角 {corner:?} が保持される");
    }
}

#[test]
fn dp_closed_anchors_at_least_point() {
    let poly = vec![(5, 5), (0, 5), (0, 0), (5, 0)];
    let simplified = douglas_peucker_closed(&poly, 1, 1);
    assert_eq!(simplified, vec![(0, 0), (5, 0), (5, 5), (0, 5)]);
}

#[test]
fn contour_solid_rect_is_quadrilateral() {
    let binary = make_binary(120, 120, &[(15, 85, 35, 105)]);
    let polys = contour_polygons(&binary, 120, 120);
    assert_eq!(polys, vec![vec![(15, 85), (35, 85), (35, 105), (15, 105)]]);
}

#[test]
fn contour_polygons_invalid_input_is_empty() {
    assert!(contour_polygons(&[], 0, 0).is_empty());
    assert!(contour_polygons(&[0, 0], 4, 4).is_empty());
    assert!(contour_polygons(&vec![255u8; 16], 4, 4).is_empty());
}

#[test]
fn max_contours_lower_boundary() {
    fn grid_blocks(count: usize, cell_px: u32) -> (Vec<u8>, u32, u32) {
        const COLS: u32 = 40;
        const SP: u32 = 8;
        let rows = (count as u32).div_ceil(COLS);
        let w = COLS * SP + SP;
        let h = rows * SP + SP;
        let mut rects = Vec::with_capacity(count);
        for k in 0..count as u32 {
            let (gx, gy) = (k % COLS, k / COLS);
            let (bx, by) = (gx * SP + 2, gy * SP + 2);
            rects.push((bx, by, bx + cell_px, by + cell_px));
        }
        (make_binary(w, h, &rects), w, h)
    }
    let (at_limit, w1, h1) = grid_blocks(MAX_CONTOURS, 4);
    let polys_at = contour_polygons(&at_limit, w1, h1);
    assert_eq!(polys_at.len(), MAX_CONTOURS, "ちょうど上限本は全て残る");
    let (over, w2, h2) = grid_blocks(MAX_CONTOURS + 1, 4);
    let polys_over = contour_polygons(&over, w2, h2);
    assert!(polys_over.is_empty(), "上限+1本で空へ倒す: 実際={}", polys_over.len());
}

#[test]
fn adopted_cell_empty_after_pre_gate_erasure_flags_review() {
    let gated = vec![255u8; 100 * 100];
    let mut q = CellQuality::empty();
    let polys = vectorize_adopted_with_review(&gated, 100, 100, &mut q);
    assert!(polys.is_empty(), "空 gated はパスなし");
    assert!(q.needs_review, "採用セルがベクター化できないなら要確認");
}

#[test]
fn adopted_cell_with_glyph_not_flagged() {
    let binary = make_binary(40, 40, &[(10, 10, 30, 30)]);
    let mut q = CellQuality::empty();
    let polys = vectorize_adopted_with_review(&binary, 40, 40, &mut q);
    assert_eq!(polys.len(), 1);
    assert!(!q.needs_review);
}

#[test]
fn em_frame_maps_inner_square() {
    // A 120 px crop of 12 mm: the inner square starts 10 px (1 mm) in.
    let f = GlyphFrame::Em { pw: 120, ph: 120 };
    assert_eq!(f.x(10), 0);
    assert_eq!(f.x(110), 1000);
    assert_eq!(f.y(10), 880);
    assert_eq!(f.y(110), -120);
    assert_eq!(f.x(0), -100);
    let poly = vec![(10, 10), (110, 110)];
    assert_eq!(poly_in_frame(&poly, f), vec![(0, 880), (1000, -120)]);
}

#[test]
fn em_frame_rounds_half_away_from_zero() {
    // 1200 * 1 / 16 - 100 = -25; 1200 * 3 / 16 - 100 = 125;
    // 1200 * 1 / 32 - 100 = -62.5 rounds to -63.
    let f = GlyphFrame::Em { pw: 16, ph: 16 };
    assert_eq!(f.x(1), -25);
    assert_eq!(f.x(3), 125);
    let g = GlyphFrame::Em { pw: 32, ph: 32 };
    assert_eq!(g.x(1), -63);
}

#[test]
fn runlength_vertical_merge_reduces_rect_count() {
    let binary = make_binary(100, 100, &[(45, 30, 55, 70)]);
    let paths = vectorize_binary_runlength(&binary, 100, 100);
    assert!(paths.len() < 20, "縦マージにより矩形数は大幅に減るはず: 実際={}", paths.len());
    assert!(!paths.is_empty(), "黒ピクセルがあるのでパスは0にならない");
    for p in &paths {
        assert_eq!(p.len(), 5, "ランレングスの各矩形は5コマンド");
    }
}

#[test]
fn runlength_rect_is_one_quadrilateral() {
    // A 20x20 block of a 100 px crop: upscaled 40x40 at (60, 60).
    let binary = make_binary(100, 100, &[(30, 30, 50, 50)]);
    let (rects, uw, uh) = extract_rects(&binary, 100, 100).unwrap();
    assert_eq!((uw, uh), (200, 200));
    assert_eq!(rects, vec![(60, 60, 100, 100)]);
    let paths = vectorize_binary_runlength(&binary, 100, 100);
    assert_eq!(
        paths,
        vec![vec![
            PathCommand::MoveTo { x: 260, y: 620 },
            PathCommand::LineTo { x: 500, y: 620 },
            PathCommand::LineTo { x: 500, y: 380 },
            PathCommand::LineTo { x: 260, y: 380 },
            PathCommand::Close { x: 260, y: 620 },
        ]]
    );
}

#[test]
fn runlength_merge_stacks_only_equal_runs() {
    // Rows whose runs differ at an end stay separate rectangles, so that no
    // ink is lost.
    let mut binary = make_binary(10, 3, &[(2, 0, 6, 1)]);
    for x in 2..7 {
        binary[10 + x] = 0;
    }
    let (rects, _, _) = extract_rects(&binary, 10, 3).unwrap();
    assert_eq!(rects, vec![(4, 0, 12, 2), (4, 2, 14, 4)]);
}

#[test]
fn extract_rects_none_cases() {
    assert!(extract_rects(&[], 0, 0).is_none());
    assert!(extract_rects(&[0], 2, 2).is_none());
    assert!(extract_rects(&[255, 255, 255, 255], 2, 2).is_none());
}

#[test]
fn dense_unmergeable_noise_returns_empty() {
    let w = 420u32;
    let mut binary = vec![255u8; 420 * 420];
    for gy in 0..70u32 {
        for gx in 0..70u32 {
            let bx = gx * 6;
            let by = gy * 6;
            for dy in 0..3 {
                for dx in 0..3 {
                    binary[((by + dy) * w + bx + dx) as usize] = 0;
                }
            }
        }
    }
    let paths = vectorize_binary_runlength(&binary, 420, 420);
    assert!(paths.is_empty(), "矩形爆発時はハングガードで空に倒すべき: 実際={}", paths.len());
}

#[test]
fn bbox_fit_rescue_centers_offset_rect() {
    let binary = make_binary(100, 100, &[(80, 80, 95, 95)]);
    let paths = vectorize_binary_bbox_fit(&binary, 100, 100);
    assert_eq!(
        paths,
        vec![vec![
            PathCommand::MoveTo { x: 125, y: 775 },
            PathCommand::LineTo { x: 875, y: 775 },
            PathCommand::LineTo { x: 875, y: 25 },
            PathCommand::LineTo { x: 125, y: 25 },
            PathCommand::Close { x: 125, y: 775 },
        ]]
    );
}

#[test]
fn command_counts_of_a_square_block() {
    // A 2x2 block: one contour of 8 unit steps (9 commands before
    // simplification) and one merged run-length rectangle (5 commands).
    let b = make_binary(4, 4, &[(1, 1, 3, 3)]);
    assert_eq!(contour_command_counts(&b, 4, 4), (9, 5));
    assert_eq!(contour_command_counts(&b, 0, 4), (0, 0));
    assert_eq!(contour_command_counts(&b[..10], 4, 4).0, 0);
    assert_eq!(contour_command_counts(&vec![255u8; 16], 4, 4), (0, 0));
}

/// Twice the signed area of a closed loop (shoelace, y down).
fn shoelace2(l: &[(i32, i32)]) -> i64 {
    let n = l.len();
    (0..n)
        .map(|i| {
            let (p, q) = (l[i], l[(i + 1) % n]);
            p.0 as i64 * q.1 as i64 - q.0 as i64 * p.1 as i64
        })
        .sum()
}

#[test]
fn traced_loops_enclose_exactly_the_ink() {
    // a ring with a hole, a separate dot, and two pixels touching by a corner
    let mut b = make_shape(12, 10, &[(1, 1, 7, 7), (9, 2, 10, 3)], &[(3, 3, 5, 5)]);
    b[(8 * 12 + 8) as usize] = 0;
    b[(9 * 12 + 9) as usize] = 0;
    let ink = b.iter().filter(|&&v| v == 0).count() as i64;
    let loops = trace_boundary_loops(&b, 12, 10);
    let areas: Vec<i64> = loops.iter().map(|l| shoelace2(l)).collect();
    assert_eq!(areas.iter().sum::<i64>(), 2 * ink);
    // outer contours count positive, the hole negative
    assert!(areas.iter().any(|&a| a < 0));
    assert_eq!(areas.iter().filter(|&&a| a < 0).sum::<i64>(), -2 * 4);
}

#[test]
fn loops_turn_clockwise_at_an_outer_start_and_counter_clockwise_at_a_hole() {
    let b = make_shape(9, 9, &[(1, 1, 8, 8)], &[(3, 3, 6, 6)]);
    let loops = trace_boundary_loops(&b, 9, 9);
    assert_eq!(loops.len(), 2);
    for l in &loops {
        let (s, next, last) = (l[0], l[1], l[l.len() - 1]);
        let area = shoelace2(l);
        if next == (s.0 + 1, s.1) {
            // outer contour: leaves rightwards, came back upwards
            assert_eq!(last, (s.0, s.1 + 1));
            assert!(area > 0);
        } else {
            // hole: leaves downwards, came back leftwards
            assert_eq!(next, (s.0, s.1 + 1));
            assert_eq!(last, (s.0 + 1, s.1));
            assert!(area < 0);
        }
    }
    assert_eq!(loops[0][0], (1, 1));
    assert_eq!(loops[1][0], (3, 3));
    assert_eq!(loops[1][1], (3, 4));
}

/// Ink of the cell upscaled twice, as in the run-length rectangles.
fn upscaled_ink(b: &[u8], w: u32, x: u32, y: u32) -> bool {
    b[((y / 2) * w + x / 2) as usize] == 0
}

/// The rectangles cover exactly the upscaled ink.
fn assert_exact_cover(b: &[u8], w: u32, h: u32) {
    let (rects, uw, uh) = extract_rects(b, w, h).unwrap();
    assert_eq!((uw, uh), (2 * w, 2 * h));
    for &(x0, y0, x1, y1) in &rects {
        assert!(x0 < x1 && x1 <= uw && y0 < y1 && y1 <= uh);
    }
    for y in 0..uh {
        for x in 0..uw {
            let covered = rects.iter().any(|&(x0, y0, x1, y1)| y0 <= y && y < y1 && x0 <= x && x < x1);
            assert_eq!(covered, upscaled_ink(b, w, x, y), "pixel ({x}, {y})");
        }
    }
}

#[test]
fn runlength_rects_cover_a_slanted_stroke_exactly() {
    // each row's run is one cell (two upscaled pixels) off the last
    let b = make_binary(8, 6, &[(1, 0, 4, 1), (2, 1, 5, 2), (3, 2, 6, 3), (3, 3, 6, 4), (1, 5, 7, 6)]);
    assert_exact_cover(&b, 8, 6);
    // a 2x2 cell with ink at (0,0), (0,1) and (1,1) keeps all three
    assert_exact_cover(&[0, 255, 0, 0], 2, 2);
    let (rects, _, _) = extract_rects(&[0, 255, 0, 0], 2, 2).unwrap();
    assert_eq!(rects, vec![(0, 0, 2, 2), (0, 2, 4, 4)]);
}

#[test]
fn runlength_rects_cover_a_ring_exactly() {
    let b = make_shape(10, 8, &[(1, 1, 9, 7)], &[(3, 3, 7, 5)]);
    assert_exact_cover(&b, 10, 8);
}

#[test]
fn every_traced_loop_has_at_least_four_vertices() {
    let mut b = make_shape(12, 10, &[(1, 1, 7, 7), (9, 2, 10, 3)], &[(3, 3, 5, 5)]);
    b[(8 * 12 + 8) as usize] = 0;
    b[(9 * 12 + 9) as usize] = 0;
    let loops = trace_boundary_loops(&b, 12, 10);
    assert!(!loops.is_empty());
    for l in &loops {
        assert!(l.len() >= 4);
        assert_eq!(l.len() % 2, 0);
    }
    // a lone pixel is the smallest loop: its four corners
    let dot = make_binary(3, 3, &[(1, 1, 2, 2)]);
    assert_eq!(trace_boundary_loops(&dot, 3, 3), vec![vec![(1, 1), (2, 1), (2, 2), (1, 2)]]);
}

#[test]
fn single_ink_pixel_traces_its_four_corners() {
    assert_eq!(trace_boundary_loops(&[0], 1, 1), vec![vec![(0, 0), (1, 0), (1, 1), (0, 1)]]);
    assert!(trace_boundary_loops(&[255], 1, 1).is_empty());
}
