use mfc_cli::cell::{
    analyze_check_mark, binarize_with_quality, flag_unvectorized, judge_adoption,
    measure_inner_black_ratio, read_slot, AdoptionReason, CheckMark, InkCount, SlotResult,
};
use mfc_cli::quality::{apply_cell_quality_gate, CellQuality};

fn make_slot(cell_index: usize, is_empty: bool, check_mark: CheckMark) -> SlotResult {
    SlotResult {
        cell_index,
        is_empty,
        ink: InkCount { black: if is_empty { 0 } else { 50 }, total: 100 },
        check_mark,
        check_ink: InkCount { black: 0, total: 0 },
    }
}

fn white_binary(w: u32, h: u32) -> Vec<u8> {
    vec![255u8; (w * h) as usize]
}

fn fill_black(binary: &mut [u8], w: u32, x0: u32, y0: u32, x1: u32, y1: u32) {
    for y in y0..y1 {
        for x in x0..x1 {
            binary[(y * w + x) as usize] = 0;
        }
    }
}

fn ratio(c: InkCount) -> f64 {
    if c.total == 0 {
        0.0
    } else {
        c.black as f64 / c.total as f64
    }
}

#[test]
fn judge_both_filled_both_check_adopts_right() {
    let slots = [make_slot(0, false, CheckMark::Check), make_slot(1, false, CheckMark::Check)];
    let (adopted, _) = judge_adoption(&slots);
    assert_eq!(adopted, vec![1]);
}

#[test]
fn judge_both_filled_i0_check_i1_empty_mark() {
    let slots = [make_slot(0, false, CheckMark::Check), make_slot(1, false, CheckMark::Empty)];
    let (adopted, _) = judge_adoption(&slots);
    assert_eq!(adopted, vec![0]);
}

#[test]
fn judge_both_filled_i0_empty_mark_i1_check() {
    let slots = [make_slot(0, false, CheckMark::Empty), make_slot(1, false, CheckMark::Check)];
    let (adopted, _) = judge_adoption(&slots);
    assert_eq!(adopted, vec![1]);
}

#[test]
fn judge_both_filled_both_empty_mark() {
    let slots = [make_slot(0, false, CheckMark::Empty), make_slot(1, false, CheckMark::Empty)];
    let (adopted, _) = judge_adoption(&slots);
    assert_eq!(adopted, vec![1]);
}

#[test]
fn judge_i0_filled_i1_empty_no_mark() {
    let slots = [make_slot(0, false, CheckMark::Empty), make_slot(1, true, CheckMark::Empty)];
    let (adopted, _) = judge_adoption(&slots);
    assert_eq!(adopted, vec![0]);
}

#[test]
fn judge_i0_empty_i1_filled_no_mark() {
    let slots = [make_slot(0, true, CheckMark::Empty), make_slot(1, false, CheckMark::Empty)];
    let (adopted, _) = judge_adoption(&slots);
    assert_eq!(adopted, vec![1]);
}

#[test]
fn judge_i0_filled_check_i1_empty() {
    let slots = [make_slot(0, false, CheckMark::Check), make_slot(1, true, CheckMark::Empty)];
    let (adopted, _) = judge_adoption(&slots);
    assert_eq!(adopted, vec![0]);
}

#[test]
fn judge_both_empty() {
    let slots = [make_slot(0, true, CheckMark::Empty), make_slot(1, true, CheckMark::Empty)];
    let (adopted, _) = judge_adoption(&slots);
    assert!(adopted.is_empty());
}

#[test]
fn judge_reasons() {
    let both_empty = [make_slot(0, true, CheckMark::Check), make_slot(1, true, CheckMark::Check)];
    assert_eq!(judge_adoption(&both_empty).1, AdoptionReason::BothEmpty);
    let right_only = [make_slot(0, true, CheckMark::Check), make_slot(1, false, CheckMark::Empty)];
    assert_eq!(judge_adoption(&right_only).1, AdoptionReason::OnlyOneFilled(1));
    let left_checked = [make_slot(0, false, CheckMark::Check), make_slot(1, false, CheckMark::Empty)];
    assert_eq!(judge_adoption(&left_checked).1, AdoptionReason::OnlyOneChecked(0));
    let both_checked = [make_slot(0, false, CheckMark::Check), make_slot(1, false, CheckMark::Check)];
    assert_eq!(judge_adoption(&both_checked).1, AdoptionReason::BothChecked);
    let none_checked = [make_slot(0, false, CheckMark::Empty), make_slot(1, false, CheckMark::Empty)];
    assert_eq!(judge_adoption(&none_checked).1, AdoptionReason::NoneChecked);
}

#[test]
fn judge_check_on_blank_cell_is_ignored() {
    // A check on a blank cell does not count: the only written-in cell wins.
    let slots = [make_slot(0, false, CheckMark::Empty), make_slot(1, true, CheckMark::Check)];
    let (adopted, reason) = judge_adoption(&slots);
    assert_eq!(adopted, vec![0]);
    assert_eq!(reason, AdoptionReason::OnlyOneFilled(0));
}

#[test]
fn check_mark_empty_for_white_image() {
    let gray = vec![255u8; 50 * 20];
    let (mark, ink) = analyze_check_mark(&gray, 50, 20);
    assert_eq!(mark, CheckMark::Empty);
    let density = ratio(ink);
    assert!(density < 0.02, "density={density} should be < 0.02");
}

#[test]
fn check_mark_check_for_sparse_black() {
    let w = 100u32;
    let mut gray = vec![255u8; 100 * 100];
    let total = 100 * 100;
    let target_black = (total as f64 * 0.05) as usize;
    let mut count = 0usize;
    'outer: for by in 0..4u32 {
        for bx in 0..5u32 {
            if count >= target_black {
                break 'outer;
            }
            for dy in 0..5u32 {
                for dx in 0..5u32 {
                    let x = bx * 20 + dx + 2;
                    let y = by * 20 + dy + 2;
                    if x < 100 && y < 100 {
                        gray[(y * w + x) as usize] = 0;
                        count += 1;
                    }
                }
            }
        }
    }
    let (mark, ink) = analyze_check_mark(&gray, 100, 100);
    assert_eq!(mark, CheckMark::Check);
    let density = ratio(ink);
    assert!(density >= 0.02, "density={density} should be >= 0.02");
}

#[test]
fn check_mark_empty_for_zero_size() {
    let (mark, ink) = analyze_check_mark(&[], 0, 0);
    assert_eq!(mark, CheckMark::Empty);
    assert_eq!(ratio(ink), 0.0);
}

#[test]
fn check_mark_threshold_is_two_percent() {
    assert!(InkCount { black: 1, total: 51 }.is_blank());
    assert!(!InkCount { black: 1, total: 50 }.is_blank());
    assert!(InkCount { black: 0, total: 0 }.is_blank());
}

#[test]
fn inner_ratio_all_white() {
    let gray = vec![255u8; 100 * 100];
    let ink = measure_inner_black_ratio(&gray, 100, 100);
    assert_eq!(ratio(ink), 0.0);
}

#[test]
fn inner_ratio_all_black() {
    let gray = vec![0u8; 100 * 100];
    let ink = measure_inner_black_ratio(&gray, 100, 100);
    let r = ratio(ink);
    assert!((r - 1.0).abs() < 0.01, "ratio={r} should be ~1.0 (hybrid: global threshold catches uniform ink)");
}

#[test]
fn inner_ratio_tiny_image_no_underflow() {
    let ink = measure_inner_black_ratio(&[255], 1, 1);
    let r = ratio(ink);
    assert!(r >= 0.0 && r <= 1.0);
}

#[test]
fn inner_ratio_zero_size_image() {
    let ink = measure_inner_black_ratio(&[], 0, 0);
    assert_eq!(ratio(ink), 0.0);
}

#[test]
fn inner_ratio_area_excludes_a_fifth_of_each_side() {
    // 100 px: margins of 20 on each side leave 60 by 60.
    let gray = vec![255u8; 100 * 100];
    let ink = measure_inner_black_ratio(&gray, 100, 100);
    assert_eq!(ink, InkCount { black: 0, total: 3600 });
    // 7 px: margin round(1.4) = 1, leaving 5 by 5.
    let gray = vec![255u8; 49];
    assert_eq!(measure_inner_black_ratio(&gray, 7, 7).total, 25);
}

#[test]
fn read_slot_blank_cell() {
    let cell = vec![255u8; 40 * 40];
    let check = vec![255u8; 30 * 8];
    let s = read_slot(1, &cell, 40, 40, &check, 30, 8);
    assert_eq!(s.cell_index, 1);
    assert!(s.is_empty);
    assert_eq!(s.check_mark, CheckMark::Empty);
}

#[test]
fn read_slot_written_cell() {
    let w = 40u32;
    let mut cell = vec![255u8; 40 * 40];
    fill_black(&mut cell, w, 12, 12, 28, 28);
    let check = vec![0u8; 30 * 8];
    let s = read_slot(0, &cell, 40, 40, &check, 30, 8);
    assert!(!s.is_empty);
    assert_eq!(s.check_mark, CheckMark::Check);
}

#[test]
fn gate_removes_border_touching_thin_line_keeps_stroke() {
    let w = 40u32;
    let h = 40u32;
    let mut binary = white_binary(w, h);
    fill_black(&mut binary, w, 0, 1, 40, 3);
    fill_black(&mut binary, w, 15, 15, 23, 23);
    let q = apply_cell_quality_gate(&mut binary, w, h);
    assert_eq!(binary[(2 * w + 20) as usize], 255, "境界接触の線残渣は消えるべき");
    assert_eq!(binary[(18 * w + 18) as usize], 0, "内側ストロークは残るべき");
    assert_eq!(q.removed_components, 1);
    assert_eq!(q.kept_components, 1);
    assert!(q.needs_review, "境界接触除去が発生したら要確認");
    assert_eq!((q.kept_area, q.total_pixels), (64, 1600));
}

#[test]
fn gate_removes_corner_l_shaped_residue_by_area_rule() {
    let w = 100u32;
    let h = 100u32;
    let mut binary = white_binary(w, h);
    fill_black(&mut binary, w, 0, 0, 60, 2);
    fill_black(&mut binary, w, 0, 2, 2, 60);
    fill_black(&mut binary, w, 40, 40, 60, 60);
    let q = apply_cell_quality_gate(&mut binary, w, h);
    assert_eq!(binary[(w + 30) as usize], 255, "L字残渣（横腕）は消えるべき");
    assert_eq!(binary[(30 * w + 1) as usize], 255, "L字残渣（縦腕）は消えるべき");
    assert_eq!(binary[(50 * w + 50) as usize], 0, "内側ストロークは残るべき");
    assert_eq!(q.removed_components, 1);
    assert!(q.needs_review);
}

#[test]
fn gate_protects_overflowing_stroke() {
    let w = 40u32;
    let h = 40u32;
    let mut binary = white_binary(w, h);
    fill_black(&mut binary, w, 0, 5, 20, 35);
    let q = apply_cell_quality_gate(&mut binary, w, h);
    assert_eq!(binary[(20 * w + 10) as usize], 0, "はみ出しストロークは残るべき");
    assert_eq!(q.removed_components, 0);
    assert_eq!(q.kept_components, 1);
    assert!(q.needs_review, "境界接触ストロークを保護したら要確認");
}

#[test]
fn gate_removes_interior_speck_without_review() {
    let w = 40u32;
    let h = 40u32;
    let mut binary = white_binary(w, h);
    fill_black(&mut binary, w, 10, 10, 12, 12);
    fill_black(&mut binary, w, 20, 20, 28, 28);
    let q = apply_cell_quality_gate(&mut binary, w, h);
    assert_eq!(binary[(10 * w + 10) as usize], 255, "微小スペックは消えるべき");
    assert_eq!(binary[(24 * w + 24) as usize], 0, "ストロークは残るべき");
    assert_eq!(q.removed_components, 1);
    assert_eq!(q.kept_components, 1);
    assert!(!q.needs_review, "内側スペック除去だけなら要確認にしない");
}

#[test]
fn gate_flags_zeroed_cell() {
    let w = 40u32;
    let h = 40u32;
    let mut binary = white_binary(w, h);
    fill_black(&mut binary, w, 10, 10, 12, 12);
    let q = apply_cell_quality_gate(&mut binary, w, h);
    assert_eq!(q.removed_components, 1);
    assert_eq!(q.kept_components, 0);
    assert!(q.needs_review, "残成分ゼロ化は要確認");
}

#[test]
fn gate_clean_cell_untouched() {
    let w = 40u32;
    let h = 40u32;
    let mut binary = white_binary(w, h);
    fill_black(&mut binary, w, 10, 10, 30, 30);
    let original = binary.clone();
    let q = apply_cell_quality_gate(&mut binary, w, h);
    assert_eq!(binary, original, "正常セルは無変更");
    assert_eq!(q.removed_components, 0);
    assert_eq!(q.kept_components, 1);
    assert!(!q.needs_review);
    assert_eq!((q.kept_area, q.total_pixels), (400, 1600));
}

#[test]
fn gate_empty_input() {
    let mut binary: Vec<u8> = vec![];
    let q = apply_cell_quality_gate(&mut binary, 0, 0);
    assert_eq!(q.removed_components, 0);
    assert_eq!(q.kept_components, 0);
    assert!(!q.needs_review);
}

#[test]
fn gate_band_boundary_x2_kept_x1_removed() {
    let w = 40u32;
    let h = 40u32;
    let mut outside = white_binary(w, h);
    fill_black(&mut outside, w, 2, 10, 5, 20);
    let q1 = apply_cell_quality_gate(&mut outside, w, h);
    assert_eq!(outside[(15 * w + 3) as usize], 0, "x=2 の成分は帯外なので残るべき");
    assert_eq!(q1.removed_components, 0);
    assert!(!q1.needs_review);
    let mut inside = white_binary(w, h);
    fill_black(&mut inside, w, 1, 10, 4, 20);
    let q2 = apply_cell_quality_gate(&mut inside, w, h);
    assert_eq!(inside[(15 * w + 2) as usize], 255, "x=1 の成分は帯内接触で消えるべき");
    assert_eq!(q2.removed_components, 1);
    assert!(q2.needs_review, "境界接触除去は要確認");
}

#[test]
fn gate_thin_rule_wins_over_big_protection() {
    let w = 40u32;
    let h = 40u32;
    let mut thin = white_binary(w, h);
    fill_black(&mut thin, w, 0, 0, 30, 3);
    let q1 = apply_cell_quality_gate(&mut thin, w, h);
    assert_eq!(thin[(w + 15) as usize], 255, "短辺3の太幅線は面積が大きくても消えるべき");
    assert_eq!(q1.removed_components, 1);
    assert!(q1.needs_review);
    let mut thick = white_binary(w, h);
    fill_black(&mut thick, w, 0, 0, 25, 4);
    let q2 = apply_cell_quality_gate(&mut thick, w, h);
    assert_eq!(thick[(2 * w + 15) as usize], 0, "短辺4かつ面積比≥4%は保護されるべき");
    assert_eq!(q2.removed_components, 0);
    assert_eq!(q2.kept_components, 1);
    assert!(q2.needs_review, "はみ出しストローク保護は要確認");
}

#[test]
fn gate_area_ratio_exact_4pct_protected_below_removed() {
    let w = 40u32;
    let h = 40u32;
    let mut exact = white_binary(w, h);
    fill_black(&mut exact, w, 0, 10, 8, 18);
    let q1 = apply_cell_quality_gate(&mut exact, w, h);
    assert_eq!(exact[(14 * w + 4) as usize], 0, "面積比ちょうど4%は保護されるべき");
    assert_eq!(q1.removed_components, 0);
    assert!(q1.needs_review);
    let mut below = white_binary(w, h);
    fill_black(&mut below, w, 0, 10, 9, 17);
    let q2 = apply_cell_quality_gate(&mut below, w, h);
    assert_eq!(below[(13 * w + 4) as usize], 255, "面積比4%未満の境界接触成分は消えるべき");
    assert_eq!(q2.removed_components, 1);
    assert!(q2.needs_review);
}

#[test]
fn gate_interior_area9_removed_area10_kept() {
    let w = 40u32;
    let h = 40u32;
    let mut binary = white_binary(w, h);
    fill_black(&mut binary, w, 10, 10, 13, 13);
    fill_black(&mut binary, w, 20, 20, 22, 25);
    let q = apply_cell_quality_gate(&mut binary, w, h);
    assert_eq!(binary[(11 * w + 11) as usize], 255, "面積9は消えるべき");
    assert_eq!(binary[(22 * w + 21) as usize], 0, "面積10は残るべき");
    assert_eq!(q.removed_components, 1);
    assert_eq!(q.kept_components, 1);
    assert!(!q.needs_review, "面積9の内側スペック除去（0.56% < 1%）は要確認なし");
}

#[test]
fn gate_review_by_removed_area_ratio_threshold() {
    let w = 40u32;
    let h = 40u32;
    let mut over = white_binary(w, h);
    fill_black(&mut over, w, 4, 4, 7, 7);
    fill_black(&mut over, w, 30, 4, 33, 7);
    fill_black(&mut over, w, 15, 15, 25, 25);
    let q1 = apply_cell_quality_gate(&mut over, w, h);
    assert_eq!(q1.removed_components, 2);
    assert_eq!(q1.kept_components, 1);
    assert!(q1.needs_review, "除去面積比 1.125% > 1% は要確認");
    let mut exact = white_binary(w, h);
    fill_black(&mut exact, w, 4, 4, 6, 8);
    fill_black(&mut exact, w, 30, 4, 32, 8);
    fill_black(&mut exact, w, 15, 15, 25, 25);
    let q2 = apply_cell_quality_gate(&mut exact, w, h);
    assert_eq!(q2.removed_components, 2);
    assert_eq!((q2.removed_area, q2.total_pixels), (16, 1600));
    assert!(!q2.needs_review, "除去面積比ちょうど1%は要確認なし");
}

#[test]
fn gate_border_band_speck_demoted_no_review() {
    let w = 40u32;
    let h = 40u32;
    let mut binary = white_binary(w, h);
    fill_black(&mut binary, w, 0, 0, 2, 2);
    fill_black(&mut binary, w, 15, 15, 25, 25);
    let q = apply_cell_quality_gate(&mut binary, w, h);
    assert_eq!(binary[0], 255, "帯内ダストは消えるべき");
    assert_eq!(binary[(20 * w + 20) as usize], 0, "内側ストロークは残るべき");
    assert_eq!(q.removed_components, 1);
    assert_eq!(q.kept_components, 1);
    assert!(!q.needs_review, "帯内ダスト（speck降格）単独では要確認にしない");
}

#[test]
fn gate_degenerate_4x4_zeroed_review_no_panic() {
    let w = 4u32;
    let h = 4u32;
    let mut binary = white_binary(w, h);
    fill_black(&mut binary, w, 1, 1, 3, 3);
    let q = apply_cell_quality_gate(&mut binary, w, h);
    assert!(binary.iter().all(|&v| v == 255), "縮退セルの微小成分は消えるべき");
    assert_eq!(q.removed_components, 1);
    assert_eq!(q.kept_components, 0);
    assert!(q.needs_review, "残成分ゼロ化は要確認");
}

#[test]
fn gate_short_buffer_returns_empty_quality() {
    let mut short = vec![0u8; 5];
    let original = short.clone();
    let q = apply_cell_quality_gate(&mut short, 4, 4);
    assert_eq!(short, original, "不正長入力は無変更のはず");
    assert_eq!(q.removed_components, 0);
    assert_eq!(q.kept_components, 0);
    assert_eq!(q.kept_area, 0);
    assert!(!q.needs_review);
}

#[test]
fn binarize_with_quality_empty_cell() {
    let (b, q) = binarize_with_quality(&[], 0, 0);
    assert!(b.is_empty());
    assert_eq!(q, CellQuality::empty());
}

#[test]
fn binarize_with_quality_flags_border_residue() {
    // A dark line along the top border is removed as residue and flagged;
    // the stroke in the middle stays.
    let w = 60u32;
    let mut gray = vec![255u8; 60 * 60];
    fill_black(&mut gray, w, 0, 1, 20, 5);
    fill_black(&mut gray, w, 20, 20, 40, 40);
    let (b, q) = binarize_with_quality(&gray, 60, 60);
    assert!(q.needs_review);
    assert!(q.removed_components >= 1);
    assert_eq!(b[(3 * w + 10) as usize], 255);
    assert_eq!(b[(30 * w + 30) as usize], 0);
}

#[test]
fn unvectorized_adopted_cell_is_flagged() {
    let mut q = CellQuality::empty();
    flag_unvectorized(&mut q, 3);
    assert!(!q.needs_review);
    flag_unvectorized(&mut q, 0);
    assert!(q.needs_review);
}

#[test]
fn gate_twice_changes_nothing_more() {
    let (w, h) = (40u32, 40u32);
    let mut b = vec![255u8; (w * h) as usize];
    // a stroke, a speck, and a thin line touching the border
    for y in 10..30 {
        for x in 18..22 {
            b[(y * w + x) as usize] = 0;
        }
    }
    b[(5 * w + 5) as usize] = 0;
    for x in 0..40 {
        b[(0 * w + x) as usize] = 0;
    }
    let q1 = apply_cell_quality_gate(&mut b, w, h);
    assert!(q1.removed_components >= 2);
    let once = b.clone();
    let q2 = apply_cell_quality_gate(&mut b, w, h);
    assert_eq!(b, once);
    assert_eq!(q2.removed_components, 0);
    assert_eq!(q2.removed_area, 0);
    assert_eq!(q2.kept_components, q1.kept_components);
    assert_eq!(q2.kept_area, q1.kept_area);
}
