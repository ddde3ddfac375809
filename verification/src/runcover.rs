//! How the run-length rectangles of a binary cell cover its ink. The cell is
//! upscaled twice and cut into maximal ink runs, and runs of consecutive
//! rows with the same ends are stacked into one rectangle. So the rectangles
//! reproduce the upscaled ink exactly: a pixel is ink if and only if it lies
//! in some rectangle.
use vstd::prelude::*;
use crate::vectorizer::{
    lemma_run_end, lemma_runs_bounds, merge_from, merge_scan, mergeable, row_runs, run_end, run_start,
    runs_from_row, spec_rects, spec_runs, up_ink,
};

verus! {

/// `[s, e)` is a maximal ink run of row `y` of the cell upscaled twice.
pub open spec fn ink_run(b: Seq<u8>, w: int, y: int, s: int, e: int) -> bool {
    &&& 0 <= s < e <= 2 * w
    &&& forall|x: int| s <= x < e ==> #[trigger] up_ink(b, w, x, y)
    &&& s == 0 || !up_ink(b, w, s - 1, y)
    &&& e == 2 * w || !up_ink(b, w, e, y)
}

/// Rectangle `q` holds pixel `(x, y)`.
pub open spec fn in_rect(q: (u32, u32, u32, u32), x: int, y: int) -> bool {
    q.1 <= y < q.3 && q.0 <= x < q.2
}

/// Run `r` is part of rectangle `q`: its first run, or a run of a later row
/// of it with the same ends.
spec fn placed(r: (u32, u32, u32), q: (u32, u32, u32, u32)) -> bool {
    ||| r == (q.1, q.0, q.2)
    ||| q.1 < r.0 < q.3 && mergeable(r, (q.1, q.0, q.2))
}

// ---------------------------------------------------------------------------
// Stacking runs into rectangles
// ---------------------------------------------------------------------------

/// Some run of row `yy` can be stacked onto `head`.
spec fn has_row_run(runs: Seq<(u32, u32, u32)>, head: (u32, u32, u32), yy: int) -> bool {
    exists|t: int| 0 <= t < runs.len() && (#[trigger] runs[t]).0 == yy && mergeable(runs[t], head)
}

proof fn lemma_merge_scan(runs: Seq<(u32, u32, u32)>, head: (u32, u32, u32), j: int, y_end: int, used: Seq<bool>)
    requires
        used.len() == runs.len(),
        0 <= j,
        y_end <= u32::MAX,
        forall|t: int| 0 <= t < runs.len() ==> (#[trigger] runs[t]).0 < u32::MAX,
    ensures
        ({
            let (ye, u) = merge_scan(runs, head, j, y_end, used);
            &&& u.len() == used.len()
            &&& y_end <= ye <= u32::MAX
            &&& forall|t: int| 0 <= t < used.len() && used[t] ==> #[trigger] u[t]
            &&& forall|t: int|
                0 <= t < used.len() && #[trigger] u[t] && !used[t] ==> y_end <= runs[t].0 < ye && mergeable(
                    runs[t],
                    head,
                )
            &&& forall|yy: int| y_end <= yy < ye ==> #[trigger] has_row_run(runs, head, yy)
        }),
    decreases runs.len() - j,
{
    if j < 0 || j >= runs.len() || runs[j].0 > y_end {
    } else if runs[j].0 == y_end && mergeable(runs[j], head) {
        let u0 = used.update(j, true);
        lemma_merge_scan(runs, head, j + 1, y_end + 1, u0);
        let (ye, u) = merge_scan(runs, head, j + 1, y_end + 1, u0);
        assert(u[j]);
        assert forall|yy: int| y_end <= yy < ye implies #[trigger] has_row_run(runs, head, yy) by {
            if yy == y_end {
                assert(runs[j].0 == yy && mergeable(runs[j], head));
            }
        }
    } else {
        lemma_merge_scan(runs, head, j + 1, y_end, used);
    }
}

proof fn lemma_merge_from(runs: Seq<(u32, u32, u32)>, i: int, used: Seq<bool>)
    requires
        used.len() == runs.len(),
        0 <= i,
        forall|t: int| 0 <= t < runs.len() ==> (#[trigger] runs[t]).0 < u32::MAX,
    ensures
        forall|t: int|
            i <= t < runs.len() && !used[t] ==> exists|k: int|
                0 <= k < merge_from(runs, i, used).len() && placed(runs[t], #[trigger] merge_from(runs, i, used)[k]),
        forall|k: int|
            #![trigger merge_from(runs, i, used)[k]]
            0 <= k < merge_from(runs, i, used).len() ==> exists|t: int|
                0 <= t < runs.len() && #[trigger] runs[t] == ((merge_from(runs, i, used)[k]).1, (merge_from(
                    runs,
                    i,
                    used,
                )[k]).0, (merge_from(runs, i, used)[k]).2),
        forall|k: int, yy: int|
            0 <= k < merge_from(runs, i, used).len() && merge_from(runs, i, used)[k].1 < yy < merge_from(
                runs,
                i,
                used,
            )[k].3 ==> #[trigger] has_row_run(
                runs,
                ((merge_from(runs, i, used)[k]).1, (merge_from(runs, i, used)[k]).0, (merge_from(runs, i, used)[k]).2),
                yy,
            ),
        forall|k: int|
            0 <= k < merge_from(runs, i, used).len() ==> (#[trigger] merge_from(runs, i, used)[k]).1 < merge_from(
                runs,
                i,
                used,
            )[k].3,
    decreases runs.len() - i,
{
    let n = runs.len() as int;
    if i >= n {
        return;
    }
    if used[i] {
        lemma_merge_from(runs, i + 1, used);
        assert(merge_from(runs, i, used) == merge_from(runs, i + 1, used));
    } else {
        let u0 = used.update(i, true);
        let hd = runs[i];
        lemma_merge_scan(runs, hd, i + 1, hd.0 + 1, u0);
        let s = merge_scan(runs, hd, i + 1, hd.0 + 1, u0);
        lemma_merge_from(runs, i + 1, s.1);
        let r = (hd.1, hd.0, hd.2, s.0 as u32);
        let rest = merge_from(runs, i + 1, s.1);
        let all = merge_from(runs, i, used);
        assert(all == seq![r] + rest);
        assert(all[0] == r);
        assert forall|k: int| 1 <= k < all.len() implies #[trigger] all[k] == rest[k - 1] by {}
        assert(placed(hd, r));
        assert forall|t: int| i <= t < n && !used[t] implies exists|k: int|
            0 <= k < all.len() && placed(runs[t], #[trigger] all[k]) by {
            if t == i {
                assert(placed(runs[t], all[0]));
            } else if s.1[t] {
                assert(!u0[t]);
                assert(placed(runs[t], all[0]));
            } else {
                let k2 = choose|k2: int| 0 <= k2 < rest.len() && placed(runs[t], #[trigger] rest[k2]);
                assert(placed(runs[t], all[k2 + 1]));
            }
        }
        assert forall|k: int| #![trigger all[k]] 0 <= k < all.len() implies exists|t: int|
            0 <= t < runs.len() && #[trigger] runs[t] == ((all[k]).1, (all[k]).0, (all[k]).2) by {
            if k == 0 {
                assert(runs[i] == ((all[k]).1, (all[k]).0, (all[k]).2));
            } else {
                assert(all[k] == rest[k - 1]);
            }
        }
        assert forall|k: int, yy: int| 0 <= k < all.len() && all[k].1 < yy < all[k].3 implies #[trigger] has_row_run(
            runs,
            ((all[k]).1, (all[k]).0, (all[k]).2),
            yy,
        ) by {
            if k == 0 {
                assert(hd == ((all[k]).1, (all[k]).0, (all[k]).2));
            } else {
                assert(all[k] == rest[k - 1]);
            }
        }
        assert forall|k: int| 0 <= k < all.len() implies (#[trigger] all[k]).1 < all[k].3 by {
            if k > 0 {
                assert(all[k] == rest[k - 1]);
            }
        }
    }
}

// ---------------------------------------------------------------------------
// Runs are the ink
// ---------------------------------------------------------------------------

/// The runs of row `y` from column `x` on are maximal ink runs of row `y`.
proof fn lemma_row_runs_ink(b: Seq<u8>, w: int, y: int, x: int)
    requires
        0 <= x <= 2 * w,
        0 <= y <= u32::MAX,
        2 * w <= u32::MAX,
    ensures
        forall|k: int|
            0 <= k < row_runs(b, w, y, x).len() ==> {
                let r = #[trigger] row_runs(b, w, y, x)[k];
                r.0 == y && ink_run(b, w, y, r.1 as int, r.2 as int)
            },
    decreases 2 * w - x,
{
    if x < 2 * w {
        lemma_row_runs_ink(b, w, y, x + 1);
        if run_start(b, w, y, x) {
            lemma_run_end(b, w, y, x);
            let e = run_end(b, w, y, x);
            assert((y as u32) as int == y);
            assert((x as u32) as int == x);
            assert((e as u32) as int == e);
            let head = seq![(y as u32, x as u32, e as u32)];
            let rest = row_runs(b, w, y, x + 1);
            assert(row_runs(b, w, y, x) == head + rest);
            assert(ink_run(b, w, y, x, e));
            assert forall|k: int| 0 <= k < (head + rest).len() implies {
                let r = #[trigger] (head + rest)[k];
                r.0 == y && ink_run(b, w, y, r.1 as int, r.2 as int)
            } by {
                if k > 0 {
                    assert((head + rest)[k] == rest[k - 1]);
                }
            }
        } else {
            assert(row_runs(b, w, y, x) == row_runs(b, w, y, x + 1));
        }
    }
}

/// The runs of rows `y0` and below are maximal ink runs of their rows.
proof fn lemma_runs_ink(b: Seq<u8>, w: int, h: int, y0: int)
    requires
        0 <= y0 <= 2 * h,
        2 * h <= u32::MAX,
        2 * w <= u32::MAX,
        0 <= w,
    ensures
        forall|j: int|
            0 <= j < runs_from_row(b, w, h, y0).len() ==> {
                let r = #[trigger] runs_from_row(b, w, h, y0)[j];
                y0 <= r.0 < 2 * h && ink_run(b, w, r.0 as int, r.1 as int, r.2 as int)
            },
    decreases 2 * h - y0,
{
    if y0 < 2 * h {
        lemma_runs_ink(b, w, h, y0 + 1);
        lemma_row_runs_ink(b, w, y0, 0);
        let a = row_runs(b, w, y0, 0);
        let rest = runs_from_row(b, w, h, y0 + 1);
        assert(runs_from_row(b, w, h, y0) == a + rest);
        assert forall|j: int| 0 <= j < (a + rest).len() implies {
            let r = #[trigger] (a + rest)[j];
            y0 <= r.0 < 2 * h && ink_run(b, w, r.0 as int, r.1 as int, r.2 as int)
        } by {
            if j >= a.len() {
                assert((a + rest)[j] == rest[j - a.len()]);
            } else {
                assert((a + rest)[j] == a[j]);
            }
        }
    }
}

/// The start of the maximal ink run through ink pixel `x` of row `y`.
proof fn lemma_run_start_of(b: Seq<u8>, w: int, y: int, x: int) -> (s: int)
    requires
        0 <= x < 2 * w,
        up_ink(b, w, x, y),
    ensures
        0 <= s <= x,
        run_start(b, w, y, s),
        x < run_end(b, w, y, s) <= 2 * w,
    decreases x,
{
    if x == 0 || !up_ink(b, w, x - 1, y) {
        lemma_run_end(b, w, y, x);
        x
    } else {
        let s = lemma_run_start_of(b, w, y, x - 1);
        lemma_run_end(b, w, y, s);
        s
    }
}

/// A run starting at `s` is among the runs of its row from any column up to
/// `s`.
proof fn lemma_in_row_runs(b: Seq<u8>, w: int, y: int, x0: int, s: int)
    requires
        0 <= x0 <= s,
        run_start(b, w, y, s),
    ensures
        row_runs(b, w, y, x0).contains((y as u32, s as u32, run_end(b, w, y, s) as u32)),
    decreases s - x0,
{
    let r = (y as u32, s as u32, run_end(b, w, y, s) as u32);
    if x0 == s {
        assert(row_runs(b, w, y, s) == seq![r] + row_runs(b, w, y, s + 1));
        assert(row_runs(b, w, y, s)[0] == r);
    } else {
        lemma_in_row_runs(b, w, y, x0 + 1, s);
        let rest = row_runs(b, w, y, x0 + 1);
        let k = choose|k: int| 0 <= k < rest.len() && rest[k] == r;
        if run_start(b, w, y, x0) {
            let head = seq![(y as u32, x0 as u32, run_end(b, w, y, x0) as u32)];
            assert(row_runs(b, w, y, x0) == head + rest);
            assert((head + rest)[k + 1] == r);
        } else {
            assert(row_runs(b, w, y, x0) == rest);
        }
    }
}

/// A run of row `y` is among the runs of rows `y0` and below.
proof fn lemma_in_runs(b: Seq<u8>, w: int, h: int, y0: int, y: int, r: (u32, u32, u32))
    requires
        0 <= y0 <= y < 2 * h,
        row_runs(b, w, y, 0).contains(r),
    ensures
        runs_from_row(b, w, h, y0).contains(r),
    decreases y - y0,
{
    let a = row_runs(b, w, y0, 0);
    let rest = runs_from_row(b, w, h, y0 + 1);
    assert(runs_from_row(b, w, h, y0) == a + rest);
    if y0 < y {
        lemma_in_runs(b, w, h, y0 + 1, y, r);
        let k = choose|k: int| 0 <= k < rest.len() && rest[k] == r;
        assert((a + rest)[a.len() + k] == r);
    } else {
        let k = choose|k: int| 0 <= k < a.len() && a[k] == r;
        assert((a + rest)[k] == r);
    }
}

// ---------------------------------------------------------------------------
// The laws
// ---------------------------------------------------------------------------

/// What the rectangles are made of: each ink pixel lies in some rectangle,
/// each rectangle lies in the upscaled cell, and every row of it is a
/// maximal ink run of exactly its width.
proof fn lemma_rects_structure(b: Seq<u8>, w: int, h: int)
    requires
        0 < w,
        0 < h,
        4 * w * h <= u32::MAX,
    ensures
        forall|x: int, y: int|
            0 <= x < 2 * w && 0 <= y < 2 * h && up_ink(b, w, x, y) ==> exists|k: int|
                0 <= k < spec_rects(b, w, h).len() && in_rect(#[trigger] spec_rects(b, w, h)[k], x, y),
        forall|k: int|
            0 <= k < spec_rects(b, w, h).len() ==> (#[trigger] spec_rects(b, w, h)[k]).1 < spec_rects(b, w, h)[k].3
                <= 2 * h,
        forall|k: int, y: int|
            0 <= k < spec_rects(b, w, h).len() && spec_rects(b, w, h)[k].1 <= y < spec_rects(b, w, h)[k].3
                ==> #[trigger] ink_run(b, w, y, spec_rects(b, w, h)[k].0 as int, spec_rects(b, w, h)[k].2 as int),
{
    assert(2 * w <= u32::MAX && 4 * h <= u32::MAX) by (nonlinear_arith)
        requires
            0 < w,
            0 < h,
            4 * w * h <= u32::MAX,
    ;
    let runs = spec_runs(b, w, h);
    let n = runs.len() as int;
    let used0 = Seq::new(n as nat, |k: int| false);
    let rects = spec_rects(b, w, h);
    assert(rects == merge_from(runs, 0, used0));
    lemma_runs_bounds(b, w, h, 0);
    lemma_runs_ink(b, w, h, 0);
    assert forall|t: int| 0 <= t < runs.len() implies (#[trigger] runs[t]).0 < u32::MAX by {}
    lemma_merge_from(runs, 0, used0);
    assert forall|x: int, y: int| 0 <= x < 2 * w && 0 <= y < 2 * h && up_ink(b, w, x, y) implies exists|k: int|
        0 <= k < rects.len() && in_rect(#[trigger] rects[k], x, y) by {
        let s = lemma_run_start_of(b, w, y, x);
        let e = run_end(b, w, y, s);
        let r = (y as u32, s as u32, e as u32);
        lemma_in_row_runs(b, w, y, 0, s);
        lemma_in_runs(b, w, h, 0, y, r);
        let t = choose|t: int| 0 <= t < runs.len() && runs[t] == r;
        assert(!used0[t]);
        let k = choose|k: int| 0 <= k < rects.len() && placed(runs[t], #[trigger] rects[k]);
        assert(in_rect(rects[k], x, y));
    }
    assert forall|k: int| 0 <= k < rects.len() implies (#[trigger] rects[k]).1 < rects[k].3 <= 2 * h by {
        let q = rects[k];
        let t = choose|t: int| 0 <= t < runs.len() && #[trigger] runs[t] == (q.1, q.0, q.2);
        assert(runs[t] == (q.1, q.0, q.2));
        if q.3 - 1 > q.1 {
            assert(has_row_run(runs, (q.1, q.0, q.2), q.3 - 1));
            let t2 = choose|t2: int| 0 <= t2 < runs.len() && (#[trigger] runs[t2]).0 == q.3 - 1 && mergeable(
                runs[t2],
                (q.1, q.0, q.2),
            );
            assert(runs[t2].0 < 2 * h);
        }
    }
    assert forall|k: int, y: int| 0 <= k < rects.len() && rects[k].1 <= y < rects[k].3 implies #[trigger] ink_run(
        b,
        w,
        y,
        rects[k].0 as int,
        rects[k].2 as int,
    ) by {
        let q = rects[k];
        if y == q.1 {
            let t = choose|t: int| 0 <= t < runs.len() && #[trigger] runs[t] == (q.1, q.0, q.2);
            assert(runs[t] == (q.1, q.0, q.2));
        } else {
            assert(has_row_run(runs, (q.1, q.0, q.2), y));
            let t = choose|t: int| 0 <= t < runs.len() && (#[trigger] runs[t]).0 == y && mergeable(runs[t], (q.1, q.0, q.2));
            assert(ink_run(b, w, runs[t].0 as int, runs[t].1 as int, runs[t].2 as int));
        }
    }
}

/// The run-length rectangles cover exactly the ink of the upscaled cell: a
/// pixel of it is ink if and only if it lies in some rectangle; every
/// rectangle lies in the upscaled cell, and every row of it is a maximal ink
/// run of exactly its width.
pub proof fn lemma_rects_exact(b: Seq<u8>, w: int, h: int)
    requires
        0 < w,
        0 < h,
        4 * w * h <= u32::MAX,
    ensures
        forall|x: int, y: int|
            0 <= x < 2 * w && 0 <= y < 2 * h ==> (#[trigger] up_ink(b, w, x, y) <==> exists|k: int|
                0 <= k < spec_rects(b, w, h).len() && in_rect(#[trigger] spec_rects(b, w, h)[k], x, y)),
        forall|k: int|
            0 <= k < spec_rects(b, w, h).len() ==> {
                let q = #[trigger] spec_rects(b, w, h)[k];
                q.0 < q.2 <= 2 * w && q.1 < q.3 <= 2 * h
            },
        forall|k: int, y: int|
            0 <= k < spec_rects(b, w, h).len() && spec_rects(b, w, h)[k].1 <= y < spec_rects(b, w, h)[k].3
                ==> #[trigger] ink_run(b, w, y, spec_rects(b, w, h)[k].0 as int, spec_rects(b, w, h)[k].2 as int),
{
    lemma_rects_structure(b, w, h);
    let rects = spec_rects(b, w, h);
    assert forall|k: int| 0 <= k < rects.len() implies {
        let q = #[trigger] rects[k];
        q.0 < q.2 <= 2 * w && q.1 < q.3 <= 2 * h
    } by {
        let q = rects[k];
        assert(ink_run(b, w, q.1 as int, q.0 as int, q.2 as int));
    }
    assert forall|x: int, y: int| 0 <= x < 2 * w && 0 <= y < 2 * h implies (#[trigger] up_ink(b, w, x, y) <==> exists|k: int|
        0 <= k < rects.len() && in_rect(#[trigger] rects[k], x, y)) by {
        if exists|k: int| 0 <= k < rects.len() && in_rect(#[trigger] rects[k], x, y) {
            let k = choose|k: int| 0 <= k < rects.len() && in_rect(#[trigger] rects[k], x, y);
            let q = rects[k];
            assert(ink_run(b, w, y, q.0 as int, q.2 as int));
            assert(up_ink(b, w, x, y));
        }
    }
}

} // verus!
