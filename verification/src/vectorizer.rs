//! Integer geometry of glyph vectorization: run-length rectangles of a binary
//! cell and their font paths, under the fixed cell-to-em transform or the
//! bounding-box fit.
use vstd::prelude::*;
use crate::contour::{boundary_tracing, trace_boundary_loops, lemma_tracing_in_grid, len_before, lemma_tracing_total};
use crate::simplify::{spec_dp_closed, douglas_peucker_closed, COORD_LIMIT};
use crate::quality::CellQuality;
use crate::cell::flag_unvectorized;

verus! {

/// One command of a glyph path, in font units (y up). All coordinates the
/// library produces are whole units.
#[derive(Clone, Copy, Debug, PartialEq, Eq, Structural)]
pub enum PathCommand {
    MoveTo { x: i64, y: i64 },
    LineTo { x: i64, y: i64 },
    CurveTo { x: i64, y: i64, cp1x: i64, cp1y: i64, cp2x: i64, cp2y: i64 },
    Close { x: i64, y: i64 },
}

/// Whether some pixel of the `w` by `h` binary image is ink (0).
pub open spec fn spec_has_ink(b: Seq<u8>, w: int, h: int) -> bool {
    b.len() >= w * h && exists|i: int| 0 <= i < w * h && b[i] == 0
}

/// Whether the `w` by `h` binary image (0 = ink) holds any ink; a buffer
/// shorter than `w * h` holds none.
pub fn binary_has_ink(binary_sauvola: &[u8], w: u32, h: u32) -> (r: bool)
    requires
        (w as int) * (h as int) <= usize::MAX,
    ensures
        r == spec_has_ink(binary_sauvola@, w as int, h as int),
{
    let n = (w as usize) * (h as usize);
    if binary_sauvola.len() < n {
        return false;
    }
    let mut i: usize = 0;
    while i < n
        invariant
            n == (w as int) * (h as int),
            binary_sauvola@.len() >= n,
            0 <= i <= n,
            forall|k: int| 0 <= k < i ==> binary_sauvola@[k] != 0,
        decreases n - i,
    {
        if binary_sauvola[i] == 0 {
            return true;
        }
        i += 1;
    }
    false
}

// ---------------------------------------------------------------------------
// Run-length rectangles
// ---------------------------------------------------------------------------

/// Ink at `(x, y)` of the image upscaled twice (nearest neighbour).
pub open spec fn up_ink(b: Seq<u8>, w: int, x: int, y: int) -> bool {
    b[(y / 2) * w + x / 2] == 0
}

/// End (exclusive) of the ink run of row `y` of the upscaled image that
/// covers `x`, scanning right.
pub open spec fn run_end(b: Seq<u8>, w: int, y: int, x: int) -> int
    decreases 2 * w - x,
{
    if x >= 2 * w || !up_ink(b, w, x, y) {
        x
    } else {
        run_end(b, w, y, x + 1)
    }
}

/// A maximal ink run starts at `x` of row `y`.
pub open spec fn run_start(b: Seq<u8>, w: int, y: int, x: int) -> bool {
    0 <= x < 2 * w && up_ink(b, w, x, y) && (x == 0 || !up_ink(b, w, x - 1, y))
}

/// The maximal ink runs `(y, start, end)` of row `y` of the upscaled image
/// that start at `x` or later, left to right.
pub open spec fn row_runs(b: Seq<u8>, w: int, y: int, x: int) -> Seq<(u32, u32, u32)>
    decreases 2 * w - x,
{
    if x >= 2 * w || x < 0 {
        Seq::empty()
    } else if run_start(b, w, y, x) {
        seq![(y as u32, x as u32, run_end(b, w, y, x) as u32)] + row_runs(b, w, y, x + 1)
    } else {
        row_runs(b, w, y, x + 1)
    }
}

/// The maximal ink runs of rows `y` and below of the upscaled image, row by
/// row.
pub open spec fn runs_from_row(b: Seq<u8>, w: int, h: int, y: int) -> Seq<(u32, u32, u32)>
    decreases 2 * h - y,
{
    if y >= 2 * h || y < 0 {
        Seq::empty()
    } else {
        row_runs(b, w, y, 0) + runs_from_row(b, w, h, y + 1)
    }
}

/// Two runs may be stacked into one rectangle: they have the same ends, so
/// the rectangle covers exactly the ink of both.
pub open spec fn mergeable(a: (u32, u32, u32), head: (u32, u32, u32)) -> bool {
    a.1 == head.1 && a.2 == head.2
}

/// Stacks runs from index `j` onto the rectangle headed by `head`, whose rows
/// end (exclusive) at `y_end`: a run of row `y_end` mergeable with the head
/// extends it by a row and is marked used. The scan stops at the first run
/// below `y_end`. Gives the final end row and the used flags.
pub open spec fn merge_scan(
    runs: Seq<(u32, u32, u32)>,
    head: (u32, u32, u32),
    j: int,
    y_end: int,
    used: Seq<bool>,
) -> (int, Seq<bool>)
    decreases runs.len() - j,
{
    if j < 0 || j >= runs.len() || runs[j].0 > y_end {
        (y_end, used)
    } else if runs[j].0 == y_end && mergeable(runs[j], head) {
        merge_scan(runs, head, j + 1, y_end + 1, used.update(j, true))
    } else {
        merge_scan(runs, head, j + 1, y_end, used)
    }
}

/// Rectangles `(x_start, y_start, x_end, y_end)` from the runs at index `i`
/// and later: each run not yet used heads a rectangle of its own width.
pub open spec fn merge_from(runs: Seq<(u32, u32, u32)>, i: int, used: Seq<bool>) -> Seq<
    (u32, u32, u32, u32),
>
    decreases runs.len() - i,
{
    if i < 0 || i >= runs.len() {
        Seq::empty()
    } else if used[i] {
        merge_from(runs, i + 1, used)
    } else {
        let s = merge_scan(runs, runs[i], i + 1, runs[i].0 + 1, used.update(i, true));
        seq![(runs[i].1, runs[i].0, runs[i].2, s.0 as u32)] + merge_from(runs, i + 1, s.1)
    }
}

/// The runs of the upscaled image.
pub open spec fn spec_runs(b: Seq<u8>, w: int, h: int) -> Seq<(u32, u32, u32)> {
    runs_from_row(b, w, h, 0)
}

/// The rectangles of the upscaled image.
pub open spec fn spec_rects(b: Seq<u8>, w: int, h: int) -> Seq<(u32, u32, u32, u32)> {
    let runs = spec_runs(b, w, h);
    merge_from(runs, 0, Seq::new(runs.len(), |k: int| false))
}

/// Most rectangles a glyph may have before it counts as noise.
pub const MAX_RECTS: usize = 4000;

/// Whether `extract_rects` finds rectangles: a valid non-empty image whose
/// rectangles are not more than `MAX_RECTS`.
pub open spec fn spec_rects_found(b: Seq<u8>, w: int, h: int) -> bool {
    &&& w > 0 && h > 0
    &&& b.len() >= w * h
    &&& spec_rects(b, w, h).len() > 0
    &&& spec_rects(b, w, h).len() <= MAX_RECTS
}

pub(crate) proof fn lemma_run_end(b: Seq<u8>, w: int, y: int, x: int)
    requires
        0 <= x <= 2 * w,
    ensures
        x <= run_end(b, w, y, x) <= 2 * w,
        x < 2 * w && up_ink(b, w, x, y) ==> x < run_end(b, w, y, x),
        forall|k: int| x <= k < run_end(b, w, y, x) ==> up_ink(b, w, k, y),
        run_end(b, w, y, x) == 2 * w || !up_ink(b, w, run_end(b, w, y, x), y),
    decreases 2 * w - x,
{
    if x < 2 * w && up_ink(b, w, x, y) {
        lemma_run_end(b, w, y, x + 1);
    }
}

/// Inside a run, no run starts: the runs from any point of a run's interior
/// are those from its end.
proof fn lemma_row_runs_skip(b: Seq<u8>, w: int, y: int, s: int, k: int)
    requires
        0 <= s < k <= run_end(b, w, y, s),
        run_end(b, w, y, s) <= 2 * w,
        forall|i: int| s <= i < run_end(b, w, y, s) ==> up_ink(b, w, i, y),
    ensures
        row_runs(b, w, y, k) == row_runs(b, w, y, run_end(b, w, y, s)),
    decreases run_end(b, w, y, s) - k,
{
    let e = run_end(b, w, y, s);
    if k < e {
        lemma_row_runs_skip(b, w, y, s, k + 1);
        assert(!run_start(b, w, y, k));
    }
}

pub(crate) proof fn lemma_row_runs_bounds(b: Seq<u8>, w: int, y: int, x: int)
    requires
        0 <= x <= 2 * w,
        0 <= y <= u32::MAX,
        2 * w <= u32::MAX,
    ensures
        forall|k: int|
            0 <= k < row_runs(b, w, y, x).len() ==> {
                let r = #[trigger] row_runs(b, w, y, x)[k];
                &&& r.0 == y
                &&& x <= r.1 < r.2 <= 2 * w
            },
    decreases 2 * w - x,
{
    if x < 2 * w {
        lemma_row_runs_bounds(b, w, y, x + 1);
        if run_start(b, w, y, x) {
            lemma_run_end(b, w, y, x);
            assert((y as u32) as int == y);
            assert((x as u32) as int == x);
            assert((run_end(b, w, y, x) as u32) as int == run_end(b, w, y, x));
            let head = seq![(y as u32, x as u32, run_end(b, w, y, x) as u32)];
            let rest = row_runs(b, w, y, x + 1);
            assert(row_runs(b, w, y, x) == head + rest);
            assert forall|k: int| 0 <= k < (head + rest).len() implies {
                let r = #[trigger] (head + rest)[k];
                &&& r.0 == y
                &&& x <= r.1 < r.2 <= 2 * w
            } by {
                if k > 0 {
                    assert((head + rest)[k] == rest[k - 1]);
                }
            }
        } else {
            assert(row_runs(b, w, y, x) == row_runs(b, w, y, x + 1));
        }
    }
}

pub(crate) proof fn lemma_runs_bounds(b: Seq<u8>, w: int, h: int, y: int)
    requires
        0 <= y <= 2 * h,
        2 * h <= u32::MAX,
        2 * w <= u32::MAX,
        0 <= w,
    ensures
        forall|k: int|
            0 <= k < runs_from_row(b, w, h, y).len() ==> {
                let r = #[trigger] runs_from_row(b, w, h, y)[k];
                &&& y <= r.0 < 2 * h
                &&& r.1 < r.2 <= 2 * w
            },
        forall|k1: int, k2: int|
            0 <= k1 < k2 < runs_from_row(b, w, h, y).len() ==> #[trigger] runs_from_row(
                b,
                w,
                h,
                y,
            )[k1].0 <= #[trigger] runs_from_row(b, w, h, y)[k2].0,
    decreases 2 * h - y,
{
    if y < 2 * h {
        lemma_runs_bounds(b, w, h, y + 1);
        lemma_row_runs_bounds(b, w, y, 0);
        let a = row_runs(b, w, y, 0);
        let rest = runs_from_row(b, w, h, y + 1);
        assert(runs_from_row(b, w, h, y) == a + rest);
        assert forall|k: int| 0 <= k < (a + rest).len() implies {
            let r = #[trigger] (a + rest)[k];
            &&& y <= r.0 < 2 * h
            &&& r.1 < r.2 <= 2 * w
        } by {
            if k >= a.len() {
                assert((a + rest)[k] == rest[k - a.len()]);
            } else {
                assert((a + rest)[k] == a[k]);
            }
        }
        assert forall|k1: int, k2: int|
            0 <= k1 < k2 < (a + rest).len() implies #[trigger] (a + rest)[k1].0 <= #[trigger] (a
            + rest)[k2].0 by {
            if k1 < a.len() {
                assert((a + rest)[k1] == a[k1]);
                if k2 < a.len() {
                    assert((a + rest)[k2] == a[k2]);
                } else {
                    assert((a + rest)[k2] == rest[k2 - a.len()]);
                }
            } else {
                assert((a + rest)[k1] == rest[k1 - a.len()]);
                assert((a + rest)[k2] == rest[k2 - a.len()]);
            }
        }
    }
}

/// Maximal ink runs of the upscaled image, row by row.
fn extract_runs(binary_sauvola: &[u8], w: u32, h: u32) -> (runs: Vec<(u32, u32, u32)>)
    requires
        4 * (w as int) * (h as int) <= u32::MAX,
        binary_sauvola@.len() >= (w as int) * (h as int),
        w > 0,
        h > 0,
    ensures
        runs@ == spec_runs(binary_sauvola@, w as int, h as int),
{
    let ghost b = binary_sauvola@;
    let ghost wi = w as int;
    let ghost hi = h as int;
    proof {
        assert(2 * wi <= u32::MAX && 2 * hi <= u32::MAX && wi * hi <= u32::MAX) by (nonlinear_arith)
            requires
                4 * wi * hi <= u32::MAX,
                wi > 0,
                hi > 0,
        ;
    }
    let uw = 2 * w;
    let uh = 2 * h;
    let mut runs: Vec<(u32, u32, u32)> = Vec::new();
    let mut y: u32 = 0;
    while y < uh
        invariant
            uw == 2 * wi,
            uh == 2 * hi,
            wi == w,
            hi == h,
            b == binary_sauvola@,
            b.len() >= wi * hi,
            2 * wi <= u32::MAX,
            2 * hi <= u32::MAX,
            wi * hi <= u32::MAX,
            wi > 0,
            hi > 0,
            0 <= y <= uh,
            runs@ + runs_from_row(b, wi, hi, y as int) == spec_runs(b, wi, hi),
        decreases uh - y,
    {
        let mut x: u32 = 0;
        proof {
            assert(((y / 2) as int) * wi + wi <= hi * wi) by (nonlinear_arith)
                requires
                    (y / 2) < hi,
                    wi > 0,
            ;
        }
        let row_base: usize = ((y / 2) as usize) * (w as usize);
        while x < uw
            invariant
                uw == 2 * wi,
                uh == 2 * hi,
                wi == w,
                hi == h,
                b == binary_sauvola@,
                b.len() >= wi * hi,
                2 * wi <= u32::MAX,
                2 * hi <= u32::MAX,
                wi * hi <= u32::MAX,
                wi > 0,
                hi > 0,
                0 <= y < uh,
                row_base == (y / 2) as int * wi,
                row_base + wi <= wi * hi,
                0 <= x <= uw,
                (x > 0 && up_ink(b, wi, x - 1, y as int)) ==> (x == uw || !up_ink(b, wi, x as int, y as int)),
                runs@ + row_runs(b, wi, y as int, x as int) + runs_from_row(b, wi, hi, y as int + 1)
                    == spec_runs(b, wi, hi),
            decreases uw - x,
        {
            if binary_sauvola[row_base + (x / 2) as usize] != 0 {
                proof {
                    assert(!run_start(b, wi, y as int, x as int));
                }
                x += 1;
                continue;
            }
            let run_start_x = x;
            proof {
                assert(run_start(b, wi, y as int, x as int));
                lemma_run_end(b, wi, y as int, x as int);
            }
            while x < uw && binary_sauvola[row_base + (x / 2) as usize] == 0
                invariant
                    uw == 2 * wi,
                    wi == w,
                    b == binary_sauvola@,
                    b.len() >= wi * hi,
                    row_base == (y / 2) as int * wi,
                    row_base + wi <= wi * hi,
                    wi * hi <= u32::MAX,
                    run_start_x <= x <= run_end(b, wi, y as int, run_start_x as int),
                    run_end(b, wi, y as int, run_start_x as int) <= uw,
                    forall|k: int|
                        run_start_x <= k < run_end(b, wi, y as int, run_start_x as int) ==> up_ink(
                            b,
                            wi,
                            k,
                            y as int,
                        ),
                    run_end(b, wi, y as int, run_start_x as int) == 2 * wi || !up_ink(
                        b,
                        wi,
                        run_end(b, wi, y as int, run_start_x as int),
                        y as int,
                    ),
                decreases uw - x,
            {
                x += 1;
            }
            proof {
                let e = run_end(b, wi, y as int, run_start_x as int);
                if x < e {
                    assert(up_ink(b, wi, x as int, y as int));
                }
                assert(x == e);
                lemma_row_runs_skip(b, wi, y as int, run_start_x as int, run_start_x as int + 1);
                assert(row_runs(b, wi, y as int, run_start_x as int) == seq![
                    (y as u32, run_start_x as u32, e as u32),
                ] + row_runs(b, wi, y as int, e));
                assert(runs@.push((y, run_start_x, x)) + row_runs(b, wi, y as int, x as int)
                    =~= runs@ + row_runs(b, wi, y as int, run_start_x as int));
                assert(runs@.push((y, run_start_x, x)) + row_runs(b, wi, y as int, x as int)
                    + runs_from_row(b, wi, hi, y as int + 1) =~= runs@ + row_runs(
                    b,
                    wi,
                    y as int,
                    run_start_x as int,
                ) + runs_from_row(b, wi, hi, y as int + 1));
            }
            runs.push((y, run_start_x, x));
        }
        proof {
            assert(row_runs(b, wi, y as int, x as int) =~= Seq::<(u32, u32, u32)>::empty());
            assert(runs@ + runs_from_row(b, wi, hi, y as int + 1) =~= runs@ + row_runs(
                b,
                wi,
                y as int,
                x as int,
            ) + runs_from_row(b, wi, hi, y as int + 1));
        }
        y += 1;
    }
    proof {
        assert(runs_from_row(b, wi, hi, y as int) =~= Seq::<(u32, u32, u32)>::empty());
        assert(runs@ =~= runs@ + runs_from_row(b, wi, hi, y as int));
    }
    runs
}

/// Stacks the runs into rectangles, in the order of their head runs.
fn merge_runs(runs: &Vec<(u32, u32, u32)>, uh: u32) -> (rects: Vec<(u32, u32, u32, u32)>)
    requires
        forall|k: int| 0 <= k < runs@.len() ==> (#[trigger] runs@[k]).0 < uh,
    ensures
        rects@ == merge_from(runs@, 0, Seq::new(runs@.len(), |k: int| false)),
{
    let n = runs.len();
    let mut used: Vec<bool> = Vec::new();
    while used.len() < n
        invariant
            used@.len() <= n,
            forall|k: int| 0 <= k < used@.len() ==> !used@[k],
        decreases n - used@.len(),
    {
        used.push(false);
    }
    let ghost init = used@;
    assert(init =~= Seq::new(runs@.len(), |k: int| false));
    let mut rects: Vec<(u32, u32, u32, u32)> = Vec::new();
    let mut i: usize = 0;
    while i < n
        invariant
            n == runs@.len(),
            used@.len() == n,
            0 <= i <= n,
            forall|k: int| 0 <= k < runs@.len() ==> (#[trigger] runs@[k]).0 < uh,
            rects@ + merge_from(runs@, i as int, used@) == merge_from(runs@, 0, init),
        decreases n - i,
    {
        if used[i] {
            i += 1;
            continue;
        }
        let (y0, xs, xe) = runs[i];
        let ghost used_before = used@;
        used.set(i, true);
        let mut y_end: u32 = y0 + 1;
        let mut j: usize = i + 1;
        let ghost target = merge_scan(runs@, runs@[i as int], i + 1, y0 + 1, used_before.update(i as int, true));
        while j < n && runs[j].0 <= y_end
            invariant
                n == runs@.len(),
                used@.len() == n,
                i < j <= n,
                y_end <= uh,
                runs@[i as int] == (y0, xs, xe),
                forall|k: int| 0 <= k < runs@.len() ==> (#[trigger] runs@[k]).0 < uh,
                merge_scan(runs@, runs@[i as int], j as int, y_end as int, used@) == target,
            decreases n - j,
        {
            let (yj, xsj, xej) = runs[j];
            if yj == y_end && xsj == xs && xej == xe {
                used.set(j, true);
                y_end = yj + 1;
            }
            j += 1;
        }
        proof {
            assert(target == (y_end as int, used@));
            assert(rects@.push((xs, y0, xe, y_end)) + merge_from(runs@, i + 1, used@) =~= rects@
                + merge_from(runs@, i as int, used_before));
        }
        rects.push((xs, y0, xe, y_end));
        i += 1;
    }
    proof {
        assert(merge_from(runs@, i as int, used@) =~= Seq::<(u32, u32, u32, u32)>::empty());
        assert(rects@ + merge_from(runs@, i as int, used@) =~= rects@);
    }
    rects
}

/// Rectangles of a binary cell (0 = ink) for run-length vectorization: the
/// cell is upscaled twice (nearest neighbour), each row cut into maximal ink
/// runs, and runs of consecutive rows with the same ends stacked into one
/// rectangle, so that the rectangles cover exactly the upscaled ink. Gives the rectangles `(x_start, y_start, x_end, y_end)` in upscaled
/// pixels with the upscaled size; `None` for an empty grid, a buffer shorter
/// than `w * h`, a cell without ink, or more than `MAX_RECTS` rectangles
/// (noise that would hang the font writer).
pub fn extract_rects(binary_sauvola: &[u8], w: u32, h: u32) -> (r: Option<
    (Vec<(u32, u32, u32, u32)>, u32, u32),
>)
    requires
        4 * (w as int) * (h as int) <= u32::MAX,
    ensures
        r is Some <==> spec_rects_found(binary_sauvola@, w as int, h as int),
        r matches Some(t) ==> t.0@ == spec_rects(binary_sauvola@, w as int, h as int) && t.1 == 2 * w
            && t.2 == 2 * h,
{
    if w == 0 || h == 0 {
        return None;
    }
    proof {
        assert((w as int) * (h as int) <= u32::MAX && 2 * (w as int) <= u32::MAX && 2 * (h as int)
            <= u32::MAX) by (nonlinear_arith)
            requires
                4 * (w as int) * (h as int) <= u32::MAX,
                w > 0,
                h > 0,
        ;
    }
    if binary_sauvola.len() < (w as usize) * (h as usize) {
        return None;
    }
    let runs = extract_runs(binary_sauvola, w, h);
    proof {
        lemma_runs_bounds(binary_sauvola@, w as int, h as int, 0);
    }
    let rects = merge_runs(&runs, 2 * h);
    if rects.len() == 0 || rects.len() > MAX_RECTS {
        return None;
    }
    Some((rects, 2 * w, 2 * h))
}

// ---------------------------------------------------------------------------
// Font coordinates
// ---------------------------------------------------------------------------

/// `n / d` rounded to the nearest integer, halves away from zero (`d > 0`).
pub open spec fn round_div(n: int, d: int) -> int {
    if n >= 0 {
        (2 * n + d) / (2 * d)
    } else {
        -((2 * -n + d) / (2 * d))
    }
}

fn round_div_exec(n: i64, d: i64) -> (r: i64)
    requires
        0 < d <= 0x100_0000_0000_0000,
        -0x100_0000_0000_0000 <= n <= 0x100_0000_0000_0000,
    ensures
        r == round_div(n as int, d as int),
{
    if n >= 0 {
        (2 * n + d) / (2 * d)
    } else {
        -((2 * (-n) + d) / (2 * d))
    }
}

pub open spec fn max_int(a: int, b: int) -> int {
    if a >= b {
        a
    } else {
        b
    }
}

/// How pixel coordinates (y down) of a cell map to font units (y up).
#[derive(Clone, Copy, Debug, PartialEq, Eq, Structural)]
pub enum GlyphFrame {
    /// The fixed cell-to-em transform of a `pw` by `ph` pixel crop of the
    /// 12 mm cell area: its 10 mm inner square, 1 mm from the left and top,
    /// becomes the em square `[0, 1000]` by `[-120, 880]`, so 1 mm is 100 units.
    Em { pw: u32, ph: u32 },
    /// The bounding box `[x0, x0 + bw)` by `[y0, y0 + bh)` scaled so that its
    /// long side is 750 units and centered in 1000 by 800 units.
    Fit { x0: u32, y0: u32, bw: u32, bh: u32 },
}

impl GlyphFrame {
    pub open spec fn spec_valid(self) -> bool {
        match self {
            GlyphFrame::Em { pw, ph } => pw > 0 && ph > 0,
            GlyphFrame::Fit { x0, y0, bw, bh } => bw > 0 && bh > 0,
        }
    }

    /// Font x of pixel column `px`, rounded.
    pub open spec fn spec_x(self, px: int) -> int {
        match self {
            GlyphFrame::Em { pw, ph } => round_div(1200 * px - 100 * pw, pw as int),
            GlyphFrame::Fit { x0, y0, bw, bh } => {
                let m = max_int(bw as int, bh as int);
                round_div(1500 * (px - x0) + 1000 * m - 750 * bw, 2 * m)
            },
        }
    }

    /// Font y of pixel row `py`, rounded.
    pub open spec fn spec_y(self, py: int) -> int {
        match self {
            GlyphFrame::Em { pw, ph } => round_div(980 * ph - 1200 * py, ph as int),
            GlyphFrame::Fit { x0, y0, bw, bh } => {
                let m = max_int(bw as int, bh as int);
                round_div(800 * m + 750 * bh - 1500 * (py - y0), 2 * m)
            },
        }
    }

    /// Font x of pixel column `px`, rounded (halves away from zero).
    pub fn x(&self, px: u32) -> (r: i64)
        requires
            self.spec_valid(),
        ensures
            r == self.spec_x(px as int),
    {
        match *self {
            GlyphFrame::Em { pw, ph } => round_div_exec(1200 * (px as i64) - 100 * (pw as i64), pw as i64),
            GlyphFrame::Fit { x0, y0, bw, bh } => {
                let m: i64 = if bw >= bh {
                    bw as i64
                } else {
                    bh as i64
                };
                round_div_exec(
                    1500 * ((px as i64) - (x0 as i64)) + 1000 * m - 750 * (bw as i64),
                    2 * m,
                )
            },
        }
    }

    /// Font y of pixel row `py`, rounded (halves away from zero).
    pub fn y(&self, py: u32) -> (r: i64)
        requires
            self.spec_valid(),
        ensures
            r == self.spec_y(py as int),
    {
        match *self {
            GlyphFrame::Em { pw, ph } => round_div_exec(980 * (ph as i64) - 1200 * (py as i64), ph as i64),
            GlyphFrame::Fit { x0, y0, bw, bh } => {
                let m: i64 = if bw >= bh {
                    bw as i64
                } else {
                    bh as i64
                };
                round_div_exec(
                    800 * m + 750 * (bh as i64) - 1500 * ((py as i64) - (y0 as i64)),
                    2 * m,
                )
            },
        }
    }
}

/// The closed quadrilateral path of a rectangle: move to its top left, lines
/// to top right, bottom right and bottom left, close.
pub open spec fn rect_path(x0: i64, x1: i64, y_top: i64, y_bottom: i64) -> Seq<PathCommand> {
    seq![
        PathCommand::MoveTo { x: x0, y: y_top },
        PathCommand::LineTo { x: x1, y: y_top },
        PathCommand::LineTo { x: x1, y: y_bottom },
        PathCommand::LineTo { x: x0, y: y_bottom },
        PathCommand::Close { x: x0, y: y_top },
    ]
}

/// The path of rectangle `r` (pixels, y down) in frame `f`.
pub open spec fn rect_path_of(f: GlyphFrame, r: (u32, u32, u32, u32)) -> Seq<PathCommand> {
    rect_path(
        f.spec_x(r.0 as int) as i64,
        f.spec_x(r.2 as int) as i64,
        f.spec_y(r.1 as int) as i64,
        f.spec_y(r.3 as int) as i64,
    )
}

/// Each rectangle becomes a closed quadrilateral path in frame `f`.
pub fn rects_to_paths(rects: &Vec<(u32, u32, u32, u32)>, f: GlyphFrame) -> (paths: Vec<Vec<PathCommand>>)
    requires
        f.spec_valid(),
    ensures
        paths@.len() == rects@.len(),
        forall|k: int| 0 <= k < rects@.len() ==> (#[trigger] paths@[k])@ == rect_path_of(f, rects@[k]),
{
    let mut paths: Vec<Vec<PathCommand>> = Vec::new();
    let mut i: usize = 0;
    while i < rects.len()
        invariant
            f.spec_valid(),
            0 <= i <= rects@.len(),
            paths@.len() == i,
            forall|k: int| 0 <= k < i ==> (#[trigger] paths@[k])@ == rect_path_of(f, rects@[k]),
        decreases rects@.len() - i,
    {
        let (xs, ys, xe, ye) = rects[i];
        let fx0 = f.x(xs);
        let fx1 = f.x(xe);
        let fy_top = f.y(ys);
        let fy_bot = f.y(ye);
        let mut p: Vec<PathCommand> = Vec::new();
        p.push(PathCommand::MoveTo { x: fx0, y: fy_top });
        p.push(PathCommand::LineTo { x: fx1, y: fy_top });
        p.push(PathCommand::LineTo { x: fx1, y: fy_bot });
        p.push(PathCommand::LineTo { x: fx0, y: fy_bot });
        p.push(PathCommand::Close { x: fx0, y: fy_top });
        proof {
            assert(p@ =~= rect_path_of(f, rects@[i as int]));
        }
        paths.push(p);
        i += 1;
    }
    paths
}

/// Run-length paths of a binary cell: one quadrilateral per rectangle of
/// `spec_rects`, under the fixed cell-to-em transform of the upscaled crop.
pub open spec fn spec_runlength_paths(b: Seq<u8>, w: int, h: int) -> Seq<Seq<PathCommand>> {
    if spec_rects_found(b, w, h) {
        let rs = spec_rects(b, w, h);
        let f = GlyphFrame::Em { pw: (2 * w) as u32, ph: (2 * h) as u32 };
        Seq::new(rs.len(), |k: int| rect_path_of(f, rs[k]))
    } else {
        Seq::empty()
    }
}

/// Vectorizes a binary cell by run-length rectangles (the fallback method):
/// the image the paths fill is exactly the upscaled binary image, staircase
/// and all. No rectangles gives no paths.
pub fn vectorize_binary_runlength(binary_sauvola: &[u8], w: u32, h: u32) -> (paths: Vec<
    Vec<PathCommand>,
>)
    requires
        4 * (w as int) * (h as int) <= u32::MAX,
    ensures
        paths@.len() == spec_runlength_paths(binary_sauvola@, w as int, h as int).len(),
        forall|k: int|
            0 <= k < paths@.len() ==> (#[trigger] paths@[k])@ == spec_runlength_paths(
                binary_sauvola@,
                w as int,
                h as int,
            )[k],
{
    match extract_rects(binary_sauvola, w, h) {
        None => Vec::new(),
        Some((rects, uw, uh)) => rects_to_paths(&rects, GlyphFrame::Em { pw: uw, ph: uh }),
    }
}

/// Bounding box `(x_min, y_min, x_max, y_max)` of a non-empty list of
/// rectangles.
pub open spec fn rects_bbox(rs: Seq<(u32, u32, u32, u32)>) -> (int, int, int, int)
    decreases rs.len(),
{
    if rs.len() <= 1 {
        (rs[0].0 as int, rs[0].1 as int, rs[0].2 as int, rs[0].3 as int)
    } else {
        let b = rects_bbox(rs.drop_last());
        let r = rs.last();
        (
            if r.0 < b.0 { r.0 as int } else { b.0 },
            if r.1 < b.1 { r.1 as int } else { b.1 },
            if r.2 > b.2 { r.2 as int } else { b.2 },
            if r.3 > b.3 { r.3 as int } else { b.3 },
        )
    }
}

/// The bounding-box fit frame of a cell's rectangles, when the box is at
/// least a pixel wide and high.
pub open spec fn spec_fit_frame(b: Seq<u8>, w: int, h: int) -> Option<GlyphFrame> {
    if !spec_rects_found(b, w, h) {
        None
    } else {
        let bb = rects_bbox(spec_rects(b, w, h));
        if bb.2 - bb.0 < 1 || bb.3 - bb.1 < 1 {
            None
        } else {
            Some(
                GlyphFrame::Fit {
                    x0: bb.0 as u32,
                    y0: bb.1 as u32,
                    bw: (bb.2 - bb.0) as u32,
                    bh: (bb.3 - bb.1) as u32,
                },
            )
        }
    }
}

/// Paths of the bounding-box fit.
pub open spec fn spec_fit_paths(b: Seq<u8>, w: int, h: int) -> Seq<Seq<PathCommand>> {
    match spec_fit_frame(b, w, h) {
        None => Seq::empty(),
        Some(f) => {
            let rs = spec_rects(b, w, h);
            Seq::new(rs.len(), |k: int| rect_path_of(f, rs[k]))
        },
    }
}

fn bbox_of(rects: &Vec<(u32, u32, u32, u32)>) -> (bb: (u32, u32, u32, u32))
    requires
        rects@.len() > 0,
    ensures
        bb.0 as int == rects_bbox(rects@).0,
        bb.1 as int == rects_bbox(rects@).1,
        bb.2 as int == rects_bbox(rects@).2,
        bb.3 as int == rects_bbox(rects@).3,
{
    let mut bb = rects[0];
    proof {
        assert(rects@.subrange(0, 1) =~= seq![rects@[0]]);
    }
    let mut i: usize = 1;
    while i < rects.len()
        invariant
            1 <= i <= rects@.len(),
            bb.0 as int == rects_bbox(rects@.subrange(0, i as int)).0,
            bb.1 as int == rects_bbox(rects@.subrange(0, i as int)).1,
            bb.2 as int == rects_bbox(rects@.subrange(0, i as int)).2,
            bb.3 as int == rects_bbox(rects@.subrange(0, i as int)).3,
        decreases rects@.len() - i,
    {
        let r = rects[i];
        proof {
            assert(rects@.subrange(0, i + 1).drop_last() =~= rects@.subrange(0, i as int));
            assert(rects@.subrange(0, i + 1).last() == r);
        }
        if r.0 < bb.0 {
            bb.0 = r.0;
        }
        if r.1 < bb.1 {
            bb.1 = r.1;
        }
        if r.2 > bb.2 {
            bb.2 = r.2;
        }
        if r.3 > bb.3 {
            bb.3 = r.3;
        }
        i += 1;
    }
    proof {
        assert(rects@.subrange(0, rects@.len() as int) =~= rects@);
    }
    bb
}

/// Vectorizes a binary cell by run-length rectangles fitted to the em square:
/// the ink's bounding box is scaled so that its long side is 750 units and
/// centered in 1000 by 800 units. Writing position and size are lost, so this
/// is only a rescue for glyphs written far too small. No rectangles, or a
/// degenerate box, gives no paths.
pub fn vectorize_binary_bbox_fit(binary_sauvola: &[u8], w: u32, h: u32) -> (paths: Vec<
    Vec<PathCommand>,
>)
    requires
        4 * (w as int) * (h as int) <= u32::MAX,
    ensures
        paths@.len() == spec_fit_paths(binary_sauvola@, w as int, h as int).len(),
        forall|k: int|
            0 <= k < paths@.len() ==> (#[trigger] paths@[k])@ == spec_fit_paths(
                binary_sauvola@,
                w as int,
                h as int,
            )[k],
{
    let (rects, _uw, _uh) = match extract_rects(binary_sauvola, w, h) {
        None => {
            return Vec::new();
        },
        Some(t) => t,
    };
    let bb = bbox_of(&rects);
    if bb.2 <= bb.0 || bb.3 <= bb.1 {
        return Vec::new();
    }
    let f = GlyphFrame::Fit { x0: bb.0, y0: bb.1, bw: bb.2 - bb.0, bh: bb.3 - bb.1 };
    rects_to_paths(&rects, f)
}

// ---------------------------------------------------------------------------
// Contour polygons
// ---------------------------------------------------------------------------

/// Most contours a glyph may have before it counts as noise.
pub const MAX_CONTOURS: usize = 1024;

/// Most simplified contour points a glyph may have before it counts as noise.
pub const MAX_CONTOUR_POINTS: usize = 20000;

/// Douglas-Peucker tolerance of contours, `3 / 2` pixel: it folds the
/// staircase of the pixel grid into straight lines.
pub const CONTOUR_EPS_NUM: u32 = 3;

pub const CONTOUR_EPS_DEN: u32 = 2;

/// The simplified polygons of loops `0..k` that keep at least three points.
pub open spec fn simplified_upto(lp: Seq<Vec<(i32, i32)>>, k: int) -> Seq<Seq<(i32, i32)>>
    decreases k,
{
    if k <= 0 {
        Seq::empty()
    } else {
        let s = spec_dp_closed(lp[k - 1]@, CONTOUR_EPS_NUM as int, CONTOUR_EPS_DEN as int);
        if s.len() < 3 {
            simplified_upto(lp, k - 1)
        } else {
            simplified_upto(lp, k - 1).push(s)
        }
    }
}

/// Total number of points of some polygons.
pub open spec fn total_points(ps: Seq<Seq<(i32, i32)>>) -> int
    decreases ps.len(),
{
    if ps.len() == 0 {
        0
    } else {
        total_points(ps.drop_last()) + ps.last().len()
    }
}

/// Contour polygons of traced loops: each loop simplified by Douglas-Peucker,
/// degenerate results (under three points) dropped; nothing when there are no
/// loops, more than `MAX_CONTOURS` loops, or more than `MAX_CONTOUR_POINTS`
/// points in all.
pub open spec fn spec_polygons(lp: Seq<Vec<(i32, i32)>>) -> Seq<Seq<(i32, i32)>> {
    let all = simplified_upto(lp, lp.len() as int);
    if lp.len() == 0 || lp.len() > MAX_CONTOURS || total_points(all) > MAX_CONTOUR_POINTS {
        Seq::empty()
    } else {
        all
    }
}

proof fn lemma_total_points_mono(lp: Seq<Vec<(i32, i32)>>, k1: int, k2: int)
    requires
        0 <= k1 <= k2,
    ensures
        total_points(simplified_upto(lp, k1)) <= total_points(simplified_upto(lp, k2)),
    decreases k2 - k1,
{
    if k1 < k2 {
        lemma_total_points_mono(lp, k1, k2 - 1);
        let prev = simplified_upto(lp, k2 - 1);
        let s = spec_dp_closed(lp[k2 - 1]@, CONTOUR_EPS_NUM as int, CONTOUR_EPS_DEN as int);
        if s.len() >= 3 {
            assert(prev.push(s).drop_last() =~= prev);
        }
    }
}

/// Contour polygons of a binary cell (0 = ink), in pixel corners: its
/// boundary traced into loops (`trace_boundary_loops`), each simplified by
/// Douglas-Peucker at `3 / 2` pixel, degenerate ones dropped. Nothing for an
/// empty grid, a buffer shorter than `w * h`, a cell without ink, or a noisy
/// cell (more than `MAX_CONTOURS` loops or `MAX_CONTOUR_POINTS` points).
pub fn contour_polygons(binary_sauvola: &[u8], w: u32, h: u32) -> (polys: Vec<Vec<(i32, i32)>>)
    requires
        w <= COORD_LIMIT,
        h <= COORD_LIMIT,
        (w as int + 1) * (h as int + 1) <= usize::MAX,
    ensures
        (w == 0 || h == 0 || binary_sauvola@.len() < (w as int) * (h as int)) ==> polys@.len() == 0,
        !(w == 0 || h == 0 || binary_sauvola@.len() < (w as int) * (h as int)) ==> exists|
            lp: Seq<Vec<(i32, i32)>>,
        |
            #![trigger boundary_tracing(binary_sauvola@, w as int, h as int, lp)]
            boundary_tracing(binary_sauvola@, w as int, h as int, lp) && polys@.len()
                == spec_polygons(lp).len() && forall|k: int|
                0 <= k < polys@.len() ==> (#[trigger] polys@[k])@ == spec_polygons(lp)[k],
{
    proof {
        assert((w as int) * (h as int) <= (w as int + 1) * (h as int + 1)) by (nonlinear_arith);
    }
    if w == 0 || h == 0 || binary_sauvola.len() < (w as usize) * (h as usize) {
        return Vec::new();
    }
    let loops = trace_boundary_loops(binary_sauvola, w, h);
    let ghost lp = loops@;
    if loops.len() == 0 || loops.len() > MAX_CONTOURS {
        return Vec::new();
    }
    let mut polys: Vec<Vec<(i32, i32)>> = Vec::new();
    let mut total: usize = 0;
    let mut i: usize = 0;
    while i < loops.len()
        invariant
            lp == loops@,
            boundary_tracing(binary_sauvola@, w as int, h as int, lp),
            w <= COORD_LIMIT,
            h <= COORD_LIMIT,
            0 <= i <= lp.len(),
            polys@.len() == simplified_upto(lp, i as int).len(),
            forall|k: int| 0 <= k < polys@.len() ==> (#[trigger] polys@[k])@ == simplified_upto(lp, i as int)[k],
            total == total_points(simplified_upto(lp, i as int)),
            total <= MAX_CONTOUR_POINTS,
        decreases lp.len() - i,
    {
        proof {
            assert forall|q: int| 0 <= q < lp[i as int]@.len() implies -COORD_LIMIT <= (
            #[trigger] lp[i as int]@[q]).0 <= COORD_LIMIT && -COORD_LIMIT <= lp[i as int]@[q].1
                <= COORD_LIMIT by {
                lemma_tracing_in_grid(binary_sauvola@, w as int, h as int, lp, i as int, q);
            }
        }
        let simplified = douglas_peucker_closed(&loops[i], CONTOUR_EPS_NUM, CONTOUR_EPS_DEN);
        let ghost before = simplified_upto(lp, i as int);
        if simplified.len() < 3 {
            i += 1;
            continue;
        }
        proof {
            assert(simplified_upto(lp, i + 1) == before.push(simplified@));
            assert(before.push(simplified@).drop_last() =~= before);
        }
        if simplified.len() > MAX_CONTOUR_POINTS - total {
            proof {
                lemma_total_points_mono(lp, i + 1, lp.len() as int);
            }
            return Vec::new();
        }
        total = total + simplified.len();
        polys.push(simplified);
        i += 1;
    }
    proof {
        assert(lp.len() <= MAX_CONTOURS);
    }
    polys
}

/// A polygon's vertices in font units under frame `f`.
pub open spec fn spec_poly_in_frame(f: GlyphFrame, poly: Seq<(i32, i32)>) -> Seq<(i64, i64)> {
    Seq::new(poly.len(), |k: int| (f.spec_x(poly[k].0 as int) as i64, f.spec_y(poly[k].1 as int) as i64))
}

/// Maps a polygon of pixel corners into font units (the fixed cell-to-em
/// transform for contours).
pub fn poly_in_frame(poly: &Vec<(i32, i32)>, f: GlyphFrame) -> (out: Vec<(i64, i64)>)
    requires
        f.spec_valid(),
        forall|k: int| 0 <= k < poly@.len() ==> (#[trigger] poly@[k]).0 >= 0 && poly@[k].1 >= 0,
    ensures
        out@ == spec_poly_in_frame(f, poly@),
{
    let mut out: Vec<(i64, i64)> = Vec::new();
    let mut i: usize = 0;
    while i < poly.len()
        invariant
            f.spec_valid(),
            forall|k: int| 0 <= k < poly@.len() ==> (#[trigger] poly@[k]).0 >= 0 && poly@[k].1 >= 0,
            0 <= i <= poly@.len(),
            out@ =~= spec_poly_in_frame(f, poly@).subrange(0, i as int),
        decreases poly@.len() - i,
    {
        let (px, py) = poly[i];
        proof {
            assert(poly@[i as int].0 >= 0 && poly@[i as int].1 >= 0);
        }
        let fx = f.x(px as u32);
        let fy = f.y(py as u32);
        out.push((fx, fy));
        i += 1;
        proof {
            assert(out@ =~= spec_poly_in_frame(f, poly@).subrange(0, i as int));
        }
    }
    out
}

/// Vectorizes an adopted cell into contour polygons and flags it for review
/// when nothing comes out, whatever the cause: a noise guard emptied it, or
/// the ink was already lost before the quality gate. An adopted cell is never
/// dropped silently.
pub fn vectorize_adopted_with_review(
    binary_sauvola: &[u8],
    w: u32,
    h: u32,
    quality: &mut CellQuality,
) -> (polys: Vec<Vec<(i32, i32)>>)
    requires
        w <= COORD_LIMIT,
        h <= COORD_LIMIT,
        (w as int + 1) * (h as int + 1) <= usize::MAX,
    ensures
        (w == 0 || h == 0 || binary_sauvola@.len() < (w as int) * (h as int)) ==> polys@.len() == 0,
        !(w == 0 || h == 0 || binary_sauvola@.len() < (w as int) * (h as int)) ==> exists|
            lp: Seq<Vec<(i32, i32)>>,
        |
            #![trigger boundary_tracing(binary_sauvola@, w as int, h as int, lp)]
            boundary_tracing(binary_sauvola@, w as int, h as int, lp) && polys@.len()
                == spec_polygons(lp).len() && forall|k: int|
                0 <= k < polys@.len() ==> (#[trigger] polys@[k])@ == spec_polygons(lp)[k],
        final(quality).needs_review == (old(quality).needs_review || polys@.len() == 0),
        final(quality).removed_components == old(quality).removed_components,
        final(quality).removed_area == old(quality).removed_area,
        final(quality).kept_components == old(quality).kept_components,
        final(quality).kept_area == old(quality).kept_area,
        final(quality).total_pixels == old(quality).total_pixels,
{
    let polys = contour_polygons(binary_sauvola, w, h);
    flag_unvectorized(quality, polys.len());
    polys
}

/// Commands of the first `k` loops drawn as polygons before simplification:
/// a loop of `n >= 3` vertices takes a move, `n - 1` lines and a close.
pub open spec fn raw_commands(loops: Seq<Vec<(i32, i32)>>, k: int) -> nat
    decreases k,
{
    if k <= 0 {
        0
    } else {
        raw_commands(loops, k - 1) + if loops[k - 1]@.len() >= 3 {
            (loops[k - 1]@.len() + 1) as nat
        } else {
            0nat
        }
    }
}

/// Total number of commands of a list of paths.
pub open spec fn command_total(paths: Seq<Seq<PathCommand>>, k: int) -> nat
    decreases k,
{
    if k <= 0 {
        0
    } else {
        command_total(paths, k - 1) + paths[k - 1].len()
    }
}

proof fn lemma_raw_commands_bound(loops: Seq<Vec<(i32, i32)>>, k: int)
    requires
        0 <= k <= loops.len(),
    ensures
        raw_commands(loops, k) <= 2 * len_before(loops, k),
        len_before(loops, k) <= len_before(loops, loops.len() as int),
    decreases loops.len() - k,
{
    lemma_raw_commands_upto(loops, k);
    if k < loops.len() {
        lemma_raw_commands_bound(loops, k + 1);
    }
}

proof fn lemma_raw_commands_upto(loops: Seq<Vec<(i32, i32)>>, k: int)
    requires
        0 <= k <= loops.len(),
    ensures
        raw_commands(loops, k) <= 2 * len_before(loops, k),
    decreases k,
{
    if k > 0 {
        lemma_raw_commands_upto(loops, k - 1);
    }
}

/// Sum of the lengths of the paths of a list.
fn paths_command_count(paths: &Vec<Vec<PathCommand>>) -> (n: usize)
    requires
        command_total(paths@.map_values(|p: Vec<PathCommand>| p@), paths@.len() as int) <= usize::MAX,
    ensures
        n == command_total(paths@.map_values(|p: Vec<PathCommand>| p@), paths@.len() as int),
{
    let ghost ps = paths@.map_values(|p: Vec<PathCommand>| p@);
    let mut n: usize = 0;
    let mut k: usize = 0;
    while k < paths.len()
        invariant
            0 <= k <= paths@.len(),
            ps == paths@.map_values(|p: Vec<PathCommand>| p@),
            n == command_total(ps, k as int),
            command_total(ps, paths@.len() as int) <= usize::MAX,
        decreases paths@.len() - k,
    {
        proof {
            lemma_command_total_mono(ps, k as int + 1, paths@.len() as int);
            assert(ps[k as int] == paths@[k as int]@);
        }
        n = n + paths[k].len();
        k += 1;
    }
    n
}

proof fn lemma_command_total_mono(ps: Seq<Seq<PathCommand>>, k1: int, k2: int)
    requires
        0 <= k1 <= k2 <= ps.len(),
    ensures
        command_total(ps, k1) <= command_total(ps, k2),
    decreases k2 - k1,
{
    if k1 < k2 {
        lemma_command_total_mono(ps, k1, k2 - 1);
    }
}

/// Command counts of two vectorizations of a binary cell: the contour
/// polygons before simplification (a polygon of `n` vertices takes `n + 1`
/// commands; none for an empty or short buffer) and the run-length fallback.
pub fn contour_command_counts(binary_sauvola: &[u8], w: u32, h: u32) -> (r: (usize, usize))
    requires
        4 * (w as int) * (h as int) <= u32::MAX,
        8 * (w as int + 1) * (h as int + 1) <= usize::MAX,
    ensures
        (w == 0 || h == 0 || binary_sauvola@.len() < (w as int) * (h as int)) ==> r.0 == 0,
        !(w == 0 || h == 0 || binary_sauvola@.len() < (w as int) * (h as int)) ==> exists|
            lp: Seq<Vec<(i32, i32)>>,
        |
            boundary_tracing(binary_sauvola@, w as int, h as int, lp) && r.0 == #[trigger] raw_commands(
                lp,
                lp.len() as int,
            ),
        r.1 == command_total(
            spec_runlength_paths(binary_sauvola@, w as int, h as int),
            spec_runlength_paths(binary_sauvola@, w as int, h as int).len() as int,
        ),
{
    proof {
        assert((w as int) * (h as int) <= u32::MAX) by (nonlinear_arith)
            requires
                4 * (w as int) * (h as int) <= u32::MAX,
        ;
    }
    let raw: usize = if w == 0 || h == 0 || binary_sauvola.len() < (w as usize) * (h as usize) {
        0
    } else {
        proof {
            assert((w as int + 1) * (h as int + 1) <= 8 * (w as int + 1) * (h as int + 1)) by (nonlinear_arith)
                requires
                    w >= 0,
                    h >= 0,
            ;
            assert(w < i32::MAX && h < i32::MAX) by (nonlinear_arith)
                requires
                    4 * (w as int) * (h as int) <= u32::MAX,
                    w >= 1,
                    h >= 1,
            ;
        }
        let loops = trace_boundary_loops(binary_sauvola, w, h);
        let ghost lp = loops@;
        proof {
            lemma_tracing_total(binary_sauvola@, w as int, h as int, lp);
            lemma_raw_commands_bound(lp, lp.len() as int);
            assert(2 * len_before(lp, lp.len() as int) <= usize::MAX) by (nonlinear_arith)
                requires
                    len_before(lp, lp.len() as int) <= 4 * (w as int + 1) * (h as int + 1),
                    8 * (w as int + 1) * (h as int + 1) <= usize::MAX,
            ;
        }
        let mut total: usize = 0;
        let mut k: usize = 0;
        while k < loops.len()
            invariant
                lp == loops@,
                0 <= k <= lp.len(),
                total == raw_commands(lp, k as int),
                2 * len_before(lp, lp.len() as int) <= usize::MAX,
            decreases lp.len() - k,
        {
            proof {
                lemma_raw_commands_bound(lp, k as int + 1);
            }
            let n = loops[k].len();
            if n >= 3 {
                total = total + n + 1;
            }
            k += 1;
        }
        total
    };
    let paths = vectorize_binary_runlength(binary_sauvola, w, h);
    proof {
        let ps = paths@.map_values(|p: Vec<PathCommand>| p@);
        assert(ps =~= spec_runlength_paths(binary_sauvola@, w as int, h as int));
        lemma_runlength_total(binary_sauvola@, w as int, h as int);
    }
    let runlength = paths_command_count(&paths);
    (raw, runlength)
}

/// The run-length paths take five commands per rectangle.
proof fn lemma_runlength_total(b: Seq<u8>, w: int, h: int)
    ensures
        command_total(spec_runlength_paths(b, w, h), spec_runlength_paths(b, w, h).len() as int)
            <= 5 * MAX_RECTS,
{
    let ps = spec_runlength_paths(b, w, h);
    lemma_five_each(ps, ps.len() as int);
}

proof fn lemma_five_each(ps: Seq<Seq<PathCommand>>, k: int)
    requires
        0 <= k <= ps.len(),
        forall|j: int| 0 <= j < ps.len() ==> (#[trigger] ps[j]).len() == 5,
    ensures
        command_total(ps, k) == 5 * k,
    decreases k,
{
    if k > 0 {
        lemma_five_each(ps, k - 1);
    }
}

} // verus!
