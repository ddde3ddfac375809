//! Cell quality gate: removal of border-line residue and specks by connected
//! component analysis (8-connectivity), with a review flag for doubtful cells.
use vstd::prelude::*;
use crate::grid::{col_of, row_of, lemma_coords};
use crate::components::{
    is_ink, is_ink_path, path_step, connected, component, closed, count_true, flood_fill, blank_pixels,
    lemma_connected_refl, lemma_connected_sym, lemma_connected_ends, lemma_closed_contains,
    lemma_component_same, lemma_component_len, lemma_count_true_le, lemma_count_true_zero,
};

verus! {

/// Width in pixels of the border band: a component with a pixel in it touches
/// the cell border.
pub const GATE_BORDER_BAND: u32 = 2;

/// A border-touching component whose bounding box has a side this short or
/// shorter is a ruled-line residue, whatever its area.
pub const GATE_LINE_MAX_THICKNESS: u32 = 3;

/// Components smaller than this many pixels are specks.
pub const MIN_SPECK_AREA: u32 = 10;

/// Result of the quality gate, as pixel counts.
#[derive(Clone, Copy, Debug, PartialEq, Eq, Structural)]
pub struct CellQuality {
    /// Components removed (border residue and specks).
    pub removed_components: usize,
    /// Ink pixels removed.
    pub removed_area: usize,
    /// Ink components left.
    pub kept_components: usize,
    /// Ink pixels left.
    pub kept_area: usize,
    /// Pixels of the cell (the denominator of the area ratios).
    pub total_pixels: usize,
    /// The cell needs a human look.
    pub needs_review: bool,
}

impl CellQuality {
    /// The quality of a cell with nothing to gate.
    pub open spec fn spec_empty() -> CellQuality {
        CellQuality {
            removed_components: 0,
            removed_area: 0,
            kept_components: 0,
            kept_area: 0,
            total_pixels: 0,
            needs_review: false,
        }
    }

    /// The quality of a cell with nothing to gate.
    pub fn empty() -> (q: CellQuality)
        ensures
            q == CellQuality::spec_empty(),
    {
        CellQuality {
            removed_components: 0,
            removed_area: 0,
            kept_components: 0,
            kept_area: 0,
            total_pixels: 0,
            needs_review: false,
        }
    }
}

/// `a - b`, or 0 when `b` exceeds `a`.
pub open spec fn sat_sub(a: int, b: int) -> int {
    if a >= b {
        a - b
    } else {
        0
    }
}

/// Pixel `i` lies in the border band of a `w` by `h` cell.
pub open spec fn in_band(w: int, h: int, i: int) -> bool {
    let x = col_of(w, i);
    let y = row_of(w, i);
    x < GATE_BORDER_BAND || y < GATE_BORDER_BAND || x >= sat_sub(w, GATE_BORDER_BAND as int)
        || y >= sat_sub(h, GATE_BORDER_BAND as int)
}

/// The component has a pixel in the border band.
pub open spec fn touches_band(c: Set<int>, w: int, h: int) -> bool {
    exists|i: int| c.contains(i) && in_band(w, h, i)
}

/// The bounding box of the component is at most `GATE_LINE_MAX_THICKNESS`
/// wide or at most that high.
pub open spec fn narrow(c: Set<int>, w: int) -> bool {
    (forall|i: int, j: int|
        c.contains(i) && c.contains(j) ==> col_of(w, i) - col_of(w, j) < GATE_LINE_MAX_THICKNESS)
        || (forall|i: int, j: int|
        c.contains(i) && c.contains(j) ==> row_of(w, i) - row_of(w, j) < GATE_LINE_MAX_THICKNESS)
}

/// How the quality gate treats one component `c` of a `w` by `h` cell. `what`
/// selects: 0, the component is removed; 1, it is kept; 2, it is removed as
/// border residue; 3, it touches the border but is kept as an overflowing
/// stroke (at least 4% of the cell and not line-thin).
pub open spec fn gate_class(c: Set<int>, w: int, h: int, what: int) -> bool {
    let touch = touches_band(c, w, h);
    let speck = c.len() < MIN_SPECK_AREA;
    let big = 25 * c.len() >= w * h;
    let line = narrow(c, w);
    let removes = if touch {
        speck || !(big && !line)
    } else {
        speck
    };
    if what == 0 {
        removes
    } else if what == 1 {
        !removes
    } else if what == 2 {
        touch && !speck && !(big && !line)
    } else {
        touch && !speck && big && !line
    }
}

/// Pixel `i` is the first (lowest-index) pixel of its 8-connected component.
pub open spec fn is_root(b: Seq<u8>, w: int, h: int, i: int) -> bool {
    &&& is_ink(b, w * h, i)
    &&& forall|j: int| 0 <= j < i ==> !#[trigger] connected(b, w, h, true, i, j)
}

/// Number of components, among those whose first pixel is below `k`, in class `what`.
pub open spec fn root_count(b: Seq<u8>, w: int, h: int, k: int, what: int) -> nat
    decreases k,
{
    if k <= 0 {
        0
    } else {
        root_count(b, w, h, k - 1, what) + if is_root(b, w, h, k - 1) && gate_class(
            component(b, w, h, true, k - 1),
            w,
            h,
            what,
        ) {
            1nat
        } else {
            0nat
        }
    }
}

/// Total pixels of the components, among those whose first pixel is below
/// `k`, in class `what`.
pub open spec fn root_area(b: Seq<u8>, w: int, h: int, k: int, what: int) -> nat
    decreases k,
{
    if k <= 0 {
        0
    } else {
        root_area(b, w, h, k - 1, what) + if is_root(b, w, h, k - 1) && gate_class(
            component(b, w, h, true, k - 1),
            w,
            h,
            what,
        ) {
            component(b, w, h, true, k - 1).len()
        } else {
            0nat
        }
    }
}

/// Whether the listed pixels span at most `GATE_LINE_MAX_THICKNESS` columns
/// or at most that many rows.
pub open spec fn narrow_seq(c: Seq<usize>, w: int) -> bool {
    (forall|q1: int, q2: int|
        0 <= q1 < c.len() && 0 <= q2 < c.len() ==> col_of(w, c[q1] as int) - col_of(w, c[q2] as int)
            < GATE_LINE_MAX_THICKNESS) || (forall|q1: int, q2: int|
        0 <= q1 < c.len() && 0 <= q2 < c.len() ==> row_of(w, c[q1] as int) - row_of(w, c[q2] as int)
            < GATE_LINE_MAX_THICKNESS)
}

/// Whether a component (listed pixels) touches the border band, and whether
/// its bounding box has a side of at most `GATE_LINE_MAX_THICKNESS` pixels.
fn component_shape(comp: &Vec<usize>, w: u32, h: u32) -> (r: (bool, bool))
    requires
        comp@.len() > 0,
        0 < w,
        (w as int) * (h as int) <= u32::MAX,
        forall|q: int| 0 <= q < comp@.len() ==> (#[trigger] comp@[q] as int) < (w as int) * (h as int),
    ensures
        r.0 == exists|q: int| 0 <= q < comp@.len() && in_band(w as int, h as int, comp@[q] as int),
        r.1 == narrow_seq(comp@, w as int),
{
    let wu = w as usize;
    let ghost wi = w as int;
    let ghost hi = h as int;
    let band = GATE_BORDER_BAND as usize;
    let wb: usize = if wu >= band { wu - band } else { 0 };
    let hb: usize = if (h as usize) >= band { h as usize - band } else { 0 };
    let first = comp[0];
    proof {
        lemma_coords(wi, hi, first as int);
    }
    let mut min_x = first % wu;
    let mut max_x = first % wu;
    let mut min_y = first / wu;
    let mut max_y = first / wu;
    let mut touches = false;
    let mut k: usize = 0;
    while k < comp.len()
        invariant
            0 <= k <= comp@.len(),
            comp@.len() > 0,
            wi == w as int,
            hi == h as int,
            wu == w as usize,
            0 < w,
            wi * hi <= u32::MAX,
            wb as int == sat_sub(wi, 2),
            hb as int == sat_sub(hi, 2),
            band == 2,
            forall|q: int| 0 <= q < comp@.len() ==> (#[trigger] comp@[q] as int) < wi * hi,
            touches == exists|q: int| 0 <= q < k && in_band(wi, hi, comp@[q] as int),
            forall|q: int|
                0 <= q < k ==> min_x <= col_of(wi, #[trigger] comp@[q] as int) <= max_x && min_y
                    <= row_of(wi, comp@[q] as int) <= max_y,
            exists|q: int| 0 <= q < comp@.len() && col_of(wi, comp@[q] as int) == min_x,
            exists|q: int| 0 <= q < comp@.len() && col_of(wi, comp@[q] as int) == max_x,
            exists|q: int| 0 <= q < comp@.len() && row_of(wi, comp@[q] as int) == min_y,
            exists|q: int| 0 <= q < comp@.len() && row_of(wi, comp@[q] as int) == max_y,
            min_x <= max_x,
            min_y <= max_y,
        decreases comp@.len() - k,
    {
        let idx = comp[k];
        let x = idx % wu;
        let y = idx / wu;
        if x < band || y < band || x >= wb || y >= hb {
            touches = true;
        }
        if x < min_x {
            min_x = x;
        }
        if x > max_x {
            max_x = x;
        }
        if y < min_y {
            min_y = y;
        }
        if y > max_y {
            max_y = y;
        }
        proof {
            assert(col_of(wi, comp@[k as int] as int) == x);
            assert(row_of(wi, comp@[k as int] as int) == y);
            assert(touches == exists|q: int| 0 <= q < k + 1 && in_band(wi, hi, comp@[q] as int)) by {
                if exists|q: int| 0 <= q < k + 1 && in_band(wi, hi, comp@[q] as int) {
                    let q = choose|q: int| 0 <= q < k + 1 && in_band(wi, hi, comp@[q] as int);
                    if q < k {
                        assert(exists|q2: int| 0 <= q2 < k && in_band(wi, hi, comp@[q2] as int));
                    }
                }
            }
        }
        k += 1;
    }
    let bw = max_x - min_x + 1;
    let bh = max_y - min_y + 1;
    let thin = GATE_LINE_MAX_THICKNESS as usize;
    let line = bw <= thin || bh <= thin;
    proof {
        let qx0 = choose|q: int| 0 <= q < comp@.len() && col_of(wi, comp@[q] as int) == min_x;
        let qx1 = choose|q: int| 0 <= q < comp@.len() && col_of(wi, comp@[q] as int) == max_x;
        let qy0 = choose|q: int| 0 <= q < comp@.len() && row_of(wi, comp@[q] as int) == min_y;
        let qy1 = choose|q: int| 0 <= q < comp@.len() && row_of(wi, comp@[q] as int) == max_y;
        let cx = forall|q1: int, q2: int|
            0 <= q1 < comp@.len() && 0 <= q2 < comp@.len() ==> col_of(wi, comp@[q1] as int) - col_of(
                wi,
                comp@[q2] as int,
            ) < GATE_LINE_MAX_THICKNESS;
        let cy = forall|q1: int, q2: int|
            0 <= q1 < comp@.len() && 0 <= q2 < comp@.len() ==> row_of(wi, comp@[q1] as int) - row_of(
                wi,
                comp@[q2] as int,
            ) < GATE_LINE_MAX_THICKNESS;
        if bw <= thin {
            assert forall|q1: int, q2: int|
                0 <= q1 < comp@.len() && 0 <= q2 < comp@.len() implies col_of(
                wi,
                comp@[q1] as int,
            ) - col_of(wi, comp@[q2] as int) < GATE_LINE_MAX_THICKNESS by {
                assert(min_x <= col_of(wi, comp@[q2] as int));
                assert(col_of(wi, comp@[q1] as int) <= max_x);
            }
        }
        if bh <= thin {
            assert forall|q1: int, q2: int|
                0 <= q1 < comp@.len() && 0 <= q2 < comp@.len() implies row_of(
                wi,
                comp@[q1] as int,
            ) - row_of(wi, comp@[q2] as int) < GATE_LINE_MAX_THICKNESS by {
                assert(min_y <= row_of(wi, comp@[q2] as int));
                assert(row_of(wi, comp@[q1] as int) <= max_y);
            }
        }
        if cx {
            assert(col_of(wi, comp@[qx1] as int) - col_of(wi, comp@[qx0] as int) < 3);
        }
        if cy {
            assert(row_of(wi, comp@[qy1] as int) - row_of(wi, comp@[qy0] as int) < 3);
        }
    }
    (touches, line)
}


/// Shape facts of a component carry over from a list of its pixels.
proof fn lemma_shape_transfer(c: Set<int>, comp: Seq<usize>, w: int, h: int)
    requires
        forall|i: int| #[trigger] c.contains(i) <==> exists|q: int| 0 <= q < comp.len() && comp[q] as int == i,
    ensures
        touches_band(c, w, h) == exists|q: int| 0 <= q < comp.len() && in_band(w, h, comp[q] as int),
        narrow(c, w) == narrow_seq(comp, w),
{
    if touches_band(c, w, h) {
        let i = choose|i: int| c.contains(i) && in_band(w, h, i);
        let q = choose|q: int| 0 <= q < comp.len() && comp[q] as int == i;
        assert(in_band(w, h, comp[q] as int));
    }
    if exists|q: int| 0 <= q < comp.len() && in_band(w, h, comp[q] as int) {
        let q = choose|q: int| 0 <= q < comp.len() && in_band(w, h, comp[q] as int);
        assert(c.contains(comp[q] as int));
    }
    let cx = forall|q1: int, q2: int|
        0 <= q1 < comp.len() && 0 <= q2 < comp.len() ==> col_of(w, comp[q1] as int) - col_of(
            w,
            comp[q2] as int,
        ) < GATE_LINE_MAX_THICKNESS;
    let cy = forall|q1: int, q2: int|
        0 <= q1 < comp.len() && 0 <= q2 < comp.len() ==> row_of(w, comp[q1] as int) - row_of(
            w,
            comp[q2] as int,
        ) < GATE_LINE_MAX_THICKNESS;
    let sx = forall|i: int, j: int|
        c.contains(i) && c.contains(j) ==> col_of(w, i) - col_of(w, j) < GATE_LINE_MAX_THICKNESS;
    let sy = forall|i: int, j: int|
        c.contains(i) && c.contains(j) ==> row_of(w, i) - row_of(w, j) < GATE_LINE_MAX_THICKNESS;
    if cx {
        assert forall|i: int, j: int| c.contains(i) && c.contains(j) implies col_of(w, i) - col_of(w, j)
            < GATE_LINE_MAX_THICKNESS by {
            let q1 = choose|q: int| 0 <= q < comp.len() && comp[q] as int == i;
            let q2 = choose|q: int| 0 <= q < comp.len() && comp[q] as int == j;
        }
    }
    if sx {
        assert forall|q1: int, q2: int| 0 <= q1 < comp.len() && 0 <= q2 < comp.len() implies col_of(
            w,
            comp[q1] as int,
        ) - col_of(w, comp[q2] as int) < GATE_LINE_MAX_THICKNESS by {
            assert(c.contains(comp[q1] as int));
            assert(c.contains(comp[q2] as int));
        }
    }
    if cy {
        assert forall|i: int, j: int| c.contains(i) && c.contains(j) implies row_of(w, i) - row_of(w, j)
            < GATE_LINE_MAX_THICKNESS by {
            let q1 = choose|q: int| 0 <= q < comp.len() && comp[q] as int == i;
            let q2 = choose|q: int| 0 <= q < comp.len() && comp[q] as int == j;
        }
    }
    if sy {
        assert forall|q1: int, q2: int| 0 <= q1 < comp.len() && 0 <= q2 < comp.len() implies row_of(
            w,
            comp[q1] as int,
        ) - row_of(w, comp[q2] as int) < GATE_LINE_MAX_THICKNESS by {
            assert(c.contains(comp[q1] as int));
            assert(c.contains(comp[q2] as int));
        }
    }
}

/// The gated cell: removed components blanked to 255.
pub open spec fn spec_gate(b: Seq<u8>, w: int, h: int) -> Seq<u8> {
    Seq::new(
        (w * h) as nat,
        |i: int|
            if b[i] == 0 && gate_class(component(b, w, h, true, i), w, h, 0) {
                255u8
            } else {
                b[i]
            },
    )
}

/// Quality counts of a non-empty cell after component filtering.
pub open spec fn spec_gate_quality(b: Seq<u8>, w: int, h: int) -> CellQuality {
    let n = w * h;
    CellQuality {
        removed_components: root_count(b, w, h, n, 0) as usize,
        removed_area: root_area(b, w, h, n, 0) as usize,
        kept_components: root_count(b, w, h, n, 1) as usize,
        kept_area: root_area(b, w, h, n, 1) as usize,
        total_pixels: n as usize,
        needs_review: root_count(b, w, h, n, 2) > 0 || root_count(b, w, h, n, 3) > 0 || 100
            * root_area(b, w, h, n, 0) > n || (root_count(b, w, h, n, 0) > 0 && root_count(
            b,
            w,
            h,
            n,
            1,
        ) == 0),
    }
}

/// Cell quality gate on a binary cell (0 = ink, other values = background).
///
/// Each 8-connected ink component is classified by `gate_class`: a component
/// touching the border band is removed as residue unless it is at least 4% of
/// the cell and not line-thin (then it is kept as an overflowing stroke); a
/// component of fewer than `MIN_SPECK_AREA` pixels is removed as a speck.
/// Removed components are blanked to 255. The cell needs review when border
/// residue was removed, an overflowing stroke was kept, more than 1% of the
/// cell was removed, or removal left no ink component. An empty grid or a
/// buffer shorter than `w * h` is left as it is, with the empty quality.
pub fn apply_cell_quality_gate(binary: &mut [u8], w: u32, h: u32) -> (q: CellQuality)
    requires
        (w as int) * (h as int) <= u32::MAX,
    ensures
        final(binary)@.len() == old(binary)@.len(),
        ((w as int) * (h as int) == 0 || old(binary)@.len() < (w as int) * (h as int)) ==> {
            &&& final(binary)@ == old(binary)@
            &&& q == CellQuality::spec_empty()
        },
        ((w as int) * (h as int) > 0 && old(binary)@.len() >= (w as int) * (h as int)) ==> {
            &&& forall|i: int|
                0 <= i < old(binary)@.len() ==> #[trigger] final(binary)@[i] == if i < (w as int) * (
                h as int) {
                    spec_gate(old(binary)@, w as int, h as int)[i]
                } else {
                    old(binary)@[i]
                }
            &&& q == spec_gate_quality(old(binary)@, w as int, h as int)
        },
{
    let n = (w as usize) * (h as usize);
    if n == 0 || binary.len() < n {
        return CellQuality::empty();
    }
    let ghost wi = w as int;
    let ghost hi = h as int;
    let orig: Vec<u8> = vstd::slice::slice_to_vec(binary);
    let ghost b0 = orig@;
    let mut visited: Vec<bool> = vec![false; n];
    assert(forall|i: int| 0 <= i < n ==> !visited@[i]);
    proof {
        assert(0 < w) by (nonlinear_arith)
            requires
                0 < (w as int) * (h as int),
                0 <= h,
        ;
        assert(count_true(visited@) == 0) by {
            lemma_count_true_zero(visited@);
        }
    }
    let mut removed_components: usize = 0;
    let mut removed_area: usize = 0;
    let mut kept_components: usize = 0;
    let mut kept_area: usize = 0;
    let mut removed_border: usize = 0;
    let mut protected_border_stroke = false;
    let mut start: usize = 0;
    while start < n
        invariant
            n == wi * hi,
            wi == w as int,
            hi == h as int,
            0 < w,
            0 < n <= u32::MAX,
            b0 == old(binary)@,
            orig@ == b0,
            b0.len() >= n,
            binary@.len() == b0.len(),
            visited@.len() == n,
            0 <= start <= n,
            closed(b0, wi, hi, true, visited@),
            forall|i: int|
                0 <= i < n ==> (#[trigger] visited@[i] <==> exists|j: int|
                    0 <= j < start && #[trigger] connected(b0, wi, hi, true, j, i)),
            forall|i: int|
                0 <= i < b0.len() ==> #[trigger] binary@[i] == if i < n && visited@[i] && gate_class(
                    component(b0, wi, hi, true, i),
                    wi,
                    hi,
                    0,
                ) {
                    255u8
                } else {
                    b0[i]
                },
            removed_components == root_count(b0, wi, hi, start as int, 0),
            removed_area == root_area(b0, wi, hi, start as int, 0),
            kept_components == root_count(b0, wi, hi, start as int, 1),
            kept_area == root_area(b0, wi, hi, start as int, 1),
            removed_border == root_count(b0, wi, hi, start as int, 2),
            protected_border_stroke == (root_count(b0, wi, hi, start as int, 3) > 0),
            removed_area + kept_area == count_true(visited@),
            count_true(visited@) <= n,
            removed_components <= removed_area,
            kept_components <= kept_area,
            removed_border <= removed_components,
        decreases n - start,
    {
        let ghost s = start as int;
        if !visited[start] && orig[start] == 0 {
            let ghost vis_a = visited@;
            let ghost bin_a = binary@;
            let comp = flood_fill(orig.as_slice(), w, h, true, &mut visited, start);
            proof {
                lemma_component_len(b0, wi, hi, true, s, comp@);
                lemma_count_true_le(visited@);
                lemma_connected_refl(b0, wi, hi, true, s);
                assert(comp@.contains(start));
            }
            let ghost c = component(b0, wi, hi, true, s);
            let area = comp.len();
            let (touches, line) = component_shape(&comp, w, h);
            proof {
                assert forall|i: int| #[trigger] c.contains(i) <==> exists|q: int|
                    0 <= q < comp@.len() && comp@[q] as int == i by {
                    if c.contains(i) {
                        lemma_connected_ends(b0, wi, hi, true, s, i);
                        assert(comp@.contains(i as usize));
                        let q = choose|q: int| 0 <= q < comp@.len() && comp@[q] == i as usize;
                        assert(comp@[q] as int == i);
                    }
                    if exists|q: int| 0 <= q < comp@.len() && comp@[q] as int == i {
                        let q = choose|q: int| 0 <= q < comp@.len() && comp@[q] as int == i;
                        assert(connected(b0, wi, hi, true, s, comp@[q] as int));
                    }
                }
                lemma_shape_transfer(c, comp@, wi, hi);
            }
            let is_big = 25 * (area as u64) >= n as u64;
            let remove = if touches {
                if (area as u32) < MIN_SPECK_AREA {
                    true
                } else if is_big && !line {
                    protected_border_stroke = true;
                    false
                } else {
                    removed_border += 1;
                    true
                }
            } else {
                (area as u32) < MIN_SPECK_AREA
            };
            proof {
                assert(remove == gate_class(c, wi, hi, 0));
            }
            if remove {
                removed_components += 1;
                removed_area += area;
                blank_pixels(binary, &comp);
            } else {
                kept_components += 1;
                kept_area += area;
            }
            proof {
                // `start` is the first pixel of its component.
                assert forall|j: int| 0 <= j < s implies !#[trigger] connected(b0, wi, hi, true, s, j) by {
                    if connected(b0, wi, hi, true, s, j) {
                        lemma_connected_sym(b0, wi, hi, true, s, j);
                        lemma_connected_ends(b0, wi, hi, true, s, j);
                        lemma_connected_refl(b0, wi, hi, true, j);
                        assert(vis_a[j]);
                        lemma_closed_contains(b0, wi, hi, true, vis_a, j, s);
                    }
                }
                assert(is_root(b0, wi, hi, s));
                assert forall|i: int| 0 <= i < n implies (#[trigger] visited@[i] <==> exists|j: int|
                    0 <= j < s + 1 && #[trigger] connected(b0, wi, hi, true, j, i)) by {
                    if exists|j: int| 0 <= j < s + 1 && #[trigger] connected(b0, wi, hi, true, j, i) {
                        let j = choose|j: int| 0 <= j < s + 1 && #[trigger] connected(b0, wi, hi, true, j, i);
                        if j < s {
                            assert(vis_a[i]);
                        }
                    }
                    if vis_a[i] {
                        let j = choose|j: int| 0 <= j < s && #[trigger] connected(b0, wi, hi, true, j, i);
                        assert(0 <= j < s + 1);
                    }
                }
                assert forall|i: int| 0 <= i < b0.len() implies #[trigger] binary@[i] == if i < n
                    && visited@[i] && gate_class(component(b0, wi, hi, true, i), wi, hi, 0) {
                    255u8
                } else {
                    b0[i]
                } by {
                    if i < n && visited@[i] && !vis_a[i] {
                        lemma_component_same(b0, wi, hi, true, s, i);
                        assert(comp@.contains(i as usize));
                        let q = choose|q: int| 0 <= q < comp@.len() && comp@[q] == i as usize;
                        assert(comp@[q] as int == i);
                    } else if exists|q: int| 0 <= q < comp@.len() && comp@[q] as int == i {
                        let q = choose|q: int| 0 <= q < comp@.len() && comp@[q] as int == i;
                        assert(!vis_a[comp@[q] as int]);
                    }
                }
            }
        } else {
            proof {
                if orig[start as int] == 0 {
                    let j = choose|j: int| 0 <= j < s && #[trigger] connected(b0, wi, hi, true, j, s);
                    lemma_connected_sym(b0, wi, hi, true, j, s);
                    assert(!is_root(b0, wi, hi, s));
                }
                assert forall|i: int| 0 <= i < n implies (#[trigger] visited@[i] <==> exists|j: int|
                    0 <= j < s + 1 && #[trigger] connected(b0, wi, hi, true, j, i)) by {
                    if exists|j: int| 0 <= j < s + 1 && #[trigger] connected(b0, wi, hi, true, j, i) {
                        let j = choose|j: int| 0 <= j < s + 1 && #[trigger] connected(b0, wi, hi, true, j, i);
                        if j == s {
                            lemma_connected_ends(b0, wi, hi, true, j, i);
                            if orig[start as int] == 0 {
                                lemma_closed_contains(b0, wi, hi, true, visited@, s, i);
                            }
                        }
                    }
                    if visited@[i] {
                        let j = choose|j: int| 0 <= j < s && #[trigger] connected(b0, wi, hi, true, j, i);
                        assert(0 <= j < s + 1);
                    }
                }
            }
        }
        start += 1;
    }
    let needs_review = removed_border > 0 || protected_border_stroke || 100 * (removed_area as u64)
        > n as u64 || (removed_components > 0 && kept_components == 0);
    proof {
        assert forall|i: int| 0 <= i < b0.len() implies #[trigger] binary@[i] == if i < n && b0[i] == 0
            && gate_class(component(b0, wi, hi, true, i), wi, hi, 0) {
            255u8
        } else {
            b0[i]
        } by {
            if i < n && b0[i] == 0 {
                lemma_connected_refl(b0, wi, hi, true, i);
                assert(visited@[i]);
            }
            if i < n && visited@[i] {
                assert(is_ink(b0, n as int, i));
            }
        }
    }
    CellQuality {
        removed_components,
        removed_area,
        kept_components,
        kept_area,
        total_pixels: n,
        needs_review,
    }
}

/// Ink pixels joined by 8-connected ink share their fate under the cell
/// quality filter: both are whitened or both stay; and no pixel turns to ink.
pub proof fn lemma_gate_whole_components(b: Seq<u8>, w: int, h: int, i: int, j: int)
    requires
        0 <= i < w * h,
        0 <= j < w * h,
        b.len() >= w * h,
    ensures
        connected(b, w, h, true, i, j) ==> spec_gate(b, w, h)[i] == spec_gate(b, w, h)[j],
        spec_gate(b, w, h)[i] == 0 ==> b[i] == 0,
        spec_gate(b, w, h)[i] != b[i] ==> spec_gate(b, w, h)[i] == 255,
{
    if connected(b, w, h, true, i, j) {
        lemma_connected_ends(b, w, h, true, i, j);
        lemma_component_same(b, w, h, true, i, j);
    }
}

/// A pixel left as ink by the quality filter lies in the same component as
/// before: filtering removes whole components only.
proof fn lemma_gate_component(b: Seq<u8>, w: int, h: int, i: int)
    requires
        0 <= w,
        0 <= h,
        b.len() >= w * h,
        0 <= i < w * h,
        spec_gate(b, w, h)[i] == 0,
    ensures
        component(spec_gate(b, w, h), w, h, true, i) == component(b, w, h, true, i),
        b[i] == 0,
        !gate_class(component(b, w, h, true, i), w, h, 0),
{
    let g = spec_gate(b, w, h);
    let n = w * h;
    assert forall|t: int| #[trigger] component(g, w, h, true, i).contains(t) <==> component(b, w, h, true, i).contains(
        t,
    ) by {
        if connected(g, w, h, true, i, t) {
            let p = choose|p: Seq<int>| #[trigger] is_ink_path(g, w, h, true, p) && p[0] == i && p[p.len() - 1] == t;
            assert forall|k: int| 0 <= k < p.len() implies is_ink(b, n, #[trigger] p[k]) by {
                assert(is_ink(g, n, p[k]));
            }
            assert forall|k: int| 0 <= k < p.len() - 1 implies #[trigger] path_step(w, h, true, p, k) by {
                assert(path_step(w, h, true, p, k));
            }
            assert(is_ink_path(b, w, h, true, p));
        }
        if connected(b, w, h, true, i, t) {
            let p = choose|p: Seq<int>| #[trigger] is_ink_path(b, w, h, true, p) && p[0] == i && p[p.len() - 1] == t;
            assert forall|k: int| 0 <= k < p.len() implies is_ink(g, n, #[trigger] p[k]) by {
                let q = p.subrange(0, k + 1);
                assert forall|m: int| 0 <= m < q.len() implies is_ink(b, n, #[trigger] q[m]) by {
                    assert(q[m] == p[m]);
                    assert(is_ink(b, n, p[m]));
                }
                assert forall|m: int| 0 <= m < q.len() - 1 implies #[trigger] path_step(w, h, true, q, m) by {
                    assert(path_step(w, h, true, p, m));
                    assert(q[m] == p[m] && q[m + 1] == p[m + 1]);
                }
                assert(is_ink_path(b, w, h, true, q));
                assert(connected(b, w, h, true, i, p[k]));
                crate::components::lemma_component_same(b, w, h, true, i, p[k]);
                assert(is_ink(b, n, p[k]));
            }
            assert forall|k: int| 0 <= k < p.len() - 1 implies #[trigger] path_step(w, h, true, p, k) by {
                assert(path_step(w, h, true, p, k));
            }
            assert(is_ink_path(g, w, h, true, p));
        }
    }
    assert(component(g, w, h, true, i) =~= component(b, w, h, true, i));
}

/// No component of a filtered cell is in the removal class, so none of its
/// components counts as removed.
proof fn lemma_gate_removes_nothing_more(b: Seq<u8>, w: int, h: int, k: int, what: int)
    requires
        0 <= w,
        0 <= h,
        b.len() >= w * h,
        0 <= k <= w * h,
        what == 0 || what == 2,
    ensures
        root_count(spec_gate(b, w, h), w, h, k, what) == 0,
        root_area(spec_gate(b, w, h), w, h, k, what) == 0,
    decreases k,
{
    if k > 0 {
        lemma_gate_removes_nothing_more(b, w, h, k - 1, what);
        let g = spec_gate(b, w, h);
        if is_root(g, w, h, k - 1) {
            lemma_gate_component(b, w, h, k - 1);
        }
    }
}

/// The kept components of a filtered cell are those of the cell before.
proof fn lemma_gate_kept_counts(b: Seq<u8>, w: int, h: int, k: int)
    requires
        0 <= w,
        0 <= h,
        b.len() >= w * h,
        0 <= k <= w * h,
    ensures
        root_count(spec_gate(b, w, h), w, h, k, 1) == root_count(b, w, h, k, 1),
        root_area(spec_gate(b, w, h), w, h, k, 1) == root_area(b, w, h, k, 1),
    decreases k,
{
    if k > 0 {
        lemma_gate_kept_counts(b, w, h, k - 1);
        let g = spec_gate(b, w, h);
        let i = k - 1;
        if g[i] == 0 {
            lemma_gate_component(b, w, h, i);
            assert forall|j: int| 0 <= j < i implies #[trigger] connected(g, w, h, true, i, j) == connected(
                b,
                w,
                h,
                true,
                i,
                j,
            ) by {
                assert(component(g, w, h, true, i).contains(j) == component(b, w, h, true, i).contains(j));
            }
            assert(is_ink(g, w * h, i) && is_ink(b, w * h, i));
            if is_root(b, w, h, i) {
                assert forall|j: int| 0 <= j < i implies !#[trigger] connected(g, w, h, true, i, j) by {
                    assert(!connected(b, w, h, true, i, j));
                }
            }
            if is_root(g, w, h, i) {
                assert forall|j: int| 0 <= j < i implies !#[trigger] connected(b, w, h, true, i, j) by {
                    assert(!connected(g, w, h, true, i, j));
                }
            }
            assert(is_root(g, w, h, i) == is_root(b, w, h, i));
        } else if b[i] == 0 && is_root(b, w, h, i) {
            lemma_connected_refl(b, w, h, true, i);
            assert(component(b, w, h, true, i).contains(i));
            assert(gate_class(component(b, w, h, true, i), w, h, 0));
        }
    }
}

/// The cell quality filter is idempotent: filtering a filtered cell changes
/// no pixel, removes no component, and keeps the components (and their
/// pixels) that the first filtering kept.
pub proof fn lemma_gate_idempotent(b: Seq<u8>, w: int, h: int)
    requires
        0 <= w,
        0 <= h,
        b.len() >= w * h,
    ensures
        spec_gate(spec_gate(b, w, h), w, h) == spec_gate(b, w, h),
        spec_gate_quality(spec_gate(b, w, h), w, h).removed_components == 0,
        spec_gate_quality(spec_gate(b, w, h), w, h).removed_area == 0,
        spec_gate_quality(spec_gate(b, w, h), w, h).kept_components == spec_gate_quality(b, w, h).kept_components,
        spec_gate_quality(spec_gate(b, w, h), w, h).kept_area == spec_gate_quality(b, w, h).kept_area,
{
    let g = spec_gate(b, w, h);
    let n = w * h;
    assert(0 <= w * h) by (nonlinear_arith)
        requires
            0 <= w,
            0 <= h,
    ;
    assert forall|i: int| 0 <= i < n implies #[trigger] spec_gate(g, w, h)[i] == g[i] by {
        if g[i] == 0 {
            lemma_gate_component(b, w, h, i);
        }
    }
    assert(spec_gate(g, w, h) =~= g);
    lemma_gate_removes_nothing_more(b, w, h, n, 0);
    lemma_gate_kept_counts(b, w, h, n);
}

} // verus!
