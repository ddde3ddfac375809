//! Contour tracing of a binary cell: the boundary between ink and background
//! followed along pixel edges ("cracks") into closed loops, ink always on the
//! right, so that outer contours and holes wind in opposite directions.
use vstd::prelude::*;
use crate::grid::{index_of, inside, lemma_index_of, lemma_index_injective};
use crate::components::{count_true, lemma_count_true_le, lemma_count_true_update};

verus! {

// ---------------------------------------------------------------------------
// Turning angles
// ---------------------------------------------------------------------------

/// Sector of the angle `atan2(y, x)` in `(-pi, pi]`: 0 below the x axis, 1 on
/// its non-negative half (and the origin, angle 0), 2 above, 3 on its negative
/// half (angle pi).
pub open spec fn sector(y: int, x: int) -> int {
    if y < 0 {
        0
    } else if y == 0 && x >= 0 {
        1
    } else if y > 0 {
        2
    } else {
        3
    }
}

/// `atan2(a.0, a.1) > atan2(b.0, b.1)` for vectors given as `(y, x)`, the
/// angles taken in `(-pi, pi]`.
pub open spec fn angle_gt(a: (int, int), b: (int, int)) -> bool {
    let sa = sector(a.0, a.1);
    let sb = sector(b.0, b.1);
    sa > sb || (sa == sb && (sa == 0 || sa == 2) && b.1 * a.0 - b.0 * a.1 > 0)
}

/// Turn from direction `din` to direction `dout` as `(cross, dot)`: its angle
/// `atan2(cross, dot)` is positive for a clockwise turn in image coordinates
/// (y down).
pub open spec fn turn(din: (int, int), dout: (int, int)) -> (int, int) {
    (din.0 * dout.1 - din.1 * dout.0, din.0 * dout.0 + din.1 * dout.1)
}

/// Direction from `cur` to `t`.
pub open spec fn step_to(cur: (i32, i32), t: (i32, i32)) -> (int, int) {
    (t.0 - cur.0, t.1 - cur.1)
}

pub open spec fn fits_i32(v: int) -> bool {
    i32::MIN <= v <= i32::MAX
}

/// The turn towards `t` is computed without overflow in 32 bits.
pub open spec fn turn_fits(din: (i32, i32), cur: (i32, i32), t: (i32, i32)) -> bool {
    let d = step_to(cur, t);
    let k = turn((din.0 as int, din.1 as int), d);
    fits_i32(d.0) && fits_i32(d.1) && fits_i32(din.0 * d.1) && fits_i32(din.1 * d.0) && fits_i32(
        k.0,
    ) && fits_i32(din.0 * d.0) && fits_i32(din.1 * d.1) && fits_i32(k.1)
}

/// The turn from `din` towards target `t` of `cur`.
pub open spec fn turn_to(din: (i32, i32), cur: (i32, i32), t: (i32, i32)) -> (int, int) {
    turn((din.0 as int, din.1 as int), step_to(cur, t))
}

fn angle_gt_exec(a: (i64, i64), b: (i64, i64)) -> (r: bool)
    requires
        fits_i32(a.0 as int) && fits_i32(a.1 as int) && fits_i32(b.0 as int) && fits_i32(b.1 as int),
    ensures
        r == angle_gt((a.0 as int, a.1 as int), (b.0 as int, b.1 as int)),
{
    let sa: u8 = if a.0 < 0 {
        0
    } else if a.0 == 0 && a.1 >= 0 {
        1
    } else if a.0 > 0 {
        2
    } else {
        3
    };
    let sb: u8 = if b.0 < 0 {
        0
    } else if b.0 == 0 && b.1 >= 0 {
        1
    } else if b.0 > 0 {
        2
    } else {
        3
    };
    proof {
        assert(-0x4000_0000_0000_0000 <= (b.1 as int) * (a.0 as int) <= 0x4000_0000_0000_0000)
            by (nonlinear_arith)
            requires
                fits_i32(a.0 as int) && fits_i32(b.1 as int),
        ;
        assert(-0x4000_0000_0000_0000 <= (b.0 as int) * (a.1 as int) <= 0x4000_0000_0000_0000)
            by (nonlinear_arith)
            requires
                fits_i32(a.1 as int) && fits_i32(b.0 as int),
        ;
    }
    sa > sb || (sa == sb && (sa == 0 || sa == 2) && (b.1 as i128) * (a.0 as i128) - (b.0 as i128) * (
    a.1 as i128) > 0)
}

/// At a pinch vertex (several exits), the exit that turns most clockwise
/// (image y down) from the incoming direction `din`, which keeps ink on the
/// right and loops from crossing; the first such exit on a tie. With a single
/// exit, or no incoming direction (the start of a loop), the first exit.
pub fn choose_next(outs: &[(i32, i32)], din: Option<(i32, i32)>, cur: (i32, i32)) -> (r: usize)
    requires
        din is Some && outs@.len() > 1 ==> forall|i: int|
            0 <= i < outs@.len() ==> turn_fits(din.unwrap(), cur, #[trigger] outs@[i]),
    ensures
        (outs@.len() <= 1 || din is None) ==> r == 0,
        din is Some && outs@.len() > 1 ==> {
            &&& r < outs@.len()
            &&& forall|j: int|
                0 <= j < r ==> angle_gt(
                    turn_to(din.unwrap(), cur, outs@[r as int]),
                    #[trigger] turn_to(din.unwrap(), cur, outs@[j]),
                )
            &&& forall|j: int|
                r < j < outs@.len() ==> !angle_gt(
                    #[trigger] turn_to(din.unwrap(), cur, outs@[j]),
                    turn_to(din.unwrap(), cur, outs@[r as int]),
                )
        },
{
    if outs.len() <= 1 {
        return 0;
    }
    let (dix, diy) = match din {
        None => {
            return 0;
        },
        Some(d) => d,
    };
    let ghost d = (dix, diy);
    let mut best: usize = 0;
    let mut best_key: (i64, i64) = (0, 0);
    let mut i: usize = 0;
    while i < outs.len()
        invariant
            outs@.len() > 1,
            din == Some(d),
            d == (dix, diy),
            forall|k: int| 0 <= k < outs@.len() ==> turn_fits(d, cur, #[trigger] outs@[k]),
            0 <= i <= outs@.len(),
            i > 0 ==> best < i,
            i > 0 ==> best_key.0 as int == turn_to(d, cur, outs@[best as int]).0 && best_key.1 as int
                == turn_to(d, cur, outs@[best as int]).1,
            i == 0 ==> best == 0,
            forall|j: int|
                0 <= j < best ==> angle_gt(
                    turn_to(d, cur, outs@[best as int]),
                    #[trigger] turn_to(d, cur, outs@[j]),
                ),
            forall|j: int|
                best < j < i ==> !angle_gt(
                    #[trigger] turn_to(d, cur, outs@[j]),
                    turn_to(d, cur, outs@[best as int]),
                ),
        decreases outs@.len() - i,
    {
        let (tx, ty) = outs[i];
        proof {
            assert(turn_fits(d, cur, outs@[i as int]));
        }
        let dox = (tx as i64) - (cur.0 as i64);
        let doy = (ty as i64) - (cur.1 as i64);
        let cross = (dix as i64) * doy - (diy as i64) * dox;
        let dot = (dix as i64) * dox + (diy as i64) * doy;
        if i == 0 || angle_gt_exec((cross, dot), best_key) {
            proof {
                if i > 0 {
                    assert forall|j: int| 0 <= j < i implies angle_gt(
                        turn_to(d, cur, outs@[i as int]),
                        #[trigger] turn_to(d, cur, outs@[j]),
                    ) by {
                        let a = turn_to(d, cur, outs@[i as int]);
                        let bk = turn_to(d, cur, outs@[best as int]);
                        let c = turn_to(d, cur, outs@[j]);
                        if j < best {
                            assert(angle_gt(bk, c));
                            lemma_angle_gt_trans(a, bk, c);
                        } else if j > best {
                            assert(!angle_gt(c, bk));
                            lemma_angle_gt_ge(a, bk, c);
                        }
                    }
                }
            }
            best = i;
            best_key = (cross, dot);
        }
        i += 1;
    }
    best
}

/// The angle order is transitive.
proof fn lemma_angle_gt_trans(a: (int, int), b: (int, int), c: (int, int))
    requires
        angle_gt(a, b),
        angle_gt(b, c),
    ensures
        angle_gt(a, c),
{
    let sa = sector(a.0, a.1);
    let sb = sector(b.0, b.1);
    let sc = sector(c.0, c.1);
    if sa == sb && sb == sc && (sa == 0 || sa == 2) {
        // Three vectors in one open half-plane: the cross products chain.
        assert(c.1 * a.0 - c.0 * a.1 > 0) by (nonlinear_arith)
            requires
                b.1 * a.0 - b.0 * a.1 > 0,
                c.1 * b.0 - c.0 * b.1 > 0,
                (a.0 < 0 && b.0 < 0 && c.0 < 0) || (a.0 > 0 && b.0 > 0 && c.0 > 0),
        ;
    }
}

/// `a > b` and not `c > b` give `a > c`.
proof fn lemma_angle_gt_ge(a: (int, int), b: (int, int), c: (int, int))
    requires
        angle_gt(a, b),
        !angle_gt(c, b),
    ensures
        angle_gt(a, c),
{
    let sa = sector(a.0, a.1);
    let sb = sector(b.0, b.1);
    let sc = sector(c.0, c.1);
    if sa == sb && sb == sc && (sa == 0 || sa == 2) {
        assert(c.1 * a.0 - c.0 * a.1 > 0) by (nonlinear_arith)
            requires
                b.1 * a.0 - b.0 * a.1 > 0,
                b.1 * c.0 - b.0 * c.1 <= 0,
                (a.0 < 0 && b.0 < 0 && c.0 < 0) || (a.0 > 0 && b.0 > 0 && c.0 > 0),
        ;
    }
}

// ---------------------------------------------------------------------------
// The crack graph
// ---------------------------------------------------------------------------

/// Pixel `(x, y)` is ink (0) inside the `w` by `h` image.
pub open spec fn fg(b: Seq<u8>, w: int, h: int, x: int, y: int) -> bool {
    inside(w, h, x, y) && b[index_of(w, x, y)] == 0
}

/// x step of direction `d`: 0 right, 1 down, 2 left, 3 up (image y down).
pub open spec fn dx(d: int) -> int {
    if d == 0 {
        1
    } else if d == 2 {
        -1
    } else {
        0
    }
}

/// y step of direction `d`.
pub open spec fn dy(d: int) -> int {
    if d == 1 {
        1
    } else if d == 3 {
        -1
    } else {
        0
    }
}

/// A boundary edge leaves grid vertex `(x, y)` in direction `d`: it is a side
/// of an ink pixel facing background (or the outside), directed so that the
/// ink is on its right. With `nw, ne, sw, se` the four pixels around the
/// vertex: right along the top of `se`, down along the right of `sw`, left
/// along the bottom of `nw`, up along the left of `ne`.
pub open spec fn bedge(b: Seq<u8>, w: int, h: int, x: int, y: int, d: int) -> bool {
    let nw = fg(b, w, h, x - 1, y - 1);
    let ne = fg(b, w, h, x, y - 1);
    let sw = fg(b, w, h, x - 1, y);
    let se = fg(b, w, h, x, y);
    if d == 0 {
        se && !ne
    } else if d == 1 {
        sw && !se
    } else if d == 2 {
        nw && !sw
    } else if d == 3 {
        ne && !nw
    } else {
        false
    }
}

/// A pinch vertex with ink on its north-west and south-east diagonal only.
pub open spec fn pinch_a(b: Seq<u8>, w: int, h: int, x: int, y: int) -> bool {
    fg(b, w, h, x - 1, y - 1) && fg(b, w, h, x, y) && !fg(b, w, h, x, y - 1) && !fg(b, w, h, x - 1, y)
}

/// A pinch vertex with ink on its north-east and south-west diagonal only.
pub open spec fn pinch_b(b: Seq<u8>, w: int, h: int, x: int, y: int) -> bool {
    fg(b, w, h, x, y - 1) && fg(b, w, h, x - 1, y) && !fg(b, w, h, x - 1, y - 1) && !fg(b, w, h, x, y)
}

pub open spec fn b2i(v: bool) -> int {
    if v {
        1
    } else {
        0
    }
}

/// The exit `dout` at `(x, y)`, entered in direction `din`, turns at least as
/// clockwise (image y down) as every other boundary edge leaving the vertex.
pub open spec fn most_clockwise(b: Seq<u8>, w: int, h: int, x: int, y: int, din: int, dout: int) -> bool {
    forall|d2: int|
        0 <= d2 < 4 && d2 != dout && #[trigger] bedge(b, w, h, x, y, d2) ==> !angle_gt(
            turn((dx(din), dy(din)), (dx(d2), dy(d2))),
            turn((dx(din), dy(din)), (dx(dout), dy(dout))),
        )
}

/// Direction of the unit step from `p` to `q`, 4 when it is none.
pub open spec fn dir_of(p: (i32, i32), q: (i32, i32)) -> int {
    if q.0 == p.0 + 1 && q.1 == p.1 {
        0
    } else if q.0 == p.0 && q.1 == p.1 + 1 {
        1
    } else if q.0 == p.0 - 1 && q.1 == p.1 {
        2
    } else if q.0 == p.0 && q.1 == p.1 - 1 {
        3
    } else {
        4
    }
}

/// Edge `i` of a closed loop of vertices: from vertex `i` to the next one
/// (the first after the last), as `(x, y, direction)`.
pub open spec fn loop_edge(l: Seq<(i32, i32)>, i: int) -> (int, int, int) {
    (l[i].0 as int, l[i].1 as int, dir_of(l[i], l[(i + 1) % (l.len() as int)]))
}

/// The boundary edges that remain to be traced, one flag per grid vertex and
/// direction.
pub struct EdgeSet {
    right: Vec<bool>,
    down: Vec<bool>,
    left: Vec<bool>,
    up: Vec<bool>,
}

impl EdgeSet {
    pub closed spec fn arr(self, d: int) -> Seq<bool> {
        if d == 0 {
            self.right@
        } else if d == 1 {
            self.down@
        } else if d == 2 {
            self.left@
        } else {
            self.up@
        }
    }

    pub closed spec fn wf(self, w: int, h: int) -> bool {
        &&& self.right@.len() == (w + 1) * (h + 1)
        &&& self.down@.len() == (w + 1) * (h + 1)
        &&& self.left@.len() == (w + 1) * (h + 1)
        &&& self.up@.len() == (w + 1) * (h + 1)
    }

    /// Edge `(x, y, d)` remains.
    pub closed spec fn live(self, w: int, h: int, x: int, y: int, d: int) -> bool {
        0 <= x <= w && 0 <= y <= h && 0 <= d < 4 && self.arr(d)[index_of(w + 1, x, y)]
    }

    pub closed spec fn total(self) -> nat {
        count_true(self.right@) + count_true(self.down@) + count_true(self.left@) + count_true(
            self.up@,
        )
    }
}

/// Remaining edges leaving `(x, y)`.
pub open spec fn rout(e: EdgeSet, w: int, h: int, x: int, y: int) -> int {
    b2i(e.live(w, h, x, y, 0)) + b2i(e.live(w, h, x, y, 1)) + b2i(e.live(w, h, x, y, 2)) + b2i(
        e.live(w, h, x, y, 3),
    )
}

/// Remaining edges entering `(x, y)`.
pub open spec fn rin(e: EdgeSet, w: int, h: int, x: int, y: int) -> int {
    b2i(e.live(w, h, x - 1, y, 0)) + b2i(e.live(w, h, x, y - 1, 1)) + b2i(e.live(w, h, x + 1, y, 2))
        + b2i(e.live(w, h, x, y + 1, 3))
}

/// Every boundary edge has as many entering edges as leaving ones at its
/// vertices: the crack graph is balanced.
proof fn lemma_bedge_balanced(b: Seq<u8>, w: int, h: int, x: int, y: int)
    ensures
        b2i(bedge(b, w, h, x, y, 0)) + b2i(bedge(b, w, h, x, y, 1)) + b2i(bedge(b, w, h, x, y, 2))
            + b2i(bedge(b, w, h, x, y, 3)) == b2i(bedge(b, w, h, x - 1, y, 0)) + b2i(
            bedge(b, w, h, x, y - 1, 1),
        ) + b2i(bedge(b, w, h, x + 1, y, 2)) + b2i(bedge(b, w, h, x, y + 1, 3)),
{
}

/// Boundary edges leave vertices of the grid and end on them.
pub(crate) proof fn lemma_bedge_in_grid(b: Seq<u8>, w: int, h: int, x: int, y: int, d: int)
    requires
        bedge(b, w, h, x, y, d),
    ensures
        0 <= x <= w,
        0 <= y <= h,
        0 <= d < 4,
        0 <= x + dx(d) <= w,
        0 <= y + dy(d) <= h,
{
}

/// Exactly the pinch vertices have two boundary exits; other vertices have at
/// most one.
proof fn lemma_exits(b: Seq<u8>, w: int, h: int, x: int, y: int)
    ensures
        pinch_a(b, w, h, x, y) ==> bedge(b, w, h, x, y, 0) && bedge(b, w, h, x, y, 2) && !bedge(
            b,
            w,
            h,
            x,
            y,
            1,
        ) && !bedge(b, w, h, x, y, 3),
        pinch_b(b, w, h, x, y) ==> bedge(b, w, h, x, y, 1) && bedge(b, w, h, x, y, 3) && !bedge(
            b,
            w,
            h,
            x,
            y,
            0,
        ) && !bedge(b, w, h, x, y, 2),
        !pinch_a(b, w, h, x, y) && !pinch_b(b, w, h, x, y) ==> b2i(bedge(b, w, h, x, y, 0)) + b2i(
            bedge(b, w, h, x, y, 1),
        ) + b2i(bedge(b, w, h, x, y, 2)) + b2i(bedge(b, w, h, x, y, 3)) <= 1,
{
}


fn fg_exec(bin: &[u8], w: u32, h: u32, x: i64, y: i64) -> (r: bool)
    requires
        bin@.len() >= (w as int) * (h as int),
        (w as int) * (h as int) <= usize::MAX,
        -1 <= x <= w,
        -1 <= y <= h,
    ensures
        r == fg(bin@, w as int, h as int, x as int, y as int),
{
    if x < 0 || y < 0 || x >= w as i64 || y >= h as i64 {
        return false;
    }
    proof {
        lemma_index_of(w as int, h as int, x as int, y as int);
    }
    bin[(y as usize) * (w as usize) + (x as usize)] == 0
}

proof fn lemma_vid(w: int, h: int, x: int, y: int)
    requires
        0 <= x <= w,
        0 <= y <= h,
    ensures
        0 <= index_of(w + 1, x, y) < (w + 1) * (h + 1),
{
    lemma_index_of(w + 1, h + 1, x, y);
}

proof fn lemma_vid_injective(w: int, h: int, x1: int, y1: int, x2: int, y2: int)
    requires
        0 <= x1 <= w,
        0 <= y1 <= h,
        0 <= x2 <= w,
        0 <= y2 <= h,
        index_of(w + 1, x1, y1) == index_of(w + 1, x2, y2),
    ensures
        x1 == x2 && y1 == y2,
{
    lemma_index_injective(w + 1, h + 1, x1, y1, x2, y2);
}

proof fn lemma_count_true_clear(s: Seq<bool>, j: int)
    requires
        0 <= j < s.len(),
        s[j],
    ensures
        count_true(s.update(j, false)) + 1 == count_true(s),
{
    let t = s.update(j, false);
    assert(t.update(j, true) =~= s);
    lemma_count_true_update(t, j);
}

impl EdgeSet {
    /// The boundary edges of a binary cell (0 = ink).
    fn build(bin: &[u8], w: u32, h: u32) -> (e: EdgeSet)
        requires
            bin@.len() >= (w as int) * (h as int),
            (w as int + 1) * (h as int + 1) <= usize::MAX,
        ensures
            e.wf(w as int, h as int),
            forall|x: int, y: int, d: int|
                #[trigger] e.live(w as int, h as int, x, y, d) == bedge(bin@, w as int, h as int, x, y, d),
    {
        let ghost wi = w as int;
        let ghost hi = h as int;
        proof {
            assert((w as int) * (h as int) <= (w as int + 1) * (h as int + 1)) by (nonlinear_arith);
        }
        let mut e = EdgeSet { right: Vec::new(), down: Vec::new(), left: Vec::new(), up: Vec::new() };
        let mut y: u64 = 0;
        while y <= h as u64
            invariant
                wi == w,
                hi == h,
                bin@.len() >= wi * hi,
                wi * hi <= usize::MAX,
                (wi + 1) * (hi + 1) <= usize::MAX,
                0 <= y <= hi + 1,
                e.right@.len() == y * (wi + 1),
                e.down@.len() == y * (wi + 1),
                e.left@.len() == y * (wi + 1),
                e.up@.len() == y * (wi + 1),
                forall|d: int, v: int|
                    0 <= d < 4 && 0 <= v < y * (wi + 1) ==> #[trigger] e.arr(d)[v] == bedge(
                        bin@,
                        wi,
                        hi,
                        v % (wi + 1),
                        v / (wi + 1),
                        d,
                    ),
            decreases hi + 1 - y,
        {
            let mut x: u64 = 0;
            while x <= w as u64
                invariant
                    wi == w,
                    hi == h,
                    bin@.len() >= wi * hi,
                    wi * hi <= usize::MAX,
                    (wi + 1) * (hi + 1) <= usize::MAX,
                    0 <= y <= hi,
                    0 <= x <= wi + 1,
                    e.right@.len() == y * (wi + 1) + x,
                    e.down@.len() == y * (wi + 1) + x,
                    e.left@.len() == y * (wi + 1) + x,
                    e.up@.len() == y * (wi + 1) + x,
                    forall|d: int, v: int|
                        0 <= d < 4 && 0 <= v < y * (wi + 1) + x ==> #[trigger] e.arr(d)[v] == bedge(
                            bin@,
                            wi,
                            hi,
                            v % (wi + 1),
                            v / (wi + 1),
                            d,
                        ),
                decreases wi + 1 - x,
            {
                let xi = x as i64;
                let yi = y as i64;
                let nw = fg_exec(bin, w, h, xi - 1, yi - 1);
                let ne = fg_exec(bin, w, h, xi, yi - 1);
                let sw = fg_exec(bin, w, h, xi - 1, yi);
                let se = fg_exec(bin, w, h, xi, yi);
                let ghost v0 = y * (wi + 1) + x;
                let ghost e0 = e;
                proof {
                    vstd::arithmetic::div_mod::lemma_fundamental_div_mod_converse(v0, wi + 1, y as int, x as int);
                }
                e.right.push(se && !ne);
                e.down.push(sw && !se);
                e.left.push(nw && !sw);
                e.up.push(ne && !nw);
                proof {
                    assert forall|d: int, v: int|
                        0 <= d < 4 && 0 <= v < y * (wi + 1) + x + 1 implies #[trigger] e.arr(d)[v]
                        == bedge(bin@, wi, hi, v % (wi + 1), v / (wi + 1), d) by {
                        if v < v0 {
                            assert(e.arr(d)[v] == e0.arr(d)[v]);
                        } else {
                            assert(v == v0);
                            assert(v % (wi + 1) == x && v / (wi + 1) == y);
                        }
                    }
                }
                x += 1;
            }
            proof {
                assert(y * (wi + 1) + (wi + 1) == (y + 1) * (wi + 1)) by (nonlinear_arith);
            }
            y += 1;
        }
        proof {
            assert((hi + 1) * (wi + 1) == (wi + 1) * (hi + 1)) by (nonlinear_arith);
        }
        proof {
            assert forall|x: int, y: int, d: int|
                #[trigger] e.live(wi, hi, x, y, d) == bedge(bin@, wi, hi, x, y, d) by {
                if 0 <= x <= wi && 0 <= y <= hi && 0 <= d < 4 {
                    lemma_vid(wi, hi, x, y);
                    let v = index_of(wi + 1, x, y);
                    vstd::arithmetic::div_mod::lemma_fundamental_div_mod_converse(v, wi + 1, y, x);
                    assert(e.arr(d)[v] == bedge(bin@, wi, hi, x, y, d));
                } else if bedge(bin@, wi, hi, x, y, d) {
                    lemma_bedge_in_grid(bin@, wi, hi, x, y, d);
                }
            }
        }
        e
    }

    fn has(&self, w: u32, h: u32, x: u32, y: u32, d: u8) -> (r: bool)
        requires
            self.wf(w as int, h as int),
            (w as int + 1) * (h as int + 1) <= usize::MAX,
            x <= w,
            y <= h,
            d < 4,
        ensures
            r == self.live(w as int, h as int, x as int, y as int, d as int),
    {
        proof {
            lemma_vid(w as int, h as int, x as int, y as int);
            assert(w as int + 1 <= (w as int + 1) * (h as int + 1)) by (nonlinear_arith);
        }
        let v = (y as usize) * (w as usize + 1) + (x as usize);
        if d == 0 {
            self.right[v]
        } else if d == 1 {
            self.down[v]
        } else if d == 2 {
            self.left[v]
        } else {
            self.up[v]
        }
    }

    fn clear(&mut self, w: u32, h: u32, x: u32, y: u32, d: u8)
        requires
            old(self).wf(w as int, h as int),
            (w as int + 1) * (h as int + 1) <= usize::MAX,
            x <= w,
            y <= h,
            d < 4,
            old(self).live(w as int, h as int, x as int, y as int, d as int),
        ensures
            final(self).wf(w as int, h as int),
            forall|u: int, v: int, dd: int|
                #[trigger] final(self).live(w as int, h as int, u, v, dd) == (old(self).live(
                    w as int,
                    h as int,
                    u,
                    v,
                    dd,
                ) && !(u == x && v == y && dd == d)),
            final(self).total() + 1 == old(self).total(),
    {
        let ghost wi = w as int;
        let ghost hi = h as int;
        proof {
            lemma_vid(wi, hi, x as int, y as int);
            assert(wi + 1 <= (wi + 1) * (hi + 1)) by (nonlinear_arith)
                requires
                    wi >= 0,
                    hi >= 0,
            ;
        }
        let vi = (y as usize) * (w as usize + 1) + (x as usize);
        let ghost old_self = *self;
        if d == 0 {
            proof {
                lemma_count_true_clear(self.right@, vi as int);
            }
            self.right.set(vi, false);
        } else if d == 1 {
            proof {
                lemma_count_true_clear(self.down@, vi as int);
            }
            self.down.set(vi, false);
        } else if d == 2 {
            proof {
                lemma_count_true_clear(self.left@, vi as int);
            }
            self.left.set(vi, false);
        } else {
            proof {
                lemma_count_true_clear(self.up@, vi as int);
            }
            self.up.set(vi, false);
        }
        proof {
            assert forall|u: int, v: int, dd: int|
                #[trigger] self.live(wi, hi, u, v, dd) == (old_self.live(wi, hi, u, v, dd) && !(u == x
                    && v == y && dd == d)) by {
                if 0 <= u <= wi && 0 <= v <= hi && 0 <= dd < 4 {
                    lemma_vid(wi, hi, u, v);
                    if index_of(wi + 1, u, v) == vi as int {
                        lemma_vid_injective(wi, hi, u, v, x as int, y as int);
                    }
                }
            }
        }
    }
}

// ---------------------------------------------------------------------------
// Tracing invariants
// ---------------------------------------------------------------------------

/// A vertex as integers.
pub open spec fn vtx(p: (i32, i32)) -> (int, int) {
    (p.0 as int, p.1 as int)
}

/// `p` comes before `q` with x first, then y.
pub open spec fn lex_before(p: (int, int), q: (int, int)) -> bool {
    p.0 < q.0 || (p.0 == q.0 && p.1 < q.1)
}

/// Edge `i` of an open walk: from vertex `i` to vertex `i + 1`.
pub open spec fn walk_edge(p: Seq<(i32, i32)>, i: int) -> (int, int, int) {
    (p[i].0 as int, p[i].1 as int, dir_of(p[i], p[i + 1]))
}

/// At a pinch vertex each entering edge still remains exactly when the exit
/// it pairs with (its most clockwise exit) remains.
spec fn pair_ok(b: Seq<u8>, w: int, h: int, e: EdgeSet, x: int, y: int) -> bool {
    &&& pinch_a(b, w, h, x, y) ==> (e.live(w, h, x, y - 1, 1) == e.live(w, h, x, y, 2)) && (e.live(
        w,
        h,
        x,
        y + 1,
        3,
    ) == e.live(w, h, x, y, 0))
    &&& pinch_b(b, w, h, x, y) ==> (e.live(w, h, x - 1, y, 0) == e.live(w, h, x, y, 1)) && (e.live(
        w,
        h,
        x + 1,
        y,
        2,
    ) == e.live(w, h, x, y, 3))
}

/// Having just entered pinch `(x, y)` in direction `din`, its paired exit
/// remains, and so does the other pairing.
spec fn arrive_ok(b: Seq<u8>, w: int, h: int, e: EdgeSet, x: int, y: int, din: int) -> bool {
    &&& pinch_a(b, w, h, x, y) ==> (din == 1 && e.live(w, h, x, y, 2) && (e.live(w, h, x, y + 1, 3)
        == e.live(w, h, x, y, 0))) || (din == 3 && e.live(w, h, x, y, 0) && (e.live(w, h, x, y - 1, 1)
        == e.live(w, h, x, y, 2)))
    &&& pinch_b(b, w, h, x, y) ==> (din == 0 && e.live(w, h, x, y, 1) && (e.live(w, h, x + 1, y, 2)
        == e.live(w, h, x, y, 3))) || (din == 2 && e.live(w, h, x, y, 3) && (e.live(w, h, x - 1, y, 0)
        == e.live(w, h, x, y, 1)))
}

/// Edge `ed` is a traced boundary edge recorded at position `(k, i)`.
spec fn recorded(
    b: Seq<u8>,
    w: int,
    h: int,
    e: EdgeSet,
    who: Map<(int, int, int), (int, int)>,
    ed: (int, int, int),
    k: int,
    i: int,
) -> bool {
    &&& bedge(b, w, h, ed.0, ed.1, ed.2)
    &&& !e.live(w, h, ed.0, ed.1, ed.2)
    &&& who.contains_key(ed)
    &&& who[ed] == (k, i)
}

/// The finished loops: closed walks of recorded boundary edges, each starting
/// at its least vertex, in increasing order of start, turning most clockwise
/// at every vertex after the start.
spec fn loops_ok(
    b: Seq<u8>,
    w: int,
    h: int,
    e: EdgeSet,
    who: Map<(int, int, int), (int, int)>,
    loops: Seq<Vec<(i32, i32)>>,
) -> bool {
    &&& forall|k: int| 0 <= k < loops.len() ==> (#[trigger] loops[k])@.len() >= 3
    &&& forall|k: int, i: int|
        0 <= k < loops.len() && 0 <= i < loops[k]@.len() ==> recorded(
            b,
            w,
            h,
            e,
            who,
            #[trigger] loop_edge(loops[k]@, i),
            k,
            i,
        )
    &&& forall|k: int, i: int|
        0 <= k < loops.len() && 1 <= i < loops[k]@.len() ==> lex_before(
            vtx(loops[k]@[0]),
            vtx(#[trigger] loops[k]@[i]),
        )
    &&& forall|k1: int, k2: int|
        0 <= k1 < k2 < loops.len() ==> lex_before(
            vtx((#[trigger] loops[k1])@[0]),
            vtx((#[trigger] loops[k2])@[0]),
        )
    &&& forall|k: int, i: int|
        0 <= k < loops.len() && 1 <= i < loops[k]@.len() ==> #[trigger] most_clockwise(
            b,
            w,
            h,
            loops[k]@[i].0 as int,
            loops[k]@[i].1 as int,
            dir_of(loops[k]@[i - 1], loops[k]@[i]),
            dir_of(loops[k]@[i], loops[k]@[(i + 1) % (loops[k]@.len() as int)]),
        )
}

/// Boundary edge `ed` remains, or is recorded at a position whose edge it is:
/// in a finished loop, or in the walk under way.
spec fn covered(
    e: EdgeSet,
    w: int,
    h: int,
    who: Map<(int, int, int), (int, int)>,
    loops: Seq<Vec<(i32, i32)>>,
    walk: Seq<(i32, i32)>,
    ed: (int, int, int),
) -> bool {
    e.live(w, h, ed.0, ed.1, ed.2) || (who.contains_key(ed) && ({
        let k = who[ed].0;
        let i = who[ed].1;
        (0 <= k < loops.len() && 0 <= i < loops[k]@.len() && loop_edge(loops[k]@, i) == ed) || (k
            == loops.len() && 0 <= i < walk.len() - 1 && walk_edge(walk, i) == ed)
    }))
}

/// State between walks, with `s` the vertex whose walks are under way.
spec fn outer_ok(
    b: Seq<u8>,
    w: int,
    h: int,
    e: EdgeSet,
    who: Map<(int, int, int), (int, int)>,
    loops: Seq<Vec<(i32, i32)>>,
    s: (int, int),
) -> bool {
    &&& e.wf(w, h)
    &&& forall|x: int, y: int, d: int| #[trigger] e.live(w, h, x, y, d) ==> bedge(b, w, h, x, y, d)
    &&& forall|x: int, y: int| #[trigger] rin(e, w, h, x, y) == rout(e, w, h, x, y)
    &&& forall|x: int, y: int|
        lex_before((x, y), s) ==> #[trigger] rout(e, w, h, x, y) == 0 && rin(e, w, h, x, y) == 0
    &&& forall|x: int, y: int| (x, y) != s ==> #[trigger] pair_ok(b, w, h, e, x, y)
    &&& loops_ok(b, w, h, e, who, loops)
    &&& forall|k: int|
        0 <= k < loops.len() ==> lex_before(vtx((#[trigger] loops[k])@[0]), s) || (vtx(loops[k]@[0])
            == s && rout(e, w, h, s.0, s.1) == 0)
    &&& forall|x: int, y: int, d: int|
        #[trigger] bedge(b, w, h, x, y, d) ==> covered(e, w, h, who, loops, Seq::empty(), (x, y, d))
}

proof fn lemma_zero_outside(b: Seq<u8>, w: int, h: int, e: EdgeSet, x: int, y: int)
    requires
        forall|x: int, y: int, d: int| #[trigger] e.live(w, h, x, y, d) ==> bedge(b, w, h, x, y, d),
        !(0 <= x <= w && 0 <= y <= h),
    ensures
        rout(e, w, h, x, y) == 0,
        rin(e, w, h, x, y) == 0,
{
    assert forall|d: int| !e.live(w, h, x, y, d) by {
        if e.live(w, h, x, y, d) {
            lemma_bedge_in_grid(b, w, h, x, y, d);
        }
    }
    if e.live(w, h, x - 1, y, 0) {
        lemma_bedge_in_grid(b, w, h, x - 1, y, 0);
    }
    if e.live(w, h, x, y - 1, 1) {
        lemma_bedge_in_grid(b, w, h, x, y - 1, 1);
    }
    if e.live(w, h, x + 1, y, 2) {
        lemma_bedge_in_grid(b, w, h, x + 1, y, 2);
    }
    if e.live(w, h, x, y + 1, 3) {
        lemma_bedge_in_grid(b, w, h, x, y + 1, 3);
    }
}

/// No boundary edge runs back along the previous one.
proof fn lemma_no_backtrack(b: Seq<u8>, w: int, h: int, x: int, y: int, d: int)
    requires
        bedge(b, w, h, x, y, d),
    ensures
        !bedge(b, w, h, x + dx(d), y + dy(d), (d + 2) % 4),
{
}

/// The directions `[left, up, down, right]` whose flags are set, in that order
/// (the order in which a pixel scan meets a vertex's exits).
pub open spec fn exits_seq(l: bool, u: bool, d: bool, r: bool) -> Seq<u8> {
    (if l {
        seq![2u8]
    } else {
        Seq::empty()
    }) + (if u {
        seq![3u8]
    } else {
        Seq::empty()
    }) + (if d {
        seq![1u8]
    } else {
        Seq::empty()
    }) + (if r {
        seq![0u8]
    } else {
        Seq::empty()
    })
}

/// The remaining exits of vertex `(x, y)`: target vertices and directions.
fn remaining_exits(e: &EdgeSet, w: u32, h: u32, x: u32, y: u32) -> (r: (Vec<(i32, i32)>, Vec<u8>))
    requires
        e.wf(w as int, h as int),
        (w as int + 1) * (h as int + 1) <= usize::MAX,
        w < i32::MAX,
        h < i32::MAX,
        x <= w,
        y <= h,
        forall|x: int, y: int, d: int| #[trigger] e.live(w as int, h as int, x, y, d) ==> d < 4 && (
        0 <= x + dx(d) <= w) && (0 <= y + dy(d) <= h),
    ensures
        r.1@ == exits_seq(
            e.live(w as int, h as int, x as int, y as int, 2),
            e.live(w as int, h as int, x as int, y as int, 3),
            e.live(w as int, h as int, x as int, y as int, 1),
            e.live(w as int, h as int, x as int, y as int, 0),
        ),
        r.0@.len() == r.1@.len(),
        forall|j: int|
            0 <= j < r.1@.len() ==> (#[trigger] r.0@[j]).0 == x + dx(r.1@[j] as int) && r.0@[j].1 == y
                + dy(r.1@[j] as int),
{
    let mut outs: Vec<(i32, i32)> = Vec::new();
    let mut dirs: Vec<u8> = Vec::new();
    let xi = x as i32;
    let yi = y as i32;
    let ghost wi = w as int;
    let ghost hi = h as int;
    if e.has(w, h, x, y, 2) {
        assert(e.live(wi, hi, x as int, y as int, 2));
        outs.push((xi - 1, yi));
        dirs.push(2);
    }
    let ghost o1 = outs@;
    let ghost d1 = dirs@;
    if e.has(w, h, x, y, 3) {
        assert(e.live(wi, hi, x as int, y as int, 3));
        outs.push((xi, yi - 1));
        dirs.push(3);
    }
    let ghost o2 = outs@;
    let ghost d2 = dirs@;
    if e.has(w, h, x, y, 1) {
        outs.push((xi, yi + 1));
        dirs.push(1);
    }
    let ghost o3 = outs@;
    let ghost d3 = dirs@;
    if e.has(w, h, x, y, 0) {
        outs.push((xi + 1, yi));
        dirs.push(0);
    }
    proof {
        assert(dirs@ =~= exits_seq(
            e.live(wi, hi, x as int, y as int, 2),
            e.live(wi, hi, x as int, y as int, 3),
            e.live(wi, hi, x as int, y as int, 1),
            e.live(wi, hi, x as int, y as int, 0),
        ));
        assert forall|j: int| 0 <= j < dirs@.len() implies (#[trigger] outs@[j]).0 == x + dx(
            dirs@[j] as int,
        ) && outs@[j].1 == y + dy(dirs@[j] as int) by {
            if j < d1.len() {
                assert(outs@[j] == o1[j] && dirs@[j] == d1[j]);
            } else if j < d2.len() {
                assert(outs@[j] == o2[j] && dirs@[j] == d2[j]);
            } else if j < d3.len() {
                assert(outs@[j] == o3[j] && dirs@[j] == d3[j]);
            }
        }
    }
    (outs, dirs)
}

/// State of a walk under way from `s`: vertices `pts` so far (the last is the
/// current vertex), `prev` the direction it was entered in.
spec fn walk_ok(
    b: Seq<u8>,
    w: int,
    h: int,
    e: EdgeSet,
    who: Map<(int, int, int), (int, int)>,
    loops: Seq<Vec<(i32, i32)>>,
    pts: Seq<(i32, i32)>,
    prev: Option<(i32, i32)>,
    s: (int, int),
) -> bool {
    let n = pts.len();
    let cur = vtx(pts[n - 1]);
    let kk = loops.len() as int;
    &&& n >= 1
    &&& vtx(pts[0]) == s
    &&& forall|i: int| 0 <= i < n ==> 0 <= (#[trigger] pts[i]).0 <= w && 0 <= pts[i].1 <= h
    &&& e.wf(w, h)
    &&& forall|x: int, y: int, d: int| #[trigger] e.live(w, h, x, y, d) ==> bedge(b, w, h, x, y, d)
    &&& forall|i: int|
        0 <= i < n - 1 ==> (#[trigger] walk_edge(pts, i)).2 < 4 && recorded(
            b,
            w,
            h,
            e,
            who,
            walk_edge(pts, i),
            kk,
            i,
        )
    &&& forall|i: int| 1 <= i < n ==> lex_before(s, vtx(#[trigger] pts[i]))
    &&& forall|i: int|
        1 <= i < n - 1 ==> #[trigger] most_clockwise(
            b,
            w,
            h,
            pts[i].0 as int,
            pts[i].1 as int,
            dir_of(pts[i - 1], pts[i]),
            dir_of(pts[i], pts[i + 1]),
        )
    &&& n == 1 ==> prev is None
    &&& n > 1 ==> prev == Some(
        (dx(dir_of(pts[n - 2], pts[n - 1])) as i32, dy(dir_of(pts[n - 2], pts[n - 1])) as i32),
    )
    &&& forall|x: int, y: int|
        (x, y) != cur && (x, y) != s ==> #[trigger] rin(e, w, h, x, y) == rout(e, w, h, x, y)
    &&& n == 1 ==> rin(e, w, h, s.0, s.1) == rout(e, w, h, s.0, s.1) && rout(e, w, h, s.0, s.1) == 1
    &&& n > 1 ==> rout(e, w, h, cur.0, cur.1) == rin(e, w, h, cur.0, cur.1) + 1 && rin(
        e,
        w,
        h,
        s.0,
        s.1,
    ) == rout(e, w, h, s.0, s.1) + 1 && rout(e, w, h, s.0, s.1) == 0
    &&& forall|x: int, y: int|
        lex_before((x, y), s) ==> #[trigger] rout(e, w, h, x, y) == 0 && rin(e, w, h, x, y) == 0
    &&& forall|x: int, y: int|
        (x, y) != cur && (x, y) != s ==> #[trigger] pair_ok(b, w, h, e, x, y)
    &&& n > 1 ==> arrive_ok(b, w, h, e, cur.0, cur.1, dir_of(pts[n - 2], pts[n - 1]))
    &&& loops_ok(b, w, h, e, who, loops)
    &&& forall|k: int| 0 <= k < loops.len() ==> lex_before(vtx((#[trigger] loops[k])@[0]), s)
    &&& forall|x: int, y: int, d: int|
        #[trigger] bedge(b, w, h, x, y, d) ==> covered(e, w, h, who, loops, pts, (x, y, d))
}

/// State once the walk from `s` came back to `s`: `pts` is a closed loop.
spec fn closed_ok(
    b: Seq<u8>,
    w: int,
    h: int,
    e: EdgeSet,
    who: Map<(int, int, int), (int, int)>,
    loops: Seq<Vec<(i32, i32)>>,
    pts: Seq<(i32, i32)>,
    s: (int, int),
) -> bool {
    let n = pts.len();
    let kk = loops.len() as int;
    &&& n >= 3
    &&& vtx(pts[0]) == s
    &&& e.wf(w, h)
    &&& forall|x: int, y: int, d: int| #[trigger] e.live(w, h, x, y, d) ==> bedge(b, w, h, x, y, d)
    &&& forall|i: int|
        0 <= i < n ==> recorded(b, w, h, e, who, #[trigger] loop_edge(pts, i), kk, i)
    &&& forall|i: int| 1 <= i < n ==> lex_before(s, vtx(#[trigger] pts[i]))
    &&& forall|i: int|
        1 <= i < n ==> #[trigger] most_clockwise(
            b,
            w,
            h,
            pts[i].0 as int,
            pts[i].1 as int,
            dir_of(pts[i - 1], pts[i]),
            dir_of(pts[i], pts[(i + 1) % (n as int)]),
        )
    &&& forall|x: int, y: int| #[trigger] rin(e, w, h, x, y) == rout(e, w, h, x, y)
    &&& rout(e, w, h, s.0, s.1) == 0
    &&& forall|x: int, y: int|
        lex_before((x, y), s) ==> #[trigger] rout(e, w, h, x, y) == 0 && rin(e, w, h, x, y) == 0
    &&& forall|x: int, y: int| (x, y) != s ==> #[trigger] pair_ok(b, w, h, e, x, y)
    &&& loops_ok(b, w, h, e, who, loops)
    &&& forall|k: int| 0 <= k < loops.len() ==> lex_before(vtx((#[trigger] loops[k])@[0]), s)
    &&& forall|x: int, y: int, d: int|
        #[trigger] bedge(b, w, h, x, y, d) ==> e.live(w, h, x, y, d) || (who.contains_key((x, y, d))
            && ({
            let k = who[(x, y, d)].0;
            let i = who[(x, y, d)].1;
            (0 <= k < loops.len() && 0 <= i < loops[k]@.len() && loop_edge(loops[k]@, i) == (x, y, d))
                || (k == kk && 0 <= i < n && loop_edge(pts, i) == (x, y, d))
        }))
}

/// `e1` is `e0` with edge `(x, y, d)` removed.
spec fn cleared(e0: EdgeSet, e1: EdgeSet, w: int, h: int, x: int, y: int, d: int) -> bool {
    &&& e1.wf(w, h)
    &&& forall|u: int, v: int, dd: int|
        #[trigger] e1.live(w, h, u, v, dd) == (e0.live(w, h, u, v, dd) && !(u == x && v == y && dd
            == d))
}

proof fn lemma_clear_degrees(e0: EdgeSet, e1: EdgeSet, w: int, h: int, x: int, y: int, d: int)
    requires
        cleared(e0, e1, w, h, x, y, d),
        e0.live(w, h, x, y, d),
    ensures
        forall|u: int, v: int|
            #[trigger] rout(e1, w, h, u, v) == rout(e0, w, h, u, v) - (if u == x && v == y {
                1int
            } else {
                0int
            }),
        forall|u: int, v: int|
            #[trigger] rin(e1, w, h, u, v) == rin(e0, w, h, u, v) - (if u == x + dx(d) && v == y + dy(d) {
                1int
            } else {
                0int
            }),
{
    assert(0 <= d < 4) by {
        assert(e0.live(w, h, x, y, d));
    }
    assert forall|u: int, v: int|
        #[trigger] rout(e1, w, h, u, v) == rout(e0, w, h, u, v) - (if u == x && v == y {
            1int
        } else {
            0int
        }) by {
        assert(e1.live(w, h, u, v, 0) == (e0.live(w, h, u, v, 0) && !(u == x && v == y && 0 == d)));
        assert(e1.live(w, h, u, v, 1) == (e0.live(w, h, u, v, 1) && !(u == x && v == y && 1 == d)));
        assert(e1.live(w, h, u, v, 2) == (e0.live(w, h, u, v, 2) && !(u == x && v == y && 2 == d)));
        assert(e1.live(w, h, u, v, 3) == (e0.live(w, h, u, v, 3) && !(u == x && v == y && 3 == d)));
    }
    assert forall|u: int, v: int|
        #[trigger] rin(e1, w, h, u, v) == rin(e0, w, h, u, v) - (if u == x + dx(d) && v == y + dy(d) {
            1int
        } else {
            0int
        }) by {
        assert(e1.live(w, h, u - 1, v, 0) == (e0.live(w, h, u - 1, v, 0) && !(u - 1 == x && v == y
            && 0 == d)));
        assert(e1.live(w, h, u, v - 1, 1) == (e0.live(w, h, u, v - 1, 1) && !(u == x && v - 1 == y
            && 1 == d)));
        assert(e1.live(w, h, u + 1, v, 2) == (e0.live(w, h, u + 1, v, 2) && !(u + 1 == x && v == y
            && 2 == d)));
        assert(e1.live(w, h, u, v + 1, 3) == (e0.live(w, h, u, v + 1, 3) && !(u == x && v + 1 == y
            && 3 == d)));
    }
}

pub(crate) proof fn lemma_dir_of(p: (i32, i32), q: (i32, i32), d: int)
    requires
        0 <= d < 4,
        q.0 == p.0 + dx(d),
        q.1 == p.1 + dy(d),
    ensures
        dir_of(p, q) == d,
{
}

/// The exit chosen at a vertex entered in direction `din` is its paired exit
/// at a pinch, and turns most clockwise.
#[verifier::spinoff_prover]
proof fn lemma_choice(
    b: Seq<u8>,
    w: int,
    h: int,
    e: EdgeSet,
    x: int,
    y: int,
    din: int,
    outs: Seq<(i32, i32)>,
    dirs: Seq<u8>,
    r: int,
)
    requires
        0 <= din < 4,
        forall|x: int, y: int, d: int| #[trigger] e.live(w, h, x, y, d) ==> bedge(b, w, h, x, y, d),
        dirs == exits_seq(
            e.live(w, h, x, y, 2),
            e.live(w, h, x, y, 3),
            e.live(w, h, x, y, 1),
            e.live(w, h, x, y, 0),
        ),
        outs.len() == dirs.len(),
        forall|j: int|
            0 <= j < dirs.len() ==> (#[trigger] outs[j]).0 == x + dx(dirs[j] as int) && outs[j].1 == y
                + dy(dirs[j] as int),
        arrive_ok(b, w, h, e, x, y, din),
        0 <= r < dirs.len(),
        dirs.len() <= 1 ==> r == 0,
        dirs.len() > 1 ==> forall|j: int|
            0 <= j < r ==> angle_gt(
                turn_to((dx(din) as i32, dy(din) as i32), (x as i32, y as i32), outs[r]),
                #[trigger] turn_to((dx(din) as i32, dy(din) as i32), (x as i32, y as i32), outs[j]),
            ),
        dirs.len() > 1 ==> forall|j: int|
            r < j < dirs.len() ==> !angle_gt(
                #[trigger] turn_to((dx(din) as i32, dy(din) as i32), (x as i32, y as i32), outs[j]),
                turn_to((dx(din) as i32, dy(din) as i32), (x as i32, y as i32), outs[r]),
            ),
        fits_i32(x) && fits_i32(y),
    ensures
        most_clockwise(b, w, h, x, y, din, dirs[r] as int),
        pinch_a(b, w, h, x, y) ==> dirs[r] == if din == 1 {
            2u8
        } else {
            0u8
        },
        pinch_b(b, w, h, x, y) ==> dirs[r] == if din == 0 {
            1u8
        } else {
            3u8
        },
{
    lemma_exits(b, w, h, x, y);
    let l2 = e.live(w, h, x, y, 2);
    let l3 = e.live(w, h, x, y, 3);
    let l1 = e.live(w, h, x, y, 1);
    let l0 = e.live(w, h, x, y, 0);
    let dv = (dx(din) as i32, dy(din) as i32);
    let c = (x as i32, y as i32);
    assert(c.0 as int == x && c.1 as int == y);
    assert(dv.0 as int == dx(din) && dv.1 as int == dy(din));
    if pinch_a(b, w, h, x, y) {
        assert(!l1 && !l3);
        assert(din == 1 || din == 3);
        if l2 && l0 {
            assert(dirs =~= seq![2u8, 0u8]);
            assert(outs[0].0 == x - 1 && outs[0].1 == y);
            assert(outs[1].0 == x + 1 && outs[1].1 == y);
            let t0 = turn_to(dv, c, outs[0]);
            let t1 = turn_to(dv, c, outs[1]);
            assert(step_to(c, outs[0]) == (-1int, 0int));
            assert(step_to(c, outs[1]) == (1int, 0int));
            if din == 1 {
                assert(dv.0 as int == 0 && dv.1 as int == 1);
                assert(t0 == (1int, 0int));
                assert(t1 == (-1int, 0int));
                assert(!angle_gt(t1, t0));
                assert(r == 0);
            } else {
                assert(dv.0 as int == 0 && dv.1 as int == -1);
                assert(t0 == (-1int, 0int));
                assert(t1 == (1int, 0int));
                assert(angle_gt(t1, t0));
                assert(r == 1);
            }
        } else if l2 {
            assert(dirs =~= seq![2u8]);
        } else {
            assert(dirs =~= seq![0u8]);
        }
    } else if pinch_b(b, w, h, x, y) {
        assert(!l0 && !l2);
        assert(din == 0 || din == 2);
        if l3 && l1 {
            assert(dirs =~= seq![3u8, 1u8]);
            assert(outs[0].0 == x && outs[0].1 == y - 1);
            assert(outs[1].0 == x && outs[1].1 == y + 1);
            let t0 = turn_to(dv, c, outs[0]);
            let t1 = turn_to(dv, c, outs[1]);
            if din == 0 {
                assert(t0 == (-1int, 0int));
                assert(t1 == (1int, 0int));
                assert(angle_gt(t1, t0));
                assert(r == 1);
            } else {
                assert(t0 == (1int, 0int));
                assert(t1 == (-1int, 0int));
                assert(!angle_gt(t1, t0));
                assert(r == 0);
            }
        } else if l3 {
            assert(dirs =~= seq![3u8]);
        } else {
            assert(dirs =~= seq![1u8]);
        }
    }
    let dr = dirs[r] as int;
    if pinch_a(b, w, h, x, y) {
        assert(din == 1 || din == 3);
        assert(dr == if din == 1 { 2int } else { 0int });
        assert forall|d2: int|
            0 <= d2 < 4 && d2 != dr && #[trigger] bedge(b, w, h, x, y, d2) implies !angle_gt(
            turn((dx(din), dy(din)), (dx(d2), dy(d2))),
            turn((dx(din), dy(din)), (dx(dr), dy(dr))),
        ) by {
            assert(d2 == 0 || d2 == 2);
        }
    } else if pinch_b(b, w, h, x, y) {
        assert(din == 0 || din == 2);
        assert(dr == if din == 0 { 1int } else { 3int });
        assert forall|d2: int|
            0 <= d2 < 4 && d2 != dr && #[trigger] bedge(b, w, h, x, y, d2) implies !angle_gt(
            turn((dx(din), dy(din)), (dx(d2), dy(d2))),
            turn((dx(din), dy(din)), (dx(dr), dy(dr))),
        ) by {
            assert(d2 == 1 || d2 == 3);
        }
    } else {
        assert(b2i(l0) + b2i(l1) + b2i(l2) + b2i(l3) <= 1);
        assert forall|d2: int|
            0 <= d2 < 4 && d2 != dr && #[trigger] bedge(b, w, h, x, y, d2) implies !angle_gt(
            turn((dx(din), dy(din)), (dx(d2), dy(d2))),
            turn((dx(din), dy(din)), (dx(dr), dy(dr))),
        ) by {
            assert(e.live(w, h, x, y, dr));
            assert(b2i(bedge(b, w, h, x, y, 0)) + b2i(bedge(b, w, h, x, y, 1)) + b2i(
                bedge(b, w, h, x, y, 2),
            ) + b2i(bedge(b, w, h, x, y, 3)) <= 1);
        }
    }
}

/// The premises of one step of a walk: edge `(cur, d)` is taken out of `e0`,
/// giving `e1`, and recorded at the walk's next position.
spec fn step_ok(
    b: Seq<u8>,
    w: int,
    h: int,
    e0: EdgeSet,
    e1: EdgeSet,
    who0: Map<(int, int, int), (int, int)>,
    who1: Map<(int, int, int), (int, int)>,
    loops: Seq<Vec<(i32, i32)>>,
    p0: Seq<(i32, i32)>,
    prev0: Option<(i32, i32)>,
    s: (int, int),
    d: int,
) -> bool {
    let n = p0.len();
    let cur = vtx(p0[n - 1]);
    let din = dir_of(p0[n - 2], p0[n - 1]);
    &&& walk_ok(b, w, h, e0, who0, loops, p0, prev0, s)
    &&& cleared(e0, e1, w, h, cur.0, cur.1, d)
    &&& e0.live(w, h, cur.0, cur.1, d)
    &&& n > 1 ==> most_clockwise(b, w, h, cur.0, cur.1, din, d)
    &&& n > 1 ==> (pinch_a(b, w, h, cur.0, cur.1) ==> d == if din == 1 {
        2int
    } else {
        0int
    })
    &&& n > 1 ==> (pinch_b(b, w, h, cur.0, cur.1) ==> d == if din == 0 {
        1int
    } else {
        3int
    })
    &&& who1 == who0.insert((cur.0, cur.1, d), (loops.len() as int, n - 1))
    &&& w < i32::MAX
    &&& h < i32::MAX
}

proof fn lemma_step_common(
    b: Seq<u8>,
    w: int,
    h: int,
    e0: EdgeSet,
    e1: EdgeSet,
    who0: Map<(int, int, int), (int, int)>,
    who1: Map<(int, int, int), (int, int)>,
    loops: Seq<Vec<(i32, i32)>>,
    p0: Seq<(i32, i32)>,
    prev0: Option<(i32, i32)>,
    s: (int, int),
    d: int,
)
    requires
        step_ok(b, w, h, e0, e1, who0, who1, loops, p0, prev0, s, d),
    ensures
        ({
            let n = p0.len();
            let cur = vtx(p0[n - 1]);
            let nxt = (cur.0 + dx(d), cur.1 + dy(d));
            &&& 0 <= d < 4
            &&& bedge(b, w, h, cur.0, cur.1, d)
            &&& 0 <= nxt.0 <= w && 0 <= nxt.1 <= h
            &&& nxt != cur
            &&& !lex_before(nxt, s)
            &&& forall|x: int, y: int, dd: int| #[trigger] e1.live(w, h, x, y, dd) ==> bedge(b, w, h, x, y, dd)
            &&& forall|u: int, v: int|
                #[trigger] rout(e1, w, h, u, v) == rout(e0, w, h, u, v) - (if u == cur.0 && v == cur.1 {
                    1int
                } else {
                    0int
                })
            &&& forall|u: int, v: int|
                #[trigger] rin(e1, w, h, u, v) == rin(e0, w, h, u, v) - (if u == nxt.0 && v == nxt.1 {
                    1int
                } else {
                    0int
                })
            &&& forall|x: int, y: int|
                lex_before((x, y), s) ==> #[trigger] rout(e1, w, h, x, y) == 0 && rin(e1, w, h, x, y)
                    == 0
            &&& loops_ok(b, w, h, e1, who1, loops)
            &&& forall|i: int|
                0 <= i < n - 1 ==> recorded(b, w, h, e1, who1, #[trigger] walk_edge(p0, i), loops.len() as int, i)
            &&& recorded(b, w, h, e1, who1, (cur.0, cur.1, d), loops.len() as int, n - 1)
            &&& forall|x: int, y: int|
                (x, y) != cur && (x, y) != nxt ==> (#[trigger] pair_ok(b, w, h, e1, x, y) == pair_ok(
                    b,
                    w,
                    h,
                    e0,
                    x,
                    y,
                ))
            &&& n > 1 ==> pair_ok(b, w, h, e1, cur.0, cur.1)
            &&& forall|key: (int, int, int)|
                key != (cur.0, cur.1, d) ==> (#[trigger] who1.contains_key(key) == who0.contains_key(key)
                    && who1[key] == who0[key])
        }),
{
    let n = p0.len();
    let cur = vtx(p0[n - 1]);
    let nxt = (cur.0 + dx(d), cur.1 + dy(d));
    let ed = (cur.0, cur.1, d);
    let kk = loops.len() as int;
    assert(bedge(b, w, h, cur.0, cur.1, d));
    lemma_bedge_in_grid(b, w, h, cur.0, cur.1, d);
    lemma_clear_degrees(e0, e1, w, h, cur.0, cur.1, d);
    assert(rin(e0, w, h, nxt.0, nxt.1) >= 1) by {
        if d == 0 {
            assert(e0.live(w, h, nxt.0 - 1, nxt.1, 0));
        } else if d == 1 {
            assert(e0.live(w, h, nxt.0, nxt.1 - 1, 1));
        } else if d == 2 {
            assert(e0.live(w, h, nxt.0 + 1, nxt.1, 2));
        } else {
            assert(e0.live(w, h, nxt.0, nxt.1 + 1, 3));
        }
    }
    assert(!lex_before(nxt, s)) by {
        if lex_before(nxt, s) {
            assert(rin(e0, w, h, nxt.0, nxt.1) == 0);
        }
    }
    assert forall|x: int, y: int, dd: int| #[trigger] e1.live(w, h, x, y, dd) implies bedge(
        b,
        w,
        h,
        x,
        y,
        dd,
    ) by {
        assert(e0.live(w, h, x, y, dd));
    }
    assert forall|x: int, y: int|
        lex_before((x, y), s) implies #[trigger] rout(e1, w, h, x, y) == 0 && rin(e1, w, h, x, y) == 0 by {
        assert(rout(e0, w, h, x, y) == 0 && rin(e0, w, h, x, y) == 0);
    }
    // Keys other than the new edge keep their record.
    assert forall|key: (int, int, int)|
        key != ed implies (#[trigger] who1.contains_key(key) == who0.contains_key(key) && who1[key]
        == who0[key]) by {}
    // Recorded edges are not live in e0, so differ from the new edge.
    assert forall|k: int, i: int|
        0 <= k < loops.len() && 0 <= i < loops[k]@.len() implies recorded(
        b,
        w,
        h,
        e1,
        who1,
        #[trigger] loop_edge(loops[k]@, i),
        k,
        i,
    ) by {
        let le = loop_edge(loops[k]@, i);
        assert(recorded(b, w, h, e0, who0, le, k, i));
        assert(le != ed);
        assert(!e1.live(w, h, le.0, le.1, le.2));
    }
    assert(loops_ok(b, w, h, e1, who1, loops));
    assert forall|i: int|
        0 <= i < n - 1 implies recorded(b, w, h, e1, who1, #[trigger] walk_edge(p0, i), kk, i) by {
        let we = walk_edge(p0, i);
        assert(recorded(b, w, h, e0, who0, we, kk, i));
        assert(we != ed);
        assert(!e1.live(w, h, we.0, we.1, we.2));
    }
    assert(!e1.live(w, h, cur.0, cur.1, d));
    assert forall|x: int, y: int|
        (x, y) != cur && (x, y) != nxt implies (#[trigger] pair_ok(b, w, h, e1, x, y) == pair_ok(
        b,
        w,
        h,
        e0,
        x,
        y,
    )) by {
        assert(e1.live(w, h, x, y - 1, 1) == e0.live(w, h, x, y - 1, 1));
        assert(e1.live(w, h, x, y, 2) == e0.live(w, h, x, y, 2));
        assert(e1.live(w, h, x, y + 1, 3) == e0.live(w, h, x, y + 1, 3));
        assert(e1.live(w, h, x, y, 0) == e0.live(w, h, x, y, 0));
        assert(e1.live(w, h, x - 1, y, 0) == e0.live(w, h, x - 1, y, 0));
        assert(e1.live(w, h, x, y, 1) == e0.live(w, h, x, y, 1));
        assert(e1.live(w, h, x + 1, y, 2) == e0.live(w, h, x + 1, y, 2));
        assert(e1.live(w, h, x, y, 3) == e0.live(w, h, x, y, 3));
    }
    if n > 1 {
        let din = dir_of(p0[n - 2], p0[n - 1]);
        let pe = walk_edge(p0, n - 2);
        assert(recorded(b, w, h, e0, who0, pe, kk, n - 2));
        assert(pe.2 < 4);
        assert(!e0.live(w, h, pe.0, pe.1, pe.2));
        assert(arrive_ok(b, w, h, e0, cur.0, cur.1, din));
        let x = cur.0;
        let y = cur.1;
        assert(e1.live(w, h, x, y - 1, 1) == e0.live(w, h, x, y - 1, 1));
        assert(e1.live(w, h, x, y, 2) == (e0.live(w, h, x, y, 2) && d != 2));
        assert(e1.live(w, h, x, y + 1, 3) == e0.live(w, h, x, y + 1, 3));
        assert(e1.live(w, h, x, y, 0) == (e0.live(w, h, x, y, 0) && d != 0));
        assert(e1.live(w, h, x - 1, y, 0) == e0.live(w, h, x - 1, y, 0));
        assert(e1.live(w, h, x, y, 1) == (e0.live(w, h, x, y, 1) && d != 1));
        assert(e1.live(w, h, x + 1, y, 2) == e0.live(w, h, x + 1, y, 2));
        assert(e1.live(w, h, x, y, 3) == (e0.live(w, h, x, y, 3) && d != 3));
        assert(pair_ok(b, w, h, e1, cur.0, cur.1));
    }
}

/// A step to a vertex other than the start continues the walk.
proof fn lemma_step_advance(
    b: Seq<u8>,
    w: int,
    h: int,
    e0: EdgeSet,
    e1: EdgeSet,
    who0: Map<(int, int, int), (int, int)>,
    who1: Map<(int, int, int), (int, int)>,
    loops: Seq<Vec<(i32, i32)>>,
    p0: Seq<(i32, i32)>,
    prev0: Option<(i32, i32)>,
    s: (int, int),
    d: int,
    nxt: (i32, i32),
)
    requires
        step_ok(b, w, h, e0, e1, who0, who1, loops, p0, prev0, s, d),
        nxt.0 == p0[p0.len() - 1].0 + dx(d),
        nxt.1 == p0[p0.len() - 1].1 + dy(d),
        vtx(nxt) != s,
    ensures
        walk_ok(b, w, h, e1, who1, loops, p0.push(nxt), Some((dx(d) as i32, dy(d) as i32)), s),
{
    lemma_step_common(b, w, h, e0, e1, who0, who1, loops, p0, prev0, s, d);
    let n = p0.len() as int;
    let cur = vtx(p0[n - 1]);
    let nv = vtx(nxt);
    let p1 = p0.push(nxt);
    let kk = loops.len() as int;
    let ed = (cur.0, cur.1, d);
    lemma_dir_of(p0[n - 1], nxt, d);
    assert(p1[n] == nxt && p1[n - 1] == p0[n - 1]);
    assert forall|i: int| 0 <= i < n + 1 implies 0 <= (#[trigger] p1[i]).0 <= w && 0 <= p1[i].1 <= h by {
        if i < n {
            assert(p1[i] == p0[i]);
        }
    }
    assert forall|i: int|
        0 <= i < n implies (#[trigger] walk_edge(p1, i)).2 < 4 && recorded(b, w, h, e1, who1, walk_edge(p1, i), kk, i) by {
        if i < n - 1 {
            assert(walk_edge(p1, i) == walk_edge(p0, i));
        } else {
            assert(walk_edge(p1, i) == ed);
        }
    }
    assert forall|i: int| 1 <= i < n + 1 implies lex_before(s, vtx(#[trigger] p1[i])) by {
        if i < n {
            assert(p1[i] == p0[i]);
        }
    }
    assert forall|i: int|
        1 <= i < n implies #[trigger] most_clockwise(
        b,
        w,
        h,
        p1[i].0 as int,
        p1[i].1 as int,
        dir_of(p1[i - 1], p1[i]),
        dir_of(p1[i], p1[i + 1]),
    ) by {
        if i < n - 1 {
            assert(p1[i] == p0[i] && p1[i - 1] == p0[i - 1] && p1[i + 1] == p0[i + 1]);
            assert(most_clockwise(
                b,
                w,
                h,
                p0[i].0 as int,
                p0[i].1 as int,
                dir_of(p0[i - 1], p0[i]),
                dir_of(p0[i], p0[i + 1]),
            ));
        } else {
            assert(p1[i - 1] == p0[n - 2]);
        }
    }
    assert forall|x: int, y: int|
        (x, y) != nv && (x, y) != s implies #[trigger] rin(e1, w, h, x, y) == rout(e1, w, h, x, y) by {
        if (x, y) != cur {
            assert(rin(e0, w, h, x, y) == rout(e0, w, h, x, y));
        }
    }
    assert(rin(e0, w, h, nv.0, nv.1) == rout(e0, w, h, nv.0, nv.1));
    assert forall|x: int, y: int|
        (x, y) != nv && (x, y) != s implies #[trigger] pair_ok(b, w, h, e1, x, y) by {
        if (x, y) != cur {
            assert(pair_ok(b, w, h, e0, x, y));
        }
    }
    // Entering the next vertex keeps its paired exit.
    assert(pair_ok(b, w, h, e0, nv.0, nv.1));
    assert(e0.live(w, h, cur.0, cur.1, d));
    let x = nv.0;
    let y = nv.1;
    assert(e1.live(w, h, x, y - 1, 1) == (e0.live(w, h, x, y - 1, 1) && !(x == cur.0 && y - 1 == cur.1 && d == 1)));
    assert(e1.live(w, h, x, y, 2) == e0.live(w, h, x, y, 2));
    assert(e1.live(w, h, x, y + 1, 3) == (e0.live(w, h, x, y + 1, 3) && !(x == cur.0 && y + 1 == cur.1 && d == 3)));
    assert(e1.live(w, h, x, y, 0) == e0.live(w, h, x, y, 0));
    assert(e1.live(w, h, x - 1, y, 0) == (e0.live(w, h, x - 1, y, 0) && !(x - 1 == cur.0 && y == cur.1 && d == 0)));
    assert(e1.live(w, h, x, y, 1) == e0.live(w, h, x, y, 1));
    assert(e1.live(w, h, x + 1, y, 2) == (e0.live(w, h, x + 1, y, 2) && !(x + 1 == cur.0 && y == cur.1 && d == 2)));
    assert(e1.live(w, h, x, y, 3) == e0.live(w, h, x, y, 3));
    assert(arrive_ok(b, w, h, e1, x, y, d));
    assert forall|x: int, y: int, dd: int|
        #[trigger] bedge(b, w, h, x, y, dd) implies covered(e1, w, h, who1, loops, p1, (x, y, dd)) by {
        assert(covered(e0, w, h, who0, loops, p0, (x, y, dd)));
        if (x, y, dd) == ed {
            assert(walk_edge(p1, n - 1) == ed);
        } else if !e1.live(w, h, x, y, dd) {
            let k = who0[(x, y, dd)].0;
            let i = who0[(x, y, dd)].1;
            if k == kk && 0 <= i < n - 1 {
                assert(walk_edge(p1, i) == walk_edge(p0, i));
            }
        }
    }
}

/// A step back to the start closes the loop.
proof fn lemma_step_close(
    b: Seq<u8>,
    w: int,
    h: int,
    e0: EdgeSet,
    e1: EdgeSet,
    who0: Map<(int, int, int), (int, int)>,
    who1: Map<(int, int, int), (int, int)>,
    loops: Seq<Vec<(i32, i32)>>,
    p0: Seq<(i32, i32)>,
    prev0: Option<(i32, i32)>,
    s: (int, int),
    d: int,
)
    requires
        step_ok(b, w, h, e0, e1, who0, who1, loops, p0, prev0, s, d),
        p0[p0.len() - 1].0 + dx(d) == s.0,
        p0[p0.len() - 1].1 + dy(d) == s.1,
    ensures
        closed_ok(b, w, h, e1, who1, loops, p0, s),
{
    lemma_step_common(b, w, h, e0, e1, who0, who1, loops, p0, prev0, s, d);
    let n = p0.len() as int;
    let cur = vtx(p0[n - 1]);
    let kk = loops.len() as int;
    let ed = (cur.0, cur.1, d);
    // The loop has at least three vertices: no step stays put, and none runs
    // back along the previous one.
    assert(n >= 3) by {
        if n == 2 {
            let d0 = dir_of(p0[0], p0[1]);
            assert(walk_edge(p0, 0).2 < 4);
            assert(recorded(b, w, h, e0, who0, walk_edge(p0, 0), kk, 0));
            lemma_no_backtrack(b, w, h, s.0, s.1, d0);
            assert(d == (d0 + 2) % 4);
        }
    }
    lemma_dir_of(p0[n - 1], p0[0], d);
    assert forall|i: int| 0 <= i < n implies recorded(b, w, h, e1, who1, #[trigger] loop_edge(p0, i), kk, i) by {
        if i < n - 1 {
            vstd::arithmetic::div_mod::lemma_small_mod((i + 1) as nat, n as nat);
            assert(loop_edge(p0, i) == walk_edge(p0, i));
        } else {
            vstd::arithmetic::div_mod::lemma_mod_self_0(n as int);
            assert(loop_edge(p0, i) == ed);
        }
    }
    assert forall|i: int|
        1 <= i < n implies #[trigger] most_clockwise(
        b,
        w,
        h,
        p0[i].0 as int,
        p0[i].1 as int,
        dir_of(p0[i - 1], p0[i]),
        dir_of(p0[i], p0[(i + 1) % (n as int)]),
    ) by {
        if i < n - 1 {
            vstd::arithmetic::div_mod::lemma_small_mod((i + 1) as nat, n as nat);
            assert(most_clockwise(
                b,
                w,
                h,
                p0[i].0 as int,
                p0[i].1 as int,
                dir_of(p0[i - 1], p0[i]),
                dir_of(p0[i], p0[i + 1]),
            ));
        } else {
            vstd::arithmetic::div_mod::lemma_mod_self_0(n as int);
        }
    }
    assert forall|x: int, y: int| #[trigger] rin(e1, w, h, x, y) == rout(e1, w, h, x, y) by {
        if (x, y) != cur && (x, y) != s {
            assert(rin(e0, w, h, x, y) == rout(e0, w, h, x, y));
        }
    }
    assert forall|x: int, y: int| (x, y) != s implies #[trigger] pair_ok(b, w, h, e1, x, y) by {
        if (x, y) != cur {
            assert(pair_ok(b, w, h, e0, x, y));
        }
    }
    assert forall|x: int, y: int, dd: int|
        #[trigger] bedge(b, w, h, x, y, dd) implies e1.live(w, h, x, y, dd) || (who1.contains_key((x, y, dd))
        && ({
        let k = who1[(x, y, dd)].0;
        let i = who1[(x, y, dd)].1;
        (0 <= k < loops.len() && 0 <= i < loops[k]@.len() && loop_edge(loops[k]@, i) == (x, y, dd))
            || (k == kk && 0 <= i < n && loop_edge(p0, i) == (x, y, dd))
    })) by {
        assert(covered(e0, w, h, who0, loops, p0, (x, y, dd)));
        if (x, y, dd) == ed {
            assert(loop_edge(p0, n - 1) == ed) by {
                vstd::arithmetic::div_mod::lemma_mod_self_0(n as int);
            }
        } else if !e1.live(w, h, x, y, dd) {
            let k = who0[(x, y, dd)].0;
            let i = who0[(x, y, dd)].1;
            if k == kk && 0 <= i < n - 1 {
                vstd::arithmetic::div_mod::lemma_small_mod((i + 1) as nat, n as nat);
                assert(loop_edge(p0, i) == walk_edge(p0, i));
            }
        }
    }
}

/// A walk starts from a vertex with a remaining exit: it has exactly one, as
/// its exits towards earlier vertices are traced already and no vertex has
/// exits both right and down.
proof fn lemma_walk_start(
    b: Seq<u8>,
    w: int,
    h: int,
    e: EdgeSet,
    who: Map<(int, int, int), (int, int)>,
    loops: Seq<Vec<(i32, i32)>>,
    s: (int, int),
    p: Seq<(i32, i32)>,
)
    requires
        outer_ok(b, w, h, e, who, loops, s),
        rout(e, w, h, s.0, s.1) > 0,
        0 <= s.0 <= w,
        0 <= s.1 <= h,
        p.len() == 1,
        vtx(p[0]) == s,
    ensures
        walk_ok(b, w, h, e, who, loops, p, None, s),
{
    assert(!e.live(w, h, s.0, s.1, 2)) by {
        if e.live(w, h, s.0, s.1, 2) {
            assert(lex_before((s.0 - 1, s.1), s));
            assert(rin(e, w, h, s.0 - 1, s.1) == 0);
        }
    }
    assert(!e.live(w, h, s.0, s.1, 3)) by {
        if e.live(w, h, s.0, s.1, 3) {
            assert(lex_before((s.0, s.1 - 1), s));
            assert(rin(e, w, h, s.0, s.1 - 1) == 0);
        }
    }
    assert(!(e.live(w, h, s.0, s.1, 0) && e.live(w, h, s.0, s.1, 1)));
    assert(rin(e, w, h, s.0, s.1) == rout(e, w, h, s.0, s.1));
    assert forall|k: int| 0 <= k < loops.len() implies lex_before(vtx((#[trigger] loops[k])@[0]), s) by {
        assert(lex_before(vtx(loops[k]@[0]), s) || (vtx(loops[k]@[0]) == s && rout(e, w, h, s.0, s.1)
            == 0));
    }
    assert forall|x: int, y: int, d: int|
        #[trigger] bedge(b, w, h, x, y, d) implies covered(e, w, h, who, loops, p, (x, y, d)) by {
        assert(covered(e, w, h, who, loops, Seq::empty(), (x, y, d)));
    }
}

/// A closed loop joins the finished ones.
proof fn lemma_walk_done(
    b: Seq<u8>,
    w: int,
    h: int,
    e: EdgeSet,
    who: Map<(int, int, int), (int, int)>,
    loops: Seq<Vec<(i32, i32)>>,
    pv: Vec<(i32, i32)>,
    s: (int, int),
)
    requires
        closed_ok(b, w, h, e, who, loops, pv@, s),
    ensures
        outer_ok(b, w, h, e, who, loops.push(pv), s),
{
    let l1 = loops.push(pv);
    let kk = loops.len() as int;
    assert(l1[kk]@ == pv@);
    assert forall|k: int| 0 <= k < l1.len() implies (#[trigger] l1[k])@.len() >= 3 by {
        if k < kk {
            assert(l1[k] == loops[k]);
        }
    }
    assert forall|k: int, i: int|
        0 <= k < l1.len() && 0 <= i < l1[k]@.len() implies recorded(
        b,
        w,
        h,
        e,
        who,
        #[trigger] loop_edge(l1[k]@, i),
        k,
        i,
    ) by {
        if k < kk {
            assert(l1[k] == loops[k]);
        }
    }
    assert forall|k: int, i: int|
        0 <= k < l1.len() && 1 <= i < l1[k]@.len() implies lex_before(
        vtx(l1[k]@[0]),
        vtx(#[trigger] l1[k]@[i]),
    ) by {
        if k < kk {
            assert(l1[k] == loops[k]);
        }
    }
    assert forall|k1: int, k2: int|
        0 <= k1 < k2 < l1.len() implies lex_before(
        vtx((#[trigger] l1[k1])@[0]),
        vtx((#[trigger] l1[k2])@[0]),
    ) by {
        assert(l1[k1] == loops[k1]);
        if k2 < kk {
            assert(l1[k2] == loops[k2]);
        }
    }
    assert forall|k: int, i: int|
        0 <= k < l1.len() && 1 <= i < l1[k]@.len() implies #[trigger] most_clockwise(
        b,
        w,
        h,
        l1[k]@[i].0 as int,
        l1[k]@[i].1 as int,
        dir_of(l1[k]@[i - 1], l1[k]@[i]),
        dir_of(l1[k]@[i], l1[k]@[(i + 1) % (l1[k]@.len() as int)]),
    ) by {
        if k < kk {
            assert(l1[k] == loops[k]);
            assert(most_clockwise(
                b,
                w,
                h,
                loops[k]@[i].0 as int,
                loops[k]@[i].1 as int,
                dir_of(loops[k]@[i - 1], loops[k]@[i]),
                dir_of(loops[k]@[i], loops[k]@[(i + 1) % (loops[k]@.len() as int)]),
            ));
        } else {
            assert(most_clockwise(
                b,
                w,
                h,
                pv@[i].0 as int,
                pv@[i].1 as int,
                dir_of(pv@[i - 1], pv@[i]),
                dir_of(pv@[i], pv@[(i + 1) % (pv@.len() as int)]),
            ));
        }
    }
    assert(loops_ok(b, w, h, e, who, l1));
    assert forall|k: int|
        0 <= k < l1.len() implies lex_before(vtx((#[trigger] l1[k])@[0]), s) || (vtx(l1[k]@[0]) == s
        && rout(e, w, h, s.0, s.1) == 0) by {
        if k < kk {
            assert(l1[k] == loops[k]);
        }
    }
    assert forall|x: int, y: int, d: int|
        #[trigger] bedge(b, w, h, x, y, d) implies covered(e, w, h, who, l1, Seq::empty(), (x, y, d)) by {
        if !e.live(w, h, x, y, d) {
            let k = who[(x, y, d)].0;
            if k < kk {
                assert(l1[k] == loops[k]);
            }
        }
    }
}

/// The start advances from `s` to `s2`, past no other vertex of the grid,
/// once `s` has no exit left.
proof fn lemma_outer_next(
    b: Seq<u8>,
    w: int,
    h: int,
    e: EdgeSet,
    who: Map<(int, int, int), (int, int)>,
    loops: Seq<Vec<(i32, i32)>>,
    s: (int, int),
    s2: (int, int),
)
    requires
        outer_ok(b, w, h, e, who, loops, s),
        rout(e, w, h, s.0, s.1) == 0,
        lex_before(s, s2),
        forall|x: int, y: int|
            lex_before((x, y), s2) && 0 <= x <= w && 0 <= y <= h ==> lex_before((x, y), s) || (x, y)
                == s,
    ensures
        outer_ok(b, w, h, e, who, loops, s2),
{
    assert(rin(e, w, h, s.0, s.1) == rout(e, w, h, s.0, s.1));
    assert forall|x: int, y: int|
        lex_before((x, y), s2) implies #[trigger] rout(e, w, h, x, y) == 0 && rin(e, w, h, x, y) == 0 by {
        if 0 <= x <= w && 0 <= y <= h {
            if (x, y) != s {
                assert(lex_before((x, y), s));
            }
        } else {
            lemma_zero_outside(b, w, h, e, x, y);
        }
    }
    assert forall|x: int, y: int| (x, y) != s2 implies #[trigger] pair_ok(b, w, h, e, x, y) by {
        if (x, y) == s {
            assert(rin(e, w, h, x, y) == 0);
        }
    }
    assert forall|k: int|
        0 <= k < loops.len() implies lex_before(vtx((#[trigger] loops[k])@[0]), s2) || (vtx(loops[k]@[0])
        == s2 && rout(e, w, h, s2.0, s2.1) == 0) by {
        assert(lex_before(vtx(loops[k]@[0]), s) || (vtx(loops[k]@[0]) == s && rout(e, w, h, s.0, s.1)
            == 0));
    }
}

/// Traces one loop from vertex `(sx, sy)`, which has an exit left.
fn trace_walk(
    bin: &[u8],
    w: u32,
    h: u32,
    e: &mut EdgeSet,
    loops: &mut Vec<Vec<(i32, i32)>>,
    Ghost(who): Ghost<Map<(int, int, int), (int, int)>>,
    sx: u32,
    sy: u32,
) -> (who2: Ghost<Map<(int, int, int), (int, int)>>)
    requires
        bin@.len() >= (w as int) * (h as int),
        (w as int + 1) * (h as int + 1) <= usize::MAX,
        w < i32::MAX,
        h < i32::MAX,
        sx <= w,
        sy <= h,
        outer_ok(bin@, w as int, h as int, *old(e), who, old(loops)@, (sx as int, sy as int)),
        rout(*old(e), w as int, h as int, sx as int, sy as int) > 0,
    ensures
        outer_ok(bin@, w as int, h as int, *final(e), who2@, final(loops)@, (sx as int, sy as int)),
        final(e).total() < old(e).total(),
{
    let ghost b = bin@;
    let ghost wi = w as int;
    let ghost hi = h as int;
    let ghost s = (sx as int, sy as int);
    let ghost e_start = *e;
    let mut pts: Vec<(i32, i32)> = Vec::new();
    pts.push((sx as i32, sy as i32));
    let mut prev: Option<(i32, i32)> = None;
    let ghost mut who_w = who;
    proof {
        lemma_walk_start(b, wi, hi, *e, who, loops@, s, pts@);
    }
    loop
        invariant_except_break
            walk_ok(b, wi, hi, *e, who_w, loops@, pts@, prev, s),
            e.total() + pts@.len() - 1 == e_start.total(),
        invariant
            b == bin@,
            wi == w,
            hi == h,
            b.len() >= wi * hi,
            (wi + 1) * (hi + 1) <= usize::MAX,
            w < i32::MAX,
            h < i32::MAX,
            s == (sx as int, sy as int),
        ensures
            closed_ok(b, wi, hi, *e, who_w, loops@, pts@, s),
            e.total() < e_start.total(),
        decreases e.total(),
    {
        let n = pts.len();
        let (cxi, cyi) = pts[n - 1];
        proof {
            assert(0 <= pts@[n - 1].0 <= wi && 0 <= pts@[n - 1].1 <= hi);
        }
        let cx = cxi as u32;
        let cy = cyi as u32;
        let ghost cur = (cx as int, cy as int);
        proof {
            assert forall|x: int, y: int, d: int| #[trigger] e.live(wi, hi, x, y, d) implies d < 4 && (0
                <= x + dx(d) <= wi) && (0 <= y + dy(d) <= hi) by {
                lemma_bedge_in_grid(b, wi, hi, x, y, d);
            }
        }
        let (outs, dirs) = remaining_exits(e, w, h, cx, cy);
        proof {
            assert(rout(*e, wi, hi, cur.0, cur.1) >= 1);
            assert(dirs@.len() == rout(*e, wi, hi, cur.0, cur.1));
            if n > 1 {
                assert(prev == Some(
                    (dx(dir_of(pts@[n - 2], pts@[n - 1])) as i32, dy(dir_of(pts@[n - 2], pts@[n - 1]))
                        as i32),
                ));
                assert(walk_edge(pts@, n - 2).2 < 4);
            }
            assert forall|i: int|
                prev is Some && 0 <= i < outs@.len() implies turn_fits(
                prev.unwrap(),
                (cxi, cyi),
                #[trigger] outs@[i],
            ) by {
                assert(dirs@[i] < 4) by {
                    assert(e.live(wi, hi, cur.0, cur.1, dirs@[i] as int));
                }
                assert(outs@[i].0 == cur.0 + dx(dirs@[i] as int) && outs@[i].1 == cur.1 + dy(
                    dirs@[i] as int,
                ));
                assert(n > 1);
                let din = dir_of(pts@[n - 2], pts@[n - 1]);
                assert(walk_edge(pts@, n - 2).2 < 4);
                assert(prev.unwrap() == (dx(din) as i32, dy(din) as i32));
                assert(cxi as int == cur.0 && cyi as int == cur.1);
                let pu = prev.unwrap();
                assert(-1 <= pu.0 <= 1 && -1 <= pu.1 <= 1) by {
                    if din == 0 {
                        assert(pu == (1i32, 0i32));
                    } else if din == 1 {
                        assert(pu == (0i32, 1i32));
                    } else if din == 2 {
                        assert(pu == (-1i32, 0i32));
                    } else {
                        assert(pu == (0i32, -1i32));
                    }
                }
                let st = step_to((cxi, cyi), outs@[i]);
                assert(-1 <= st.0 <= 1 && -1 <= st.1 <= 1);
                assert(-1 <= pu.0 * st.1 <= 1 && -1 <= pu.1 * st.0 <= 1 && -1 <= pu.0 * st.0 <= 1 && -1
                    <= pu.1 * st.1 <= 1) by (nonlinear_arith)
                    requires
                        -1 <= pu.0 <= 1 && -1 <= pu.1 <= 1,
                        -1 <= st.0 <= 1 && -1 <= st.1 <= 1,
                ;
            }
        }
        let ni = choose_next(outs.as_slice(), prev, (cxi, cyi));
        let d = dirs[ni];
        proof {
            assert(e.live(wi, hi, cur.0, cur.1, d as int));
            if n > 1 {
                let din = dir_of(pts@[n - 2], pts@[n - 1]);
                assert(0 <= din < 4) by {
                    assert(walk_edge(pts@, n - 2).2 < 4);
                }
                assert(prev.unwrap() == (dx(din) as i32, dy(din) as i32));
                assert(vtx((cxi, cyi)) == cur);
                lemma_choice(b, wi, hi, *e, cur.0, cur.1, din, outs@, dirs@, ni as int);
            }
        }
        let ghost e0 = *e;
        let ghost who0 = who_w;
        let ghost p0 = pts@;
        let ghost prev0 = prev;
        e.clear(w, h, cx, cy, d);
        proof {
            who_w = who_w.insert((cx as int, cy as int, d as int), (loops@.len() as int, n - 1));
            assert(step_ok(b, wi, hi, e0, *e, who0, who_w, loops@, p0, prev0, s, d as int));
        }
        let (nx, ny) = outs[ni];
        if nx == sx as i32 && ny == sy as i32 {
            proof {
                lemma_step_close(b, wi, hi, e0, *e, who0, who_w, loops@, p0, prev0, s, d as int);
            }
            break;
        }
        pts.push((nx, ny));
        prev = Some((nx - cxi, ny - cyi));
        proof {
            assert(prev == Some((dx(d as int) as i32, dy(d as int) as i32)));
            lemma_step_advance(b, wi, hi, e0, *e, who0, who_w, loops@, p0, prev0, s, d as int, (nx, ny));
        }
    }
    let ghost pv = pts;
    proof {
        lemma_walk_done(b, wi, hi, *e, who_w, loops@, pv, s);
    }
    loops.push(pts);
    Ghost(who_w)
}

fn has_exit(e: &EdgeSet, w: u32, h: u32, x: u32, y: u32) -> (r: bool)
    requires
        e.wf(w as int, h as int),
        (w as int + 1) * (h as int + 1) <= usize::MAX,
        x <= w,
        y <= h,
    ensures
        r == (rout(*e, w as int, h as int, x as int, y as int) > 0),
{
    e.has(w, h, x, y, 0) || e.has(w, h, x, y, 1) || e.has(w, h, x, y, 2) || e.has(w, h, x, y, 3)
}

/// `loops` is the boundary tracing of a `w` by `h` binary image `b`: every
/// boundary edge (`bedge`) is the step from one loop vertex to the next (the
/// last vertex stepping back to the first) exactly once; each loop has at
/// least three vertices and starts at its least vertex (x first, then y); the
/// loops come in increasing order of start; after its start, a loop leaves
/// every vertex by the exit that turns most clockwise.
pub open spec fn boundary_tracing(b: Seq<u8>, w: int, h: int, loops: Seq<Vec<(i32, i32)>>) -> bool {
    &&& forall|k: int| 0 <= k < loops.len() ==> (#[trigger] loops[k])@.len() >= 3
    &&& forall|k: int, i: int|
        0 <= k < loops.len() && 0 <= i < loops[k]@.len() ==> ({
            let ed = #[trigger] loop_edge(loops[k]@, i);
            bedge(b, w, h, ed.0, ed.1, ed.2)
        })
    &&& forall|k1: int, i1: int, k2: int, i2: int|
        0 <= k1 < loops.len() && 0 <= i1 < loops[k1]@.len() && 0 <= k2 < loops.len() && 0 <= i2
            < loops[k2]@.len() && #[trigger] loop_edge(loops[k1]@, i1) == #[trigger] loop_edge(
            loops[k2]@,
            i2,
        ) ==> k1 == k2 && i1 == i2
    &&& forall|x: int, y: int, d: int|
        #[trigger] bedge(b, w, h, x, y, d) ==> exists|k: int, i: int|
            0 <= k < loops.len() && 0 <= i < loops[k]@.len() && #[trigger] loop_edge(loops[k]@, i)
                == (x, y, d)
    &&& forall|k: int, i: int|
        0 <= k < loops.len() && 1 <= i < loops[k]@.len() ==> lex_before(
            vtx(loops[k]@[0]),
            vtx(#[trigger] loops[k]@[i]),
        )
    &&& forall|k1: int, k2: int|
        0 <= k1 < k2 < loops.len() ==> lex_before(
            vtx((#[trigger] loops[k1])@[0]),
            vtx((#[trigger] loops[k2])@[0]),
        )
    &&& forall|k: int, i: int|
        0 <= k < loops.len() && 1 <= i < loops[k]@.len() ==> #[trigger] most_clockwise(
            b,
            w,
            h,
            loops[k]@[i].0 as int,
            loops[k]@[i].1 as int,
            dir_of(loops[k]@[i - 1], loops[k]@[i]),
            dir_of(loops[k]@[i], loops[k]@[(i + 1) % (loops[k]@.len() as int)]),
        )
}

/// Traces the boundary of the ink of a binary cell (0 = ink) into closed
/// loops of grid vertices (pixel corners, x right and y down), following each
/// pixel side between ink and background with the ink on its right, so that
/// outer contours and holes wind in opposite directions. At a pinch vertex,
/// where two ink pixels touch by a corner only, a loop turns most clockwise,
/// so that it keeps to its own side and loops never cross.
pub fn trace_boundary_loops(bin: &[u8], w: u32, h: u32) -> (loops: Vec<Vec<(i32, i32)>>)
    requires
        bin@.len() >= (w as int) * (h as int),
        (w as int + 1) * (h as int + 1) <= usize::MAX,
        w < i32::MAX,
        h < i32::MAX,
    ensures
        boundary_tracing(bin@, w as int, h as int, loops@),
{
    let ghost b = bin@;
    let ghost wi = w as int;
    let ghost hi = h as int;
    let mut e = EdgeSet::build(bin, w, h);
    let mut loops: Vec<Vec<(i32, i32)>> = Vec::new();
    let ghost mut who: Map<(int, int, int), (int, int)> = Map::empty();
    proof {
        assert forall|x: int, y: int| #[trigger] rin(e, wi, hi, x, y) == rout(e, wi, hi, x, y) by {
            lemma_bedge_balanced(b, wi, hi, x, y);
            assert(e.live(wi, hi, x, y, 0) == bedge(b, wi, hi, x, y, 0));
            assert(e.live(wi, hi, x, y, 1) == bedge(b, wi, hi, x, y, 1));
            assert(e.live(wi, hi, x, y, 2) == bedge(b, wi, hi, x, y, 2));
            assert(e.live(wi, hi, x, y, 3) == bedge(b, wi, hi, x, y, 3));
            assert(e.live(wi, hi, x - 1, y, 0) == bedge(b, wi, hi, x - 1, y, 0));
            assert(e.live(wi, hi, x, y - 1, 1) == bedge(b, wi, hi, x, y - 1, 1));
            assert(e.live(wi, hi, x + 1, y, 2) == bedge(b, wi, hi, x + 1, y, 2));
            assert(e.live(wi, hi, x, y + 1, 3) == bedge(b, wi, hi, x, y + 1, 3));
        }
        assert forall|x: int, y: int|
            lex_before((x, y), (0int, 0int)) implies #[trigger] rout(e, wi, hi, x, y) == 0 && rin(
            e,
            wi,
            hi,
            x,
            y,
        ) == 0 by {
            lemma_zero_outside(b, wi, hi, e, x, y);
        }
        assert forall|x: int, y: int| (x, y) != (0int, 0int) implies #[trigger] pair_ok(b, wi, hi, e, x, y) by {
            assert(e.live(wi, hi, x, y, 0) == bedge(b, wi, hi, x, y, 0));
            assert(e.live(wi, hi, x, y, 1) == bedge(b, wi, hi, x, y, 1));
            assert(e.live(wi, hi, x, y, 2) == bedge(b, wi, hi, x, y, 2));
            assert(e.live(wi, hi, x, y, 3) == bedge(b, wi, hi, x, y, 3));
            assert(e.live(wi, hi, x - 1, y, 0) == bedge(b, wi, hi, x - 1, y, 0));
            assert(e.live(wi, hi, x, y - 1, 1) == bedge(b, wi, hi, x, y - 1, 1));
            assert(e.live(wi, hi, x + 1, y, 2) == bedge(b, wi, hi, x + 1, y, 2));
            assert(e.live(wi, hi, x, y + 1, 3) == bedge(b, wi, hi, x, y + 1, 3));
        }
        assert forall|x: int, y: int, d: int|
            #[trigger] bedge(b, wi, hi, x, y, d) implies covered(e, wi, hi, who, loops@, Seq::empty(), (x, y, d)) by {
            assert(e.live(wi, hi, x, y, d));
        }
        assert(outer_ok(b, wi, hi, e, who, loops@, (0int, 0int)));
    }
    let mut sx: u32 = 0;
    while sx <= w
        invariant
            b == bin@,
            wi == w,
            hi == h,
            b.len() >= wi * hi,
            (wi + 1) * (hi + 1) <= usize::MAX,
            w < i32::MAX,
            h < i32::MAX,
            sx <= wi + 1,
            outer_ok(b, wi, hi, e, who, loops@, (sx as int, 0int)),
        decreases wi + 1 - sx,
    {
        let mut sy: u32 = 0;
        while sy <= h
            invariant
                b == bin@,
                wi == w,
                hi == h,
                b.len() >= wi * hi,
                (wi + 1) * (hi + 1) <= usize::MAX,
                w < i32::MAX,
                h < i32::MAX,
                sx <= wi,
                sy <= hi + 1,
                outer_ok(b, wi, hi, e, who, loops@, (sx as int, sy as int)),
            decreases hi + 1 - sy,
        {
            while has_exit(&e, w, h, sx, sy)
                invariant
                    b == bin@,
                    wi == w,
                    hi == h,
                    b.len() >= wi * hi,
                    (wi + 1) * (hi + 1) <= usize::MAX,
                    w < i32::MAX,
                    h < i32::MAX,
                    sx <= wi,
                    sy <= hi,
                    outer_ok(b, wi, hi, e, who, loops@, (sx as int, sy as int)),
                decreases e.total(),
            {
                let g = trace_walk(bin, w, h, &mut e, &mut loops, Ghost(who), sx, sy);
                proof {
                    who = g@;
                }
            }
            proof {
                lemma_outer_next(b, wi, hi, e, who, loops@, (sx as int, sy as int), (sx as int, sy + 1));
            }
            sy += 1;
        }
        proof {
            lemma_zero_outside(b, wi, hi, e, sx as int, sy as int);
            lemma_outer_next(b, wi, hi, e, who, loops@, (sx as int, sy as int), (sx + 1, 0int));
        }
        sx += 1;
    }
    proof {
        let s = (sx as int, 0int);
        assert forall|x: int, y: int, d: int| !e.live(wi, hi, x, y, d) by {
            if e.live(wi, hi, x, y, d) {
                assert(lex_before((x, y), s));
                assert(rout(e, wi, hi, x, y) == 0);
            }
        }
        assert forall|x: int, y: int, d: int|
            #[trigger] bedge(b, wi, hi, x, y, d) implies exists|k: int, i: int|
            0 <= k < loops@.len() && 0 <= i < loops@[k]@.len() && #[trigger] loop_edge(loops@[k]@, i)
                == (x, y, d) by {
            assert(covered(e, wi, hi, who, loops@, Seq::empty(), (x, y, d)));
            let k = who[(x, y, d)].0;
            let i = who[(x, y, d)].1;
            assert(loop_edge(loops@[k]@, i) == (x, y, d));
        }
        assert forall|k1: int, i1: int, k2: int, i2: int|
            0 <= k1 < loops@.len() && 0 <= i1 < loops@[k1]@.len() && 0 <= k2 < loops@.len() && 0 <= i2
                < loops@[k2]@.len() && #[trigger] loop_edge(loops@[k1]@, i1) == #[trigger] loop_edge(
                loops@[k2]@,
                i2,
            ) implies k1 == k2 && i1 == i2 by {
            assert(recorded(b, wi, hi, e, who, loop_edge(loops@[k1]@, i1), k1, i1));
            assert(recorded(b, wi, hi, e, who, loop_edge(loops@[k2]@, i2), k2, i2));
        }
        assert forall|k: int, i: int|
            0 <= k < loops@.len() && 0 <= i < loops@[k]@.len() implies ({
            let ed = #[trigger] loop_edge(loops@[k]@, i);
            bedge(b, wi, hi, ed.0, ed.1, ed.2)
        }) by {
            assert(recorded(b, wi, hi, e, who, loop_edge(loops@[k]@, i), k, i));
        }
        assert(boundary_tracing(b, wi, hi, loops@));
    }
    loops
}

/// The vertices of a boundary tracing lie on the grid.
pub proof fn lemma_tracing_in_grid(b: Seq<u8>, w: int, h: int, loops: Seq<Vec<(i32, i32)>>, k: int, i: int)
    requires
        boundary_tracing(b, w, h, loops),
        0 <= k < loops.len(),
        0 <= i < loops[k]@.len(),
    ensures
        0 <= loops[k]@[i].0 <= w,
        0 <= loops[k]@[i].1 <= h,
{
    let ed = loop_edge(loops[k]@, i);
    assert(bedge(b, w, h, ed.0, ed.1, ed.2));
    lemma_bedge_in_grid(b, w, h, ed.0, ed.1, ed.2);
}

/// Total number of vertices of the first `k` loops.
pub open spec fn len_before(loops: Seq<Vec<(i32, i32)>>, k: int) -> nat
    decreases k,
{
    if k <= 0 {
        0
    } else {
        len_before(loops, k - 1) + loops[k - 1]@.len()
    }
}

/// A number for each edge of the vertex grid of a `w`-wide image.
pub open spec fn edge_code(w: int, e: (int, int, int)) -> int {
    (e.1 * (w + 1) + e.0) * 4 + e.2
}

/// Codes of the loop edges that come before edge `i` of loop `k`.
pub open spec fn codes_before(loops: Seq<Vec<(i32, i32)>>, w: int, k: int, i: int) -> Set<int> {
    Set::new(
        |c: int|
            exists|k2: int, i2: int|
                0 <= k2 < loops.len() && 0 <= i2 < loops[k2]@.len() && (k2 < k || (k2 == k && i2 < i))
                    && #[trigger] edge_code(w, loop_edge(loops[k2]@, i2)) == c,
    )
}

/// Edge codes of boundary edges lie in `[0, 4 (w + 1) (h + 1))` and tell the
/// edges apart.
pub(crate) proof fn lemma_edge_code(b: Seq<u8>, w: int, h: int, e1: (int, int, int), e2: (int, int, int))
    requires
        bedge(b, w, h, e1.0, e1.1, e1.2),
        bedge(b, w, h, e2.0, e2.1, e2.2),
    ensures
        0 <= edge_code(w, e1) < 4 * (w + 1) * (h + 1),
        edge_code(w, e1) == edge_code(w, e2) ==> e1 == e2,
{
    lemma_bedge_in_grid(b, w, h, e1.0, e1.1, e1.2);
    lemma_bedge_in_grid(b, w, h, e2.0, e2.1, e2.2);
    lemma_index_of(w + 1, h + 1, e1.0, e1.1);
    lemma_index_of(w + 1, h + 1, e2.0, e2.1);
    let q1 = index_of(w + 1, e1.0, e1.1);
    let q2 = index_of(w + 1, e2.0, e2.1);
    assert(0 <= q1 * 4 + e1.2 < 4 * (w + 1) * (h + 1)) by (nonlinear_arith)
        requires
            0 <= q1 < (w + 1) * (h + 1),
            0 <= e1.2 < 4,
    ;
    if edge_code(w, e1) == edge_code(w, e2) {
        assert(q1 * 4 + e1.2 == q2 * 4 + e2.2);
        assert(q1 == q2 && e1.2 == e2.2) by (nonlinear_arith)
            requires
                q1 * 4 + e1.2 == q2 * 4 + e2.2,
                0 <= e1.2 < 4,
                0 <= e2.2 < 4,
        ;
        lemma_index_injective(w + 1, h + 1, e1.0, e1.1, e2.0, e2.1);
    }
}

pub(crate) proof fn lemma_codes_before(b: Seq<u8>, w: int, h: int, loops: Seq<Vec<(i32, i32)>>, k: int, i: int)
    requires
        boundary_tracing(b, w, h, loops),
        0 <= k <= loops.len(),
        k < loops.len() ==> 0 <= i <= loops[k]@.len(),
        k == loops.len() ==> i == 0,
    ensures
        codes_before(loops, w, k, i).finite(),
        codes_before(loops, w, k, i).len() == len_before(loops, k) + i,
        i > 0 ==> codes_before(loops, w, k, i) == codes_before(loops, w, k, i - 1).insert(
            edge_code(w, loop_edge(loops[k]@, i - 1)),
        ) && !codes_before(loops, w, k, i - 1).contains(edge_code(w, loop_edge(loops[k]@, i - 1))),
        i == 0 && k > 0 ==> codes_before(loops, w, k, i) == codes_before(loops, w, k - 1, loops[k - 1]@.len() as int),
        i == 0 && k == 0 ==> codes_before(loops, w, k, i) == Set::<int>::empty(),
    decreases k, i,
{
    let cur = codes_before(loops, w, k, i);
    if i > 0 {
        lemma_codes_before(b, w, h, loops, k, i - 1);
        let prev = codes_before(loops, w, k, i - 1);
        let c = edge_code(w, loop_edge(loops[k]@, i - 1));
        assert(cur =~= prev.insert(c)) by {
            assert forall|x: int| cur.contains(x) <==> prev.insert(c).contains(x) by {
                if cur.contains(x) {
                    let (k2, i2) = choose|k2: int, i2: int|
                        0 <= k2 < loops.len() && 0 <= i2 < loops[k2]@.len() && (k2 < k || (k2 == k && i2 < i))
                            && #[trigger] edge_code(w, loop_edge(loops[k2]@, i2)) == x;
                    if !(k2 == k && i2 == i - 1) {
                        assert(prev.contains(x));
                    }
                }
                if prev.contains(x) {
                    let (k2, i2) = choose|k2: int, i2: int|
                        0 <= k2 < loops.len() && 0 <= i2 < loops[k2]@.len() && (k2 < k || (k2 == k && i2 < i - 1))
                            && #[trigger] edge_code(w, loop_edge(loops[k2]@, i2)) == x;
                    assert(cur.contains(x));
                }
                if x == c {
                    assert(edge_code(w, loop_edge(loops[k]@, i - 1)) == x);
                    assert(cur.contains(x));
                }
            }
        }
        assert(!prev.contains(c)) by {
            if prev.contains(c) {
                let (k2, i2) = choose|k2: int, i2: int|
                    0 <= k2 < loops.len() && 0 <= i2 < loops[k2]@.len() && (k2 < k || (k2 == k && i2 < i - 1))
                        && #[trigger] edge_code(w, loop_edge(loops[k2]@, i2)) == c;
                let e1 = loop_edge(loops[k2]@, i2);
                let e2 = loop_edge(loops[k]@, i - 1);
                assert(bedge(b, w, h, e1.0, e1.1, e1.2));
                assert(bedge(b, w, h, e2.0, e2.1, e2.2));
                lemma_edge_code(b, w, h, e1, e2);
                assert(e1 == e2);
            }
        }
    } else if k > 0 {
        lemma_codes_before(b, w, h, loops, k - 1, loops[k - 1]@.len() as int);
        let prev = codes_before(loops, w, k - 1, loops[k - 1]@.len() as int);
        assert(cur =~= prev) by {
            assert forall|x: int| cur.contains(x) <==> prev.contains(x) by {
                if cur.contains(x) {
                    let (k2, i2) = choose|k2: int, i2: int|
                        0 <= k2 < loops.len() && 0 <= i2 < loops[k2]@.len() && (k2 < k || (k2 == k && i2 < i))
                            && #[trigger] edge_code(w, loop_edge(loops[k2]@, i2)) == x;
                    assert(prev.contains(x));
                }
                if prev.contains(x) {
                    let (k2, i2) = choose|k2: int, i2: int|
                        0 <= k2 < loops.len() && 0 <= i2 < loops[k2]@.len() && (k2 < k - 1 || (k2 == k - 1 && i2
                            < loops[k - 1]@.len()))
                            && #[trigger] edge_code(w, loop_edge(loops[k2]@, i2)) == x;
                    assert(cur.contains(x));
                }
            }
        }
    } else {
        assert(cur =~= Set::empty());
    }
}

/// The loops of a boundary tracing have at most `4 (w + 1) (h + 1)` vertices
/// in all: no edge of the vertex grid is traced twice.
pub proof fn lemma_tracing_total(b: Seq<u8>, w: int, h: int, loops: Seq<Vec<(i32, i32)>>)
    requires
        boundary_tracing(b, w, h, loops),
        0 <= w,
        0 <= h,
    ensures
        len_before(loops, loops.len() as int) <= 4 * (w + 1) * (h + 1),
{
    let n = loops.len() as int;
    lemma_codes_before(b, w, h, loops, n, 0);
    let all = codes_before(loops, w, n, 0);
    let range = vstd::set_lib::set_int_range(0, 4 * (w + 1) * (h + 1));
    assert(all.subset_of(range)) by {
        assert forall|x: int| all.contains(x) implies range.contains(x) by {
            let (k2, i2) = choose|k2: int, i2: int|
                0 <= k2 < loops.len() && 0 <= i2 < loops[k2]@.len() && (k2 < n || (k2 == n && i2 < 0))
                    && #[trigger] edge_code(w, loop_edge(loops[k2]@, i2)) == x;
            let e = loop_edge(loops[k2]@, i2);
            assert(bedge(b, w, h, e.0, e.1, e.2));
            lemma_edge_code(b, w, h, e, e);
        }
    }
    assert(0 <= 4 * (w + 1) * (h + 1)) by (nonlinear_arith)
        requires
            0 <= w,
            0 <= h,
    ;
    vstd::set_lib::lemma_int_range(0, 4 * (w + 1) * (h + 1));
    vstd::set_lib::lemma_len_subset(all, range);
}

} // verus!
