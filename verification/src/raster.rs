use vstd::prelude::*;

verus! {

/// `|a|` for a mathematical integer.
pub open spec fn abs(a: int) -> int {
    if a < 0 { -a } else { a }
}

/// One step of a pixel line: to an 8-neighbour, never staying in place.
pub open spec fn neighbour_step(a: (i32, i32), b: (i32, i32)) -> bool {
    &&& abs(b.0 - a.0) <= 1
    &&& abs(b.1 - a.1) <= 1
    &&& a != b
}

/// Moving from `a` to `b` never goes away from `target` along either axis.
pub open spec fn toward(a: (i32, i32), b: (i32, i32), start: (i32, i32), target: (i32, i32)) -> bool {
    &&& (start.0 <= target.0 ==> a.0 <= b.0)
    &&& (start.0 >= target.0 ==> a.0 >= b.0)
    &&& (start.1 <= target.1 ==> a.1 <= b.1)
    &&& (start.1 >= target.1 ==> a.1 >= b.1)
}

/// Bresenham's rule on a line spanning `dx` pixels across and `ady`
/// pixels down or up: from the progress (u, v) along the two axes, with the
/// error term (v + 1) * dx - (u + 1) * ady, step along x when twice the
/// error is at least -ady and along y when it is at most dx.
pub open spec fn line_next(p: (int, int), dx: int, ady: int) -> (int, int) {
    let e = (p.1 + 1) * dx - (p.0 + 1) * ady;
    (if 2 * e >= -ady { p.0 + 1 } else { p.0 }, if 2 * e <= dx { p.1 + 1 } else { p.1 })
}

/// Progress along the two axes after `i` steps of Bresenham's rule.
pub open spec fn line_progress(dx: int, ady: int, i: nat) -> (int, int)
    decreases i,
{
    if i == 0 {
        (0, 0)
    } else {
        line_next(line_progress(dx, ady, (i - 1) as nat), dx, ady)
    }
}

/// The pixel reached from (x0, y0) toward (x1, y1) with progress `p`.
pub open spec fn line_point(x0: i32, y0: i32, x1: i32, y1: i32, p: (int, int)) -> (int, int) {
    (if x0 <= x1 { x0 + p.0 } else { x0 - p.0 }, if y0 <= y1 { y0 + p.1 } else { y0 - p.1 })
}

/// `q` is the pixel reached after `i` steps of the line from (x0, y0) to
/// (x1, y1).
pub open spec fn on_line(x0: i32, y0: i32, x1: i32, y1: i32, i: nat, q: (i32, i32)) -> bool {
    let p = line_point(x0, y0, x1, y1, line_progress(abs(x1 - x0), abs(y1 - y0), i));
    q.0 == p.0 && q.1 == p.1
}

/// `s` is the Bresenham line from (x0, y0) to (x1, y1): the pixels reached
/// step by step from the start up to the first time the end is reached.
pub open spec fn is_line(x0: i32, y0: i32, x1: i32, y1: i32, s: Seq<(i32, i32)>) -> bool {
    &&& s.len() >= 1
    &&& s[0] == (x0, y0)
    &&& s.last() == (x1, y1)
    &&& forall|i: int| 0 <= i < s.len() ==> on_line(x0, y0, x1, y1, i as nat, #[trigger] s[i])
    &&& forall|i: int| 0 <= i < s.len() - 1 ==> #[trigger] s[i] != (x1, y1)
}

/// One step of the line keeps the error term equal to the cross product
/// of the next diagonal point and keeps the walk from overshooting.
proof fn lemma_line_step(x: int, y: int, u: int, v: int, e: int)
    requires
        x >= 0,
        y >= 0,
        0 <= u <= x,
        0 <= v <= y,
        e == (v + 1) * x - (u + 1) * y,
        !(u == x && v == y),
        (u < x || 2 * e < -y) && (v < y || 2 * e > x),
    ensures
        ({
            let sx = 2 * e >= -y;
            let sy = 2 * e <= x;
            let u2 = if sx { u + 1 } else { u };
            let v2 = if sy { v + 1 } else { v };
            let e2 = e + (if sx { -y } else { 0 }) + (if sy { x } else { 0 });
            &&& sx || sy
            &&& 0 <= u2 <= x
            &&& 0 <= v2 <= y
            &&& e2 == (v2 + 1) * x - (u2 + 1) * y
            &&& (u2 == x && v2 == y) || ((u2 < x || 2 * e2 < -y) && (v2 < y || 2 * e2 > x))
        }),
{
    let sx = 2 * e >= -y;
    let sy = 2 * e <= x;
    let u2 = if sx { u + 1 } else { u };
    let v2 = if sy { v + 1 } else { v };
    let e2 = e + (if sx { -y } else { 0 }) + (if sy { x } else { 0 });
    assert(e2 == (v2 + 1) * x - (u2 + 1) * y) by (nonlinear_arith)
        requires
            e == (v + 1) * x - (u + 1) * y,
            u2 == u + (if sx { 1int } else { 0 }),
            v2 == v + (if sy { 1int } else { 0 }),
            e2 == e + (if sx { -y } else { 0 }) + (if sy { x } else { 0 }),
    ;
    if !(u2 == x && v2 == y) {
        if u2 == x {
            assert(v2 + 1 <= y);
            assert(2 * e2 < -y) by (nonlinear_arith)
                requires
                    e2 == (v2 + 1) * x - (u2 + 1) * y,
                    u2 == x,
                    v2 + 1 <= y,
                    x >= 0,
                    y >= 1,
            ;
        }
        if v2 == y {
            assert(u2 + 1 <= x);
            assert(2 * e2 > x) by (nonlinear_arith)
                requires
                    e2 == (v2 + 1) * x - (u2 + 1) * y,
                    v2 == y,
                    u2 + 1 <= x,
                    y >= 0,
                    x >= 1,
            ;
        }
    }
}

/// Along the longer axis (here across) every step of Bresenham's rule
/// advances by one pixel, the signed deviation from the exact line staying
/// within half a step.
proof fn lemma_progress_across(dx: int, ady: int, i: nat)
    requires
        0 <= ady <= dx,
    ensures
        line_progress(dx, ady, i).0 == i,
        -dx <= 2 * (line_progress(dx, ady, i).1 * dx - line_progress(dx, ady, i).0 * ady) <= dx,
    decreases i,
{
    if i == 0 {
        assert(line_progress(dx, ady, 0) == (0int, 0int));
        assert(-dx <= 2 * (0 * dx - 0 * ady) <= dx);
    }
    if i > 0 {
        lemma_progress_across(dx, ady, (i - 1) as nat);
        let p = line_progress(dx, ady, (i - 1) as nat);
        let u = p.0;
        let v = p.1;
        let big_e = v * dx - u * ady;
        let e = (v + 1) * dx - (u + 1) * ady;
        assert(e == big_e + dx - ady) by (nonlinear_arith)
            requires
                e == (v + 1) * dx - (u + 1) * ady,
                big_e == v * dx - u * ady,
        ;
        let q = line_progress(dx, ady, i);
        assert(q == line_next(p, dx, ady));
        assert(2 * e >= -ady);
        assert(q.0 == u + 1);
        if 2 * e <= dx {
            assert(q.1 == v + 1);
            assert((v + 1) * dx - (u + 1) * ady == big_e + dx - ady) by (nonlinear_arith)
                requires
                    big_e == v * dx - u * ady,
            ;
        } else {
            assert(q.1 == v);
            assert(v * dx - (u + 1) * ady == big_e - ady) by (nonlinear_arith)
                requires
                    big_e == v * dx - u * ady,
            ;
        }
    }
}

/// Along the longer axis (here down or up) every step of Bresenham's rule
/// advances by one pixel, the signed deviation from the exact line staying
/// within half a step.
proof fn lemma_progress_along(dx: int, ady: int, i: nat)
    requires
        0 <= dx <= ady,
    ensures
        line_progress(dx, ady, i).1 == i,
        -ady <= 2 * (line_progress(dx, ady, i).1 * dx - line_progress(dx, ady, i).0 * ady) <= ady,
    decreases i,
{
    if i == 0 {
        assert(line_progress(dx, ady, 0) == (0int, 0int));
        assert(-ady <= 2 * (0 * dx - 0 * ady) <= ady);
    }
    if i > 0 {
        lemma_progress_along(dx, ady, (i - 1) as nat);
        let p = line_progress(dx, ady, (i - 1) as nat);
        let u = p.0;
        let v = p.1;
        let big_e = v * dx - u * ady;
        let e = (v + 1) * dx - (u + 1) * ady;
        assert(e == big_e + dx - ady) by (nonlinear_arith)
            requires
                e == (v + 1) * dx - (u + 1) * ady,
                big_e == v * dx - u * ady,
        ;
        let q = line_progress(dx, ady, i);
        assert(q == line_next(p, dx, ady));
        assert(2 * e <= dx);
        assert(q.1 == v + 1);
        if 2 * e >= -ady {
            assert(q.0 == u + 1);
            assert((v + 1) * dx - (u + 1) * ady == big_e + dx - ady) by (nonlinear_arith)
                requires
                    big_e == v * dx - u * ady,
            ;
        } else {
            assert(q.0 == u);
            assert((v + 1) * dx - u * ady == big_e + dx) by (nonlinear_arith)
                requires
                    big_e == v * dx - u * ady,
            ;
        }
    }
}

/// Number of steps from (x0, y0) to (x1, y1) with 8-neighbour moves: the
/// larger of the distances across and along.
pub open spec fn steps_between(x0: i32, y0: i32, x1: i32, y1: i32) -> int {
    if abs(x1 - x0) >= abs(y1 - y0) {
        abs(x1 - x0)
    } else {
        abs(y1 - y0)
    }
}

/// A Bresenham line has one pixel per step along its longer axis, end
/// included, and no pixel twice.
pub proof fn lemma_line_length(x0: i32, y0: i32, x1: i32, y1: i32, s: Seq<(i32, i32)>)
    requires
        is_line(x0, y0, x1, y1, s),
    ensures
        s.len() == steps_between(x0, y0, x1, y1) + 1,
        forall|i: int, j: int| 0 <= i < j < s.len() ==> s[i] != s[j],
{
    let dx = abs(x1 - x0);
    let ady = abs(y1 - y0);
    let n = s.len() - 1;
    assert(on_line(x0, y0, x1, y1, n as nat, s[n]));
    if dx >= ady {
        lemma_progress_across(dx, ady, n as nat);
        assert forall|i: int, j: int| 0 <= i < j < s.len() implies s[i] != s[j] by {
            assert(on_line(x0, y0, x1, y1, i as nat, s[i]));
            assert(on_line(x0, y0, x1, y1, j as nat, s[j]));
            lemma_progress_across(dx, ady, i as nat);
            lemma_progress_across(dx, ady, j as nat);
        }
    } else {
        lemma_progress_along(dx, ady, n as nat);
        assert forall|i: int, j: int| 0 <= i < j < s.len() implies s[i] != s[j] by {
            assert(on_line(x0, y0, x1, y1, i as nat, s[i]));
            assert(on_line(x0, y0, x1, y1, j as nat, s[j]));
            lemma_progress_along(dx, ady, i as nat);
            lemma_progress_along(dx, ady, j as nat);
        }
    }
}

fn abs_diff_i128(a: i32, b: i32) -> (r: i128)
    ensures
        r == abs(b - a),
{
    let d: i128 = b as i128 - a as i128;
    if d < 0 { -d } else { d }
}

/// The pixels of the Bresenham line from (x0, y0) to (x1, y1), both
/// included: pixel `i` is the one reached after `i` steps of Bresenham's
/// rule, up to the first time the end is reached; consecutive pixels are
/// 8-neighbours moving monotonically toward the end, one pixel per step
/// along the longer axis and none twice. The error term is kept
/// in 128 bits, so no endpoints overflow.
#[verifier::rlimit(50)]
#[verifier::spinoff_prover]
pub fn line_pixels(x0: i32, y0: i32, x1: i32, y1: i32) -> (r: Vec<(i32, i32)>)
    ensures
        is_line(x0, y0, x1, y1, r@),
        r@.len() == steps_between(x0, y0, x1, y1) + 1,
        forall|i: int, j: int| 0 <= i < j < r@.len() ==> r@[i] != r@[j],
        forall|i: int|
            0 <= i < r@.len() - 1 ==> neighbour_step(#[trigger] r@[i], r@[i + 1]) && toward(
                r@[i],
                r@[i + 1],
                (x0, y0),
                (x1, y1),
            ),
{
    let dx: i128 = abs_diff_i128(x0, x1);
    let ady: i128 = abs_diff_i128(y0, y1);
    let dy: i128 = -ady;
    let sx: i32 = if x0 < x1 { 1 } else { -1 };
    let sy: i32 = if y0 < y1 { 1 } else { -1 };
    let mut err: i128 = dx + dy;
    let mut x: i32 = x0;
    let mut y: i32 = y0;
    let mut out: Vec<(i32, i32)> = Vec::new();
    let ghost mut u: int = 0;
    let ghost mut v: int = 0;
    loop
        invariant_except_break
            out@.len() >= 1 ==> neighbour_step(out@.last(), (x, y)) && toward(
                out@.last(),
                (x, y),
                (x0, y0),
                (x1, y1),
            ),
            forall|i: int| 0 <= i < out@.len() ==> #[trigger] out@[i] != (x1, y1),
            (u, v) == line_progress(dx as int, ady as int, out@.len()),
        invariant
            dx == abs(x1 - x0),
            ady == abs(y1 - y0),
            dy == -ady,
            dx <= 0x1_0000_0000,
            ady <= 0x1_0000_0000,
            sx == if x0 < x1 { 1int } else { -1int },
            sy == if y0 < y1 { 1int } else { -1int },
            0 <= u <= dx,
            0 <= v <= ady,
            x == x0 + sx * u || (dx == 0 && x == x0),
            y == y0 + sy * v || (ady == 0 && y == y0),
            x0 < x1 ==> x == x0 + u,
            x0 > x1 ==> x == x0 - u,
            x0 == x1 ==> x == x0 && u == 0,
            y0 < y1 ==> y == y0 + v,
            y0 > y1 ==> y == y0 - v,
            y0 == y1 ==> y == y0 && v == 0,
            err == (v + 1) * dx + (u + 1) * dy,
            (u == dx && v == ady) || ((u < dx || 2 * err < dy) && (v < ady || 2 * err > dx)),
            out@.len() >= 1 ==> out@[0] == (x0, y0),
            out@.len() == 0 ==> x == x0 && y == y0,
            forall|i: int| 0 <= i < out@.len() ==> on_line(x0, y0, x1, y1, i as nat, #[trigger] out@[i]),
            forall|i: int|
                0 <= i < out@.len() - 1 ==> neighbour_step(#[trigger] out@[i], out@[i + 1]) && toward(
                    out@[i],
                    out@[i + 1],
                    (x0, y0),
                    (x1, y1),
                ),
        ensures
            out@.len() >= 1,
            out@[0] == (x0, y0),
            out@.last() == (x1, y1),
            forall|i: int| 0 <= i < out@.len() ==> on_line(x0, y0, x1, y1, i as nat, #[trigger] out@[i]),
            forall|i: int| 0 <= i < out@.len() - 1 ==> #[trigger] out@[i] != (x1, y1),
            forall|i: int|
                0 <= i < out@.len() - 1 ==> neighbour_step(#[trigger] out@[i], out@[i + 1]) && toward(
                    out@[i],
                    out@[i + 1],
                    (x0, y0),
                    (x1, y1),
                ),
        decreases (dx - u) + (ady - v),
    {
        let ghost before = out@;
        out.push((x, y));
        proof {
            assert(on_line(x0, y0, x1, y1, before.len(), (x, y)));
            assert forall|i: int| 0 <= i < out@.len() implies on_line(x0, y0, x1, y1, i as nat, #[trigger] out@[i]) by {
                if i < before.len() {
                    assert(out@[i] == before[i]);
                }
            }
            assert forall|i: int| 0 <= i < out@.len() - 1 implies neighbour_step(#[trigger] out@[i], out@[i + 1])
                && toward(out@[i], out@[i + 1], (x0, y0), (x1, y1)) by {
                if i < out@.len() - 2 {
                    assert(out@[i] == before[i]);
                    assert(out@[i + 1] == before[i + 1]);
                } else {
                    assert(out@[i] == before.last());
                }
            }
        }
        if x == x1 && y == y1 {
            break;
        }
        let ghost px = x;
        let ghost py = y;
        proof {
            assert(0 <= (v + 1) * dx <= (ady + 1) * dx) by (nonlinear_arith)
                requires
                    0 <= v <= ady,
                    dx >= 0,
            ;
            assert((ady + 1) * dx <= 0x1_0000_0001 * 0x1_0000_0000) by (nonlinear_arith)
                requires
                    ady <= 0x1_0000_0000,
                    0 <= dx <= 0x1_0000_0000,
            ;
            assert(0 <= (u + 1) * ady <= (dx + 1) * ady) by (nonlinear_arith)
                requires
                    0 <= u <= dx,
                    ady >= 0,
            ;
            assert((dx + 1) * ady <= 0x1_0000_0001 * 0x1_0000_0000) by (nonlinear_arith)
                requires
                    dx <= 0x1_0000_0000,
                    0 <= ady <= 0x1_0000_0000,
            ;
            assert((u + 1) * dy == -((u + 1) * ady)) by (nonlinear_arith)
                requires
                    dy == -ady,
            ;
            assert(-0x1_0000_0000_0000_0000_0000 <= err <= 0x1_0000_0000_0000_0000_0000);
            lemma_line_step(dx as int, ady as int, u, v, err as int);
        }
        let e2: i128 = 2 * err;
        let ghost pu = u;
        let ghost pv = v;
        let ghost perr = err as int;
        let step_x = e2 >= dy;
        let step_y = e2 <= dx;
        if step_x {
            err = err + dy;
            x = x + sx;
            proof {
                u = u + 1;
            }
        }
        if step_y {
            err = err + dx;
            y = y + sy;
            proof {
                v = v + 1;
            }
        }
        proof {
            assert(u <= dx && v <= ady);
            assert(err == (v + 1) * dx + (u + 1) * dy) by (nonlinear_arith)
                requires
                    err == (v + 1) * dx - (u + 1) * ady,
                    dy == -ady,
            ;
            if x0 < x1 {
                assert(x == x0 + u);
            }
            assert(neighbour_step((px, py), (x, y)));
            assert((u, v) == line_next((pu, pv), dx as int, ady as int));
            assert((u, v) == line_progress(dx as int, ady as int, out@.len()));
            assert forall|i: int| 0 <= i < out@.len() implies #[trigger] out@[i] != (x1, y1) by {
                if i < before.len() {
                    assert(out@[i] == before[i]);
                }
            }
        }
    }
    proof {
        lemma_line_length(x0, y0, x1, y1, out@);
    }
    out
}

/// Pixels a pixel-perfect stroke dabs when the pointer moves onto pixel
/// (x1, y1): the pixel alone for the first sample, the line from the last
/// pixel otherwise, each pixel an 8-neighbour of the one before, moving
/// toward (x1, y1), one per step along the longer axis and none twice; `None` when the pointer stays on the last pixel, in
/// which case nothing is dabbed and the stroke keeps its last position.
pub fn pixel_perfect_dabs(last: Option<(i32, i32)>, x1: i32, y1: i32) -> (r: Option<Vec<(i32, i32)>>)
    ensures
        last is None ==> (r matches Some(v) && v@ == seq![(x1, y1)]),
        last matches Some(p) ==> (r is None <==> p == (x1, y1)),
        last matches Some(p) ==> (r matches Some(v) ==> is_line(p.0, p.1, x1, y1, v@)),
        last matches Some(p) ==> (r matches Some(v) ==> forall|i: int|
            0 <= i < v@.len() - 1 ==> neighbour_step(#[trigger] v@[i], v@[i + 1]) && toward(
                v@[i],
                v@[i + 1],
                p,
                (x1, y1),
            )),
        last matches Some(p) ==> (r matches Some(v) ==> v@.len() == steps_between(p.0, p.1, x1, y1) + 1
            && forall|i: int, j: int| 0 <= i < j < v@.len() ==> v@[i] != v@[j]),
{
    match last {
        None => {
            let mut v: Vec<(i32, i32)> = Vec::new();
            v.push((x1, y1));
            Some(v)
        },
        Some(p) => {
            if p.0 == x1 && p.1 == y1 {
                None
            } else {
                Some(line_pixels(p.0, p.1, x1, y1))
            }
        },
    }
}

} // verus!
