//! Geometry kernel: segment-segment intersection, squared distances, integer
//! square roots and mirror reflection, all over fixed-point coordinates.
use vstd::prelude::*;

verus! {

use crate::{POINT_BOUND, RAY_LEN, TRAP_EPS};

/// A 2-D fixed-point coordinate.
#[derive(Clone, Copy, Debug, PartialEq, Eq, Structural)]
pub struct Point {
    pub x: i64,
    pub y: i64,
}

/// An ordered pair of points; walls and rays are both segments, and a ray
/// runs from `start` towards `end`.
#[derive(Clone, Copy, Debug, PartialEq, Eq, Structural)]
pub struct Segment {
    pub start: Point,
    pub end: Point,
}

/// `v` lies within `[-b, b]`.
pub open spec fn coord_in(v: int, b: int) -> bool {
    -b <= v <= b
}

/// Both coordinates of `p` lie within `[-b, b]`.
pub open spec fn point_in(p: Point, b: int) -> bool {
    coord_in(p.x as int, b) && coord_in(p.y as int, b)
}

/// All four coordinates of `s` lie within `[-b, b]`.
pub open spec fn seg_in(s: Segment, b: int) -> bool {
    point_in(s.start, b) && point_in(s.end, b)
}

impl Point {
    /// Coordinates small enough for the intersection and reflection
    /// primitives.
    pub open spec fn in_bounds(self) -> bool {
        point_in(self, POINT_BOUND as int)
    }
}

impl Segment {
    /// Both endpoints within the primitives' coordinate bound.
    pub open spec fn in_bounds(self) -> bool {
        self.start.in_bounds() && self.end.in_bounds()
    }
}

/// Product of two values bounded in absolute value is bounded by the
/// product of the bounds.
pub proof fn lemma_abs_mul_bound(x: int, y: int, bx: int, by: int)
    by (nonlinear_arith)
    requires
        -bx <= x <= bx,
        -by <= y <= by,
        0 <= bx,
        0 <= by,
    ensures
        -(bx * by) <= x * y <= bx * by,
{
}

/// Floor division (the mathematical `/` of specifications) of an `i128` by a
/// positive divisor, computed through unsigned division.
pub fn div_floor_i128(n: i128, d: i128) -> (q: i128)
    requires
        0 < d,
        -0x4000_0000_0000_0000_0000_0000_0000_0000 < n,
    ensures
        q == n as int / d as int,
{
    if n >= 0 {
        let qq: u128 = (n as u128) / (d as u128);
        proof {
            assert(qq == n as int / d as int);
            assert(qq <= n) by {
                vstd::arithmetic::div_mod::lemma_div_nonincreasing(n as int, d as int);
                vstd::arithmetic::div_mod::lemma_div_pos_is_pos(n as int, d as int);
            }
        }
        qq as i128
    } else {
        let m: u128 = (-n) as u128;
        let du: u128 = d as u128;
        let qc: u128 = (m + du - 1) / du;
        proof {
            lemma_neg_div_ceil(n as int, d as int);
            assert(qc <= m) by {
                let mi = m as int;
                let di = d as int;
                assert(mi + di - 1 <= mi * di + (di - 1)) by (nonlinear_arith)
                    requires 1 <= mi, 1 <= di,
                ;
                vstd::arithmetic::div_mod::lemma_div_is_ordered(
                    mi + di - 1, mi * di + (di - 1), di);
                vstd::arithmetic::div_mod::lemma_fundamental_div_mod_converse_div(
                    mi * di + (di - 1), di, mi, di - 1);
            }
        }
        -(qc as i128)
    }
}

/// For a negative numerator and positive divisor, the floor quotient is the
/// negated ceiling quotient of the magnitudes.
proof fn lemma_neg_div_ceil(n: int, d: int)
    requires
        n < 0,
        0 < d,
    ensures
        n / d == -(((-n) + d - 1) / d),
{
    let m = -n;
    let q = n / d;
    let r = n % d;
    vstd::arithmetic::div_mod::lemma_fundamental_div_mod(n, d);
    vstd::arithmetic::div_mod::lemma_mod_division_less_than_divisor(n, d);
    // n == q * d + r with 0 <= r < d, hence m + d - 1 == (-q) * d + (d - 1 - r)
    // with 0 <= d - 1 - r < d, so (m + d - 1) / d == -q.
    assert((m + d - 1) == (-q) * d + (d - 1 - r)) by (nonlinear_arith)
        requires n == d * q + r, m == -n,
    ;
    vstd::arithmetic::div_mod::lemma_fundamental_div_mod_converse(m + d - 1, d, -q, d - 1 - r);
}

/// Squared Euclidean distance between two points.
pub open spec fn dist2(p: Point, q: Point) -> int {
    (q.x - p.x) * (q.x - p.x) + (q.y - p.y) * (q.y - p.y)
}

/// Squared distance, for points within the nearest-hit coordinate bound.
pub fn dist2_exec(p: &Point, q: &Point) -> (r: u64)
    requires
        point_in(*p, crate::GEOM_BOUND as int),
        point_in(*q, crate::GEOM_BOUND as int),
    ensures
        r == dist2(*p, *q),
{
    let dx: i128 = q.x as i128 - p.x as i128;
    let dy: i128 = q.y as i128 - p.y as i128;
    proof {
        let b = 2 * crate::GEOM_BOUND as int;
        lemma_abs_mul_bound(dx as int, dx as int, b, b);
        lemma_abs_mul_bound(dy as int, dy as int, b, b);
        assert(dx * dx >= 0) by (nonlinear_arith);
        assert(dy * dy >= 0) by (nonlinear_arith);
    }
    let d2: i128 = dx * dx + dy * dy;
    d2 as u64
}

/// Direction of `s` along x.
pub open spec fn seg_dx(s: Segment) -> int {
    s.end.x - s.start.x
}

/// Direction of `s` along y.
pub open spec fn seg_dy(s: Segment) -> int {
    s.end.y - s.start.y
}

/// Cross product of the two segments' directions: the denominator of the
/// parametric line-crossing solution; zero exactly for parallel or
/// degenerate segments.
pub open spec fn seg_den(a: Segment, b: Segment) -> int {
    seg_dx(a) * seg_dy(b) - seg_dy(a) * seg_dx(b)
}

/// Numerator of the crossing parameter along `a`.
pub open spec fn seg_tn(a: Segment, b: Segment) -> int {
    (b.start.x - a.start.x) * seg_dy(b) - (b.start.y - a.start.y) * seg_dx(b)
}

/// Numerator of the crossing parameter along `b`.
pub open spec fn seg_un(a: Segment, b: Segment) -> int {
    (b.start.x - a.start.x) * seg_dy(a) - (b.start.y - a.start.y) * seg_dx(a)
}

/// The fraction `n / d` lies in `[0, 1]`.
pub open spec fn frac_in_unit(n: int, d: int) -> bool {
    if d > 0 {
        0 <= n <= d
    } else {
        d <= n <= 0
    }
}

/// The two segments cross in a single point: their carrier lines are not
/// parallel, and the crossing parameters lie within both segments' extents
/// (endpoint touches included).
pub open spec fn segments_cross(a: Segment, b: Segment) -> bool {
    &&& seg_den(a, b) != 0
    &&& frac_in_unit(seg_tn(a, b), seg_den(a, b))
    &&& frac_in_unit(seg_un(a, b), seg_den(a, b))
}

/// x coordinate of the crossing point: the start of `a` advanced by the
/// crossing parameter `seg_tn / seg_den`, rounded down.
pub open spec fn hit_x(a: Segment, b: Segment) -> int {
    let den = seg_den(a, b);
    let d = if den > 0 { den } else { -den };
    let t = if den > 0 { seg_tn(a, b) } else { -seg_tn(a, b) };
    a.start.x + (t * seg_dx(a)) / d
}

/// y coordinate of the crossing point.
pub open spec fn hit_y(a: Segment, b: Segment) -> int {
    let den = seg_den(a, b);
    let d = if den > 0 { den } else { -den };
    let t = if den > 0 { seg_tn(a, b) } else { -seg_tn(a, b) };
    a.start.y + (t * seg_dy(a)) / d
}

/// `v` lies between `lo` and `hi`, whichever order those are in.
pub open spec fn between(v: int, lo: int, hi: int) -> bool {
    (lo <= v <= hi) || (hi <= v <= lo)
}

/// `p` lies in the axis-aligned bounding box of `s`.
pub open spec fn in_seg_box(p: Point, s: Segment) -> bool {
    between(p.x as int, s.start.x as int, s.end.x as int)
        && between(p.y as int, s.start.y as int, s.end.y as int)
}

/// A parameter in `[0, 1]` (scaled by `d`) advances a coordinate by at most
/// the segment's own extent in that axis.
proof fn lemma_scaled_div_in_box(t: int, d: int, dx: int)
    requires
        0 <= t <= d,
        0 < d,
    ensures
        dx >= 0 ==> 0 <= (t * dx) / d <= dx,
        dx < 0 ==> dx <= (t * dx) / d <= 0,
{
    if dx >= 0 {
        assert(0 <= t * dx <= d * dx) by (nonlinear_arith)
            requires 0 <= t <= d, 0 <= dx,
        ;
        vstd::arithmetic::div_mod::lemma_div_pos_is_pos(t * dx, d);
        vstd::arithmetic::div_mod::lemma_div_is_ordered(t * dx, d * dx, d);
        vstd::arithmetic::div_mod::lemma_div_multiples_vanish(dx, d);
    } else {
        assert(d * dx <= t * dx <= 0) by (nonlinear_arith)
            requires 0 <= t <= d, dx < 0,
        ;
        vstd::arithmetic::div_mod::lemma_div_is_ordered(d * dx, t * dx, d);
        vstd::arithmetic::div_mod::lemma_div_is_ordered(t * dx, 0, d);
        vstd::arithmetic::div_mod::lemma_div_multiples_vanish(dx, d);
        vstd::arithmetic::div_mod::lemma_div_of0(d);
    }
}

/// Single crossing point of two segments, if they cross.
///
/// Returns the point where `a` and `b` cross as proper line intersections
/// within both extents; `None` for parallel, coincident or non-overlapping
/// segments. The returned point is the exact rational crossing rounded
/// down per axis, and always lies in `a`'s bounding box.
pub fn intersect(a: &Segment, b: &Segment) -> (r: Option<Point>)
    requires
        a.in_bounds(),
        b.in_bounds(),
    ensures
        r is Some <==> segments_cross(*a, *b),
        (r matches Some(p) ==> p.x == hit_x(*a, *b) && p.y == hit_y(*a, *b)),
        (r matches Some(p) ==> in_seg_box(p, *a)),
{
    let asx = a.start.x as i128;
    let asy = a.start.y as i128;
    let d1x = a.end.x as i128 - asx;
    let d1y = a.end.y as i128 - asy;
    let bsx = b.start.x as i128;
    let bsy = b.start.y as i128;
    let d2x = b.end.x as i128 - bsx;
    let d2y = b.end.y as i128 - bsy;
    proof {
        let db = 2 * POINT_BOUND as int;
        lemma_abs_mul_bound(d1x as int, d2y as int, db, db);
        lemma_abs_mul_bound(d1y as int, d2x as int, db, db);
        lemma_abs_mul_bound(bsx - asx, d2y as int, db, db);
        lemma_abs_mul_bound(bsy - asy, d2x as int, db, db);
        lemma_abs_mul_bound(bsx - asx, d1y as int, db, db);
        lemma_abs_mul_bound(bsy - asy, d1x as int, db, db);
    }
    let den = d1x * d2y - d1y * d2x;
    if den == 0 {
        return None;
    }
    let tn = (bsx - asx) * d2y - (bsy - asy) * d2x;
    let un = (bsx - asx) * d1y - (bsy - asy) * d1x;
    if den > 0 {
        if tn < 0 || tn > den || un < 0 || un > den {
            return None;
        }
    } else {
        if tn > 0 || tn < den || un > 0 || un < den {
            return None;
        }
    }
    let dd = if den > 0 { den } else { -den };
    let tt = if den > 0 { tn } else { -tn };
    proof {
        let bb = 8 * POINT_BOUND as int * POINT_BOUND as int;
        let db = 2 * POINT_BOUND as int;
        lemma_abs_mul_bound(tt as int, d1x as int, bb, db);
        lemma_abs_mul_bound(tt as int, d1y as int, bb, db);
        lemma_scaled_div_in_box(tt as int, dd as int, d1x as int);
        lemma_scaled_div_in_box(tt as int, dd as int, d1y as int);
    }
    let qx = div_floor_i128(tt * d1x, dd);
    let qy = div_floor_i128(tt * d1y, dd);
    let px = (asx + qx) as i64;
    let py = (asy + qy) as i64;
    Some(Point { x: px, y: py })
}

/// Absolute value.
pub open spec fn abs_i(v: int) -> int {
    if v >= 0 {
        v
    } else {
        -v
    }
}

/// The smaller of two values.
pub open spec fn imin(x: int, y: int) -> int {
    if x <= y {
        x
    } else {
        y
    }
}

/// The larger of two values.
pub open spec fn imax(x: int, y: int) -> int {
    if x >= y {
        x
    } else {
        y
    }
}

/// A quotient with numerator bounded by `d * b` is bounded by `b`.
proof fn lemma_div_bounded_by(n: int, d: int, b: int)
    requires
        0 < d,
        0 <= b,
        -(d * b) <= n <= d * b,
    ensures
        -b <= n / d <= b,
{
    vstd::arithmetic::div_mod::lemma_div_is_ordered(-(d * b), n, d);
    vstd::arithmetic::div_mod::lemma_div_is_ordered(n, d * b, d);
    vstd::arithmetic::div_mod::lemma_div_multiples_vanish(b, d);
    vstd::arithmetic::div_mod::lemma_div_multiples_vanish(-b, d);
    assert(d * (-b) == -(d * b)) by (nonlinear_arith);
}

/// x component of the unnormalised reflected direction: the incoming
/// vector `ball - hit` mirrored about the wall vector `wall.start - hit`,
/// scaled by that wall vector's squared magnitude.
pub open spec fn refl_dir_x(ball: Point, wall: Segment, hit: Point) -> int {
    let ux = wall.start.x - hit.x;
    let uy = wall.start.y - hit.y;
    let dx = ball.x - hit.x;
    let dy = ball.y - hit.y;
    let m = ux * ux + uy * uy;
    let dt = dx * ux + dy * uy;
    dx * m - 2 * dt * ux
}

/// y component of the unnormalised reflected direction.
pub open spec fn refl_dir_y(ball: Point, wall: Segment, hit: Point) -> int {
    let ux = wall.start.x - hit.x;
    let uy = wall.start.y - hit.y;
    let dx = ball.x - hit.x;
    let dy = ball.y - hit.y;
    let m = ux * ux + uy * uy;
    let dt = dx * ux + dy * uy;
    dy * m - 2 * dt * uy
}

/// The ray a reflection yields: from `hit` advanced `TRAP_EPS` along the
/// reflected direction (so the new ray does not immediately meet the wall
/// it just left) out to `RAY_LEN` along that direction, where advancing by
/// `w` means adding `dir * w / max(|dir_x|, |dir_y|)` rounded down.
/// `None` when the reflected direction vanishes, which happens exactly when
/// the wall vector or the incoming vector is degenerate.
pub open spec fn reflect_spec(ball: Point, wall: Segment, hit: Point) -> Option<Segment> {
    let rx = refl_dir_x(ball, wall, hit);
    let ry = refl_dir_y(ball, wall, hit);
    if rx == 0 && ry == 0 {
        None
    } else {
        let mm = imax(abs_i(rx), abs_i(ry));
        Some(Segment {
            start: Point {
                x: (hit.x + (rx * TRAP_EPS) / mm) as i64,
                y: (hit.y + (ry * TRAP_EPS) / mm) as i64,
            },
            end: Point {
                x: (hit.x + (rx * RAY_LEN) / mm) as i64,
                y: (hit.y + (ry * RAY_LEN) / mm) as i64,
            },
        })
    }
}

/// Mirror reflection of the incoming direction about the wall at `hit`.
///
/// Returns the new ray, offset `TRAP_EPS` from `hit` and `RAY_LEN` long;
/// `None` when the wall or the incoming vector is degenerate, which the
/// caller treats as the trajectory being trapped at `hit`.
pub fn reflect(ball: &Point, wall: &Segment, hit: &Point) -> (r: Option<Segment>)
    requires
        point_in(*ball, POINT_BOUND as int),
        seg_in(*wall, POINT_BOUND as int),
        point_in(*hit, POINT_BOUND as int),
    ensures
        r == reflect_spec(*ball, *wall, *hit),
        (r matches Some(s) ==> {
            &&& coord_in(s.start.x - hit.x, TRAP_EPS as int)
            &&& coord_in(s.start.y - hit.y, TRAP_EPS as int)
            &&& coord_in(s.end.x - hit.x, RAY_LEN as int)
            &&& coord_in(s.end.y - hit.y, RAY_LEN as int)
        }),
{
    let ux = wall.start.x as i128 - hit.x as i128;
    let uy = wall.start.y as i128 - hit.y as i128;
    let dx = ball.x as i128 - hit.x as i128;
    let dy = ball.y as i128 - hit.y as i128;
    proof {
        let db = 2 * POINT_BOUND as int;
        lemma_abs_mul_bound(ux as int, ux as int, db, db);
        lemma_abs_mul_bound(uy as int, uy as int, db, db);
        lemma_abs_mul_bound(dx as int, ux as int, db, db);
        lemma_abs_mul_bound(dy as int, uy as int, db, db);
    }
    let m = ux * ux + uy * uy;
    let dt = dx * ux + dy * uy;
    proof {
        let db = 2 * POINT_BOUND as int;
        let qb = 2 * db * db;
        lemma_abs_mul_bound(dx as int, m as int, db, qb);
        lemma_abs_mul_bound(dy as int, m as int, db, qb);
        lemma_abs_mul_bound(2 * dt, ux as int, 2 * qb, db);
        lemma_abs_mul_bound(2 * dt, uy as int, 2 * qb, db);
    }
    let rx = dx * m - 2 * dt * ux;
    let ry = dy * m - 2 * dt * uy;
    if rx == 0 && ry == 0 {
        return None;
    }
    let ax = if rx >= 0 { rx } else { -rx };
    let ay = if ry >= 0 { ry } else { -ry };
    let mm = if ax >= ay { ax } else { ay };
    proof {
        let rb = 6 * 8 * POINT_BOUND as int * POINT_BOUND as int * POINT_BOUND as int;
        lemma_abs_mul_bound(rx as int, TRAP_EPS as int, rb, TRAP_EPS as int);
        lemma_abs_mul_bound(ry as int, TRAP_EPS as int, rb, TRAP_EPS as int);
        lemma_abs_mul_bound(rx as int, RAY_LEN as int, rb, RAY_LEN as int);
        lemma_abs_mul_bound(ry as int, RAY_LEN as int, rb, RAY_LEN as int);
        lemma_abs_mul_bound(rx as int, TRAP_EPS as int, mm as int, TRAP_EPS as int);
        lemma_abs_mul_bound(ry as int, TRAP_EPS as int, mm as int, TRAP_EPS as int);
        lemma_abs_mul_bound(rx as int, RAY_LEN as int, mm as int, RAY_LEN as int);
        lemma_abs_mul_bound(ry as int, RAY_LEN as int, mm as int, RAY_LEN as int);
        lemma_div_bounded_by(rx as int * TRAP_EPS as int, mm as int, TRAP_EPS as int);
        lemma_div_bounded_by(ry as int * TRAP_EPS as int, mm as int, TRAP_EPS as int);
        lemma_div_bounded_by(rx as int * RAY_LEN as int, mm as int, RAY_LEN as int);
        lemma_div_bounded_by(ry as int * RAY_LEN as int, mm as int, RAY_LEN as int);
    }
    let sx = hit.x as i128 + div_floor_i128(rx * TRAP_EPS as i128, mm);
    let sy = hit.y as i128 + div_floor_i128(ry * TRAP_EPS as i128, mm);
    let ex = hit.x as i128 + div_floor_i128(rx * RAY_LEN as i128, mm);
    let ey = hit.y as i128 + div_floor_i128(ry * RAY_LEN as i128, mm);
    Some(Segment {
        start: Point { x: sx as i64, y: sy as i64 },
        end: Point { x: ex as i64, y: ey as i64 },
    })
}

/// Dot product of two vectors.
pub open spec fn dot2(ax: int, ay: int, bx: int, by: int) -> int {
    ax * bx + ay * by
}

/// Reflection preserves the angle of incidence: writing `u` for the wall
/// vector, `d` for the incoming vector and `r` for the unnormalised
/// reflected direction, `r`'s projection onto `u` is the opposite of `d`'s
/// (scaled by `|u|^2`), `r`'s squared magnitude is `|d|^2 |u|^4`, and hence
/// the squared cosines of the two angles against the wall agree exactly.
/// The two algebraic identities behind reflection, over plain scalars:
/// the reflected direction's projection onto the wall vector is the
/// opposite of the incoming one's (scaled by the wall's squared magnitude),
/// and its squared magnitude is the incoming one's times that squared
/// magnitude squared.
proof fn lemma_reflect_algebra(ux: int, uy: int, dx: int, dy: int, m: int, dt: int,
    rx: int, ry: int)
    requires
        m == ux * ux + uy * uy,
        dt == dx * ux + dy * uy,
        rx == dx * m - 2 * dt * ux,
        ry == dy * m - 2 * dt * uy,
    ensures
        rx * ux + ry * uy == -dt * m,
        rx * rx + ry * ry == (dx * dx + dy * dy) * m * m,
{
    let g = 2 * dt;
    let ax = dx * m;
    let ay = dy * m;
    let bx = g * ux;
    let by = g * uy;
    assert(rx == ax - bx && ry == ay - by) by (nonlinear_arith)
        requires rx == dx * m - 2 * dt * ux, ry == dy * m - 2 * dt * uy,
            g == 2 * dt, ax == dx * m, ay == dy * m, bx == g * ux, by == g * uy,
    ;
    // The projection onto the wall vector flips sign.
    assert(rx * ux == ax * ux - bx * ux) by (nonlinear_arith)
        requires rx == ax - bx,
    ;
    assert(ry * uy == ay * uy - by * uy) by (nonlinear_arith)
        requires ry == ay - by,
    ;
    assert(ax * ux == m * (dx * ux) && ay * uy == m * (dy * uy)) by (nonlinear_arith)
        requires ax == dx * m, ay == dy * m,
    ;
    assert(bx * ux == g * (ux * ux) && by * uy == g * (uy * uy)) by (nonlinear_arith)
        requires bx == g * ux, by == g * uy,
    ;
    assert(m * (dx * ux) + m * (dy * uy) == m * dt) by (nonlinear_arith)
        requires dt == dx * ux + dy * uy,
    ;
    assert(g * (ux * ux) + g * (uy * uy) == g * m) by (nonlinear_arith)
        requires m == ux * ux + uy * uy,
    ;
    assert(m * dt - g * m == -dt * m) by (nonlinear_arith)
        requires g == 2 * dt,
    ;
    // The squared magnitude is preserved up to the factor m * m.
    assert(rx * rx == ax * ax - 2 * (ax * bx) + bx * bx) by (nonlinear_arith)
        requires rx == ax - bx,
    ;
    assert(ry * ry == ay * ay - 2 * (ay * by) + by * by) by (nonlinear_arith)
        requires ry == ay - by,
    ;
    assert(ax * ax == (dx * dx) * (m * m) && ay * ay == (dy * dy) * (m * m))
        by (nonlinear_arith)
        requires ax == dx * m, ay == dy * m,
    ;
    assert((dx * dx) * (m * m) + (dy * dy) * (m * m) == (dx * dx + dy * dy) * (m * m))
        by (nonlinear_arith)
    ;
    assert(ax * bx == (g * m) * (dx * ux) && ay * by == (g * m) * (dy * uy))
        by (nonlinear_arith)
        requires ax == dx * m, ay == dy * m, bx == g * ux, by == g * uy,
    ;
    assert((g * m) * (dx * ux) + (g * m) * (dy * uy) == (g * m) * dt) by (nonlinear_arith)
        requires dt == dx * ux + dy * uy,
    ;
    assert(bx * bx == (g * g) * (ux * ux) && by * by == (g * g) * (uy * uy))
        by (nonlinear_arith)
        requires bx == g * ux, by == g * uy,
    ;
    assert((g * g) * (ux * ux) + (g * g) * (uy * uy) == (g * g) * m) by (nonlinear_arith)
        requires m == ux * ux + uy * uy,
    ;
    assert((g * g) * m == 2 * ((g * m) * dt)) by (nonlinear_arith)
        requires g == 2 * dt,
    ;
    assert((dx * dx + dy * dy) * (m * m) == (dx * dx + dy * dy) * m * m)
        by (nonlinear_arith)
    ;
}

pub proof fn lemma_reflection_preserves_angle(ball: Point, wall: Segment, hit: Point)
    ensures
        ({
            let ux = wall.start.x - hit.x;
            let uy = wall.start.y - hit.y;
            let dx = ball.x - hit.x;
            let dy = ball.y - hit.y;
            let rx = refl_dir_x(ball, wall, hit);
            let ry = refl_dir_y(ball, wall, hit);
            let m = ux * ux + uy * uy;
            &&& dot2(rx, ry, ux, uy) == -dot2(dx, dy, ux, uy) * m
            &&& rx * rx + ry * ry == (dx * dx + dy * dy) * m * m
            &&& dot2(rx, ry, ux, uy) * dot2(rx, ry, ux, uy) * (dx * dx + dy * dy)
                == dot2(dx, dy, ux, uy) * dot2(dx, dy, ux, uy) * (rx * rx + ry * ry)
        }),
{
    let ux = wall.start.x - hit.x;
    let uy = wall.start.y - hit.y;
    let dx = ball.x - hit.x;
    let dy = ball.y - hit.y;
    let rx = refl_dir_x(ball, wall, hit);
    let ry = refl_dir_y(ball, wall, hit);
    let m = ux * ux + uy * uy;
    let dt = dx * ux + dy * uy;
    lemma_reflect_algebra(ux, uy, dx, dy, m, dt, rx, ry);
    let p = dot2(rx, ry, ux, uy);
    let q = dot2(dx, dy, ux, uy);
    let dd = dx * dx + dy * dy;
    let rr = rx * rx + ry * ry;
    assert(p * p * dd == q * q * rr) by (nonlinear_arith)
        requires
            p == -q * m,
            rr == dd * m * m,
    ;
}

/// Whether two segments cross does not depend on the order of the
/// arguments (the crossing points each computes may differ by the
/// per-axis rounding).
pub proof fn lemma_intersect_symmetry(a: Segment, b: Segment)
    ensures
        segments_cross(a, b) <==> segments_cross(b, a),
{
    assert(seg_den(b, a) == -seg_den(a, b)) by (nonlinear_arith)
        requires
            seg_den(a, b) == seg_dx(a) * seg_dy(b) - seg_dy(a) * seg_dx(b),
            seg_den(b, a) == seg_dx(b) * seg_dy(a) - seg_dy(b) * seg_dx(a),
    ;
    assert(seg_tn(b, a) == -seg_un(a, b)) by (nonlinear_arith)
        requires
            seg_tn(b, a) == (a.start.x - b.start.x) * seg_dy(a)
                - (a.start.y - b.start.y) * seg_dx(a),
            seg_un(a, b) == (b.start.x - a.start.x) * seg_dy(a)
                - (b.start.y - a.start.y) * seg_dx(a),
    ;
    assert(seg_un(b, a) == -seg_tn(a, b)) by (nonlinear_arith)
        requires
            seg_un(b, a) == (a.start.x - b.start.x) * seg_dy(b)
                - (a.start.y - b.start.y) * seg_dx(b),
            seg_tn(a, b) == (b.start.x - a.start.x) * seg_dy(b)
                - (b.start.y - a.start.y) * seg_dx(b),
    ;
}

/// The bounding boxes of `a` and `b` share at least one point in each
/// axis's projection.
pub open spec fn boxes_overlap(a: Segment, b: Segment) -> bool {
    &&& imin(a.start.x as int, a.end.x as int) <= imax(b.start.x as int, b.end.x as int)
    &&& imin(b.start.x as int, b.end.x as int) <= imax(a.start.x as int, a.end.x as int)
    &&& imin(a.start.y as int, a.end.y as int) <= imax(b.start.y as int, b.end.y as int)
    &&& imin(b.start.y as int, b.end.y as int) <= imax(a.start.y as int, a.end.y as int)
}

/// A crossing parameter in `[0, 1]`, scaled by `d`, keeps the scaled
/// coordinate between the scaled endpoints.
proof fn lemma_scaled_between(t: int, d: int, s: int, e: int)
    by (nonlinear_arith)
    requires
        0 <= t <= d,
        0 < d,
    ensures
        d * imin(s, e) <= d * s + t * (e - s) <= d * imax(s, e),
{
}

/// Cramer's rule for the crossing of two lines, written over plain
/// variables: the crossing parameter along the first line advances its
/// start to the same point that the parameter along the second line
/// advances the second start to (everything scaled by the denominator).
#[verifier::rlimit(100)]
proof fn lemma_cramer_point(e: int, f: int, adx: int, ady: int, bdx: int, bdy: int)
    by (nonlinear_arith)
    ensures
        (e * bdy - f * bdx) * adx == (adx * bdy - ady * bdx) * e + (e * ady - f * adx) * bdx,
        (e * bdy - f * bdx) * ady == (adx * bdy - ady * bdx) * f + (e * ady - f * adx) * bdy,
{
}

/// Segments whose bounding boxes do not overlap never cross: the crossing
/// point would lie in both boxes.
pub proof fn lemma_separated_boxes_never_cross(a: Segment, b: Segment)
    requires
        !boxes_overlap(a, b),
    ensures
        !segments_cross(a, b),
{
    if segments_cross(a, b) {
        let asx = a.start.x as int;
        let asy = a.start.y as int;
        let aex = a.end.x as int;
        let aey = a.end.y as int;
        let bsx = b.start.x as int;
        let bsy = b.start.y as int;
        let bex = b.end.x as int;
        let bey = b.end.y as int;
        let adx = seg_dx(a);
        let ady = seg_dy(a);
        let bdx = seg_dx(b);
        let bdy = seg_dy(b);
        let e = bsx - asx;
        let f = bsy - asy;
        let den = seg_den(a, b);
        let tn = seg_tn(a, b);
        let un = seg_un(a, b);
        lemma_cramer_point(e, f, adx, ady, bdx, bdy);
        assert(tn * adx == den * e + un * bdx);
        assert(tn * ady == den * f + un * bdy);
        vstd::arithmetic::mul::lemma_mul_is_distributive_add(den, asx, e);
        vstd::arithmetic::mul::lemma_mul_is_distributive_add(den, asy, f);
        assert(den * asx + tn * adx == den * bsx + un * bdx);
        assert(den * asy + tn * ady == den * bsy + un * bdy);
        let d = if den > 0 { den } else { -den };
        let t = if den > 0 { tn } else { -tn };
        let u = if den > 0 { un } else { -un };
        assert(0 < d && 0 <= t <= d && 0 <= u <= d);
        let xx = d * asx + t * adx;
        let yy = d * asy + t * ady;
        if den > 0 {
            assert(xx == d * bsx + u * bdx && yy == d * bsy + u * bdy);
        } else {
            assert(d * asx == -(den * asx) && t * adx == -(tn * adx)
                && d * bsx == -(den * bsx) && u * bdx == -(un * bdx)
                && d * asy == -(den * asy) && t * ady == -(tn * ady)
                && d * bsy == -(den * bsy) && u * bdy == -(un * bdy)) by (nonlinear_arith)
                requires d == -den, t == -tn, u == -un,
            ;
            assert(xx == d * bsx + u * bdx && yy == d * bsy + u * bdy);
        }
        lemma_scaled_between(t, d, asx, aex);
        lemma_scaled_between(t, d, asy, aey);
        lemma_scaled_between(u, d, bsx, bex);
        lemma_scaled_between(u, d, bsy, bey);
        // The scaled point lies in both scaled boxes, so the boxes overlap.
        assert(imin(asx, aex) <= imax(bsx, bex)) by (nonlinear_arith)
            requires 0 < d, d * imin(asx, aex) <= xx, xx <= d * imax(bsx, bex),
        ;
        assert(imin(bsx, bex) <= imax(asx, aex)) by (nonlinear_arith)
            requires 0 < d, d * imin(bsx, bex) <= xx, xx <= d * imax(asx, aex),
        ;
        assert(imin(asy, aey) <= imax(bsy, bey)) by (nonlinear_arith)
            requires 0 < d, d * imin(asy, aey) <= yy, yy <= d * imax(bsy, bey),
        ;
        assert(imin(bsy, bey) <= imax(asy, aey)) by (nonlinear_arith)
            requires 0 < d, d * imin(bsy, bey) <= yy, yy <= d * imax(asy, aey),
        ;
        assert(boxes_overlap(a, b));
    }
}

/// Integer square root: the largest `r` with `r * r <= n`, defined by
/// counting up.
pub open spec fn sqrt_of(n: nat) -> nat
    decreases n,
{
    if n == 0 {
        0
    } else {
        let s = sqrt_of((n - 1) as nat);
        if (s + 1) * (s + 1) <= n {
            s + 1
        } else {
            s
        }
    }
}

/// `sqrt_of(n)` squares to at most `n`, and the next integer squares to
/// more.
pub proof fn lemma_sqrt_of_bounds(n: nat)
    ensures
        sqrt_of(n) * sqrt_of(n) <= n,
        n < (sqrt_of(n) + 1) * (sqrt_of(n) + 1),
    decreases n,
{
    if n > 0 {
        lemma_sqrt_of_bounds((n - 1) as nat);
        let s = sqrt_of((n - 1) as nat);
        if (s + 1) * (s + 1) <= n {
            assert(sqrt_of(n) == s + 1);
            assert(n < (s + 2) * (s + 2)) by (nonlinear_arith)
                requires n <= (s + 1) * (s + 1) + 1, (s + 1) * (s + 1) <= n, s >= 0,
            ;
            assert((sqrt_of(n) + 1) * (sqrt_of(n) + 1) == (s + 2) * (s + 2));
        } else {
            assert(sqrt_of(n) == s);
        }
    } else {
        assert(sqrt_of(n) == 0);
        assert(n < (sqrt_of(n) + 1) * (sqrt_of(n) + 1)) by (nonlinear_arith)
            requires n == 0, sqrt_of(n) == 0,
        ;
    }
}

/// Any integer whose square brackets `n` is `sqrt_of(n)`.
pub proof fn lemma_sqrt_unique(n: nat, r: nat)
    requires
        r * r <= n,
        n < (r + 1) * (r + 1),
    ensures
        r == sqrt_of(n),
{
    lemma_sqrt_of_bounds(n);
    let s = sqrt_of(n);
    if r < s {
        assert((r + 1) * (r + 1) <= s * s) by (nonlinear_arith)
            requires r + 1 <= s, r >= 0,
        ;
    }
    if s < r {
        assert((s + 1) * (s + 1) <= r * r) by (nonlinear_arith)
            requires s + 1 <= r, s >= 0,
        ;
    }
}

/// Integer square root by binary search.
pub fn isqrt(n: u128) -> (r: u64)
    ensures
        r == sqrt_of(n as nat),
{
    let mut lo: u128 = 0;
    let mut hi: u128 = 0x1_0000_0000_0000_0000;
    proof {
        assert((n as int) < hi * hi) by (nonlinear_arith)
            requires n <= u128::MAX, hi == 0x1_0000_0000_0000_0000int,
        ;
    }
    while hi - lo > 1
        invariant
            lo < hi <= 0x1_0000_0000_0000_0000,
            lo * lo <= n,
            (n as int) < hi * hi,
        decreases hi - lo,
    {
        let mid = lo + (hi - lo) / 2;
        proof {
            lemma_abs_mul_bound(mid as int, mid as int,
                0xffff_ffff_ffff_ffff, 0xffff_ffff_ffff_ffff);
        }
        if mid * mid <= n {
            lo = mid;
        } else {
            hi = mid;
        }
    }
    proof {
        lemma_sqrt_unique(n as nat, lo as nat);
    }
    lo as u64
}

} // verus!
