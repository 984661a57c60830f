//! Random launch states: every trajectory starts at a uniformly drawn point
//! of the unit square and flies in a random direction. The generator itself
//! comes from the `rand` crate, behind trusted declarations.
use vstd::prelude::*;
use rand::RngExt;

verus! {

use crate::geometry::{Point, Segment, coord_in, lemma_abs_mul_bound, point_in, div_floor_i128};
use crate::{ARENA_BOUND, RAY_LEN, SCALE};

#[verifier::external_type_specification]
#[verifier::external_body]
pub struct ExThreadRng(rand::rngs::ThreadRng);

/// Relies on rand's `rng()`: a handle to the thread-local generator.
/// It panics only if the operating system cannot seed that generator.
#[verifier::external_body]
pub(crate) fn new_rng() -> rand::rngs::ThreadRng {
    rand::rng()
}

/// Relies on rand's `RngExt::random_range` over `0..n`: the sample lies
/// below `n`. The range is non-empty by `requires`, so the call cannot
/// panic.
#[verifier::external_body]
pub(crate) fn rand_below(rng: &mut rand::rngs::ThreadRng, n: u64) -> (r: u64)
    requires
        1 <= n,
    ensures
        r < n,
{
    rng.random_range(0..n)
}

/// A well-formed launch state: the start lies in the unit square and the
/// ray extends `RAY_LEN` (measured by its larger direction component, so
/// at least one component is exactly `RAY_LEN` in magnitude).
pub open spec fn launch_ok(ray: Segment) -> bool {
    &&& 0 <= ray.start.x < SCALE
    &&& 0 <= ray.start.y < SCALE
    &&& coord_in(ray.end.x - ray.start.x, RAY_LEN as int)
    &&& coord_in(ray.end.y - ray.start.y, RAY_LEN as int)
    &&& (ray.end.x - ray.start.x == RAY_LEN || ray.end.x - ray.start.x == -RAY_LEN
        || ray.end.y - ray.start.y == RAY_LEN || ray.end.y - ray.start.y == -RAY_LEN)
}

/// Draw a launch state: a uniform start in the unit square and a random
/// direction, scaled so the ray is `RAY_LEN` long by its larger component
/// (a degenerate zero direction falls back to the positive x axis).
pub fn launch_ray(rng: &mut rand::rngs::ThreadRng) -> (r: Segment)
    ensures
        launch_ok(r),
        point_in(r.start, ARENA_BOUND as int),
        point_in(r.end, (ARENA_BOUND + RAY_LEN) as int),
{
    let sx = rand_below(rng, SCALE as u64) as i64;
    let sy = rand_below(rng, SCALE as u64) as i64;
    let rx = rand_below(rng, (2 * SCALE + 1) as u64) as i64 - SCALE;
    let ry = rand_below(rng, (2 * SCALE + 1) as u64) as i64 - SCALE;
    let (dx, dy): (i64, i64) = if rx == 0 && ry == 0 {
        (SCALE, 0)
    } else {
        (rx, ry)
    };
    let ax = if dx >= 0 { dx } else { -dx };
    let ay = if dy >= 0 { dy } else { -dy };
    let m = if ax >= ay { ax } else { ay };
    proof {
        lemma_abs_mul_bound(dx as int, RAY_LEN as int, m as int, RAY_LEN as int);
        lemma_abs_mul_bound(dy as int, RAY_LEN as int, m as int, RAY_LEN as int);
        lemma_step_div_bounds(dx as int, m as int);
        lemma_step_div_bounds(dy as int, m as int);
    }
    let ex = sx as i128 + div_floor_i128(dx as i128 * RAY_LEN as i128, m as i128);
    let ey = sy as i128 + div_floor_i128(dy as i128 * RAY_LEN as i128, m as i128);
    Segment {
        start: Point { x: sx, y: sy },
        end: Point { x: ex as i64, y: ey as i64 },
    }
}

/// Scaling a direction component by `RAY_LEN / m` keeps it within
/// `RAY_LEN`, exactly reaching it for the component whose magnitude is `m`.
proof fn lemma_step_div_bounds(v: int, m: int)
    requires
        0 < m,
        -m <= v <= m,
    ensures
        -RAY_LEN <= (v * RAY_LEN) / m <= RAY_LEN,
        v == m ==> (v * RAY_LEN) / m == RAY_LEN,
        v == -m ==> (v * RAY_LEN) / m == -RAY_LEN,
{
    assert(-(m * RAY_LEN) <= v * RAY_LEN <= m * RAY_LEN) by (nonlinear_arith)
        requires -m <= v <= m, 0 < m,
    ;
    vstd::arithmetic::div_mod::lemma_div_is_ordered(-(m * RAY_LEN), v * RAY_LEN, m);
    vstd::arithmetic::div_mod::lemma_div_is_ordered(v * RAY_LEN, m * RAY_LEN, m);
    vstd::arithmetic::div_mod::lemma_div_multiples_vanish(RAY_LEN as int, m);
    vstd::arithmetic::div_mod::lemma_div_multiples_vanish(-(RAY_LEN as int), m);
    assert(m * (-(RAY_LEN as int)) == -(m * RAY_LEN)) by (nonlinear_arith);
    if v == m {
        assert(v * RAY_LEN == m * RAY_LEN);
    }
    if v == -m {
        assert(v * RAY_LEN == -(m * RAY_LEN)) by (nonlinear_arith)
            requires v == -m,
        ;
    }
}

} // verus!
