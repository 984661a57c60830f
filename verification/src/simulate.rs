//! Trajectory simulator: one full bounce sequence from a launch state until
//! the ray traps itself or escapes, appending each flown leg as a new wall
//! and scoring the terminal hit into the accumulation buffer.
use vstd::prelude::*;

verus! {

use crate::geometry::{
    Point, Segment, dist2, in_seg_box, isqrt, point_in, reflect,
    reflect_spec, seg_in, sqrt_of,
};
use crate::arena::ObstacleSet;
use crate::nearest::{nearest_hit, nearest_upto};
use crate::buffer::{Buffer, pixel_of, pixel_of_exec, sat_add};
use crate::{ARENA_BOUND, CAP_LIMIT, GEOM_BOUND, RAY_LEN, TRAP_EPS, WORLD_BOUND};

/// How a trajectory ended: trapped at a point (converged onto a wall,
/// obstacle capacity exhausted, or degenerate reflection), or escaped
/// without meeting any wall.
#[derive(Clone, Copy, Debug, PartialEq, Eq, Structural)]
pub enum Outcome {
    Trapped(Point),
    Escaped,
}

/// The scoring strategy: a pure function of the launch point, accumulated
/// path length and bounce count, chosen once per run and applied to every
/// trapped trajectory.
#[derive(Clone, Copy, Debug, PartialEq, Eq, Structural)]
pub enum ScoreRule {
    PathLength,
    BounceCount,
    ConstantOne,
}

/// What a completed trajectory scores.
pub open spec fn score_spec(rule: ScoreRule, start: Point, path_len: int, bounces: int) -> int {
    match rule {
        ScoreRule::PathLength => path_len,
        ScoreRule::BounceCount => bounces,
        ScoreRule::ConstantOne => 1,
    }
}

/// Apply the scoring strategy.
pub fn score(rule: ScoreRule, start: Point, path_len: u64, bounces: u64) -> (r: u64)
    ensures
        r == score_spec(rule, start, path_len as int, bounces as int),
{
    match rule {
        ScoreRule::PathLength => path_len,
        ScoreRule::BounceCount => bounces,
        ScoreRule::ConstantOne => 1,
    }
}

/// The trajectory state machine, as a function of the walls, the capacity,
/// the current ray, and the accumulated path length and bounce count:
/// find the nearest hit; none means the ray escaped; a hit within the trap
/// threshold, or with the collection full, traps the ray; otherwise the
/// flown leg becomes a new wall and the ray reflects, trapping if the
/// reflection is degenerate. Yields the outcome, the walls as grown, the
/// path length and the bounce count.
pub open spec fn sim_step(obs: Seq<Segment>, cap: nat, ray: Segment, path: int, bounces: int)
    -> (Outcome, Seq<Segment>, int, int)
    decreases cap - obs.len()
        when obs.len() <= cap
{
    match nearest_upto(obs, ray, obs.len()) {
        None => (Outcome::Escaped, obs, path, bounces),
        Some((wall, hit, d2)) => {
            let path2 = path + sqrt_of(d2 as nat);
            let b2 = bounces + 1;
            if d2 < TRAP_EPS * TRAP_EPS || obs.len() >= cap {
                (Outcome::Trapped(hit), obs, path2, b2)
            } else {
                let obs2 = obs.push(Segment { start: ray.start, end: hit });
                match reflect_spec(ray.start, wall, hit) {
                    None => (Outcome::Trapped(hit), obs2, path2, b2),
                    Some(ray2) => sim_step(obs2, cap, ray2, path2, b2),
                }
            }
        },
    }
}

/// Every wall of `s` lies within `b`.
pub open spec fn all_segs_in(s: Seq<Segment>, b: int) -> bool {
    forall|i: int| 0 <= i < s.len() ==> seg_in(#[trigger] s[i], b)
}

/// Run one full bounce sequence from `ray0`, appending each flown leg to
/// `obstacles` as the trajectory walls itself in. Returns the outcome, the
/// accumulated path length (in fixed-point units) and the bounce count,
/// exactly as the state machine `sim_step` describes; the pre-existing
/// walls stay untouched at the front of the collection.
pub fn run_trajectory(obstacles: &mut ObstacleSet, ray0: Segment) -> (r: (Outcome, u64, u64))
    requires
        old(obstacles).wf(),
        all_segs_in(old(obstacles).seq(), ARENA_BOUND as int),
        point_in(ray0.start, ARENA_BOUND as int),
        point_in(ray0.end, (ARENA_BOUND + RAY_LEN) as int),
    ensures
        final(obstacles).wf(),
        final(obstacles).cap() == old(obstacles).cap(),
        final(obstacles).seq().len() >= old(obstacles).seq().len(),
        final(obstacles).seq().subrange(0, old(obstacles).seq().len() as int)
            == old(obstacles).seq(),
        ({
            let (o, s, p, b) = sim_step(old(obstacles).seq(), old(obstacles).cap(), ray0, 0, 0);
            &&& r.0 == o
            &&& final(obstacles).seq() == s
            &&& r.1 == p
            &&& r.2 == b
        }),
        (r.0 matches Outcome::Trapped(hit) ==> point_in(hit, WORLD_BOUND as int) && r.2 >= 1),
{
    let ghost s0 = obstacles.seq();
    let ghost cap = obstacles.cap();
    let base_len = obstacles.len();
    let mut ray = ray0;
    let mut path: u64 = 0;
    let mut bounces: u64 = 0;
    loop
        invariant
            obstacles.wf(),
            s0 == old(obstacles).seq(),
            cap == old(obstacles).cap(),
            obstacles.cap() == cap,
            base_len == s0.len(),
            s0.len() <= obstacles.seq().len(),
            obstacles.seq().subrange(0, s0.len() as int) == s0,
            all_segs_in(s0, ARENA_BOUND as int),
            // Trajectory walls stray at most TRAP_EPS per bounce beyond the
            // arena, so everything stays well inside the world bounds.
            all_segs_in(obstacles.seq(),
                ARENA_BOUND + TRAP_EPS * (obstacles.seq().len() - s0.len())),
            point_in(ray.start,
                ARENA_BOUND + TRAP_EPS * (obstacles.seq().len() - s0.len() + 1)),
            point_in(ray.end,
                ARENA_BOUND + TRAP_EPS * (obstacles.seq().len() - s0.len() + 1) + RAY_LEN),
            bounces == obstacles.seq().len() - s0.len(),
            path <= bounces * 0x1000_0000,
            sim_step(s0, cap, ray0, 0, 0)
                == sim_step(obstacles.seq(), cap, ray, path as int, bounces as int),
        decreases cap - obstacles.seq().len(),
    {
        proof {
            assert(TRAP_EPS * (obstacles.seq().len() - s0.len()) <= TRAP_EPS * CAP_LIMIT)
                by (nonlinear_arith)
                requires obstacles.seq().len() - s0.len() <= CAP_LIMIT,
            ;
            assert(TRAP_EPS * (obstacles.seq().len() - s0.len() + 1)
                <= TRAP_EPS * (CAP_LIMIT + 1)) by (nonlinear_arith)
                requires obstacles.seq().len() - s0.len() + 1 <= CAP_LIMIT + 1,
            ;
        }
        let ghost cur = obstacles.seq();
        match nearest_hit(&ray, obstacles) {
            None => {
                return (Outcome::Escaped, path, bounces);
            },
            Some((wall, hit, d2)) => {
                proof {
                    // The hit lies in the hit wall's bounding box, so it
                    // inherits that wall's coordinate bound.
                    let wb = ARENA_BOUND + TRAP_EPS * (cur.len() - s0.len());
                    assert(seg_in(wall, wb));
                    assert(point_in(hit, wb));
                    crate::nearest::lemma_nearest_payload(cur, ray, cur.len());
                    assert(d2 == dist2(ray.start, hit));
                    crate::geometry::lemma_abs_mul_bound(
                        hit.x - ray.start.x, hit.x - ray.start.x,
                        2 * GEOM_BOUND as int, 2 * GEOM_BOUND as int);
                    crate::geometry::lemma_abs_mul_bound(
                        hit.y - ray.start.y, hit.y - ray.start.y,
                        2 * GEOM_BOUND as int, 2 * GEOM_BOUND as int);
                }
                let step = isqrt(d2 as u128);
                proof {
                    crate::geometry::lemma_sqrt_of_bounds(d2 as nat);
                    assert(step < 0x1000_0000) by (nonlinear_arith)
                        requires
                            step * step <= d2,
                            d2 < 0x100_0000_0000_0000,
                            step >= 0,
                    ;
                    assert((bounces + 1) * 0x1000_0000 == bounces * 0x1000_0000 + 0x1000_0000);
                }
                path = path + step;
                bounces = bounces + 1;
                let full = obstacles.is_full();
                if d2 < (TRAP_EPS * TRAP_EPS) as u64 || full {
                    return (Outcome::Trapped(hit), path, bounces);
                }
                let wall_seg = Segment { start: ray.start, end: hit };
                let ok = obstacles.push(wall_seg);
                assert(ok);
                match reflect(&ray.start, &wall, &hit) {
                    None => {
                        return (Outcome::Trapped(hit), path, bounces);
                    },
                    Some(r2) => {
                        proof {
                            assert(obstacles.seq().subrange(0, s0.len() as int) =~= s0);
                        }
                        ray = r2;
                    },
                }
            },
        }
    }
}

/// Where a trapped hit lands in the buffer, and what the buffer then holds.
pub open spec fn trap_recorded(buf0: Seq<u64>, w: nat, h: nat, buf1: Seq<u64>, hit: Point,
    value: int) -> bool {
    let ix = pixel_of(hit.x as int, w as int) + w * pixel_of(hit.y as int, h as int);
    buf1 == buf0.update(ix, sat_add(buf0[ix], value as u64))
}

/// Run one trajectory from the given launch ray, write its score into the
/// buffer if it was trapped, and reset the obstacle collection to exactly
/// its pre-call contents. This is the deterministic core of a simulation:
/// everything it does is a function of the arguments, as `sim_step` states.
pub fn simulate_launch(buffer: &mut Buffer, obstacles: &mut ObstacleSet, ray0: Segment,
    rule: ScoreRule) -> (r: (Outcome, u64, u64))
    requires
        old(buffer).wf(),
        old(obstacles).wf(),
        all_segs_in(old(obstacles).seq(), ARENA_BOUND as int),
        point_in(ray0.start, ARENA_BOUND as int),
        point_in(ray0.end, (ARENA_BOUND + RAY_LEN) as int),
    ensures
        final(obstacles).seq() == old(obstacles).seq(),
        final(obstacles).cap() == old(obstacles).cap(),
        final(obstacles).wf(),
        final(buffer).wf(),
        final(buffer).width_spec() == old(buffer).width_spec(),
        final(buffer).height_spec() == old(buffer).height_spec(),
        ({
            let (o, s, p, b) = sim_step(old(obstacles).seq(), old(obstacles).cap(), ray0, 0, 0);
            &&& r.0 == o
            &&& r.1 == p
            &&& r.2 == b
            &&& (o is Escaped ==> final(buffer)@ == old(buffer)@)
            &&& (o matches Outcome::Trapped(hit) ==> b >= 1 && trap_recorded(
                    old(buffer)@, old(buffer).width_spec(), old(buffer).height_spec(),
                    final(buffer)@, hit, score_spec(rule, ray0.start, p, b)))
        }),
{
    let base_len = obstacles.len();
    let (outcome, path, bounces) = run_trajectory(obstacles, ray0);
    match outcome {
        Outcome::Trapped(hit) => {
            let px = pixel_of_exec(hit.x, buffer.width());
            let py = pixel_of_exec(hit.y, buffer.height());
            let v = score(rule, ray0.start, path, bounces);
            buffer.add_at(px, py, v);
        },
        Outcome::Escaped => {},
    }
    obstacles.reset(base_len);
    (outcome, path, bounces)
}

/// Run one trajectory from a random launch state. The obstacle collection
/// is left exactly as it was; the buffer gains one score at the trapped
/// hit's pixel, or nothing when the ray escaped. Which launch was drawn is
/// random, so the contract promises only that some well-formed launch
/// explains the outcome and the write.
pub fn single_simulation(buffer: &mut Buffer, obstacles: &mut ObstacleSet,
    rng: &mut rand::rngs::ThreadRng, rule: ScoreRule) -> (r: Outcome)
    requires
        old(buffer).wf(),
        old(obstacles).wf(),
        all_segs_in(old(obstacles).seq(), ARENA_BOUND as int),
    ensures
        final(obstacles).seq() == old(obstacles).seq(),
        final(obstacles).cap() == old(obstacles).cap(),
        final(obstacles).wf(),
        final(buffer).wf(),
        final(buffer).width_spec() == old(buffer).width_spec(),
        final(buffer).height_spec() == old(buffer).height_spec(),
        r is Escaped ==> final(buffer)@ == old(buffer)@,
        r matches Outcome::Trapped(hit) ==> exists|ray0: Segment|
            #[trigger] crate::random::launch_ok(ray0) && ({
                let (o, s, p, b) = sim_step(old(obstacles).seq(), old(obstacles).cap(),
                    ray0, 0, 0);
                &&& o == Outcome::Trapped(hit)
                &&& b >= 1
                &&& trap_recorded(old(buffer)@, old(buffer).width_spec(),
                        old(buffer).height_spec(), final(buffer)@, hit,
                        score_spec(rule, ray0.start, p, b))
            }),
{
    let ray = crate::random::launch_ray(rng);
    let (outcome, path, bounces) = simulate_launch(buffer, obstacles, ray, rule);
    outcome
}

} // verus!
