use billiard_cage::arena::{arena_from_vertices, ObstacleSet};
use billiard_cage::buffer::{pixel_of_exec, Buffer};
use billiard_cage::geometry::{intersect, isqrt, reflect, Point, Segment};
use billiard_cage::nearest::nearest_hit;
use billiard_cage::simulate::{simulate_launch, Outcome, ScoreRule};
use billiard_cage::worker::{SampleTally, Worker};

const SCALE: i64 = 1_000_000;
const RAY_LEN: i64 = 10_000_000;

fn pt(x: i64, y: i64) -> Point {
    Point { x, y }
}

fn seg(x0: i64, y0: i64, x1: i64, y1: i64) -> Segment {
    Segment { start: pt(x0, y0), end: pt(x1, y1) }
}

/// The rotated square arena of edge count 4 and size 0.98, exactly
/// representable in fixed point.
fn square_vertices() -> Vec<Point> {
    vec![
        pt(990_000, 500_000),
        pt(500_000, 990_000),
        pt(10_000, 500_000),
        pt(500_000, 10_000),
    ]
}

#[test]
fn intersect_crossing_segments() {
    let a = seg(0, 0, 1_000_000, 1_000_000);
    let b = seg(0, 1_000_000, 1_000_000, 0);
    let p = intersect(&a, &b).expect("segments cross");
    assert_eq!(p, pt(500_000, 500_000));
}

#[test]
fn intersect_symmetry_on_examples() {
    let a = seg(0, 0, 1_000_000, 1_000_000);
    let b = seg(0, 1_000_000, 1_000_000, 0);
    assert_eq!(intersect(&a, &b).is_some(), intersect(&b, &a).is_some());
    let c = seg(2_000_000, 0, 3_000_000, 10);
    assert_eq!(intersect(&a, &c).is_some(), intersect(&c, &a).is_some());
    assert!(intersect(&a, &c).is_none());
}

#[test]
fn intersect_parallel_is_none() {
    let a = seg(0, 0, 1_000_000, 0);
    let b = seg(0, 500, 1_000_000, 500);
    assert!(intersect(&a, &b).is_none());
    // Coincident carriers are "no intersection" as well.
    let c = seg(200, 0, 900_000, 0);
    assert!(intersect(&a, &c).is_none());
}

#[test]
fn intersect_disjoint_boxes_is_none() {
    let a = seg(0, 0, 100, 100);
    let b = seg(5_000, 5_000, 6_000, 6_000);
    assert!(intersect(&a, &b).is_none());
}

#[test]
fn reflect_mirrors_across_wall() {
    // Wall along the x axis, incoming at 45 degrees from the upper left:
    // the outgoing ray leaves at 45 degrees to the upper right.
    let wall = seg(1_000_000, 0, -1_000_000, 0);
    let ball = pt(-1_000_000, 1_000_000);
    let hit = pt(0, 0);
    let r = reflect(&ball, &wall, &hit).expect("reflection defined");
    assert_eq!(r.start, pt(100, 100));
    assert_eq!(r.end, pt(10_000_000, 10_000_000));
}

#[test]
fn reflect_degenerate_wall_fails() {
    // The wall vector is taken from the wall start to the hit; when they
    // coincide the reflection is undefined.
    let wall = seg(0, 0, 1_000_000, 0);
    let ball = pt(500, 500);
    let hit = pt(0, 0);
    assert!(reflect(&ball, &wall, &hit).is_none());
}

#[test]
fn isqrt_examples() {
    assert_eq!(isqrt(0), 0);
    assert_eq!(isqrt(1), 1);
    assert_eq!(isqrt(10), 3);
    assert_eq!(isqrt(144), 12);
    assert_eq!(isqrt(u64::MAX as u128), 0xffff_ffff);
}

#[test]
fn pixel_mapping_scales_rounds_and_clamps() {
    assert_eq!(pixel_of_exec(500_000, 512), 256);
    assert_eq!(pixel_of_exec(0, 512), 0);
    assert_eq!(pixel_of_exec(-5, 512), 0);
    assert_eq!(pixel_of_exec(2_000_000, 512), 511);
    assert_eq!(pixel_of_exec(999_999, 512), 511);
}

#[test]
fn buffer_accumulates_additively() {
    let mut b = Buffer::new(4, 3);
    b.add_at(1, 2, 7);
    b.add_at(1, 2, 5);
    assert_eq!(b.get(1, 2), 12);
    assert_eq!(b.get(0, 0), 0);
    assert_eq!(b.sum(), 12);
}

#[test]
fn buffer_addition_saturates() {
    let mut b = Buffer::new(2, 2);
    b.add_at(0, 0, u64::MAX - 1);
    b.add_at(0, 0, 5);
    assert_eq!(b.get(0, 0), u64::MAX);
}

#[test]
fn merge_order_does_not_matter() {
    // Two private buffers merged into a shared one in either order leave
    // identical contents, saturation included.
    let mut a = Buffer::new(2, 2);
    a.add_at(0, 0, 3);
    a.add_at(1, 1, u64::MAX - 2);
    let mut b = Buffer::new(2, 2);
    b.add_at(0, 1, 9);
    b.add_at(1, 1, 7);
    let mut s1 = Buffer::new(2, 2);
    s1.add_at(1, 0, 2);
    let mut s2 = Buffer::new(2, 2);
    s2.add_at(1, 0, 2);
    s1.merge_from(&a);
    s1.merge_from(&b);
    s2.merge_from(&b);
    s2.merge_from(&a);
    for x in 0..2 {
        for y in 0..2 {
            assert_eq!(s1.get(x, y), s2.get(x, y));
        }
    }
    assert_eq!(s1.get(1, 1), u64::MAX);
}

#[test]
fn arena_connects_vertices_in_order() {
    let vs = square_vertices();
    let arena = arena_from_vertices(&vs, 100);
    assert_eq!(arena.len(), 4);
    assert_eq!(arena.get(0), Segment { start: vs[0], end: vs[1] });
    assert_eq!(arena.get(3), Segment { start: vs[3], end: vs[0] });
    assert_eq!(arena.capacity(), 100);
    assert!(!arena.is_full());
}

#[test]
fn obstacle_push_and_reset() {
    let mut obs = ObstacleSet::new(2);
    assert!(obs.push(seg(0, 0, 10, 10)));
    assert!(obs.push(seg(10, 10, 20, 0)));
    assert!(!obs.push(seg(0, 0, 1, 1)));
    assert!(obs.is_full());
    obs.reset(1);
    assert_eq!(obs.len(), 1);
    assert_eq!(obs.get(0), seg(0, 0, 10, 10));
}

#[test]
fn rays_from_inside_always_hit_the_arena() {
    let vs = square_vertices();
    let arena = arena_from_vertices(&vs, 100);
    let center = pt(500_000, 500_000);
    let dirs = [
        (RAY_LEN, 0),
        (-RAY_LEN, 0),
        (0, RAY_LEN),
        (0, -RAY_LEN),
        (RAY_LEN, RAY_LEN / 3),
        (-RAY_LEN, RAY_LEN / 2),
        (RAY_LEN / 4, -RAY_LEN),
    ];
    for (dx, dy) in dirs {
        let ray = Segment {
            start: center,
            end: pt(center.x + dx, center.y + dy),
        };
        assert!(nearest_hit(&ray, &arena).is_some());
    }
}

#[test]
fn nearest_hit_outside_pointing_away_is_none() {
    let vs = square_vertices();
    let arena = arena_from_vertices(&vs, 100);
    let ray = seg(1_500_000, 1_500_000, 1_500_000 + RAY_LEN, 1_500_000);
    assert!(nearest_hit(&ray, &arena).is_none());
}

#[test]
fn scenario_center_launch_traps_and_scores_once() {
    // Arena edge count 4, size 0.98; one trajectory from the exact center
    // in direction angle 0, scoring a constant 1: exactly one trapped
    // outcome after at least one bounce, and the buffer total rises by 1.
    let vs = square_vertices();
    let mut obstacles = arena_from_vertices(&vs, 100);
    let mut buffer = Buffer::new(64, 64);
    let ray = seg(500_000, 500_000, 500_000 + RAY_LEN, 500_000);
    let (outcome, _path, bounces) =
        simulate_launch(&mut buffer, &mut obstacles, ray, ScoreRule::ConstantOne);
    assert!(matches!(outcome, Outcome::Trapped(_)));
    assert!(bounces >= 1);
    assert_eq!(buffer.sum(), 1);
    assert_eq!(obstacles.len(), 4);
}

#[test]
fn scenario_capacity_one_traps_immediately() {
    // Obstacle capacity 1, holding a single test wall: a trajectory that
    // would need a second wall must end trapped by capacity exhaustion.
    let mut obstacles = ObstacleSet::new(1);
    assert!(obstacles.push(seg(0, 600_000, 1_000_000, 600_000)));
    let mut buffer = Buffer::new(16, 16);
    let ray = seg(500_000, 500_000, 500_000, 500_000 + RAY_LEN);
    let (outcome, _path, bounces) =
        simulate_launch(&mut buffer, &mut obstacles, ray, ScoreRule::BounceCount);
    assert!(matches!(outcome, Outcome::Trapped(_)));
    assert_eq!(bounces, 1);
    assert_eq!(buffer.sum(), 1);
    assert_eq!(obstacles.len(), 1);
}

#[test]
fn scenario_outside_launch_escapes_without_writing() {
    let vs = square_vertices();
    let mut obstacles = arena_from_vertices(&vs, 100);
    let mut buffer = Buffer::new(16, 16);
    let ray = seg(1_500_000, 1_500_000, 1_500_000 + RAY_LEN, 1_500_000);
    let (outcome, path, bounces) =
        simulate_launch(&mut buffer, &mut obstacles, ray, ScoreRule::PathLength);
    assert!(matches!(outcome, Outcome::Escaped));
    assert_eq!(path, 0);
    assert_eq!(bounces, 0);
    assert_eq!(buffer.sum(), 0);
    assert_eq!(obstacles.len(), 4);
}

#[test]
fn repeated_simulations_restore_the_collection() {
    // The truncate-to-baseline invariant: any number of simulations on the
    // same collection leaves it at its pre-call length every time.
    let vs = square_vertices();
    let mut obstacles = arena_from_vertices(&vs, 50);
    let mut buffer = Buffer::new(16, 16);
    let rays = [
        seg(500_000, 500_000, 500_000 + RAY_LEN, 500_000),
        seg(400_000, 300_000, 400_000 - RAY_LEN, 300_000 + RAY_LEN),
        seg(600_000, 700_000, 600_000 + RAY_LEN / 3, 700_000 - RAY_LEN),
        seg(200_000, 500_000, 200_000, 500_000 + RAY_LEN),
        seg(500_000, 500_000, 500_000, 500_000 - RAY_LEN),
    ];
    for ray in rays {
        simulate_launch(&mut buffer, &mut obstacles, ray, ScoreRule::PathLength);
        assert_eq!(obstacles.len(), 4);
        for i in 0..4 {
            assert_eq!(obstacles.get(i), Segment {
                start: vs[i],
                end: vs[(i + 1) % 4],
            });
        }
    }
}

#[test]
fn random_batches_score_trapped_trajectories() {
    // Random launches inside the unit square mostly start inside the arena
    // and get trapped; a batch must record some of them. This exercises the
    // random source: a generator stuck at its bound would launch every ray
    // from the far corner, outside the arena, and record nothing.
    let vs = square_vertices();
    let mut w = Worker::new(16, 16, &vs, 20, ScoreRule::ConstantOne);
    let ran = w.run_batch(300);
    assert_eq!(ran, 300);
    assert!(w.total() >= 1);
    assert!(w.total() <= 300);
}

#[test]
fn tally_counts_and_reaches_target() {
    let mut t = SampleTally::new(500);
    assert!(!t.reached());
    t.note(300);
    assert!(!t.reached());
    t.note(200);
    assert!(t.reached());
    t.note(u64::MAX);
    assert!(t.reached());
}

#[test]
fn scenario_worker_counts_agree_statistically() {
    // The same total sample count split over 1 worker or 8 workers must
    // give statistically indistinguishable results: the merge protocol
    // does not bias the accumulated path lengths.
    let vs = square_vertices();
    let total = 800usize;
    let mut shared1 = Buffer::new(8, 8);
    let mut w = Worker::new(8, 8, &vs, 20, ScoreRule::PathLength);
    w.run_batch(total);
    w.accumulate_into(&mut shared1);
    let sum1 = shared1.sum();

    let mut shared8 = Buffer::new(8, 8);
    for _ in 0..8 {
        let mut wk = Worker::new(8, 8, &vs, 20, ScoreRule::PathLength);
        wk.run_batch(total / 8);
        wk.accumulate_into(&mut shared8);
    }
    let sum8 = shared8.sum();

    assert!(sum1 > 0);
    assert!(sum8 > 0);
    // Loose Monte Carlo bounds: the means agree well within a factor two.
    assert!(sum1 < 2 * sum8 && sum8 < 2 * sum1);
}

#[test]
fn accumulate_clears_the_private_buffer() {
    let vs = square_vertices();
    let mut shared = Buffer::new(8, 8);
    let mut w = Worker::new(8, 8, &vs, 20, ScoreRule::ConstantOne);
    w.run_batch(100);
    let before = w.total();
    w.accumulate_into(&mut shared);
    assert_eq!(shared.sum(), before);
    assert_eq!(w.total(), 0);
    // A second accumulate after clearing adds nothing: no double counting.
    w.accumulate_into(&mut shared);
    assert_eq!(shared.sum(), before);
}
