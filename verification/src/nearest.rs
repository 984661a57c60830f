//! Nearest-intersection search: scan all obstacles, keep the hit closest to
//! the ray's start, breaking exact-distance ties by scan order.
use vstd::prelude::*;

verus! {

use crate::geometry::{
    Point, Segment, dist2, dist2_exec, hit_x, hit_y, in_seg_box, intersect, point_in, seg_in,
    segments_cross,
};
use crate::arena::ObstacleSet;
use crate::{GEOM_BOUND, WORLD_BOUND};

/// The crossing point of `wall` and `ray`, as a fixed-point `Point`
/// (meaningful whenever the exact coordinates fit, which the world bounds
/// guarantee).
pub open spec fn hit_point(wall: Segment, ray: Segment) -> Point {
    Point { x: hit_x(wall, ray) as i64, y: hit_y(wall, ray) as i64 }
}

/// The nearest hit among the first `n` obstacles: walls are scanned in
/// order, and a later hit replaces the incumbent only when strictly
/// closer, so the first-encountered wall wins exact ties. Yields the wall,
/// the crossing point and its squared distance from `ray.start`.
pub open spec fn nearest_upto(obs: Seq<Segment>, ray: Segment, n: nat)
    -> Option<(Segment, Point, int)>
    decreases n,
{
    if n == 0 {
        None
    } else {
        let prev = nearest_upto(obs, ray, (n - 1) as nat);
        let w = obs[n - 1];
        if segments_cross(w, ray) {
            let p = hit_point(w, ray);
            let d2 = dist2(ray.start, p);
            match prev {
                None => Some((w, p, d2)),
                Some((pw, pp, pd2)) => if d2 < pd2 {
                    Some((w, p, d2))
                } else {
                    prev
                },
            }
        } else {
            prev
        }
    }
}

/// The scan finds a hit exactly when some obstacle crosses the ray.
pub proof fn lemma_nearest_some_iff_crossing(obs: Seq<Segment>, ray: Segment, n: nat)
    requires
        n <= obs.len(),
    ensures
        nearest_upto(obs, ray, n) is Some
            <==> exists|i: int| 0 <= i < n && segments_cross(#[trigger] obs[i], ray),
    decreases n,
{
    if n > 0 {
        lemma_nearest_some_iff_crossing(obs, ray, (n - 1) as nat);
        if segments_cross(obs[n - 1], ray) {
            assert(0 <= n - 1 < n && segments_cross(obs[n - 1], ray));
        }
    }
}

/// A found hit's distance entry is the squared distance from the ray start
/// to its point.
pub proof fn lemma_nearest_payload(obs: Seq<Segment>, ray: Segment, n: nat)
    ensures
        nearest_upto(obs, ray, n) matches Some((w, p, d)) ==> d == dist2(ray.start, p),
    decreases n,
{
    if n > 0 {
        lemma_nearest_payload(obs, ray, (n - 1) as nat);
    }
}

/// Scan all obstacles and return the closest intersection with the ray,
/// if any: the wall hit, the crossing point, and its squared distance from
/// `ray.start`. Ties on exact distance go to the wall scanned first.
pub fn nearest_hit(ray: &Segment, obstacles: &ObstacleSet)
    -> (r: Option<(Segment, Point, u64)>)
    requires
        obstacles.wf(),
        seg_in(*ray, GEOM_BOUND as int),
    ensures
        (match r {
            None => nearest_upto(obstacles.seq(), *ray, obstacles.seq().len()) is None,
            Some((w, p, d2)) => nearest_upto(obstacles.seq(), *ray, obstacles.seq().len())
                == Some((w, p, d2 as int)),
        }),
        (r matches Some((w, p, d2)) ==> {
            &&& in_seg_box(p, w)
            &&& exists|i: int| 0 <= i < obstacles.seq().len() && #[trigger] obstacles.seq()[i] == w
        }),
{
    let ghost s = obstacles.seq();
    let mut best: Option<(Segment, Point, u64)> = None;
    let n = obstacles.len();
    for i in 0..n
        invariant
            obstacles.wf(),
            seg_in(*ray, GEOM_BOUND as int),
            s == obstacles.seq(),
            n == s.len(),
            (match best {
                None => nearest_upto(s, *ray, i as nat) is None,
                Some((w, p, d2)) => nearest_upto(s, *ray, i as nat) == Some((w, p, d2 as int)),
            }),
            (best matches Some((w, p, d2)) ==> {
                &&& in_seg_box(p, w)
                &&& exists|k: int| 0 <= k < s.len() && #[trigger] s[k] == w
            }),
    {
        let wall = obstacles.get(i);
        assert(seg_in(wall, WORLD_BOUND as int));
        match intersect(&wall, ray) {
            Some(p) => {
                assert(p == hit_point(wall, *ray));
                let d2 = dist2_exec(&ray.start, &p);
                let better = match best {
                    None => true,
                    Some((_, _, bd)) => d2 < bd,
                };
                if better {
                    best = Some((wall, p, d2));
                    assert(exists|k: int| 0 <= k < s.len() && #[trigger] s[k] == wall) by {
                        assert(s[i as int] == wall);
                    }
                }
            },
            None => {},
        }
        assert(nearest_upto(s, *ray, (i + 1) as nat) == (match best {
            None => None::<(Segment, Point, int)>,
            Some((w, p, d2)) => Some((w, p, d2 as int)),
        }));
    }
    best
}

} // verus!
