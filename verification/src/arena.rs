//! Arena model: the bounded, ordered obstacle collection and the closed
//! polygon of walls every trajectory starts from.
use vstd::prelude::*;

verus! {

use crate::geometry::{Point, Segment, point_in, seg_in};
use crate::{ARENA_BOUND, CAP_LIMIT, WORLD_BOUND};

/// A bounded, ordered collection of wall segments. The first entries are
/// the permanent arena boundary; entries beyond them are trajectory-local
/// walls appended during one simulation and truncated away afterwards.
/// Running out of capacity is a defined outcome (the trajectory is
/// trapped), not an error.
pub struct ObstacleSet {
    segs: Vec<Segment>,
    cap: usize,
}

impl ObstacleSet {
    /// The walls, in insertion order.
    pub closed spec fn seq(&self) -> Seq<Segment> {
        self.segs@
    }

    /// The fixed maximum number of walls.
    pub closed spec fn cap(&self) -> nat {
        self.cap as nat
    }

    /// Well-formed: within capacity, capacity within the global limit, and
    /// every wall within the world's coordinate bound.
    pub open spec fn wf(&self) -> bool {
        &&& self.seq().len() <= self.cap()
        &&& 1 <= self.cap() <= CAP_LIMIT
        &&& forall|i: int|
            0 <= i < self.seq().len() ==> seg_in(#[trigger] self.seq()[i], WORLD_BOUND as int)
    }

    /// An empty collection with the given capacity.
    pub fn new(cap: usize) -> (r: ObstacleSet)
        requires
            1 <= cap <= CAP_LIMIT,
        ensures
            r.wf(),
            r.cap() == cap,
            r.seq().len() == 0,
    {
        ObstacleSet { segs: Vec::new(), cap }
    }

    /// How many walls the collection currently holds.
    pub fn len(&self) -> (n: usize)
        ensures
            n == self.seq().len(),
    {
        self.segs.len()
    }

    /// The fixed capacity.
    pub fn capacity(&self) -> (n: usize)
        ensures
            n == self.cap(),
    {
        self.cap
    }

    /// No further wall can be appended.
    pub fn is_full(&self) -> (r: bool)
        ensures
            r == (self.seq().len() >= self.cap()),
    {
        self.segs.len() >= self.cap
    }

    /// The wall at index `i`.
    pub fn get(&self, i: usize) -> (s: Segment)
        requires
            i < self.seq().len(),
        ensures
            s == self.seq()[i as int],
    {
        self.segs[i]
    }

    /// Append a trajectory wall; reports `false`, changing nothing, when
    /// the collection is already at capacity.
    pub fn push(&mut self, s: Segment) -> (ok: bool)
        requires
            old(self).wf(),
            seg_in(s, WORLD_BOUND as int),
        ensures
            final(self).wf(),
            final(self).cap() == old(self).cap(),
            ok == (old(self).seq().len() < old(self).cap()),
            ok ==> final(self).seq() == old(self).seq().push(s),
            !ok ==> final(self).seq() == old(self).seq(),
    {
        if self.segs.len() < self.cap {
            self.segs.push(s);
            true
        } else {
            false
        }
    }

    /// Truncate back to the first `n` walls, discarding all appended
    /// trajectory walls: the reset-to-baseline operation run around every
    /// trajectory.
    pub fn reset(&mut self, n: usize)
        requires
            old(self).wf(),
            n <= old(self).seq().len(),
        ensures
            final(self).wf(),
            final(self).cap() == old(self).cap(),
            final(self).seq() == old(self).seq().subrange(0, n as int),
    {
        self.segs.truncate(n);
    }
}

/// The wall of the closed polygon over `vs` that leaves vertex `i`.
pub open spec fn polygon_wall(vs: Seq<Point>, i: int) -> Segment {
    Segment {
        start: vs[i],
        end: vs[if i + 1 == vs.len() { 0int } else { i + 1 }],
    }
}

/// Build the initial arena: connect consecutive vertices into closed wall
/// segments, in the given (angular) order. That order is load-bearing: the
/// nearest-hit search breaks distance ties by scan order.
pub fn arena_from_vertices(vertices: &Vec<Point>, cap: usize) -> (r: ObstacleSet)
    requires
        1 <= vertices@.len(),
        vertices@.len() <= cap <= CAP_LIMIT,
        forall|i: int|
            0 <= i < vertices@.len() ==> point_in(#[trigger] vertices@[i], ARENA_BOUND as int),
    ensures
        r.wf(),
        r.cap() == cap,
        r.seq().len() == vertices@.len(),
        forall|i: int|
            0 <= i < vertices@.len() ==> #[trigger] r.seq()[i] == polygon_wall(vertices@, i),
        forall|i: int|
            0 <= i < r.seq().len() ==> seg_in(#[trigger] r.seq()[i], ARENA_BOUND as int),
{
    let n = vertices.len();
    let mut obs = ObstacleSet::new(cap);
    for i in 0..n
        invariant
            n == vertices@.len(),
            1 <= n <= cap <= CAP_LIMIT,
            forall|k: int|
                0 <= k < n ==> point_in(#[trigger] vertices@[k], ARENA_BOUND as int),
            obs.wf(),
            obs.cap() == cap,
            obs.seq().len() == i,
            forall|k: int|
                0 <= k < i ==> #[trigger] obs.seq()[k] == polygon_wall(vertices@, k),
            forall|k: int|
                0 <= k < i ==> seg_in(#[trigger] obs.seq()[k], ARENA_BOUND as int),
    {
        let j = if i + 1 == n { 0 } else { i + 1 };
        let wall = Segment { start: vertices[i], end: vertices[j] };
        let ok = obs.push(wall);
        assert(ok);
    }
    obs
}

} // verus!
