//! Worker and coordination protocol: each worker owns a private buffer, a
//! private obstacle collection and a private random source, runs batches of
//! independent trajectories, and merges its buffer into the shared result
//! exactly once, on command.
use vstd::prelude::*;

verus! {

use crate::geometry::Point;
use crate::arena::{ObstacleSet, arena_from_vertices, polygon_wall};
use crate::buffer::{Buffer, merged, sat_add, total_of};
use crate::simulate::{ScoreRule, all_segs_in, single_simulation};
use crate::{ARENA_BOUND, CAP_LIMIT, DIM_LIMIT};

/// What the coordinator tells a worker: merge the private buffer into the
/// shared one, or stop looping.
#[derive(Clone, Copy, Debug, PartialEq, Eq, Structural)]
pub enum Control {
    Accumulate,
    Stop,
}

/// What a worker reports back: how many trajectories the last batch ran.
#[derive(Clone, Copy, Debug, PartialEq, Eq, Structural)]
pub enum Report {
    Progress(u64),
}

/// The coordinator's running total of completed trajectories against the
/// configured minimum sample count; it polls workers until this is reached.
pub struct SampleTally {
    done: u64,
    target: u64,
}

impl SampleTally {
    /// Trajectories counted so far.
    pub closed spec fn done_spec(&self) -> u64 {
        self.done
    }

    /// The minimum sample count the run must reach.
    pub closed spec fn target_spec(&self) -> u64 {
        self.target
    }

    /// A fresh tally.
    pub fn new(target: u64) -> (r: SampleTally)
        ensures
            r.done_spec() == 0,
            r.target_spec() == target,
    {
        SampleTally { done: 0, target }
    }

    /// Count one report's worth of trajectories (saturating far beyond any
    /// reachable total).
    pub fn note(&mut self, n: u64)
        ensures
            final(self).target_spec() == old(self).target_spec(),
            final(self).done_spec() == sat_add(old(self).done_spec(), n),
            final(self).done_spec() >= old(self).done_spec(),
    {
        self.done = match self.done.checked_add(n) {
            Some(s) => s,
            None => u64::MAX,
        };
    }

    /// Whether the minimum sample count has been reached: the coordinator's
    /// condition for leaving its poll loop.
    pub fn reached(&self) -> (r: bool)
        ensures
            r == (self.done_spec() >= self.target_spec()),
    {
        self.done >= self.target
    }
}

/// One simulation worker: a private accumulation buffer sized like the
/// shared result, a private obstacle collection reset around every
/// trajectory, and a private random source.
pub struct Worker {
    buf: Buffer,
    obstacles: ObstacleSet,
    rng: rand::rngs::ThreadRng,
    rule: ScoreRule,
}

impl Worker {
    /// The private buffer's cells.
    pub closed spec fn cells(&self) -> Seq<u64> {
        self.buf@
    }

    /// The private buffer's width.
    pub closed spec fn width_spec(&self) -> nat {
        self.buf.width_spec()
    }

    /// The private buffer's height.
    pub closed spec fn height_spec(&self) -> nat {
        self.buf.height_spec()
    }

    /// The private obstacle collection's walls.
    pub closed spec fn walls(&self) -> Seq<crate::geometry::Segment> {
        self.obstacles.seq()
    }

    /// The scoring strategy in use.
    pub closed spec fn rule_spec(&self) -> ScoreRule {
        self.rule
    }

    /// Well-formed: both owned structures are, and the walls lie within
    /// the arena bound, so each trajectory may start from them.
    pub closed spec fn wf(&self) -> bool {
        &&& self.buf.wf()
        &&& self.obstacles.wf()
        &&& all_segs_in(self.walls(), ARENA_BOUND as int)
    }

    /// A fresh worker: an all-zero private buffer, the arena polygon over
    /// the given vertices, a new random source, and the scoring strategy.
    pub fn new(width: usize, height: usize, vertices: &Vec<Point>, cap: usize,
        rule: ScoreRule) -> (r: Worker)
        requires
            1 <= width <= DIM_LIMIT,
            1 <= height <= DIM_LIMIT,
            1 <= vertices@.len(),
            vertices@.len() <= cap <= CAP_LIMIT,
            forall|i: int|
                0 <= i < vertices@.len()
                    ==> crate::geometry::point_in(#[trigger] vertices@[i], ARENA_BOUND as int),
        ensures
            r.wf(),
            r.width_spec() == width,
            r.height_spec() == height,
            forall|i: int| 0 <= i < r.cells().len() ==> r.cells()[i] == 0u64,
            r.walls().len() == vertices@.len(),
            forall|i: int|
                0 <= i < vertices@.len() ==> #[trigger] r.walls()[i]
                    == polygon_wall(vertices@, i),
            r.rule_spec() == rule,
    {
        Worker {
            buf: Buffer::new(width, height),
            obstacles: arena_from_vertices(vertices, cap),
            rng: crate::random::new_rng(),
            rule,
        }
    }

    /// Run a batch of `n` independent trajectories into the private buffer.
    /// The obstacle collection ends every trajectory exactly as it began.
    pub fn run_batch(&mut self, n: usize) -> (r: u64)
        requires
            old(self).wf(),
            n <= 0xffff_ffff,
        ensures
            final(self).wf(),
            final(self).width_spec() == old(self).width_spec(),
            final(self).height_spec() == old(self).height_spec(),
            final(self).walls() == old(self).walls(),
            final(self).rule_spec() == old(self).rule_spec(),
            r == n,
    {
        for i in 0..n
            invariant
                self.wf(),
                n <= 0xffff_ffff,
                self.width_spec() == old(self).width_spec(),
                self.height_spec() == old(self).height_spec(),
                self.walls() == old(self).walls(),
                self.rule_spec() == old(self).rule_spec(),
        {
            let rule = self.rule;
            single_simulation(&mut self.buf, &mut self.obstacles, &mut self.rng, rule);
        }
        n as u64
    }

    /// Merge every cell of the private buffer into the shared result, then
    /// clear the private buffer, so a later merge cannot double-count what
    /// was already contributed.
    pub fn accumulate_into(&mut self, shared: &mut Buffer)
        requires
            old(self).wf(),
            old(shared).wf(),
            old(shared).width_spec() == old(self).width_spec(),
            old(shared).height_spec() == old(self).height_spec(),
        ensures
            final(self).wf(),
            final(shared).wf(),
            final(shared).width_spec() == old(shared).width_spec(),
            final(shared).height_spec() == old(shared).height_spec(),
            final(shared)@ == merged(old(shared)@, old(self).cells()),
            final(self).width_spec() == old(self).width_spec(),
            final(self).height_spec() == old(self).height_spec(),
            final(self).walls() == old(self).walls(),
            final(self).rule_spec() == old(self).rule_spec(),
            forall|i: int| 0 <= i < final(self).cells().len() ==> final(self).cells()[i] == 0u64,
    {
        shared.merge_from(&self.buf);
        self.buf.clear();
    }

    /// The private buffer's width.
    pub fn width(&self) -> (w: usize)
        ensures
            w == self.width_spec(),
    {
        self.buf.width()
    }

    /// The private buffer's height.
    pub fn height(&self) -> (h: usize)
        ensures
            h == self.height_spec(),
    {
        self.buf.height()
    }

    /// Read one cell of the private buffer.
    pub fn cell(&self, x: usize, y: usize) -> (v: u64)
        requires
            self.wf(),
            x < self.width_spec(),
            y < self.height_spec(),
        ensures
            v == self.cells()[x + self.width_spec() * y],
    {
        self.buf.get(x, y)
    }

    /// The sum of the private buffer's cells.
    pub fn total(&self) -> (r: u128)
        requires
            self.wf(),
        ensures
            r == total_of(self.cells()),
    {
        self.buf.sum()
    }
}

} // verus!
