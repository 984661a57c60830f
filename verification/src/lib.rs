//! A stochastic billiard sampler: rays launched inside a polygonal arena
//! bounce off walls, and every bounce adds the ray's own path as a new wall,
//! so each trajectory gradually traps itself. Completed trajectories score
//! a value into a per-pixel accumulation buffer.
//!
//! Coordinates are fixed-point: `SCALE` units stand for one world unit, and
//! the arena lives in the unit square `[0, SCALE] x [0, SCALE]`.
use vstd::prelude::*;

pub mod arena;
pub mod buffer;
pub mod geometry;
pub mod nearest;
pub mod random;
pub mod simulate;
pub mod worker;

verus! {

/// Fixed-point units per world unit.
pub const SCALE: i64 = 1_000_000;

/// Distance below which a ray is considered to have converged onto a wall,
/// and also the offset a reflected ray is moved forward to avoid
/// re-intersecting the wall it just left (0.0001 world units).
pub const TRAP_EPS: i64 = 100;

/// Length of every launched or reflected ray (10 world units), measured as
/// the larger coordinate of the direction vector.
pub const RAY_LEN: i64 = 10_000_000;

/// Largest allowed capacity of an obstacle collection.
pub const CAP_LIMIT: usize = 65536;

/// Largest allowed width or height of an accumulation buffer.
pub const DIM_LIMIT: usize = 32768;

/// Bound on the coordinates of the initial arena walls.
pub const ARENA_BOUND: i64 = 2_000_000;

/// Bound on the coordinates of any wall an obstacle collection may hold;
/// trajectory walls stray at most `TRAP_EPS` per bounce beyond the arena,
/// so `ARENA_BOUND + TRAP_EPS * (CAP_LIMIT + 1)` never exceeds this.
pub const WORLD_BOUND: i64 = 10_000_000;

/// Bound on the coordinates accepted by the nearest-hit search; a ray end
/// lies at most `RAY_LEN` beyond a world point, well within this.
pub const GEOM_BOUND: i64 = 67_108_864;

/// Bound on the coordinates accepted by the segment-intersection and
/// reflection primitives (2^32); chosen so that all their intermediate
/// products fit comfortably in `i128`.
pub const POINT_BOUND: i64 = 4_294_967_296;

} // verus!
