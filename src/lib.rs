//! Core logic of a tile-scheduled, adaptively sampled path tracer: the hierarchy's topology,
//! the path integrator's decisions, per-tile adaptive sampling, tiling of the canvas, the
//! film and its tile copies, the job queue and PPM encoding.
pub mod bvh;
pub mod film;
pub mod integrator;
pub mod ppm;
pub mod queue;
pub mod scheduler;
pub mod tiles;
pub mod totals;
pub mod util;
