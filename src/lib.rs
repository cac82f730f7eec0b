//! Registry and tick orchestration for a flocking simulation.
//!
//! Boids and flocks are identified by opaque `u64` ids and kept in
//! insertion-ordered tables. One tick is planned into per-boid tasks that
//! share a frozen snapshot of their flock, the forces are computed by the
//! caller (possibly in parallel), and the results are applied afterwards in
//! one validated pass.
mod seqs;
mod table;
pub mod tick;
pub mod world;

pub use tick::Task;
pub use world::{Boids, Fault};
