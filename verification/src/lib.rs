//! A minimal evolutionary parameter optimizer.
//!
//! A fixed-size population of candidate numeric transformations (the
//! `Species` trait) is evolved toward a target behavior given as a set of
//! input/expected-output trials: each cycle the engine scores every member,
//! ranks them, overwrites the worse half with copies of the better half, and
//! perturbs every member by an independent random amount. All scalars are
//! integers; a caller that wants fractional values picks a fixed-point scale.

pub mod doubler;
pub mod engine;
mod rng;
pub mod species;
