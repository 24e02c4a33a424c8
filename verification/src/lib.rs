//! Helper for narrowing down an unknown combination of cyclic dials.
//!
//! Given a base combination whose digits live on a ring `[min, max]` and a
//! radius, the library enumerates every combination reachable by shifting
//! each digit independently by up to the radius in either direction
//! (wrapping around the ring), scores each candidate by its total cyclic
//! distance from the base, and returns the candidates sorted by that score.

pub mod config;
pub mod ring;
