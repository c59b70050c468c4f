//! Combinatorial core of a twisty-puzzle explorer: permutation generators in
//! GAP notation, orbit extraction, and the scripts exchanged with dreadnaut.

pub mod canon;
pub mod dreadnaut;
pub mod generator;
pub mod orbit;
pub mod orbit_laws;
pub mod renaming;
pub mod round_trip;
pub mod sorted;
pub mod text;
pub mod worker_protocol;
