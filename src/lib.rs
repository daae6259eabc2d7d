//! Procedural cave generation on a rectangular grid: random seeding, cellular
//! automaton smoothing, region labelling and region merging by tunnels.

pub mod error;
pub mod grid;
mod rng;
pub mod mapgen;
pub mod regions;
mod search;
pub mod smoothing;
pub mod tunnels;
pub mod walk;
