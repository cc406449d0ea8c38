//! Verified core of a Gray-Scott reaction-diffusion toolkit.
pub mod grid;
pub mod solver;
pub mod rng;
pub mod cli;
