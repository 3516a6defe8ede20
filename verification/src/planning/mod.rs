//! Planning of joint-space paths: sampling searches, roadmaps, smoothing, and what is
//! reachable. Whether a configuration is free is answered by a function handed in.
//! A seed gives one sequence of samples, so a plan can be repeated.

pub mod geometry;
pub mod metric;
pub mod nearest;
pub mod optimal;
pub mod planner;
pub mod prm;
pub mod reach;
pub mod rng;
pub mod smooth;
pub mod star;
pub mod tree;
pub mod verdicts;

pub use rng::Rng;
pub use smooth::path_length;
