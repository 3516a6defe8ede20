//! The robot model: a description is compiled once to movable joints in
//! topological order, with fixed joints folded away and every link kept as a
//! frame.

pub mod error;
pub mod compile;
pub mod config;
pub mod following;
pub mod gripper;
pub mod hull;
pub mod mesh;
pub mod meshname;
pub mod reading;
pub mod shape;
pub mod stl;
pub mod tree;
pub mod urdf;

pub use error::CompileError;
pub use compile::{JointKind, MimicInfo, Model};
pub use config::Robot;
