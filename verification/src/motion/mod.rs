//! Trajectories, planned ahead: jerk-limited and time-optimal timing of joint moves
//! and waypoint paths, and the decisions of Cartesian moves.

pub mod arcs;
pub mod arrival;
pub mod blends;
pub mod cartesian;
pub mod circles;
pub mod distance;
pub mod error;
pub mod limits;
pub mod movej;
pub mod pace;
pub mod polynomials;
pub mod poses;
pub mod retime;
pub mod scurve;
pub mod shape;
pub mod topp;
pub mod trajectory;
pub mod within;

pub use cartesian::{MoveLMode, OnFailure};
pub use error::MotionError;
pub use limits::{JointOverride, MotionLimits, MotionLimitsConfig};
pub use poses::{NamedPose, PoseLibrary};
pub use scurve::ScurveProfile;
pub use trajectory::{TrajKind, TrajState, Trajectory};
