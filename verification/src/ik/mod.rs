//! Inverse kinematics: damped steps with restarts, redundancy, and the choice among
//! closed-form branches. What needs matrices or trigonometry is answered by functions
//! handed in.

pub mod branches;
pub mod rates;
pub mod redundancy;
pub mod solve;
pub mod steps;
pub mod wrist;

pub use redundancy::{
    joint_limit_avoidance_gradient, nullspace_step, resolved_rate, RedundancyOpts,
};
pub use solve::{ik, IkOpts, IkResult};
