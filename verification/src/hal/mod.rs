//! Hardware abstraction: the backend contract, wire codecs, and the safety and
//! control stack around them. Nothing here reads a clock: time is `tick * dt`.

pub mod backend;
pub mod bytes;
pub mod can_mks;
pub mod control;
pub mod crc;
pub mod dynamixel;
pub mod error;
pub mod guarding;
pub mod mapping;
pub mod physics;
pub mod recorder;
pub mod remote;
pub mod safety;
pub mod schedule;
pub mod setpoint;
pub mod sim;
pub mod statistics;
pub mod teleop;
pub mod tracking;

pub use backend::{ControlMode, JointState, RobotBackend};
pub use error::Error;
pub use sim::SimBackend;
