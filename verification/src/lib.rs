pub mod hal;
pub mod ik;
pub mod kinematics;
pub mod model;
pub mod motion;
pub mod planning;
pub mod scalar;
pub mod script;
pub mod text;
pub mod xacro;
