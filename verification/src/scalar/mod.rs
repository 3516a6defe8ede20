pub mod big;
pub mod consts;
pub mod convert;
pub mod decimal;
pub mod divide;
pub mod fixed;
pub mod formula;
pub mod number;
pub mod near;
pub mod order;
pub mod root;
pub mod rounding;
pub mod shift;
pub mod show;
pub mod single;
pub mod vec3;

pub use number::Scalar;
pub use single::Single;
pub use vec3::Vec3;
