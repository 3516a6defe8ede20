//! A minimal xacro expander: properties, numeric expressions, macros with block
//! parameters, conditionals, includes and `$(find ..)`. Whatever lies outside
//! that subset is rejected with an error that names the construct.

pub mod arithmetic;
pub mod detect;
pub mod env;
pub mod error;
pub mod expand;
pub mod expr;
pub mod laws;
pub mod reread;
pub mod rules;
pub mod settled;
pub mod subst;
pub mod tidy;
pub mod world;
pub mod write;
pub mod xml;

pub use detect::is_xacro;
pub use error::XacroError;
pub use expand::{expand, Expansion};
pub use world::{resolve_package_dir, Request, World};
