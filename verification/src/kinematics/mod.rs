//! What forward kinematics gives, judged: singularities, path quality, and lints.
//! Poses, Jacobians and their decompositions come from outside.

pub mod chains;
pub mod columns;
pub mod findings;
pub mod fk;
pub mod governor;
pub mod jacobian;
pub mod lint;
pub mod measures;
pub mod message;
pub mod metrics;
pub mod report;
pub mod singular;

pub use lint::{Finding, LintSeverity};
pub use report::PathReport;
pub use singular::{JacFrame, SingularityKind};
