//! The constraints that an outline can state.

pub mod checking;
pub mod clause;
pub mod kinds;
pub mod tree;
pub mod typing;

pub use kinds::{CmpType, ConstraintType, SOFT_PACKAGE_WEIGHT};
pub use tree::{Cmp, Constraint, Depends, IfThen, Maximize, Minimize, NumOf, SpecOption, Value};
