//! Helpers that the planner itself does not depend on.

pub mod parse;
pub mod text;
