//! Packages: their versions, outlines, constraints, and the registry that a
//! solve fills; and the option strings by which a user asks for them.

pub mod constraint;
pub mod defaults;
pub mod error;
pub mod graph;
pub mod order;
pub mod outline;
pub mod plan;
pub mod planner;
pub mod registry;
pub mod spec;
pub mod version;
