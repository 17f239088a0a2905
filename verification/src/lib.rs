//! Constraint planning for package builds: outlines are composed into a
//! dependency graph, defaults are inherited along it, option types are
//! inferred, and the whole is lowered to an optimisation problem whose
//! answer is decoded back into a plan.

pub mod package;
pub mod solver;
pub mod spec;
pub mod util;
