//! The problem that is put to the solver, and the answer that comes back.

pub mod engine;
pub mod meaning;
pub mod problem;
pub mod solve;
pub mod term;

pub use term::{Sort, Term, TermView};
