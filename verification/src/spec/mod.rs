//! The values that options take and the types that they have.

pub mod spec_option;

pub use spec_option::{SpecOption, SpecOptionType, SpecOptionValue, ValueView};
