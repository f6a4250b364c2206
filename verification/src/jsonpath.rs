//! Paths into a value: their syntax, their text form and their evaluation.

pub mod path;
pub mod parser;
pub mod selector;
