//! An object query language over the heap: types, parser and evaluation.

pub mod types;
pub mod parser;
pub mod synth;
pub mod semantics;
pub mod executor;
