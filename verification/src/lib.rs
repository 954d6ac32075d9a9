//! Core library of a JVM heap-dump analyzer: HPROF decoding, the object
//! graph, dominators and reachability, an object query language, and CI
//! policy evaluation.

pub mod analysis;
pub mod errors;
pub mod graph;
pub mod heap;
pub mod mapper;
pub mod hprof;
pub mod llm;
pub mod mcp;
pub mod operation;
pub mod pattern;
pub mod plugin;
pub mod policy;
pub mod prompts;
pub mod query;
pub mod text;
pub mod util;
