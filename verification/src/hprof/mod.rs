//! HPROF heap dumps: byte reader, tag table, object graph and parsers.

pub mod reader;
pub mod tags;
pub mod object_graph;
pub mod fields;
pub mod binary_parser;
pub mod overview;
pub mod overview_parser;
