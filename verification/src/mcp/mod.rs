//! The model-context-protocol service: its options and the persistence of
//! AI sessions.

pub mod session;

use vstd::prelude::*;

verus! {

/// Where the service listens (informational: it speaks over stdio).
#[derive(Debug, Clone, PartialEq, Eq)]
pub struct McpServerOptions {
    pub host: String,
    pub port: u16,
}

impl Default for McpServerOptions {
    fn default() -> (o: Self)
        ensures
            o.host@.len() == 0,
            o.port == 0,
    {
        McpServerOptions { host: String::new(), port: 0 }
    }
}

} // verus!
pub mod server;
pub mod artifact;
pub mod dispatch;
pub mod catalog;
