//! The library's error type.

use vstd::prelude::*;

verus! {

/// Failures reported by the library's parsers, checkers and evaluators.
#[derive(Debug, Clone, PartialEq, Eq)]
pub enum CoreError {
    /// The input ended before a field that the format requires.
    UnexpectedEof,
    /// The input is well-formed at the byte level but not acceptable.
    InvalidInput(String),
    /// The input uses a feature that this library does not handle.
    Unsupported(String),
    /// A heap dump could not be decoded in the named phase.
    HprofParseError { phase: String, detail: String },
    /// A configuration or policy document is not acceptable.
    ConfigError { detail: String, suggestion: Option<String> },
    /// A feature exists in the format but is not handled yet.
    NotImplemented(String),
    /// An I/O failure, by its description.
    Io(String),
    /// A file that does not exist, with advice.
    FileNotFound { path: String, suggestion: Option<String> },
    /// A file that is not a heap dump.
    NotAnHprof { path: String, detail: String },
    /// A language-model provider answered with an error.
    AiProviderError { detail: String, status: Option<u16> },
    /// A language-model provider did not answer in time.
    AiProviderTimeout { detail: String },
    /// A feature that needs the full object graph.
    FeatureUnavailableInOverviewMode { feature: String, hint: String },
    /// A JSON document could not be read, by the parser's description.
    SerdeJson(String),
    /// Any other failure, by its description.
    Other(String),
}

pub type CoreResult<T> = Result<T, CoreError>;

} // verus!
