//! Analysis modes and provenance markers shared by summaries and policies.

use vstd::prelude::*;
use crate::heap::HeapSummary;

verus! {

/// How a heap was analysed: the full object graph, or a bounded overview.
#[derive(Debug, Clone, Copy, PartialEq, Eq, Structural)]
pub enum AnalysisMode {
    /// Chosen from the heap's size.
    Auto,
    Deep,
    Overview,
}

/// Kinds of data that did not come from a complete decode.
#[derive(Debug, Clone, Copy, PartialEq, Eq, Structural)]
pub enum ProvenanceKind {
    Synthetic,
    Partial,
    Fallback,
    Placeholder,
}

/// A mark on a result saying where part of it came from.
#[derive(Debug, Clone, PartialEq, Eq)]
pub struct ProvenanceMarker {
    pub kind: ProvenanceKind,
    pub detail: Option<String>,
}

impl ProvenanceMarker {
    /// A marker with an explanation.
    pub fn new(kind: ProvenanceKind, detail: &str) -> (m: Self)
        ensures
            m.kind == kind,
            m.detail matches Some(d) && d@ == detail@,
    {
        ProvenanceMarker { kind, detail: Some(detail.to_owned()) }
    }

    /// A marker without an explanation.
    pub fn bare(kind: ProvenanceKind) -> (m: Self)
        ensures
            m.kind == kind,
            m.detail is None,
    {
        ProvenanceMarker { kind, detail: None }
    }
}

/// A leak candidate as the session and tool layers read it: its identifier,
/// the class it concerns, its sizes and count, and what it says of itself.
#[derive(Debug, Clone, PartialEq, Eq)]
pub struct LeakInsight {
    pub id: String,
    pub class_name: String,
    pub retained_size_bytes: u64,
    pub shallow_size_bytes: Option<u64>,
    pub instances: u64,
    pub description: String,
    pub provenance: Vec<ProvenanceMarker>,
}

/// One question and the summary of its answer in an AI conversation.
#[derive(Debug, Clone, PartialEq, Eq)]
pub struct AiChatTurn {
    pub question: String,
    pub answer_summary: String,
}

/// The parts of a full analysis that policies read: the heap summary and
/// the provenance of the result.
#[derive(Debug, Clone, PartialEq, Eq)]
pub struct AnalyzeResponse {
    pub mode: AnalysisMode,
    pub summary: HeapSummary,
    pub provenance: Vec<ProvenanceMarker>,
}

} // verus!
