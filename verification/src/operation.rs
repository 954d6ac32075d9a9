//! Progress observation and cooperative cancellation of long operations.

use vstd::prelude::*;
use std::sync::Arc;
use std::sync::atomic::AtomicBool;

verus! {

/// Phases that operations report.
#[derive(Debug, Clone, Copy, PartialEq, Eq, Structural)]
pub enum OperationPhase {
    Accepted,
    Opening,
    Parsing,
    BuildingGraph,
    ComputingDominators,
    Analyzing,
    Rendering,
    Committing,
    Cancelling,
    Cancelled,
    Complete,
    Failed,
}

/// A progress report.
#[derive(Debug, Clone, PartialEq, Eq)]
pub struct OperationProgressSnapshot {
    pub phase: OperationPhase,
    pub completed: Option<u64>,
    pub total: Option<u64>,
    pub unit: Option<String>,
    pub indeterminate: bool,
    pub elapsed_ms: u64,
}

/// A cancellation signal that its clones share.
#[derive(Debug, Clone)]
pub struct CancellationToken {
    cancelled: Arc<AtomicBool>,
}

impl CancellationToken {
    /// A token not yet cancelled.
    pub fn new() -> (t: Self) {
        CancellationToken { cancelled: Arc::new(AtomicBool::new(false)) }
    }

    /// Cancels this token and every clone of it.
    pub fn cancel(&self) {
        self.cancelled.store(true, std::sync::atomic::Ordering::Release)
    }

    /// Whether this token or a clone of it was cancelled; another holder
    /// may cancel at any moment, so nothing is claimed of the answer.
    pub fn is_cancelled(&self) -> (b: bool) {
        self.cancelled.load(std::sync::atomic::Ordering::Acquire)
    }
}

impl Default for CancellationToken {
    fn default() -> (t: Self) {
        CancellationToken::new()
    }
}

/// Receives progress reports and tells whether to stop.
pub trait OperationObserver {
    fn progress(&self, event: OperationProgressSnapshot);

    fn is_cancelled(&self) -> bool;
}

/// An observer that ignores progress and never cancels.
#[derive(Debug, Clone, Copy, Default)]
pub struct NoopOperationObserver;

impl OperationObserver for NoopOperationObserver {
    fn progress(&self, event: OperationProgressSnapshot) {
    }

    fn is_cancelled(&self) -> (b: bool) {
        false
    }
}

} // verus!
