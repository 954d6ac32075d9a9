//! Graph analyses over a decoded heap: dominators and retained sizes,
//! paths to GC roots, histograms and unreachable objects.

pub mod dominator;
pub mod gc_root_path;
pub mod metrics;
