//! A rank-bucketed intrusive priority queue for a reactive scheduler.
//!
//! Items live in a caller-owned arena (`Vec<A>` with `A: PqElement`); each
//! item carries its own link record, and the queue keeps one FIFO bucket per
//! numeric rank plus one bucket for deferred (effect) items.
pub mod element;
pub mod laws;
pub mod list;
pub mod queue;

pub use element::{PqElement, PqElementData, PqRank};
pub use queue::InstrusiveIndexedPriorityQueue;
