//! A verified segment accountant for a log-structured page store.
//!
//! The log is sliced into fixed-size segments. The accountant decides where
//! the next segment is written, which pages should be rewritten so that a
//! sparse segment can be reclaimed, and when a segment may be reused.
pub mod accountant;
pub mod config;
pub mod invariants;
pub mod laws;
pub mod log;
pub mod model;
pub mod recovery;
pub mod segment;
pub mod snapshot;

pub use crate::config::{Config, LogID, Lsn, PageID};
pub use crate::segment::{Segment, SegmentView};
pub use crate::log::{LogRead, LogSegment};
pub use crate::model::State;
pub use crate::accountant::SegmentAccountant;
