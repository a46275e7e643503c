//! Commit logs, kept in segments.
pub mod laws;
pub mod log;
pub mod utils;

pub use log::{CommitLog, Entry, LogState, Position, SegmentState};
pub use utils::Storage;
