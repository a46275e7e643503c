//! What a value weighs in a log.
pub mod serde;

pub use serde::Storage;
