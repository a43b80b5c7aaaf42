//! The RESP wire protocol: frames, their encoding and incremental parsing.
pub mod resp;

pub use resp::Value;
