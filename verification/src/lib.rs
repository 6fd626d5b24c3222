//! An append-only, log-structured message store.
//!
//! Messages are packed as CRC-framed chunks into fixed-size blocks inside
//! segment files; a topic chains segments into one ordered stream.

pub mod codec;
pub mod segment;
pub mod topic;
