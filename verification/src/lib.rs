//! Consolidates overlapping copies of the same append-only chat-log archive
//! into one canonical, time-ordered, duplicate-free archive per conversation.
//!
//! The core is a windowed k-way merge-deduplication engine: streams are read
//! strictly forward, and a message is only committed to the output once no
//! still-active stream can yield a message close enough in time to be a
//! duplicate of it.

pub mod catalog;
pub mod codec;
pub mod engine;
pub mod laws;
pub mod message;
pub mod model;
pub mod render;
pub mod report;
pub mod tab;
