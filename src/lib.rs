//! Paged key/value cache management for LLM inference: block addressing,
//! batch preparation for prefill and decode steps, and block transfers
//! between cache buffers, each stated and proved with Verus.
pub mod addressing;
pub mod engine;
pub mod prepare;
pub mod sequence;
pub mod transfer;
