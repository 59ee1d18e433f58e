//! Input-range maps.
//!
//! A coverage map answers "was this edge hit, and roughly how often?". An input-range map
//! answers "what values flowed through this edge?": each entry is one byte that packs the
//! lowest and the highest value bucket seen at that edge.
pub mod campaign;
pub mod entry;
pub mod feedback;
pub mod harness;
pub mod laws;
pub mod observer;
pub mod range_observer;
pub mod storage;
pub mod text;
pub mod trace;
