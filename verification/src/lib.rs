//! Message chunking and reassembly for a broadcast transport with a fixed
//! payload cap: splitting oversized messages into ordered fragments,
//! collecting inbound fragments per message id, detecting completion,
//! reassembling, and evicting abandoned partial buffers.

pub mod bridge;
pub mod chunk;
pub mod collector;
pub mod encoder;
pub mod engine;
pub mod laws;
pub mod message;
