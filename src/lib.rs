//! A per-connection bridge between a peer's byte stream and the local engine's
//! message queues: a framed codec, and the decisions of the two relay loops.
pub mod error;
pub mod frame;
pub mod relay;
