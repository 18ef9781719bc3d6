//! A double-buffering copy pipeline: bytes move from a producer to a consumer
//! through two caller-supplied buffers, so that the next chunk can be fetched
//! while the previous one is being flushed.
//!
//! The pipeline, its per-step decision logic, and a set of in-memory
//! endpoints are verified: the copy is proved to terminate, to succeed
//! outright when neither side can fail, to hand the consumer chunk for chunk
//! exactly what the producer's reads returned, in order, and to stop at the
//! first failure with nothing retried. An embedding that drives the same
//! decisions over an actual concurrent join lives outside the verified core.

pub mod mem;
pub mod pipeline;
pub mod step;
pub mod stream;
