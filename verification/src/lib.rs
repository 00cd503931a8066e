//! Trace reporting for a local tracing agent: the span model, its projection
//! onto wire records, the MessagePack framing of a batch, the chain of
//! versioned endpoints, and the decisions of the batching and retry loops.

pub mod batcher;
pub mod endpoint;
pub mod model;
pub mod projection;
pub mod reading;
pub mod transport;
pub mod wire;

pub use crate::model::{Config, ErrorInfo, HttpInfo, Span, SqlInfo, Trace};
