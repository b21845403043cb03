//! An incremental codec for the Redis Serialization Protocol (RESP).
//!
//! `types` holds the value model; `grammar` the wire format as spec
//! functions, for decoding and for encoding; `parse` the parser over a byte
//! slice; `resume` the model of an array message in progress; `asyncresp` the
//! codec that drains a growing `bytes::BytesMut` buffer, resuming a message
//! across calls, and writes values into one; `laws` what holds between
//! encoding and decoding, and between a buffer and a longer one.
pub mod types;
pub mod grammar;
pub mod parse;
pub mod asyncresp;
pub mod laws;
pub mod resume;
