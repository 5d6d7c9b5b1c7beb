//! RESP2, the protocol Redis speaks: frames, their wire encoding, a parser
//! that reports how many bytes a frame took, and a buffering decoder.
pub mod decoder;
pub mod encoder;
pub mod error;
pub mod frame;
pub mod laws;
pub mod parser;
pub mod server;
