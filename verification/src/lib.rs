//! Verified cores of a set of systems-programming exercises: a RESP2 codec,
//! a length-prefixed frame codec, a packed record header, a task store's
//! text format and commands, a line diff, an arithmetic lexer and parser,
//! endian-aware records, the field rules of a tagged message, a chunked
//! parallel sum and the decisions of two thread-coordination loops.
pub mod decimal;
pub mod text;
pub mod resp;
pub mod todo;
pub mod record;
pub mod codec;
pub mod diff;
pub mod endian;
pub mod chunked_sum;
pub mod calc;
pub mod message;
pub mod progress;
