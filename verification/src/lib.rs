//! Value-level codec for structured HTTP header values: a byte-cursor grammar
//! reader, the conversion contract between wire bytes and typed values, shared
//! serialization helpers, and the transfer-coding codec built on them.

pub mod grammar;
pub mod syntax;
pub mod reader;
pub mod serialization_utils;
pub mod round_trip;
pub mod convert;
pub mod transfer_encoding;
