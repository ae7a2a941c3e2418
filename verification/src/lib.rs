//! A DNS message codec following RFC 1035: queries are serialized to the wire
//! format, and response buffers are decoded into structured messages, with
//! domain-name compression handling and typed resource-record payloads.
//!
//! The codec performs no I/O itself.  Callers supply a fully buffered byte
//! sequence; decoding works on an index into that buffer, since compression
//! pointers require random access to absolute offsets from the buffer start.

pub mod error;
pub mod header;
pub mod message;
pub mod name;
pub mod question;
pub mod record;
pub mod resolver;
pub mod text;
pub mod wire;
