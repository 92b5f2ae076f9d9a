//! A verified HTTP/1.1 message codec with the per-connection decision logic
//! around it: a request decoder from raw bytes, a response encoder to wire
//! bytes (optionally gzip-compressed), and the keep-alive negotiation that a
//! connection loop needs.

pub mod bytesx;
pub mod conn;
pub mod decode;
pub mod encode;
pub mod headers;
