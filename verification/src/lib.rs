//! Incremental HTTP/1.1 message framing over plain byte buffers.

pub mod chunk_reader;
pub mod headers;
pub mod request;
pub mod request_line;
pub mod response;
pub mod scan;
pub mod server;
pub mod text;
