//! The core of a small HTTP/1.1 server: request framing, routing and response
//! serialization over plain bytes.
pub mod text;
pub mod headers;
pub mod request;
pub mod response;
pub mod router;
pub mod connection;
