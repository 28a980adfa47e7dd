//! Core of a pipelined HTTP/1.x server: an incremental request parser, a
//! response serializer, a per-connection ordering queue, a cached `Date`
//! header and the connection state machine that ties them together.

pub mod bytes;
pub mod connection;
pub mod date;
pub mod pipeline;
pub mod number;
pub mod request;
pub mod response;
pub mod roundtrip;
pub mod server;
