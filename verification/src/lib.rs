//! Core of a small networked document-archive service: a byte-exact wire
//! codec for requests and responses, a lock-sharded concurrent multimap, an
//! in-memory document archive, and the request-dispatch logic of the server.
//!
//! Everything here is verified; the process entry point, sockets, signal
//! handling and the worker threads live outside this crate and hand plain
//! values in and out.

pub mod archive;
pub mod message;
pub mod multimap;
pub mod server;
