//! Core of a small restaurant network service: an HTTP method type, a
//! hierarchical path-matching router that resolves a (method, path) pair to a
//! registered handler while capturing dynamic path segments, the pure parts of
//! the connection dispatcher (request-line parsing, response framing), and the
//! pure parts of the persistence layer (statement text construction and row
//! conversion). All I/O — sockets, worker threads, the database connection,
//! JSON encoding — stands with the callers of this crate.

pub mod method;
pub mod text;
pub mod router;
pub mod laws;
pub mod routes;
pub mod models;
pub mod dispatch;
pub mod pool;
