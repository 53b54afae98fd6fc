//! Serving files out of per-user storage.
//!
//! A request names a file by an untrusted relative path. The resolver
//! turns that path, the authenticated identity and the storage root into one
//! path inside the identity's own subtree, or rejects the request; it never
//! touches the filesystem. The route holds the decisions of one request:
//! what to open, and what to answer once the outcome of the open is known.
pub mod content;
pub mod error;
pub mod guarantees;
pub mod resolver;
pub mod routes;
pub mod segments;
pub mod text;
