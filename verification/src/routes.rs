//! The requests that the service answers, one module each.
pub mod get_file;
