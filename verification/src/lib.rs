//! A uniform abstraction over object storage backends.
//!
//! The crate centres on a normalized, slash-delimited [`path::Path`] type, an
//! in-memory [`memory::MemoryStore`] backend with conditional writes, a
//! prefix-rewriting decorator, a chunked listing engine and a multipart
//! upload planner with bounded concurrency.

pub mod backend;
pub mod config;
pub mod error;
pub mod instrument;
pub mod list;
pub mod memory;
pub mod metrics;
pub mod multipart;
pub mod path;
pub mod prefix;
pub mod retry;
pub mod text;
pub mod types;

pub use error::Error;
