//! The closed set of storage backends.
//!
//! Which concrete store a handle wraps is carried as a tag chosen at
//! construction, never re-derived from an opaque handle at run time.

use vstd::prelude::*;

use crate::error::Error;
use crate::list::{chars_starts_with, starts_with_seq};
use crate::text::str_to_chars;

verus! {

/// A concrete storage provider.
#[derive(Debug, Copy, Clone, PartialEq, Eq, Structural)]
pub enum Backend {
    /// An S3-compatible store.
    S3,
    /// An Azure blob store.
    Azure,
    /// A Google Cloud Storage store.
    Gcs,
    /// A plain HTTP store.
    Http,
    /// The local file system.
    Local,
    /// The in-memory store.
    Memory,
}

impl Backend {
    /// Whether the backend supports true server-side pagination with a
    /// resumable page token. The others are listed in full and filtered
    /// client-side.
    pub fn supports_pagination(&self) -> (r: bool)
        ensures
            r == (*self is S3 || *self is Azure || *self is Gcs),
    {
        match self {
            Backend::S3 => true,
            Backend::Azure => true,
            Backend::Gcs => true,
            Backend::Http => false,
            Backend::Local => false,
            Backend::Memory => false,
        }
    }

    /// Whether a builder for this backend takes configuration keys. The
    /// http, local and memory backends refuse them.
    pub fn accepts_config(&self) -> (r: bool)
        ensures
            r == (*self is S3 || *self is Azure || *self is Gcs),
    {
        match self {
            Backend::S3 => true,
            Backend::Azure => true,
            Backend::Gcs => true,
            Backend::Http => false,
            Backend::Local => false,
            Backend::Memory => false,
        }
    }
}

/// The backend a URL names, decided by its scheme prefix.
pub open spec fn spec_backend_of(url: Seq<char>) -> Option<Backend> {
    if starts_with_seq(url, "s3://"@) {
        Some(Backend::S3)
    } else if starts_with_seq(url, "gs://"@) {
        Some(Backend::Gcs)
    } else if starts_with_seq(url, "az://"@) {
        Some(Backend::Azure)
    } else if starts_with_seq(url, "http://"@) || starts_with_seq(url, "https://"@) {
        Some(Backend::Http)
    } else if starts_with_seq(url, "file://"@) {
        Some(Backend::Local)
    } else if starts_with_seq(url, "memory://"@) {
        Some(Backend::Memory)
    } else {
        None
    }
}

/// Decide the backend from a URL's scheme, refusing unknown schemes.
pub fn backend_of_url(url: &str) -> (r: Result<Backend, Error>)
    ensures
        match r {
            Ok(b) => spec_backend_of(url@) == Some(b),
            Err(e) => spec_backend_of(url@) is None && e matches Error::Generic { .. },
        },
{
    let chars = str_to_chars(url);
    if chars_starts_with(&chars, &str_to_chars("s3://")) {
        Ok(Backend::S3)
    } else if chars_starts_with(&chars, &str_to_chars("gs://")) {
        Ok(Backend::Gcs)
    } else if chars_starts_with(&chars, &str_to_chars("az://")) {
        Ok(Backend::Azure)
    } else if chars_starts_with(&chars, &str_to_chars("http://")) || chars_starts_with(
        &chars,
        &str_to_chars("https://"),
    ) {
        Ok(Backend::Http)
    } else if chars_starts_with(&chars, &str_to_chars("file://")) {
        Ok(Backend::Local)
    } else if chars_starts_with(&chars, &str_to_chars("memory://")) {
        Ok(Backend::Memory)
    } else {
        Err(Error::Generic { message: String::from_str("unknown URL scheme") })
    }
}

} // verus!
