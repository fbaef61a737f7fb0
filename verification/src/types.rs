//! The value types shared by every store operation.

use vstd::prelude::*;

use crate::path::Path;

verus! {

/// The metadata of a stored object. Never partially populated: absent
/// optional fields are `None`, not sentinel values.
#[derive(Debug)]
pub struct ObjectMeta {
    /// Where the object lives.
    pub location: Path,
    /// When the object was last written, as a logical timestamp.
    pub last_modified: u64,
    /// The size of the object in bytes.
    pub size: u64,
    /// The entity tag of this object version, if the backend reports one.
    pub e_tag: Option<String>,
    /// A backend version identifier, if the backend reports one.
    pub version: Option<String>,
}

/// One page of delimiter-bounded, non-recursive listing.
#[derive(Debug)]
pub struct ListResult {
    /// The distinct "directories" directly below the listed prefix.
    pub common_prefixes: Vec<Path>,
    /// The objects directly below the listed prefix.
    pub objects: Vec<ObjectMeta>,
}

/// The post-condition of a successful write, used for optimistic
/// concurrency follow-ups.
#[derive(Debug)]
pub struct PutResult {
    /// The entity tag of the written version, if the backend reports one.
    pub e_tag: Option<String>,
    /// A backend version identifier, if the backend reports one.
    pub version: Option<String>,
}

/// The version an update-if-matches write must find in place.
#[derive(Debug)]
pub struct UpdateVersion {
    /// The entity tag the current object must carry.
    pub e_tag: Option<String>,
    /// The version identifier the current object must carry.
    pub version: Option<String>,
}

/// How a write treats an existing object at the same location.
#[derive(Debug)]
pub enum PutMode {
    /// Fail with `AlreadyExists` if an object is already there.
    Create,
    /// Replace whatever is there, unconditionally.
    Overwrite,
    /// Fail with `Precondition` unless the current version matches.
    Update(UpdateVersion),
}

/// The conditions of a conditional retrieval.
#[derive(Debug)]
pub struct GetOptions {
    /// Proceed only if the current entity tag matches.
    pub if_match: Option<String>,
    /// Short-circuit with `NotModified` if the current entity tag matches.
    pub if_none_match: Option<String>,
    /// Short-circuit with `NotModified` unless modified since this time.
    pub if_modified_since: Option<u64>,
    /// Proceed only if not modified since this time.
    pub if_unmodified_since: Option<u64>,
    /// Retrieve this specific version where the backend supports it.
    pub version: Option<String>,
    /// Return the metadata without the body.
    pub head: bool,
}

impl GetOptions {
    /// The unconditional retrieval.
    pub fn plain() -> (r: GetOptions)
        ensures
            r.if_match is None,
            r.if_none_match is None,
            r.if_modified_since is None,
            r.if_unmodified_since is None,
            r.version is None,
            !r.head,
    {
        GetOptions {
            if_match: None,
            if_none_match: None,
            if_modified_since: None,
            if_unmodified_since: None,
            version: None,
            head: false,
        }
    }
}

/// What a retrieval returns: the metadata, and the body unless the request
/// was head-only.
#[derive(Debug)]
pub struct GetResult {
    /// The object's metadata.
    pub meta: ObjectMeta,
    /// The object's bytes; empty for a head-only request.
    pub data: Vec<u8>,
}

/// A one-shot retrieval result: the body can be taken exactly once.
/// Taking it again is a programming-contract violation, reported as the
/// distinct `AlreadyConsumed` kind rather than a backend error.
#[derive(Debug)]
pub struct OneShotResult {
    inner: Option<GetResult>,
}

impl OneShotResult {
    /// Whether the result is still available.
    pub closed spec fn is_available(&self) -> bool {
        self.inner is Some
    }

    /// The result held, where it is still available.
    pub closed spec fn held(&self) -> GetResult {
        self.inner->0
    }

    /// Wrap a retrieval result for one-time consumption.
    pub fn new(result: GetResult) -> (r: OneShotResult)
        ensures
            r.is_available(),
            r.held() == result,
    {
        OneShotResult { inner: Some(result) }
    }

    /// Take the result. The first call yields it; every later call
    /// reports `AlreadyConsumed`.
    pub fn take(&mut self) -> (r: Result<GetResult, crate::error::Error>)
        ensures
            !final(self).is_available(),
            match r {
                Ok(g) => old(self).is_available() && g == old(self).held(),
                Err(e) => !old(self).is_available() && e is AlreadyConsumed,
            },
    {
        match self.inner.take() {
            Some(g) => Ok(g),
            None => Err(crate::error::Error::AlreadyConsumed),
        }
    }
}

} // verus!
