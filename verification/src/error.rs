//! The error taxonomy shared by every store operation.

use vstd::prelude::*;

verus! {

/// The error kinds a store operation can report.
///
/// Backend failures are never downgraded to success; decorators pass these
/// through unchanged.
#[derive(Debug, Clone, PartialEq, Eq)]
pub enum Error {
    /// The object was not found at the given location.
    NotFound { path: String },
    /// An object already exists at the given location.
    AlreadyExists { path: String },
    /// The supplied string is not a valid path.
    InvalidPath { raw: String },
    /// A conditional check (e_tag / version) failed.
    Precondition { path: String },
    /// A conditional get short-circuited: the object was not modified.
    NotModified { path: String },
    /// The operation is not available on this backend.
    NotSupported,
    /// The backend denied access to the object.
    PermissionDenied { path: String },
    /// The request lacked valid credentials.
    Unauthenticated { path: String },
    /// A configuration key was not recognised.
    UnknownConfigurationKey { key: String },
    /// A backend-specific error, wrapped as a message.
    Generic { message: String },
    /// A concurrent task failed inside the task system.
    JoinError,
    /// A one-shot result was used after it had already been consumed.
    AlreadyConsumed,
}

impl Error {
    /// A short, stable label naming the error kind.
    pub fn label(&self) -> (r: &'static str)
        ensures
            r@ == self.spec_label(),
    {
        match self {
            Error::NotFound { .. } => "not_found",
            Error::AlreadyExists { .. } => "already_exists",
            Error::InvalidPath { .. } => "invalid_path",
            Error::Precondition { .. } => "precondition",
            Error::NotModified { .. } => "not_modified",
            Error::NotSupported => "not_supported",
            Error::PermissionDenied { .. } => "permission_denied",
            Error::Unauthenticated { .. } => "unauthenticated",
            Error::UnknownConfigurationKey { .. } => "unknown_configuration_key",
            Error::Generic { .. } => "generic",
            Error::JoinError => "join_error",
            Error::AlreadyConsumed => "already_consumed",
        }
    }

    /// The label each kind carries, as a sequence of characters.
    pub open spec fn spec_label(&self) -> Seq<char> {
        match self {
            Error::NotFound { .. } => "not_found"@,
            Error::AlreadyExists { .. } => "already_exists"@,
            Error::InvalidPath { .. } => "invalid_path"@,
            Error::Precondition { .. } => "precondition"@,
            Error::NotModified { .. } => "not_modified"@,
            Error::NotSupported => "not_supported"@,
            Error::PermissionDenied { .. } => "permission_denied"@,
            Error::Unauthenticated { .. } => "unauthenticated"@,
            Error::UnknownConfigurationKey { .. } => "unknown_configuration_key"@,
            Error::Generic { .. } => "generic"@,
            Error::JoinError => "join_error"@,
            Error::AlreadyConsumed => "already_consumed"@,
        }
    }
}

} // verus!
