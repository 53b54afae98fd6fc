//! The ways in which a request for a file can fail.
use vstd::prelude::*;

verus! {

/// Why a request was not answered with the file.
#[derive(Clone, Copy, Debug, PartialEq, Eq, Structural, Hash)]
pub enum FileError {
    /// The requested path is empty, absolute, or climbs out of the
    /// identity's subtree. The client's fault.
    InvalidPath,
    /// The path is valid, but no file is there. The client's fault.
    NotFound,
    /// The file could not be read for any other reason. The server's fault.
    Internal,
}

/// Why the operating system refused to open a file, as far as the answer
/// depends on it.
#[derive(Clone, Copy, Debug, PartialEq, Eq, Structural, Hash)]
pub enum OpenFailure {
    /// Nothing exists at the path.
    NotFound,
    /// The file exists, but the server may not read it.
    PermissionDenied,
    /// Anything else: too many open files, a failing disk, an interrupted call.
    Other,
}

/// Status of an answer that carries the file.
pub const STATUS_OK: u16 = 200;

/// Status of an answer to a path that was rejected.
pub const STATUS_FORBIDDEN: u16 = 403;

/// Status of an answer to a valid path with no file behind it.
pub const STATUS_NOT_FOUND: u16 = 404;

/// Status of an answer after a failure on the server's side.
pub const STATUS_INTERNAL: u16 = 500;

impl FileError {
    /// The status code that stands for this error.
    pub open spec fn spec_status(self) -> u16 {
        match self {
            FileError::InvalidPath => STATUS_FORBIDDEN,
            FileError::NotFound => STATUS_NOT_FOUND,
            FileError::Internal => STATUS_INTERNAL,
        }
    }

    /// Whether the client, not the server, caused the error.
    pub open spec fn spec_is_client_error(self) -> bool {
        self != FileError::Internal
    }

    /// The error that a failed open is reported as: a missing file as
    /// `NotFound`, every other failure as `Internal`.
    pub open spec fn spec_from_open_failure(failure: OpenFailure) -> FileError {
        if failure == OpenFailure::NotFound {
            FileError::NotFound
        } else {
            FileError::Internal
        }
    }

    /// What the client is told: which of the three errors it was, and
    /// nothing about the request or the failure behind it.
    pub open spec fn spec_message(self) -> Seq<char> {
        match self {
            FileError::InvalidPath => "invalid path"@,
            FileError::NotFound => "not found"@,
            FileError::Internal => "internal error"@,
        }
    }

    /// The HTTP status code of the answer: 403, 404 or 500.
    pub fn status(&self) -> (code: u16)
        ensures
            code == self.spec_status(),
            400 <= code < 600,
            self.spec_is_client_error() <==> code < 500,
    {
        match self {
            FileError::InvalidPath => STATUS_FORBIDDEN,
            FileError::NotFound => STATUS_NOT_FOUND,
            FileError::Internal => STATUS_INTERNAL,
        }
    }

    /// Whether the client, not the server, caused the error. Such a request
    /// fails the same way however often it is repeated.
    pub fn is_client_error(&self) -> (b: bool)
        ensures
            b == self.spec_is_client_error(),
    {
        match self {
            FileError::Internal => false,
            _ => true,
        }
    }

    /// The text of the answer's body. It is fixed for each error, so no
    /// path, no name and no reason given by the operating system can reach
    /// the client through it.
    pub fn message(&self) -> (text: &'static str)
        ensures
            text@ == self.spec_message(),
    {
        match self {
            FileError::InvalidPath => "invalid path",
            FileError::NotFound => "not found",
            FileError::Internal => "internal error",
        }
    }

    /// Classifies a failed open.
    pub fn from_open_failure(failure: OpenFailure) -> (error: FileError)
        ensures
            error == Self::spec_from_open_failure(failure),
            error != FileError::InvalidPath,
            error == FileError::NotFound <==> failure == OpenFailure::NotFound,
    {
        match failure {
            OpenFailure::NotFound => FileError::NotFound,
            _ => FileError::Internal,
        }
    }
}

/// A missing file is reported as `NotFound`, never as `Internal`; every
/// other failure to open is reported as `Internal`; and no failure to open
/// is blamed on the path.
pub proof fn lemma_open_failures_classified(failure: OpenFailure)
    ensures
        failure == OpenFailure::NotFound ==> FileError::spec_from_open_failure(failure)
            == FileError::NotFound,
        failure != OpenFailure::NotFound ==> FileError::spec_from_open_failure(failure)
            == FileError::Internal,
        FileError::spec_from_open_failure(failure) != FileError::InvalidPath,
        FileError::spec_from_open_failure(failure).spec_status() == if failure
            == OpenFailure::NotFound {
            STATUS_NOT_FOUND
        } else {
            STATUS_INTERNAL
        },
{
}

} // verus!
