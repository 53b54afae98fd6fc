//! Fetching one file.
//!
//! Opening and reading the file is the caller's part. The decisions are
//! made here, in two steps: [`get_file`] says which path to open, or that
//! the request is refused; once the caller has tried to open that path,
//! [`reply_to`] says what to answer.
use vstd::prelude::*;
use vstd::string::StringExecFns;
use crate::content::{guess_media_type, guessed_media_type};
use crate::error::{FileError, OpenFailure, STATUS_OK};
use crate::resolver::{resolution, resolve};
use crate::text::{decimal, decimal_value, lemma_decimal_reads_back, to_decimal};

verus! {

/// What to do first for a request.
#[derive(Clone, Debug, PartialEq, Eq)]
pub enum Plan {
    /// Open the file at `path`, which lies in the user's own subtree.
    Open { path: String },
    /// Answer at once with `error`; nothing is to be opened.
    Refuse { error: FileError },
}

/// One header of an answer.
#[derive(Clone, Debug, PartialEq, Eq)]
pub struct Header {
    /// The header's name, in lower case.
    pub name: String,
    /// The header's value.
    pub value: String,
}

impl View for Header {
    type V = (Seq<char>, Seq<char>);

    open spec fn view(&self) -> (Seq<char>, Seq<char>) {
        (self.name@, self.value@)
    }
}

/// The answer to a request.
#[derive(Clone, Debug, PartialEq, Eq)]
pub enum Reply {
    /// The file was opened. Its bytes are the body, `length` of them, and
    /// `content_type` is its media type where one could be guessed.
    File { length: u64, content_type: Option<String> },
    /// The request failed. The body is `error`'s message and says nothing
    /// else: no path and no detail of the failure.
    Failure { error: FileError },
}

/// The headers of an answer that carries a file of `length` bytes: its
/// length in decimal, then its media type if it has one.
pub open spec fn file_headers(length: u64, content_type: Option<Seq<char>>) -> Seq<
    (Seq<char>, Seq<char>),
> {
    let first = seq![("content-length"@, decimal(length as nat))];
    match content_type {
        Some(media_type) => first.push(("content-type"@, media_type)),
        None => first,
    }
}

/// An answer that carries a file announces the file's exact length: its
/// first header is the content length, in digits that read back as
/// `length`. The media type, where there is one, is the only other header.
pub proof fn lemma_content_length_is_exact(length: u64, content_type: Option<Seq<char>>)
    ensures
        file_headers(length, content_type).len() == if content_type is Some {
            2nat
        } else {
            1nat
        },
        file_headers(length, content_type)[0].0 == "content-length"@,
        decimal_value(file_headers(length, content_type)[0].1) == length,
        content_type matches Some(media_type) ==> file_headers(length, content_type)[1] == (
            "content-type"@,
            media_type,
        ),
{
    lemma_decimal_reads_back(length as nat);
}

/// The view of each header.
pub open spec fn header_views(headers: Seq<Header>) -> Seq<(Seq<char>, Seq<char>)> {
    Seq::new(headers.len(), |i: int| headers[i]@)
}

impl Reply {
    /// The status code of the answer: 200 with the file, the error's own
    /// code otherwise.
    pub open spec fn spec_status(self) -> u16 {
        match self {
            Reply::File { .. } => STATUS_OK,
            Reply::Failure { error } => error.spec_status(),
        }
    }

    /// The headers of the answer, in order. An answer without the file has
    /// none of its own.
    pub open spec fn spec_headers(self) -> Seq<(Seq<char>, Seq<char>)> {
        match self {
            Reply::File { length, content_type } => file_headers(length, content_type.deep_view()),
            Reply::Failure { .. } => Seq::empty(),
        }
    }

    /// The answer that carries a file of `length` bytes.
    pub fn file(length: u64, content_type: Option<String>) -> (reply: Reply)
        ensures
            reply == (Reply::File { length, content_type }),
    {
        Reply::File { length, content_type }
    }

    /// The answer to a request whose file could not be opened: `NotFound`
    /// where nothing is at the path, `Internal` for every other failure.
    pub fn open_failed(failure: OpenFailure) -> (reply: Reply)
        ensures
            reply == (Reply::Failure { error: FileError::spec_from_open_failure(failure) }),
    {
        Reply::Failure { error: FileError::from_open_failure(failure) }
    }

    /// The status code of the answer.
    pub fn status(&self) -> (code: u16)
        ensures
            code == self.spec_status(),
            code == 200 <==> self is File,
    {
        match self {
            Reply::File { .. } => STATUS_OK,
            Reply::Failure { error } => error.status(),
        }
    }

    /// The headers of the answer, in order.
    pub fn headers(&self) -> (headers: Vec<Header>)
        ensures
            header_views(headers@) == self.spec_headers(),
    {
        let mut headers: Vec<Header> = Vec::new();
        match self {
            Reply::File { length, content_type } => {
                headers.push(
                    Header { name: String::from_str("content-length"), value: to_decimal(*length) },
                );
                match content_type {
                    Some(media_type) => {
                        headers.push(
                            Header {
                                name: String::from_str("content-type"),
                                value: media_type.clone(),
                            },
                        );
                        assert(header_views(headers@) == file_headers(
                            *length,
                            content_type.deep_view(),
                        ));
                    },
                    None => {
                        assert(header_views(headers@) == file_headers(
                            *length,
                            content_type.deep_view(),
                        ));
                    },
                }
            },
            Reply::Failure { .. } => {
                assert(header_views(headers@) == Seq::<(Seq<char>, Seq<char>)>::empty());
            },
        }
        headers
    }
}

/// The first step of a request for `file` by the authenticated user
/// `username`, with all users' files under `root`: resolve the path.
///
/// The plan is to open `root/username/` followed by the normalized `file`,
/// or, where `file` is empty, absolute or climbs out of the user's subtree,
/// to refuse with `InvalidPath`.
pub fn get_file(root: &str, username: &str, file: &str) -> (plan: Plan)
    ensures
        match plan {
            Plan::Open { path } => resolution(root@, username@, file@) == Some(path@),
            Plan::Refuse { error } => error == FileError::InvalidPath && resolution(
                root@,
                username@,
                file@,
            ) is None,
        },
{
    match resolve(root, username, file) {
        Ok(path) => Plan::Open { path },
        Err(error) => Plan::Refuse { error },
    }
}

/// The second step: the answer, once the caller has tried to open `path`.
/// `outcome` is the file's length in bytes if it was opened, and why not
/// otherwise.
///
/// An opened file is answered with its exact length and with the media type
/// guessed from `path`, if there is a guess. A missing file is answered with
/// `NotFound`, every other failure with `Internal`.
pub fn reply_to(path: &str, outcome: Result<u64, OpenFailure>) -> (reply: Reply)
    ensures
        match outcome {
            Ok(length) => reply matches Reply::File { length: told, content_type } && told
                == length && content_type.deep_view() == guessed_media_type(path@),
            Err(failure) => reply == (Reply::Failure {
                error: FileError::spec_from_open_failure(failure),
            }),
        },
{
    match outcome {
        Ok(length) => Reply::file(length, guess_media_type(path)),
        Err(failure) => Reply::open_failed(failure),
    }
}

} // verus!
