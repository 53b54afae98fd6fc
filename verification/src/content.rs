//! Guessing the media type of a file from its path.
use vstd::prelude::*;

verus! {

/// The media type that `mime_guess::from_path(path).first()` gives for a
/// path, written out as text; `None` where it has no guess. The guess is
/// looked up in a table compiled into that crate, by the extension of the
/// path's text, so it is the same each time the same path is asked for.
pub uninterp spec fn guessed_media_type(path: Seq<char>) -> Option<Seq<char>>;

/// Asks `mime_guess` for the first media type it holds for the extension of
/// `path` (`mime_guess::from_path`, then `MimeGuess::first`), and writes it
/// out (`Mime`'s `to_string`). Nothing is proved of the answer; the contract
/// only gives it its name. No file is touched.
#[verifier::external_body]
pub(crate) fn guess_media_type(path: &str) -> (guess: Option<String>)
    ensures
        guess.deep_view() == guessed_media_type(path@),
{
    match mime_guess::from_path(path).first() {
        Some(mime) => Some(mime.to_string()),
        None => None,
    }
}

} // verus!
