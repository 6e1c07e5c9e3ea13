//! What can go wrong.

use vstd::prelude::*;
use vstd::string::*;

verus! {

/// Errors returned by the library.
#[derive(Debug)]
pub enum Error {
    /// The requested hash algorithm is not supported (sha1, sha256, sha512).
    UnsupportedAlgorithm(String),
    /// Source URLs are required by the protocol.
    MissingSourceUrls,
    /// Content hash is blank, not hexadecimal, or the wrong length for the algorithm.
    InvalidHash(String),
    /// The content hash does not match the expected hash.
    HashMismatch { expected: String, actual: String },
}

/// An [`Error`] with its texts as character sequences.
pub enum ErrorView {
    UnsupportedAlgorithm(Seq<char>),
    MissingSourceUrls,
    InvalidHash(Seq<char>),
    HashMismatch { expected: Seq<char>, actual: Seq<char> },
}

impl View for Error {
    type V = ErrorView;

    open spec fn view(&self) -> ErrorView {
        match *self {
            Error::UnsupportedAlgorithm(algo) => ErrorView::UnsupportedAlgorithm(algo@),
            Error::MissingSourceUrls => ErrorView::MissingSourceUrls,
            Error::InvalidHash(reason) => ErrorView::InvalidHash(reason@),
            Error::HashMismatch { expected, actual } => ErrorView::HashMismatch {
                expected: expected@,
                actual: actual@,
            },
        }
    }
}

impl ErrorView {
    /// The message that is shown to a user.
    pub open spec fn message(self) -> Seq<char> {
        match self {
            ErrorView::UnsupportedAlgorithm(algo) => "unsupported algorithm: "@ + algo,
            ErrorView::MissingSourceUrls => "source_urls is required"@,
            ErrorView::InvalidHash(reason) => reason,
            ErrorView::HashMismatch { expected, actual } => "hash mismatch: expected "@ + expected
                + ", got "@ + actual,
        }
    }
}

impl Error {
    /// The message that is shown to a user.
    pub fn to_string(&self) -> (r: String)
        ensures
            r@ == self@.message(),
    {
        match self {
            Error::UnsupportedAlgorithm(algo) => {
                let mut m = "unsupported algorithm: ".to_owned();
                m.append(algo.as_str());
                m
            },
            Error::MissingSourceUrls => "source_urls is required".to_owned(),
            Error::InvalidHash(reason) => reason.clone(),
            Error::HashMismatch { expected, actual } => {
                let mut m = "hash mismatch: expected ".to_owned();
                m.append(expected.as_str());
                m.append(", got ");
                m.append(actual.as_str());
                m
            },
        }
    }
}

} // verus!
