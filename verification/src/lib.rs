//! Protocol-level client for fetchurl content-addressable cache servers.
//!
//! The library performs no HTTP requests: it provides a state machine
//! ([`FetchSession`]) that drives the protocol logic while the caller handles
//! I/O with any HTTP library. A caller takes attempts from
//! [`FetchSession::next_attempt`] and requests each URL with its headers.
//!
//! - On success, hand the body to a writer through
//!   [`FetchSession::hash_verifier`], call [`HashVerifier::finish`], then
//!   [`FetchSession::report_success`].
//! - On a failure after bytes were written, call
//!   [`FetchSession::report_partial`].
//! - On a failure before any bytes, take the next attempt.

pub mod algo;
pub mod error;
pub mod hash_verifier;
pub mod hasher;
pub mod hex;
pub mod laws;
pub mod list_laws;
pub mod member;
pub mod session;
pub mod session_laws;
pub mod sfv;
pub mod text;
pub mod text_laws;

pub use algo::{expected_hex_length, is_supported, normalize_algo, normalize_content_hash};
pub use error::Error;
pub use hash_verifier::HashVerifier;
pub use hex::to_hex;
pub use session::{FetchAttempt, FetchSession};
pub use sfv::{
    encode_sfv_string_list, encode_source_urls, parse_fetchurl_server, parse_sfv_string_list,
};
pub use text::AsText;
