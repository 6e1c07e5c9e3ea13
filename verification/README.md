# fetchurl_sdk

Protocol-level client for fetchurl content-addressable cache servers, verified
with Verus. It performs no HTTP by itself: `FetchSession` is a state machine that
says which URL to try next, and `HashVerifier` checks what was downloaded.

- `src/` is the verified library. Contracts speak of mathematical views
  (`SessionView`, `AttemptView`, `VerifierView`, `ErrorView`, sequences of
  characters); `src/laws.rs` holds the laws that relate several functions.
- `src/hasher.rs` (SHA-1, SHA-256, SHA-512), `src/session.rs` (the shuffling of
  source URLs) and `src/text.rs` (`String::push`) hold the only items that are
  trusted rather than proved; each says what it claims.
- `app/` reads `FETCHURL_SERVER` and adapts `HashVerifier` to
  `std::io::Write`; `app/get.rs` is a command line client.
- `tests/` runs the library on concrete values.
