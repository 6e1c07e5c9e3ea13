//! Checking downloaded content against its expected hash.

use vstd::prelude::*;
use vstd::slice::slice_subrange;

use crate::algo::digest_hex_len;
use crate::error::{Error, ErrorView};
use crate::hasher::{digest_of, digestible, HasherInner};
use crate::hex::{hex, to_hex};
use crate::text::{lower, to_lower};

verus! {

/// A [`HashVerifier`] as a mathematical value.
pub struct VerifierView<W> {
    /// The writer that the content goes to.
    pub inner: W,
    /// The name of the hash algorithm.
    pub algo: Seq<char>,
    /// The expected hash, in lowercase.
    pub expected: Seq<char>,
    /// All bytes that the writer has taken.
    pub written: Seq<u8>,
}

impl<W> VerifierView<W> {
    /// A verifier whose writer has taken nothing yet.
    pub open spec fn fresh(algo: Seq<char>, expected: Seq<char>, inner: W) -> Self {
        VerifierView { inner, algo, expected, written: Seq::empty() }
    }

    /// The verifier once its writer has taken more bytes.
    pub open spec fn wrote(self, data: Seq<u8>) -> Self {
        VerifierView { written: self.written + data, ..self }
    }

    /// The hash of all bytes written, in hexadecimal.
    pub open spec fn actual(self) -> Seq<char> {
        hex(digest_of(self.algo, self.written))
    }

    /// What finishing returns: the writer where the hashes agree.
    pub open spec fn verdict(self) -> Result<W, ErrorView> {
        if self.actual() == self.expected {
            Ok(self.inner)
        } else {
            Err(ErrorView::HashMismatch { expected: self.expected, actual: self.actual() })
        }
    }
}

/// Computes a hash of all data that a writer has taken and verifies it against
/// an expected hash when [`finish`](Self::finish) is called.
pub struct HashVerifier<W> {
    inner: W,
    hasher: HasherInner,
    expected_hash: String,
    bytes_written: u64,
}

impl<W> View for HashVerifier<W> {
    type V = VerifierView<W>;

    closed spec fn view(&self) -> VerifierView<W> {
        VerifierView {
            inner: self.inner,
            algo: self.hasher.algo(),
            expected: self.expected_hash@,
            written: self.hasher.input(),
        }
    }
}

/// Compare a digest with an expected hash in lowercase hexadecimal.
pub fn check_digest(digest: &[u8], expected: String) -> (r: Result<(), Error>)
    ensures
        hex(digest@) == expected@ ==> r is Ok,
        hex(digest@) != expected@ ==> r is Err && r->Err_0@ == (ErrorView::HashMismatch {
            expected: expected@,
            actual: hex(digest@),
        }),
{
    let actual = to_hex(digest);
    if actual == expected {
        Ok(())
    } else {
        Err(Error::HashMismatch { expected, actual })
    }
}

impl<W> HashVerifier<W> {
    /// The number of bytes counted is the number of bytes hashed.
    pub closed spec fn wf(&self) -> bool {
        self.bytes_written == self.hasher.input().len()
    }

    /// A verifier for the supported algorithm `algo`; the expected hash may be in
    /// mixed case.
    pub fn new(algo: &str, expected_hash: &str, inner: W) -> (r: Self)
        requires
            digest_hex_len(algo@) is Some,
        ensures
            r.wf(),
            r@ == VerifierView::fresh(algo@, lower(expected_hash@), inner),
    {
        let hasher = HasherInner::new(algo).unwrap();
        let expected_hash = to_lower(expected_hash);
        HashVerifier { inner, hasher, expected_hash, bytes_written: 0 }
    }

    /// Number of bytes written to the inner writer so far.
    pub fn bytes_written(&self) -> (r: u64)
        requires
            self.wf(),
        ensures
            r == self@.written.len(),
    {
        self.bytes_written
    }

    /// The inner writer, to hand it the next part of the content.
    pub fn inner_mut(&mut self) -> (r: &mut W)
        requires
            old(self).wf(),
        ensures
            *r == old(self)@.inner,
            final(self).wf(),
            final(self)@ == (VerifierView { inner: *final(r), ..old(self)@ }),
    {
        &mut self.inner
    }

    /// Take note of what the inner writer answered when it was handed `buf`: the
    /// bytes that it took are hashed and counted, and an error leaves everything
    /// as it was. The answer is returned.
    pub fn record_write<E>(&mut self, buf: &[u8], answer: Result<usize, E>) -> (r: Result<usize, E>)
        requires
            old(self).wf(),
            answer is Ok ==> answer->Ok_0 <= buf@.len(),
            answer is Ok ==> old(self)@.written.len() + answer->Ok_0 <= u64::MAX,
        ensures
            final(self).wf(),
            r == answer,
            match answer {
                Ok(n) => final(self)@ == old(self)@.wrote(buf@.take(n as int)),
                Err(_) => final(self)@ == old(self)@,
            },
    {
        match answer {
            Ok(n) => {
                let taken = slice_subrange(buf, 0, n);
                assert(taken@ =~= buf@.take(n as int));
                self.hasher.update(taken);
                self.bytes_written += n as u64;
                Ok(n)
            },
            Err(e) => Err(e),
        }
    }

    /// Whether the content is short enough for its algorithm, as
    /// [`finish`](Self::finish) needs it to be.
    pub fn can_finish(&self) -> (r: bool)
        requires
            self.wf(),
        ensures
            r == digestible(self@.algo, self@.written.len()),
    {
        self.hasher.accepts(self.bytes_written)
    }

    /// Finalize the hash and verify it matches the expected value.
    ///
    /// Returns the inner writer on success, or [`Error::HashMismatch`] on failure.
    pub fn finish(self) -> (r: Result<W, Error>)
        requires
            self.wf(),
            digestible(self@.algo, self@.written.len()),
        ensures
            match self@.verdict() {
                Ok(inner) => r is Ok && r->Ok_0 == inner,
                Err(e) => r is Err && r->Err_0@ == e,
            },
            digest_hex_len(self@.algo) == Some(self@.actual().len()),
    {
        let digest = self.hasher.finalize();
        match check_digest(digest.as_slice(), self.expected_hash) {
            Ok(()) => Ok(self.inner),
            Err(e) => Err(e),
        }
    }
}

} // verus!
