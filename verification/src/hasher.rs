//! Incremental hashing with the supported algorithms.

use digest::Digest;
use vstd::prelude::*;

use crate::algo::digest_hex_len;

verus! {

// --- The hash functions of the `sha1` and `sha2` crates ---

/// The incremental SHA-1 hasher of the `sha1` crate.
#[verifier::external_type_specification]
#[verifier::external_body]
pub struct ExSha1(sha1::Sha1);

/// The incremental SHA-256 hasher of the `sha2` crate.
#[verifier::external_type_specification]
#[verifier::external_body]
pub struct ExSha256(sha2::Sha256);

/// The incremental SHA-512 hasher of the `sha2` crate.
#[verifier::external_type_specification]
#[verifier::external_body]
pub struct ExSha512(sha2::Sha512);

/// The bytes that a SHA-1 hasher has been given so far.
pub uninterp spec fn sha1_input(h: sha1::Sha1) -> Seq<u8>;

/// The bytes that a SHA-256 hasher has been given so far.
pub uninterp spec fn sha256_input(h: sha2::Sha256) -> Seq<u8>;

/// The bytes that a SHA-512 hasher has been given so far.
pub uninterp spec fn sha512_input(h: sha2::Sha512) -> Seq<u8>;

/// The SHA-1 digest of a message.
pub uninterp spec fn sha1_digest(message: Seq<u8>) -> Seq<u8>;

/// The SHA-256 digest of a message.
pub uninterp spec fn sha256_digest(message: Seq<u8>) -> Seq<u8>;

/// The SHA-512 digest of a message.
pub uninterp spec fn sha512_digest(message: Seq<u8>) -> Seq<u8>;

/// `sha1::Sha1::new` (of `digest::Digest`): a hasher that has been given nothing.
#[verifier::external_body]
fn sha1_new() -> (h: sha1::Sha1)
    ensures
        sha1_input(h) == Seq::<u8>::empty(),
{
    sha1::Sha1::new()
}

/// `sha1::Sha1::update` (of `digest::Digest`): the data is added to what the
/// hasher has been given. The hasher counts whole blocks in 64 bits.
#[verifier::external_body]
fn sha1_update(h: &mut sha1::Sha1, data: &[u8])
    requires
        sha1_input(*old(h)).len() + data@.len() <= u64::MAX,
    ensures
        sha1_input(*final(h)) == sha1_input(*old(h)) + data@,
{
    h.update(data)
}

/// `sha1::Sha1::finalize` (of `digest::Digest`): the digest, of 20 bytes, of all
/// that the hasher has been given. It depends on nothing else. The hasher counts
/// the bits of the message in 64 bits.
#[verifier::external_body]
fn sha1_finalize(h: sha1::Sha1) -> (r: Vec<u8>)
    requires
        8 * sha1_input(h).len() <= u64::MAX,
    ensures
        r@ == sha1_digest(sha1_input(h)),
        r@.len() == 20,
{
    h.finalize().to_vec()
}

/// `sha2::Sha256::new` (of `digest::Digest`): a hasher that has been given
/// nothing.
#[verifier::external_body]
fn sha256_new() -> (h: sha2::Sha256)
    ensures
        sha256_input(h) == Seq::<u8>::empty(),
{
    sha2::Sha256::new()
}

/// `sha2::Sha256::update` (of `digest::Digest`): the data is added to what the
/// hasher has been given. The hasher counts whole blocks in 64 bits.
#[verifier::external_body]
fn sha256_update(h: &mut sha2::Sha256, data: &[u8])
    requires
        sha256_input(*old(h)).len() + data@.len() <= u64::MAX,
    ensures
        sha256_input(*final(h)) == sha256_input(*old(h)) + data@,
{
    h.update(data)
}

/// `sha2::Sha256::finalize` (of `digest::Digest`): the digest, of 32 bytes, of
/// all that the hasher has been given. It depends on nothing else. The hasher
/// counts the bits of the message in 64 bits.
#[verifier::external_body]
fn sha256_finalize(h: sha2::Sha256) -> (r: Vec<u8>)
    requires
        8 * sha256_input(h).len() <= u64::MAX,
    ensures
        r@ == sha256_digest(sha256_input(h)),
        r@.len() == 32,
{
    h.finalize().to_vec()
}

/// `sha2::Sha512::new` (of `digest::Digest`): a hasher that has been given
/// nothing.
#[verifier::external_body]
fn sha512_new() -> (h: sha2::Sha512)
    ensures
        sha512_input(h) == Seq::<u8>::empty(),
{
    sha2::Sha512::new()
}

/// `sha2::Sha512::update` (of `digest::Digest`): the data is added to what the
/// hasher has been given. The hasher counts whole blocks in 128 bits, and the
/// limit below is the one that the other two hashers have.
#[verifier::external_body]
fn sha512_update(h: &mut sha2::Sha512, data: &[u8])
    requires
        sha512_input(*old(h)).len() + data@.len() <= u64::MAX,
    ensures
        sha512_input(*final(h)) == sha512_input(*old(h)) + data@,
{
    h.update(data)
}

/// `sha2::Sha512::finalize` (of `digest::Digest`): the digest, of 64 bytes, of
/// all that the hasher has been given. It depends on nothing else. The hasher
/// counts the bits of the message in 128 bits, which every message within the
/// limit below fits.
#[verifier::external_body]
fn sha512_finalize(h: sha2::Sha512) -> (r: Vec<u8>)
    requires
        sha512_input(h).len() <= u64::MAX,
    ensures
        r@ == sha512_digest(sha512_input(h)),
        r@.len() == 64,
{
    h.finalize().to_vec()
}

// --- A hasher of any supported algorithm ---

/// The digest of a message under the supported algorithm named `algo`.
pub open spec fn digest_of(algo: Seq<char>, message: Seq<u8>) -> Seq<u8> {
    if algo == "sha1"@ {
        sha1_digest(message)
    } else if algo == "sha256"@ {
        sha256_digest(message)
    } else {
        sha512_digest(message)
    }
}

/// Whether a message of `len` bytes is within the limits of the algorithm named
/// `algo`: SHA-1 and SHA-256 count the bits of a message in 64 bits.
pub open spec fn digestible(algo: Seq<char>, len: nat) -> bool {
    len <= u64::MAX && (algo == "sha512"@ || 8 * len <= u64::MAX)
}

pub(crate) proof fn lemma_names_differ()
    ensures
        "sha1"@ != "sha256"@,
        "sha1"@ != "sha512"@,
        "sha256"@ != "sha512"@,
{
    reveal_strlit("sha1");
    reveal_strlit("sha256");
    reveal_strlit("sha512");
    assert("sha1"@.len() != "sha256"@.len());
    assert("sha1"@.len() != "sha512"@.len());
    assert("sha256"@[3] != "sha512"@[3]);
}

pub(crate) enum HasherInner {
    Sha1(sha1::Sha1),
    Sha256(sha2::Sha256),
    Sha512(sha2::Sha512),
}

impl HasherInner {
    pub(crate) open spec fn algo(self) -> Seq<char> {
        match self {
            HasherInner::Sha1(_) => "sha1"@,
            HasherInner::Sha256(_) => "sha256"@,
            HasherInner::Sha512(_) => "sha512"@,
        }
    }

    /// The bytes hashed so far.
    pub(crate) open spec fn input(self) -> Seq<u8> {
        match self {
            HasherInner::Sha1(h) => sha1_input(h),
            HasherInner::Sha256(h) => sha256_input(h),
            HasherInner::Sha512(h) => sha512_input(h),
        }
    }

    /// A fresh hasher, where the algorithm is supported.
    pub(crate) fn new(algo: &str) -> (r: Option<Self>)
        ensures
            r is Some <==> digest_hex_len(algo@) is Some,
            r is Some ==> r->0.algo() == algo@ && r->0.input() == Seq::<u8>::empty(),
    {
        let algo = algo.to_owned();
        if algo == "sha1".to_owned() {
            Some(HasherInner::Sha1(sha1_new()))
        } else if algo == "sha256".to_owned() {
            Some(HasherInner::Sha256(sha256_new()))
        } else if algo == "sha512".to_owned() {
            Some(HasherInner::Sha512(sha512_new()))
        } else {
            None
        }
    }

    /// Hash more bytes.
    pub(crate) fn update(&mut self, data: &[u8])
        requires
            old(self).input().len() + data@.len() <= u64::MAX,
        ensures
            final(self).algo() == old(self).algo(),
            final(self).input() == old(self).input() + data@,
    {
        match self {
            HasherInner::Sha1(h) => sha1_update(h, data),
            HasherInner::Sha256(h) => sha256_update(h, data),
            HasherInner::Sha512(h) => sha512_update(h, data),
        }
    }

    /// Whether a message of `len` bytes is within the limits of the algorithm.
    pub(crate) fn accepts(&self, len: u64) -> (r: bool)
        ensures
            r == digestible(self.algo(), len as nat),
    {
        proof {
            lemma_names_differ();
        }
        match self {
            HasherInner::Sha512(_) => true,
            _ => len <= u64::MAX / 8,
        }
    }

    /// The digest of the bytes hashed.
    pub(crate) fn finalize(self) -> (r: Vec<u8>)
        requires
            digestible(self.algo(), self.input().len()),
        ensures
            r@ == digest_of(self.algo(), self.input()),
            digest_hex_len(self.algo()) == Some(2 * r@.len()),
    {
        proof {
            lemma_names_differ();
        }
        match self {
            HasherInner::Sha1(h) => sha1_finalize(h),
            HasherInner::Sha256(h) => sha256_finalize(h),
            HasherInner::Sha512(h) => sha512_finalize(h),
        }
    }
}

} // verus!
