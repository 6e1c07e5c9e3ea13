//! Hash algorithm names and content hashes in their canonical forms.

use vstd::prelude::*;
use vstd::string::*;
use vstd::utf8::*;

use crate::error::{Error, ErrorView};
use crate::text::{
    decimal, lower, lower_char, push_decimal, to_lower, to_lower_char, trim, trimmed,
};

verus! {

// --- Algorithm names ---

pub open spec fn is_algo_char(c: char) -> bool {
    ('a' <= c && c <= 'z') || ('0' <= c && c <= '9')
}

/// An algorithm name in lower case, with only its letters and digits kept.
pub open spec fn normalized_algo(name: Seq<char>) -> Seq<char> {
    lower(name).filter(|c: char| is_algo_char(c))
}

proof fn lemma_normalized_push(s: Seq<char>, c: char)
    ensures
        normalized_algo(s.push(c)) == if is_algo_char(lower_char(c)) {
            normalized_algo(s).push(lower_char(c))
        } else {
            normalized_algo(s)
        },
{
    reveal(Seq::filter);
    assert(lower(s.push(c)).drop_last() =~= lower(s));
}

/// Normalize a hash algorithm name: lowercase, keeping only `[a-z0-9]`.
///
/// Examples: `"SHA-256"` becomes `"sha256"`, `"SHA512"` becomes `"sha512"`.
pub fn normalize_algo(name: &str) -> (r: String)
    ensures
        r@ == normalized_algo(name@),
{
    let mut out = String::new();
    assert(normalized_algo(name@.take(0)) =~= Seq::<char>::empty()) by {
        reveal(Seq::filter);
    }
    for c in it: name.chars()
        invariant
            it.seq() == name@,
            out@ == normalized_algo(name@.take(it.index() as int)),
    {
        proof {
            assert(name@.take(it.index() + 1) =~= name@.take(it.index() as int).push(c));
            lemma_normalized_push(name@.take(it.index() as int), c);
        }
        let d = to_lower_char(c);
        if ('a' <= d && d <= 'z') || ('0' <= d && d <= '9') {
            out.push(d);
        }
    }
    assert(name@.take(name@.len() as int) =~= name@);
    out
}

proof fn lemma_normalized_fixed(s: Seq<char>)
    requires
        forall|i: int| 0 <= i < s.len() ==> is_algo_char(#[trigger] s[i]),
    ensures
        normalized_algo(s) == s,
    decreases s.len(),
{
    if s.len() > 0 {
        let front = s.drop_last();
        lemma_normalized_fixed(front);
        lemma_normalized_push(front, s.last());
        assert(front.push(s.last()) =~= s);
    } else {
        reveal(Seq::filter);
        assert(normalized_algo(s) =~= s);
    }
}

/// A normalized name holds only `[a-z0-9]`.
pub proof fn law_normalize_algo_alphabet(name: Seq<char>)
    ensures
        forall|i: int|
            0 <= i < normalized_algo(name).len() ==> is_algo_char(
                #[trigger] normalized_algo(name)[i],
            ),
{
    let keep = |c: char| is_algo_char(c);
    assert forall|i: int| 0 <= i < normalized_algo(name).len() implies is_algo_char(
        #[trigger] normalized_algo(name)[i],
    ) by {
        lower(name).lemma_filter_pred(keep, i);
        assert(keep(lower(name).filter(keep)[i]));
    }
}

/// Normalizing a normalized name changes nothing.
pub proof fn law_normalize_algo_idempotent(name: Seq<char>)
    ensures
        normalized_algo(normalized_algo(name)) == normalized_algo(name),
{
    law_normalize_algo_alphabet(name);
    lemma_normalized_fixed(normalized_algo(name));
}

/// Full digest length in hex characters of a supported algorithm, by its
/// normalized name.
pub open spec fn digest_hex_len(key: Seq<char>) -> Option<nat> {
    if key == "sha1"@ {
        Some(40)
    } else if key == "sha256"@ {
        Some(64)
    } else if key == "sha512"@ {
        Some(128)
    } else {
        None
    }
}

fn hex_len_of(key: &String) -> (r: Option<usize>)
    ensures
        r is Some <==> digest_hex_len(key@) is Some,
        r is Some ==> r->0 == digest_hex_len(key@)->0,
{
    if *key == "sha1".to_owned() {
        Some(40)
    } else if *key == "sha256".to_owned() {
        Some(64)
    } else if *key == "sha512".to_owned() {
        Some(128)
    } else {
        None
    }
}

/// Check if a hash algorithm is supported.
pub fn is_supported(algo: &str) -> (r: bool)
    ensures
        r == (digest_hex_len(normalized_algo(algo@)) is Some),
{
    let key = normalize_algo(algo);
    hex_len_of(&key).is_some()
}

/// Expected hex length of a full digest for `algo`.
///
/// Returns [`Error::UnsupportedAlgorithm`] if the algorithm is not supported.
pub fn expected_hex_length(algo: &str) -> (r: Result<usize, Error>)
    ensures
        match digest_hex_len(normalized_algo(algo@)) {
            Some(n) => r is Ok && r->Ok_0 == n,
            None => r is Err && r->Err_0@ == ErrorView::UnsupportedAlgorithm(
                normalized_algo(algo@),
            ),
        },
{
    let key = normalize_algo(algo);
    match hex_len_of(&key) {
        Some(n) => Ok(n),
        None => Err(Error::UnsupportedAlgorithm(key)),
    }
}

// --- Content hashes ---

pub open spec fn is_lower_hex_char(c: char) -> bool {
    ('0' <= c && c <= '9') || ('a' <= c && c <= 'f')
}

pub open spec fn is_lower_hex(s: Seq<char>) -> bool {
    forall|i: int| 0 <= i < s.len() ==> is_lower_hex_char(#[trigger] s[i])
}

pub open spec fn wrong_length_reason(expected: nat, key: Seq<char>, got: nat) -> Seq<char> {
    "hash must be "@ + decimal(expected) + " hex characters for "@ + key + " (got "@ + decimal(got)
        + ")"@
}

/// The canonical form of a content hash, or why it has none. The length is
/// counted in bytes.
pub open spec fn content_hash(algo: Seq<char>, hash: Seq<char>) -> Result<Seq<char>, ErrorView> {
    let key = normalized_algo(algo);
    if trimmed(hash).len() == 0 {
        Err(ErrorView::InvalidHash("hash is required"@))
    } else {
        match digest_hex_len(key) {
            None => Err(ErrorView::UnsupportedAlgorithm(key)),
            Some(n) => {
                let got = encode_utf8(hash).len();
                if got != n {
                    Err(ErrorView::InvalidHash(wrong_length_reason(n, key, got)))
                } else if !is_lower_hex(lower(hash)) {
                    Err(ErrorView::InvalidHash("hash must be hexadecimal"@))
                } else {
                    Ok(lower(hash))
                }
            },
        }
    }
}

proof fn lemma_hex_is_ascii(s: Seq<char>)
    requires
        is_lower_hex(lower(s)),
    ensures
        is_ascii_chars(s),
{
    assert forall|i: int| 0 <= i < s.len() implies '\0' <= #[trigger] s[i] <= '\u{7f}' by {
        assert(is_lower_hex_char(lower(s)[i]));
    }
}

/// A canonical hash is the full digest in lowercase hex: the given hash in
/// lowercase, as long as the algorithm's digest.
pub proof fn law_content_hash_form(algo: Seq<char>, hash: Seq<char>)
    requires
        content_hash(algo, hash) is Ok,
    ensures
        content_hash(algo, hash)->Ok_0 == lower(hash),
        is_lower_hex(lower(hash)),
        digest_hex_len(normalized_algo(algo)) == Some(lower(hash).len()),
{
    lemma_hex_is_ascii(hash);
    is_ascii_chars_encode_utf8(hash);
}

/// Lowercase hex is its own lowercase.
pub proof fn lemma_lower_hex_fixed(s: Seq<char>)
    requires
        is_lower_hex(s),
    ensures
        lower(s) == s,
{
    assert forall|i: int| 0 <= i < s.len() implies lower(s)[i] == s[i] by {
        assert(is_lower_hex_char(s[i]));
    }
    assert(lower(s) =~= s);
}

/// The result of a normalization with its texts as character sequences.
pub open spec fn outcome(r: Result<String, Error>) -> Result<Seq<char>, ErrorView> {
    match r {
        Ok(s) => Ok(s@),
        Err(e) => Err(e@),
    }
}

fn lower_hex(s: &str) -> (r: bool)
    ensures
        r == is_lower_hex(s@),
{
    for c in it: s.chars()
        invariant
            it.seq() == s@,
            forall|i: int| 0 <= i < it.index() ==> is_lower_hex_char(#[trigger] s@[i]),
    {
        if !(('0' <= c && c <= '9') || ('a' <= c && c <= 'f')) {
            assert(!is_lower_hex_char(s@[it.index() as int]));
            return false;
        }
    }
    true
}

fn wrong_length(expected: usize, key: &str, got: usize) -> (r: String)
    ensures
        r@ == wrong_length_reason(expected as nat, key@, got as nat),
{
    let mut m = "hash must be ".to_owned();
    push_decimal(&mut m, expected);
    m.append(" hex characters for ");
    m.append(key);
    m.append(" (got ");
    push_decimal(&mut m, got);
    m.append(")");
    m
}

/// Normalize a content hash: full-length lowercase hex.
///
/// Rejects blank, non-hex, and wrong-length values before any network I/O.
/// Mixed-case hex is accepted and returned lowercased.
pub fn normalize_content_hash(algo: &str, hash: &str) -> (r: Result<String, Error>)
    ensures
        outcome(r) == content_hash(algo@, hash@),
{
    if trim(hash).is_empty() {
        return Err(Error::InvalidHash("hash is required".to_owned()));
    }
    let key = normalize_algo(algo);
    proof {
        law_normalize_algo_idempotent(algo@);
    }
    let expected_len: usize = match expected_hex_length(key.as_str()) {
        Ok(n) => n,
        Err(e) => return Err(e),
    };
    let lowered = to_lower(hash);
    let got: usize = hash.as_bytes().len();
    if got != expected_len {
        return Err(Error::InvalidHash(wrong_length(expected_len, key.as_str(), got)));
    }
    if !lower_hex(lowered.as_str()) {
        return Err(Error::InvalidHash("hash must be hexadecimal".to_owned()));
    }
    Ok(lowered)
}

} // verus!
