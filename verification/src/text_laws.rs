//! Laws of texts, names, hashes and messages, stated over their characters.

use vstd::prelude::*;
use vstd::utf8::*;

use crate::algo::{content_hash, digest_hex_len, normalized_algo, outcome};
use crate::error::{Error, ErrorView};
use crate::hex::hex;
use crate::laws::lemma_blank;
use crate::text::{
    decimal, is_white_space, lower, lower_char, texts, trimmed, trimmed_end, trimmed_start,
    without_trailing, AsText,
};

verus! {

// --- Texts ---

/// The text of a string is the string itself, and a reference changes nothing.
pub proof fn law_text_is_the_string<T: AsText + ?Sized>(s: &str, owned: String, t: &T)
    ensures
        s.text() == s@,
        owned.text() == owned@,
        (&t).text() == t.text(),
{
}

/// The texts of a list are those of its items, in order.
pub proof fn law_texts_item_by_item<T: AsText>(items: Seq<T>)
    ensures
        texts(items).len() == items.len(),
        forall|i: int| 0 <= i < items.len() ==> #[trigger] texts(items)[i] == items[i].text(),
{
}

/// Lowercasing turns the letters `A` to `Z` into `a` to `z`, each at the same
/// place of the alphabet, and keeps every other character.
pub proof fn law_lowercase(s: Seq<char>)
    ensures
        lower(s).len() == s.len(),
        forall|i: int|
            0 <= i < s.len() && 'A' <= #[trigger] s[i] <= 'Z' ==> {
                &&& 'a' <= lower(s)[i] <= 'z'
                &&& lower(s)[i] as u32 - 'a' as u32 == s[i] as u32 - 'A' as u32
            },
        forall|i: int|
            0 <= i < s.len() && !('A' <= #[trigger] s[i] <= 'Z') ==> lower(s)[i] == s[i],
{
}

/// White space is what Unicode calls so.
pub proof fn law_white_space(c: char)
    ensures
        is_white_space(c) <==> {
            ||| '\t' <= c <= '\r'
            ||| c == ' '
            ||| c == '\u{85}'
            ||| c == '\u{a0}'
            ||| c == '\u{1680}'
            ||| '\u{2000}' <= c <= '\u{200a}'
            ||| c == '\u{2028}'
            ||| c == '\u{2029}'
            ||| c == '\u{202f}'
            ||| c == '\u{205f}'
            ||| c == '\u{3000}'
        },
{
}

/// Trimming takes white space away at both ends, all of it and nothing else.
pub proof fn law_trimming(before: Seq<char>, core: Seq<char>, after: Seq<char>)
    requires
        forall|i: int| 0 <= i < before.len() ==> is_white_space(#[trigger] before[i]),
        forall|i: int| 0 <= i < after.len() ==> is_white_space(#[trigger] after[i]),
        core.len() > 0 ==> !is_white_space(core[0]) && !is_white_space(core[core.len() - 1]),
    ensures
        trimmed(before + core + after) == core,
{
    let s = before + core + after;
    if core.len() == 0 {
        lemma_blank(s);
        assert forall|i: int| 0 <= i < s.len() implies is_white_space(#[trigger] s[i]) by {
            if i < before.len() {
                assert(s[i] == before[i]);
            } else {
                assert(s[i] == after[i - before.len()]);
            }
        }
        assert(trimmed(s) =~= core);
    } else {
        lemma_trim_before(before, core + after);
        assert(s =~= before + (core + after));
        lemma_trim_after(core, after);
    }
}

proof fn lemma_trim_before(before: Seq<char>, rest: Seq<char>)
    requires
        forall|i: int| 0 <= i < before.len() ==> is_white_space(#[trigger] before[i]),
        rest.len() > 0,
        !is_white_space(rest[0]),
    ensures
        trimmed_start(before + rest) == rest,
    decreases before.len(),
{
    if before.len() > 0 {
        let tail = before.drop_first();
        assert forall|i: int| 0 <= i < tail.len() implies is_white_space(#[trigger] tail[i]) by {
            assert(tail[i] == before[i + 1]);
        }
        lemma_trim_before(tail, rest);
        assert((before + rest).first() == before[0]);
        assert((before + rest).drop_first() =~= tail + rest);
    } else {
        assert(before + rest =~= rest);
    }
}

proof fn lemma_trim_after(core: Seq<char>, after: Seq<char>)
    requires
        forall|i: int| 0 <= i < after.len() ==> is_white_space(#[trigger] after[i]),
        core.len() > 0,
        !is_white_space(core[core.len() - 1]),
    ensures
        trimmed_end(core + after) == core,
    decreases after.len(),
{
    if after.len() > 0 {
        let front = after.drop_last();
        assert forall|i: int| 0 <= i < front.len() implies is_white_space(#[trigger] front[i]) by {
            assert(front[i] == after[i]);
        }
        lemma_trim_after(core, front);
        assert((core + after).last() == after[after.len() - 1]);
        assert((core + after).drop_last() =~= core + front);
    } else {
        assert(core + after =~= core);
    }
}

/// Any number of a character at the end of a text is taken away, and nothing
/// else.
pub proof fn law_trailing_run(base: Seq<char>, c: char, count: nat)
    requires
        base.len() > 0 ==> base[base.len() - 1] != c,
    ensures
        without_trailing(base + Seq::new(count, |i: int| c), c) == base,
    decreases count,
{
    let s = base + Seq::new(count, |i: int| c);
    if count > 0 {
        let fewer = (count - 1) as nat;
        law_trailing_run(base, c, fewer);
        assert(s.last() == c);
        assert(s.drop_last() =~= base + Seq::new(fewer, |i: int| c));
    } else {
        assert(s =~= base);
    }
}

/// Writing one more decimal digit multiplies by ten and adds the digit.
pub proof fn law_decimal(n: nat, d: nat)
    requires
        d < 10,
    ensures
        decimal(d).len() == 1,
        decimal(d)[0] as u32 == '0' as u32 + d,
        n > 0 ==> decimal(10 * n + d) == decimal(n) + decimal(d),
{
    if n > 0 {
        assert((10 * n + d) / 10 == n);
        assert((10 * n + d) % 10 == d);
        assert(decimal(10 * n + d) =~= decimal(n) + decimal(d));
    }
}

/// A byte in hexadecimal is its high digit and then its low digit, out of the
/// sixteen digits in lowercase.
pub proof fn law_hex_digits(bytes: Seq<u8>)
    ensures
        hex(bytes).len() == 2 * bytes.len(),
        forall|k: int|
            0 <= k < bytes.len() ==> {
                &&& hex(bytes)[2 * k] == "0123456789abcdef"@[(#[trigger] bytes[k]) as int / 16]
                &&& hex(bytes)[2 * k + 1] == "0123456789abcdef"@[bytes[k] as int % 16]
            },
{
    reveal_strlit("0123456789abcdef");
    assert forall|k: int| 0 <= k < bytes.len() implies {
        &&& hex(bytes)[2 * k] == "0123456789abcdef"@[(#[trigger] bytes[k]) as int / 16]
        &&& hex(bytes)[2 * k + 1] == "0123456789abcdef"@[bytes[k] as int % 16]
    } by {
        let b = bytes[k] as int;
        assert((2 * k) / 2 == k && (2 * k + 1) / 2 == k);
        assert(0 <= b / 16 < 16 && 0 <= b % 16 < 16);
        lemma_digit(b / 16);
        lemma_digit(b % 16);
    }
}

proof fn lemma_digit(d: int)
    requires
        0 <= d < 16,
    ensures
        crate::hex::hex_digit(d) == "0123456789abcdef"@[d],
{
    reveal_strlit("0123456789abcdef");
    if d < 8 {
        assert(d == 0 || d == 1 || d == 2 || d == 3 || d == 4 || d == 5 || d == 6 || d == 7);
    } else {
        assert(d == 8 || d == 9 || d == 10 || d == 11 || d == 12 || d == 13 || d == 14 || d == 15);
    }
}

// --- Errors ---

/// The mathematical form of an error has the texts of the error.
pub proof fn law_error_texts(a: String, b: String)
    ensures
        Error::UnsupportedAlgorithm(a)@ == ErrorView::UnsupportedAlgorithm(a@),
        Error::MissingSourceUrls@ == ErrorView::MissingSourceUrls,
        Error::InvalidHash(a)@ == ErrorView::InvalidHash(a@),
        (Error::HashMismatch { expected: a, actual: b })@ == (ErrorView::HashMismatch {
            expected: a@,
            actual: b@,
        }),
        outcome(Ok(a)) == Ok::<Seq<char>, ErrorView>(a@),
        outcome(Err(Error::InvalidHash(a))) == Err::<Seq<char>, ErrorView>(
            ErrorView::InvalidHash(a@),
        ),
        outcome(Err(Error::UnsupportedAlgorithm(a))) == Err::<Seq<char>, ErrorView>(
            ErrorView::UnsupportedAlgorithm(a@),
        ),
{
}

/// Messages name what is wrong, with the texts that the error carries.
pub proof fn law_messages(a: Seq<char>, b: Seq<char>)
    ensures
        ErrorView::UnsupportedAlgorithm(a).message() == "unsupported algorithm: "@ + a,
        ErrorView::MissingSourceUrls.message() == "source_urls is required"@,
        ErrorView::InvalidHash(a).message() == a,
        (ErrorView::HashMismatch { expected: a, actual: b }).message()
            == "hash mismatch: expected "@ + a + ", got "@ + b,
{
}

// --- Algorithm names ---

/// Names are normalized character by character.
pub proof fn law_normalize_algo_concat(a: Seq<char>, b: Seq<char>)
    ensures
        normalized_algo(a + b) == normalized_algo(a) + normalized_algo(b),
{
    let keep = |c: char| crate::algo::is_algo_char(c);
    assert(lower(a + b) =~= lower(a) + lower(b));
    Seq::filter_distributes_over_add(lower(a), lower(b), keep);
}

/// Of a character, lowercase letters and digits stay, the letters `A` to `Z`
/// become their lowercase, and all else is dropped.
pub proof fn law_normalize_algo_char(c: char)
    ensures
        'a' <= c <= 'z' || '0' <= c <= '9' ==> normalized_algo(seq![c]) == seq![c],
        'A' <= c <= 'Z' ==> normalized_algo(seq![c]).len() == 1 && normalized_algo(
            seq![c],
        )[0] as u32 - 'a' as u32 == c as u32 - 'A' as u32,
        !('a' <= c <= 'z' || '0' <= c <= '9' || 'A' <= c <= 'Z') ==> normalized_algo(seq![c])
            == Seq::<char>::empty(),
        normalized_algo(Seq::empty()) == Seq::<char>::empty(),
{
    reveal(Seq::filter);
    let none = Seq::<char>::empty();
    assert(lower(none) =~= none);
    assert(lower(seq![c]) =~= seq![lower_char(c)]);
    assert(lower(seq![c]).drop_last() =~= none);
    assert(normalized_algo(none) =~= none);
    assert(none.push(lower_char(c)) =~= seq![lower_char(c)]);
}

/// Three algorithms are supported, and their digests have 20, 32 and 64 bytes.
pub proof fn law_supported_algorithms(key: Seq<char>)
    ensures
        digest_hex_len(key) is Some <==> key == "sha1"@ || key == "sha256"@ || key == "sha512"@,
        key == "sha1"@ ==> digest_hex_len(key) == Some(2 * 20nat),
        key == "sha256"@ ==> digest_hex_len(key) == Some(2 * 32nat),
        key == "sha512"@ ==> digest_hex_len(key) == Some(2 * 64nat),
{
    crate::hasher::lemma_names_differ();
}

// --- Content hashes ---

proof fn lemma_ascii_bytes(hash: Seq<char>)
    requires
        forall|i: int| 0 <= i < hash.len() ==> #[trigger] hash[i] <= '\u{7f}',
    ensures
        encode_utf8(hash).len() == hash.len(),
{
    assert forall|i: int| 0 <= i < hash.len() implies '\0' <= #[trigger] hash[i] <= '\u{7f}' by {
        crate::laws::lemma_scalar_bytes(hash[i]);
    }
    is_ascii_chars_encode_utf8(hash);
}

/// A hash is accepted just where its algorithm is supported and it consists of as
/// many hexadecimal digits, in any letter case, as a digest has; it comes back in
/// lowercase.
pub proof fn law_full_hashes_are_accepted(algo: Seq<char>, hash: Seq<char>)
    ensures
        content_hash(algo, hash) is Ok <==> {
            &&& {
                ||| normalized_algo(algo) == "sha1"@ && hash.len() == 40
                ||| normalized_algo(algo) == "sha256"@ && hash.len() == 64
                ||| normalized_algo(algo) == "sha512"@ && hash.len() == 128
            }
            &&& forall|i: int|
                0 <= i < hash.len() ==> {
                    ||| '0' <= #[trigger] hash[i] <= '9'
                    ||| 'a' <= hash[i] <= 'f'
                    ||| 'A' <= hash[i] <= 'F'
                }
        },
        content_hash(algo, hash) is Ok ==> {
            let r = content_hash(algo, hash)->Ok_0;
            &&& r.len() == hash.len()
            &&& forall|i: int|
                0 <= i < hash.len() ==> {
                    &&& 'A' <= #[trigger] hash[i] <= 'F' ==> r[i] as u32 - 'a' as u32
                        == hash[i] as u32 - 'A' as u32
                    &&& !('A' <= hash[i] <= 'F') ==> r[i] == hash[i]
                }
        },
{
    crate::hasher::lemma_names_differ();
    if content_hash(algo, hash) is Ok {
        crate::algo::law_content_hash_form(algo, hash);
        assert forall|i: int| 0 <= i < hash.len() implies {
            ||| '0' <= #[trigger] hash[i] <= '9'
            ||| 'a' <= hash[i] <= 'f'
            ||| 'A' <= hash[i] <= 'F'
        } by {
            assert(crate::algo::is_lower_hex_char(lower(hash)[i]));
        }
    }
    if hash.len() > 0 && forall|i: int|
        0 <= i < hash.len() ==> {
            ||| '0' <= #[trigger] hash[i] <= '9'
            ||| 'a' <= hash[i] <= 'f'
            ||| 'A' <= hash[i] <= 'F'
        } {
        assert forall|i: int| 0 <= i < hash.len() implies #[trigger] hash[i] <= '\u{7f}' by {
            let c = hash[i];
        }
        lemma_ascii_bytes(hash);
        lemma_blank(hash);
        assert(!is_white_space(hash[0]));
        assert forall|i: int| 0 <= i < lower(hash).len() implies crate::algo::is_lower_hex_char(
            #[trigger] lower(hash)[i],
        ) by {
            let c = hash[i];
        }
    }
}

/// Why a hash is refused: a blank one whatever the algorithm, then an algorithm
/// that is not supported, then a wrong number of bytes, then a character that is
/// no hexadecimal digit.
pub proof fn law_why_hashes_are_refused(algo: Seq<char>, hash: Seq<char>, n: nat)
    ensures
        (forall|i: int| 0 <= i < hash.len() ==> is_white_space(#[trigger] hash[i]))
            ==> content_hash(algo, hash) == Err::<Seq<char>, ErrorView>(
            ErrorView::InvalidHash("hash is required"@),
        ),
        (exists|i: int| 0 <= i < hash.len() && !is_white_space(#[trigger] hash[i])) ==> {
            let key = normalized_algo(algo);
            let bytes = encode_utf8(hash).len();
            &&& key != "sha1"@ && key != "sha256"@ && key != "sha512"@ ==> content_hash(algo, hash)
                == Err::<Seq<char>, ErrorView>(ErrorView::UnsupportedAlgorithm(key))
            &&& {
                ||| key == "sha1"@ && n == 40
                ||| key == "sha256"@ && n == 64
                ||| key == "sha512"@ && n == 128
            } && bytes != n ==> content_hash(algo, hash) == Err::<Seq<char>, ErrorView>(
                ErrorView::InvalidHash(
                    "hash must be "@ + decimal(n) + " hex characters for "@ + key + " (got "@
                        + decimal(bytes) + ")"@,
                ),
            )
            &&& {
                ||| key == "sha1"@ && bytes == 40
                ||| key == "sha256"@ && bytes == 64
                ||| key == "sha512"@ && bytes == 128
            } && (exists|i: int|
                0 <= i < hash.len() && !('0' <= #[trigger] hash[i] <= '9') && !('a' <= hash[i]
                    <= 'f') && !('A' <= hash[i] <= 'F')) ==> content_hash(algo, hash) == Err::<
                Seq<char>,
                ErrorView,
            >(ErrorView::InvalidHash("hash must be hexadecimal"@))
        },
{
    crate::hasher::lemma_names_differ();
    lemma_blank(hash);
    if exists|i: int|
        0 <= i < hash.len() && !('0' <= #[trigger] hash[i] <= '9') && !('a' <= hash[i] <= 'f')
            && !('A' <= hash[i] <= 'F') {
        let i = choose|i: int|
            0 <= i < hash.len() && !('0' <= #[trigger] hash[i] <= '9') && !('a' <= hash[i] <= 'f')
                && !('A' <= hash[i] <= 'F');
        assert(!crate::algo::is_lower_hex_char(lower(hash)[i]));
    }
}

} // verus!
