//! Laws that relate several functions of the library.

use vstd::prelude::*;
use vstd::utf8::*;

use crate::algo::{
    content_hash, law_content_hash_form, law_normalize_algo_idempotent, lemma_lower_hex_fixed,
    normalized_algo,
};
use crate::error::ErrorView;
use crate::hash_verifier::VerifierView;
use crate::hasher::digest_of;
use crate::hex::{hex, law_hex_injective};
use crate::member::{
    is_rest, lemma_member_before_comma, lemma_member_suffix, lemma_parameters_before_comma,
    lemma_parameters_suffix, lemma_rest_free, lemma_rest_of_rest, member_end, parameters_end,
};
use crate::session::{
    direct_attempt, is_shuffle, refusal, server_attempt, source_header, AttemptView, SessionView,
};
use crate::sfv::{
    after_comma, after_member, after_string, continued_list, encoded_list, ends_member, escaped,
    escaped_char, is_blank, quoted, server_list, skip_blank, string_list, string_text, BACKSLASH,
    COMMA, QUOTE, SPACE,
};
use crate::text::{
    is_white_space, lemma_trimmed_identity, lower, lower_char, trimmed, trimmed_end,
};

verus! {

// --- String lists: what is written is what is read ---

/// Bytes read as one character each.
pub open spec fn byte_chars(b: Seq<u8>) -> Seq<char> {
    Seq::new(b.len(), |i: int| b[i] as char)
}

/// The text whose characters are the UTF-8 bytes of `s`.
pub open spec fn octets(s: Seq<char>) -> Seq<char> {
    byte_chars(encode_utf8(s))
}

spec fn plain(b: Seq<u8>) -> bool {
    forall|i: int| 0 <= i < b.len() ==> #[trigger] b[i] != BACKSLASH && b[i] != QUOTE
}

pub(crate) proof fn lemma_utf8_concat(a: Seq<char>, b: Seq<char>)
    ensures
        encode_utf8(a + b) == encode_utf8(a) + encode_utf8(b),
    decreases a.len(),
{
    if a.len() == 0 {
        assert(a + b =~= b);
        assert(encode_utf8(a) + encode_utf8(b) =~= encode_utf8(b));
    } else {
        assert((a + b).drop_first() =~= a.drop_first() + b);
        lemma_utf8_concat(a.drop_first(), b);
        assert(encode_utf8(a + b) =~= encode_utf8(a) + encode_utf8(b));
    }
}

pub(crate) proof fn lemma_utf8_single(c: char)
    ensures
        encode_utf8(seq![c]) == encode_scalar(c as u32),
{
    reveal_with_fuel(encode_utf8, 2);
    assert(seq![c].drop_first() =~= Seq::<char>::empty());
    assert(encode_utf8(seq![c]) =~= encode_scalar(c as u32));
}

pub(crate) proof fn lemma_scalar_bytes(c: char)
    ensures
        '\0' <= c,
        c <= '\u{7f}' ==> encode_scalar(c as u32) == seq![c as u8] && c as u8 as char == c,
        c > '\u{7f}' ==> {
            &&& encode_scalar(c as u32).len() >= 2
            &&& forall|i: int|
                0 <= i < encode_scalar(c as u32).len() ==> #[trigger] encode_scalar(c as u32)[i]
                    >= 0x80
        },
{
    let u = c as u32;
    if c <= '\u{7f}' {
        assert(leading_byte_width_1(u) == u as u8) by (bit_vector)
            requires
                u <= 0x7f,
        ;
        assert(encode_scalar(u) =~= seq![c as u8]);
    } else {
        assert(leading_byte_width_2(u) >= 0x80) by (bit_vector);
        assert(leading_byte_width_3(u) >= 0x80) by (bit_vector);
        assert(leading_byte_width_4(u) >= 0x80) by (bit_vector);
        assert(last_continuation_byte(u) >= 0x80) by (bit_vector);
        assert(second_last_continuation_byte(u) >= 0x80) by (bit_vector);
        assert(third_last_continuation_byte(u) >= 0x80) by (bit_vector);
    }
}

proof fn lemma_plain(p: Seq<u8>, rest: Seq<u8>)
    requires
        plain(p),
    ensures
        string_text(p + rest) == byte_chars(p) + string_text(rest),
        after_string(p + rest) == after_string(rest),
    decreases p.len(),
{
    if p.len() == 0 {
        assert(p + rest =~= rest);
        assert(byte_chars(p) + string_text(rest) =~= string_text(rest));
    } else {
        let tail = p.drop_first();
        assert((p + rest).skip(1) =~= tail + rest);
        assert forall|i: int| 0 <= i < tail.len() implies #[trigger] tail[i] != BACKSLASH
            && tail[i] != QUOTE by {
            assert(tail[i] == p[i + 1]);
        }
        lemma_plain(tail, rest);
        assert((p + rest)[0] == p[0]);
        assert(byte_chars(p) + string_text(rest) =~= seq![p[0] as char] + (byte_chars(tail)
            + string_text(rest)));
    }
}

proof fn lemma_escaped(s: Seq<char>, rest: Seq<u8>)
    ensures
        string_text(encode_utf8(escaped(s)) + rest) == octets(s) + string_text(rest),
        after_string(encode_utf8(escaped(s)) + rest) == after_string(rest),
    decreases s.len(),
{
    if s.len() == 0 {
        assert(encode_utf8(escaped(s)) + rest =~= rest);
        assert(octets(s) + string_text(rest) =~= string_text(rest));
    } else {
        let c = s[0];
        let tail = s.drop_first();
        let more = encode_utf8(escaped(tail)) + rest;
        lemma_escaped(tail, rest);
        lemma_utf8_concat(escaped_char(c), escaped(tail));
        lemma_utf8_single(c);
        lemma_scalar_bytes(c);
        let head = encode_utf8(escaped_char(c));
        assert(encode_utf8(escaped(s)) + rest =~= head + more);
        assert(octets(s) =~= byte_chars(encode_scalar(c as u32)) + octets(tail));
        if c == '\\' || c == '"' {
            lemma_utf8_concat(seq!['\\'], seq![c]);
            lemma_utf8_single('\\');
            lemma_scalar_bytes('\\');
            assert(escaped_char(c) =~= seq!['\\'] + seq![c]);
            assert(head =~= seq![BACKSLASH, c as u8]);
            assert((head + more).skip(2) =~= more);
            assert(string_text(head + more) =~= byte_chars(encode_scalar(c as u32))
                + string_text(more));
        } else {
            assert(plain(encode_scalar(c as u32))) by {
                let e = encode_scalar(c as u32);
                assert forall|i: int| 0 <= i < e.len() implies #[trigger] e[i] != BACKSLASH && e[i]
                    != QUOTE by {
                    if c <= '\u{7f}' {
                        assert(e[0] == c as u8);
                    }
                }
            }
            lemma_plain(head, more);
        }
        assert(octets(s) + string_text(rest) =~= byte_chars(encode_scalar(c as u32)) + (octets(tail)
            + string_text(rest)));
    }
}

/// Reading back a written list gives every string as the characters of its
/// UTF-8 bytes.
pub proof fn law_list_read_back(items: Seq<Seq<char>>)
    ensures
        string_list(encode_utf8(encoded_list(items))) == items.map_values(
            |s: Seq<char>| octets(s),
        ),
    decreases items.len(),
{
    let all = items.map_values(|s: Seq<char>| octets(s));
    if items.len() == 0 {
        assert(string_list(encode_utf8(encoded_list(items))) =~= all);
    } else {
        let s = items.first();
        let others = items.drop_first();
        let c = encode_utf8(continued_list(others));
        let b = encode_utf8(encoded_list(items));
        lemma_utf8_concat(quoted(s), continued_list(others));
        lemma_quoted_first(s, c);
        law_list_read_back(others);
        if others.len() > 0 {
            let next = encode_utf8(encoded_list(others));
            lemma_utf8_concat(seq![',', ' '], encoded_list(others));
            lemma_utf8_concat(seq![','], seq![' ']);
            lemma_utf8_single(',');
            lemma_utf8_single(' ');
            lemma_scalar_bytes(',');
            lemma_scalar_bytes(' ');
            assert(seq![',', ' '] =~= seq![','] + seq![' ']);
            assert(continued_list(others) =~= seq![',', ' '] + encoded_list(others));
            assert(c =~= seq![COMMA, SPACE] + next);
            assert(c.skip(1) =~= seq![SPACE] + next);
            assert(c.skip(1).skip(1) =~= next);
            assert(skip_blank(c.skip(1)) == skip_blank(next));
            assert(string_list(c.skip(1)) == string_list(next));
        } else {
            assert(c =~= Seq::<u8>::empty());
        }
        assert(string_list(b) =~= all);
    }
}

/// A text is the characters of its own UTF-8 bytes just where it is ASCII.
pub proof fn law_octets_ascii(s: Seq<char>)
    ensures
        octets(s) == s <==> is_ascii_chars(s),
        octets(s).len() >= s.len(),
        octets(s).len() == s.len() ==> is_ascii_chars(s),
    decreases s.len(),
{
    if s.len() > 0 {
        let c = s[0];
        let tail = s.drop_first();
        law_octets_ascii(tail);
        lemma_scalar_bytes(c);
        assert(octets(s) =~= byte_chars(encode_scalar(c as u32)) + octets(tail));
        assert(s =~= seq![c] + tail);
        if is_ascii_chars(s) {
            assert forall|i: int| 0 <= i < tail.len() implies '\0' <= #[trigger] tail[i]
                <= '\u{7f}' by {
                assert(tail[i] == s[i + 1]);
            }
            assert(octets(s) =~= s);
        } else if octets(s).len() == s.len() {
            assert(octets(s).len() == encode_scalar(c as u32).len() + octets(tail).len());
            assert(encode_scalar(c as u32).len() >= 1);
            assert(is_ascii_chars(tail));
            assert forall|i: int| 0 <= i < s.len() implies '\0' <= #[trigger] s[i] <= '\u{7f}' by {
                if i > 0 {
                    assert(s[i] == tail[i - 1]);
                }
            }
        }
    } else {
        assert(octets(s) =~= s);
    }
}

proof fn lemma_continued_ends(items: Seq<Seq<char>>)
    ensures
        items.len() > 0 ==> continued_list(items).len() > 0 && continued_list(items).last() == '"',
        items.len() == 0 ==> continued_list(items).len() == 0,
    decreases items.len(),
{
    if items.len() > 0 {
        lemma_continued_ends(items.drop_first());
        assert(quoted(items.first()).last() == '"');
    }
}

proof fn lemma_encoded_trimmed(items: Seq<Seq<char>>)
    ensures
        trimmed(encoded_list(items)) == encoded_list(items),
        items.len() > 0 ==> encoded_list(items).len() > 0 && encoded_list(items)[0] == '"',
{
    if items.len() > 0 {
        lemma_continued_ends(items.drop_first());
        assert(quoted(items.first()).last() == '"');
        assert(quoted(items.first())[0] == '"');
    }
    lemma_trimmed_identity(encoded_list(items));
}

/// Written source URLs, read back as a list or as a server value, are the same
/// URLs in the same order, just where every URL is ASCII, as the strings of
/// RFC 8941 are.
pub proof fn law_source_urls_round_trip(urls: Seq<Seq<char>>)
    ensures
        server_list(encoded_list(urls)) == string_list(encode_utf8(encoded_list(urls))),
        server_list(encoded_list(urls)) == urls <==> (forall|i: int|
            0 <= i < urls.len() ==> is_ascii_chars(#[trigger] urls[i])),
{
    let read = string_list(encode_utf8(encoded_list(urls)));
    law_list_read_back(urls);
    lemma_encoded_trimmed(urls);
    assert(server_list(encoded_list(urls)) =~= read);
    if forall|i: int| 0 <= i < urls.len() ==> is_ascii_chars(#[trigger] urls[i]) {
        assert forall|i: int| 0 <= i < urls.len() implies read[i] == #[trigger] urls[i] by {
            law_octets_ascii(urls[i]);
        }
        assert(read =~= urls);
    } else if read == urls {
        assert forall|i: int| 0 <= i < urls.len() implies is_ascii_chars(#[trigger] urls[i]) by {
            assert(read[i] == octets(urls[i]));
            law_octets_ascii(urls[i]);
        }
    }
}

/// Whether a well-formed part has its end at the end of the text, but for spaces
/// and tabs.
pub open spec fn is_whole(end: Option<Seq<u8>>) -> bool {
    end is Some && skip_blank(end->0).len() == 0
}

/// Whether a text has neither a comma nor a quote.
pub open spec fn no_comma_or_quote(b: Seq<u8>) -> bool {
    !b.contains(COMMA) && !b.contains(QUOTE)
}

pub(crate) proof fn lemma_to_the_comma(b: Seq<u8>, rest: Seq<u8>)
    requires
        !b.contains(COMMA),
    ensures
        after_comma(b + (seq![COMMA] + rest)) == rest,
        after_comma(b) == Seq::<u8>::empty(),
    decreases b.len(),
{
    let whole = b + (seq![COMMA] + rest);
    if b.len() == 0 {
        assert(whole.skip(1) =~= rest);
        assert(b =~= Seq::<u8>::empty());
    } else {
        assert(b[0] != COMMA);
        assert(whole.skip(1) =~= b.skip(1) + (seq![COMMA] + rest));
        lemma_rest_free(b.skip(1), b, COMMA);
        lemma_to_the_comma(b.skip(1), rest);
    }
}

proof fn lemma_blank_free(b: Seq<u8>, more: Seq<u8>)
    requires
        skip_blank(b).len() == 0,
    ensures
        !b.contains(COMMA),
        skip_blank(b + more) == skip_blank(more),
    decreases b.len(),
{
    if b.len() > 0 {
        lemma_blank_free(b.skip(1), more);
        assert((b + more).skip(1) =~= b.skip(1) + more);
        assert forall|i: int| 0 <= i < b.len() implies b[i] != COMMA by {
            if i > 0 {
                assert(b[i] == b.skip(1)[i - 1]);
                assert(b.skip(1).contains(b[i]));
            }
        }
    } else {
        assert(b + more =~= more);
    }
}

/// A comma behind a well-formed member, or behind a text without commas and
/// quotes, is the one that ends it.
proof fn lemma_after_member(
    b: Seq<u8>,
    end: Option<Seq<u8>>,
    with: Option<Seq<u8>>,
    rest: Seq<u8>,
)
    requires
        is_whole(end) || no_comma_or_quote(b),
        end is Some ==> is_rest(end->0, b) && with == Some(end->0 + (seq![COMMA] + rest)),
        end is None && !b.contains(QUOTE) ==> with is None,
    ensures
        after_member(b + (seq![COMMA] + rest), with) == rest,
        after_member(b, end) == Seq::<u8>::empty(),
{
    let more = seq![COMMA] + rest;
    if is_whole(end) {
        lemma_blank_free(end->0, more);
        lemma_to_the_comma(end->0, rest);
    } else {
        lemma_to_the_comma(b, rest);
        if end is Some {
            lemma_rest_free(end->0, b, COMMA);
            lemma_to_the_comma(end->0, rest);
        }
    }
}

/// The parameters of a string are ignored, up to the comma that ends the member
/// or up to the end of the list: all well-formed parameters, also where their
/// values are quoted strings with commas in them, and any other text without
/// commas and quotes.
pub proof fn law_parameters_ignored(s: Seq<char>, parameters: Seq<u8>, rest: Seq<u8>)
    requires
        is_whole(parameters_end(parameters)) || no_comma_or_quote(parameters),
    ensures
        string_list(encode_utf8(quoted(s)) + parameters + seq![COMMA] + rest) == seq![octets(s)]
            + string_list(rest),
        string_list(encode_utf8(quoted(s)) + parameters) == seq![octets(s)],
{
    let more = seq![COMMA] + rest;
    let with_more = parameters + more;
    lemma_parameters_suffix(parameters);
    lemma_parameters_before_comma(parameters, more);
    lemma_after_member(
        parameters,
        parameters_end(parameters),
        parameters_end(with_more),
        rest,
    );
    lemma_quoted_first(s, with_more);
    assert(encode_utf8(quoted(s)) + parameters + seq![COMMA] + rest =~= encode_utf8(quoted(s))
        + with_more);
    lemma_quoted_first(s, parameters);
    assert(seq![octets(s)] + string_list(Seq::<u8>::empty()) =~= seq![octets(s)]);
}

/// Malformed text behind a string ends at the first comma, whatever quotes it
/// holds.
pub proof fn law_malformed_parameters_end_at_a_comma(
    s: Seq<char>,
    parameters: Seq<u8>,
    rest: Seq<u8>,
)
    requires
        !parameters.contains(COMMA),
        !ends_member(parameters_end(parameters + seq![COMMA] + rest)),
    ensures
        string_list(encode_utf8(quoted(s)) + parameters + seq![COMMA] + rest) == seq![octets(s)]
            + string_list(rest),
{
    let with_more = parameters + (seq![COMMA] + rest);
    assert(parameters + seq![COMMA] + rest =~= with_more);
    assert(encode_utf8(quoted(s)) + parameters + seq![COMMA] + rest =~= encode_utf8(quoted(s))
        + with_more);
    lemma_to_the_comma(parameters, rest);
    lemma_quoted_first(s, with_more);
}

pub(crate) proof fn lemma_quoted_first(s: Seq<char>, after: Seq<u8>)
    ensures
        string_list(encode_utf8(quoted(s)) + after) == seq![octets(s)] + string_list(
            after_member(after, parameters_end(after)),
        ),
{
    let e = encode_utf8(escaped(s));
    lemma_utf8_concat(seq!['"'] + escaped(s), seq!['"']);
    lemma_utf8_concat(seq!['"'], escaped(s));
    lemma_utf8_single('"');
    lemma_scalar_bytes('"');
    let b = encode_utf8(quoted(s)) + after;
    let rest = seq![QUOTE] + after;
    assert(b =~= seq![QUOTE] + (e + rest));
    assert(b.skip(1) =~= e + rest);
    lemma_escaped(s, rest);
    assert(rest.skip(1) =~= after);
    assert(octets(s) + string_text(rest) =~= octets(s));
}

/// A member of a list that is not a string is passed over: every well-formed
/// one, also where it holds quoted strings with commas in them, and any other
/// text without commas and quotes.
pub proof fn law_other_members_passed_over(member: Seq<u8>, rest: Seq<u8>)
    requires
        skip_blank(member).len() > 0,
        skip_blank(member)[0] != QUOTE,
        is_whole(member_end(skip_blank(member))) || no_comma_or_quote(member),
    ensures
        string_list(member + seq![COMMA] + rest) == string_list(rest),
        string_list(member) == Seq::<Seq<char>>::empty(),
{
    let s = skip_blank(member);
    let more = seq![COMMA] + rest;
    lemma_skip_blank_prefix(member, more);
    assert(member + seq![COMMA] + rest =~= member + more);
    if no_comma_or_quote(member) {
        lemma_rest_free(s, member, COMMA);
        lemma_rest_free(s, member, QUOTE);
    }
    lemma_member_suffix(s);
    lemma_member_before_comma(s, more);
    lemma_after_member(s, member_end(s), member_end(s + more), rest);
    assert(string_list(Seq::<u8>::empty()) =~= Seq::<Seq<char>>::empty());
}

/// A malformed member that is not a string ends at the first comma, whatever
/// quotes it holds, and is passed over.
pub proof fn law_malformed_members_end_at_a_comma(member: Seq<u8>, rest: Seq<u8>)
    requires
        !member.contains(COMMA),
        skip_blank(member).len() > 0,
        skip_blank(member)[0] != QUOTE,
        !ends_member(member_end(skip_blank(member) + seq![COMMA] + rest)),
    ensures
        string_list(member + seq![COMMA] + rest) == string_list(rest),
{
    let s = skip_blank(member);
    let more = seq![COMMA] + rest;
    lemma_skip_blank_prefix(member, more);
    assert(member + seq![COMMA] + rest =~= member + more);
    assert(s + seq![COMMA] + rest =~= s + more);
    lemma_rest_free(s, member, COMMA);
    lemma_to_the_comma(s, rest);
}

proof fn lemma_skip_blank_prefix(b: Seq<u8>, after: Seq<u8>)
    requires
        skip_blank(b).len() > 0,
    ensures
        skip_blank(b + after) == skip_blank(b) + after,
        is_rest(skip_blank(b), b),
    decreases b.len(),
{
    if b.len() > 0 && is_blank(b[0]) {
        assert((b + after).skip(1) =~= b.skip(1) + after);
        lemma_skip_blank_prefix(b.skip(1), after);
        lemma_rest_of_rest(skip_blank(b), b.skip(1), b);
    } else {
        assert(b.skip(0) =~= b);
    }
}

// --- Content hashes ---

pub(crate) proof fn lemma_blank(s: Seq<char>)
    ensures
        trimmed(s).len() == 0 <==> (forall|i: int|
            0 <= i < s.len() ==> is_white_space(#[trigger] s[i])),
    decreases s.len(),
{
    if s.len() > 0 {
        if is_white_space(s.first()) {
            let tail = s.drop_first();
            lemma_blank(tail);
            if forall|i: int| 0 <= i < tail.len() ==> is_white_space(#[trigger] tail[i]) {
                assert forall|i: int| 0 <= i < s.len() implies is_white_space(#[trigger] s[i]) by {
                    if i > 0 {
                        assert(s[i] == tail[i - 1]);
                    }
                }
            } else {
                let k = choose|k: int|
                    0 <= k < tail.len() && !is_white_space(#[trigger] tail[k]);
                assert(s[k + 1] == tail[k]);
            }
        } else {
            assert(!is_white_space(s[0]));
            lemma_trimmed_end_keeps(s);
        }
    }
}

proof fn lemma_trimmed_end_keeps(s: Seq<char>)
    requires
        s.len() > 0,
        !is_white_space(s[0]),
    ensures
        trimmed_end(s).len() > 0,
    decreases s.len(),
{
    if is_white_space(s.last()) {
        lemma_trimmed_end_keeps(s.drop_last());
    }
}

proof fn lemma_lower_keeps_bytes(s: Seq<char>)
    ensures
        encode_utf8(lower(s)).len() == encode_utf8(s).len(),
    decreases s.len(),
{
    if s.len() > 0 {
        let tail = s.drop_first();
        lemma_lower_keeps_bytes(tail);
        assert(lower(s).drop_first() =~= lower(tail));
        lemma_scalar_bytes(s[0]);
        lemma_scalar_bytes(lower_char(s[0]));
        assert(lower(s)[0] == lower_char(s[0]));
    }
}

proof fn lemma_lower_keeps_blank(s: Seq<char>)
    ensures
        trimmed(lower(s)).len() == 0 <==> trimmed(s).len() == 0,
{
    lemma_blank(s);
    lemma_blank(lower(s));
    assert forall|i: int| 0 <= i < s.len() implies is_white_space(#[trigger] s[i])
        == is_white_space(lower(s)[i]) by {}
    if forall|i: int| 0 <= i < s.len() ==> is_white_space(#[trigger] s[i]) {
        assert forall|i: int| 0 <= i < lower(s).len() implies is_white_space(
            #[trigger] lower(s)[i],
        ) by {
            assert(is_white_space(s[i]));
        }
    } else {
        let k = choose|k: int| 0 <= k < s.len() && !is_white_space(#[trigger] s[k]);
        assert(!is_white_space(lower(s)[k]));
    }
}

/// Letter case plays no part in what becomes of a content hash.
pub proof fn law_content_hash_ignores_case(algo: Seq<char>, a: Seq<char>, b: Seq<char>)
    requires
        lower(a) == lower(b),
    ensures
        content_hash(algo, a) == content_hash(algo, b),
{
    lemma_lower_keeps_blank(a);
    lemma_lower_keeps_blank(b);
    lemma_lower_keeps_bytes(a);
    lemma_lower_keeps_bytes(b);
}

/// A content hash in its canonical form is left as it is.
pub proof fn law_content_hash_idempotent(algo: Seq<char>, hash: Seq<char>)
    requires
        content_hash(algo, hash) is Ok,
    ensures
        content_hash(algo, content_hash(algo, hash)->Ok_0) == content_hash(algo, hash),
{
    law_content_hash_form(algo, hash);
    lemma_lower_hex_fixed(lower(hash));
    law_content_hash_ignores_case(algo, lower(hash), hash);
}

/// The spelling of an algorithm name plays no part in what becomes of a content
/// hash.
pub proof fn law_content_hash_ignores_algo_spelling(algo: Seq<char>, hash: Seq<char>)
    ensures
        content_hash(normalized_algo(algo), hash) == content_hash(algo, hash),
{
    law_normalize_algo_idempotent(algo);
}

// --- Verification ---

/// Content may arrive in parts of any size: only the bytes written count.
pub proof fn law_parts_do_not_matter<W>(v: VerifierView<W>, a: Seq<u8>, b: Seq<u8>)
    ensures
        v.wrote(a).wrote(b) == v.wrote(a + b),
        v.wrote(Seq::empty()) == v,
{
    assert(v.written + a + b =~= v.written + (a + b));
    assert(v.written + Seq::<u8>::empty() =~= v.written);
}

/// Against the hexadecimal form of a digest, in any letter case, content passes
/// just where it has that digest; the writer then comes back.
pub proof fn law_only_the_digest_passes<W>(
    algo: Seq<char>,
    expected: Seq<char>,
    inner: W,
    content: Seq<u8>,
    digest: Seq<u8>,
)
    requires
        lower(expected) == hex(digest),
    ensures
        VerifierView::fresh(algo, lower(expected), inner).wrote(content).verdict() is Ok
            <==> digest_of(algo, content) == digest,
        digest_of(algo, content) == digest ==> VerifierView::fresh(
            algo,
            lower(expected),
            inner,
        ).wrote(content).verdict() == Ok::<W, ErrorView>(inner),
{
    assert(Seq::<u8>::empty() + content =~= content);
    law_hex_injective(digest_of(algo, content), digest);
}

/// The verifier of a session lets content pass just where its hash under the
/// session's algorithm is the hash that the session was opened for.
pub proof fn law_session_verifies<W>(
    servers: Seq<Seq<char>>,
    algo: Seq<char>,
    hash: Seq<char>,
    sources: Seq<Seq<char>>,
    direct: Seq<Seq<char>>,
    inner: W,
    content: Seq<u8>,
)
    requires
        refusal(algo, hash, sources) is None,
    ensures
        ({
            let s = SessionView::planned(
                servers,
                normalized_algo(algo),
                content_hash(algo, hash)->Ok_0,
                sources,
                direct,
            );
            let v = VerifierView::fresh(s.algo, s.hash, inner).wrote(content);
            v.verdict() == if hex(digest_of(normalized_algo(algo), content)) == lower(hash) {
                Ok::<W, ErrorView>(inner)
            } else {
                Err(
                    ErrorView::HashMismatch {
                        expected: lower(hash),
                        actual: hex(digest_of(normalized_algo(algo), content)),
                    },
                )
            }
        }),
{
    law_content_hash_form(algo, hash);
    assert(Seq::<u8>::empty() + content =~= content);
}

// --- The plan of a session ---

/// A session tries every server, in order and with the source URLs in its
/// header, before it tries any source, and nothing else; a source gets no header.
pub proof fn law_servers_before_sources(
    servers: Seq<Seq<char>>,
    algo: Seq<char>,
    hash: Seq<char>,
    sources: Seq<Seq<char>>,
    direct: Seq<Seq<char>>,
)
    ensures
        ({
            let s = SessionView::planned(servers, algo, hash, sources, direct);
            &&& s.attempts.len() == servers.len() + direct.len()
            &&& forall|i: int|
                0 <= i < servers.len() ==> #[trigger] s.attempts[i] == server_attempt(
                    servers[i],
                    algo,
                    hash,
                    sources,
                )
            &&& forall|i: int|
                servers.len() <= i < s.attempts.len() ==> #[trigger] s.attempts[i]
                    == direct_attempt(direct[i - servers.len()])
        }),
{
}

/// What a server reads out of the header of an attempt are the source URLs, just
/// where these are ASCII.
pub proof fn law_header_carries_sources(
    server: Seq<char>,
    algo: Seq<char>,
    hash: Seq<char>,
    sources: Seq<Seq<char>>,
)
    ensures
        ({
            let headers = server_attempt(server, algo, hash, sources).headers;
            &&& headers.len() == 1
            &&& headers[0].0 == source_header()
            &&& string_list(encode_utf8(headers[0].1)) == sources <==> (forall|i: int|
                0 <= i < sources.len() ==> is_ascii_chars(#[trigger] sources[i]))
        }),
{
    law_source_urls_round_trip(sources);
}

/// In whatever order the sources are tried, the same URLs are tried, each as
/// often as it was given.
pub proof fn law_every_source_is_tried(direct: Seq<Seq<char>>, sources: Seq<Seq<char>>)
    requires
        is_shuffle(direct, sources),
    ensures
        direct.len() == sources.len(),
        forall|url: Seq<char>| direct.contains(url) <==> sources.contains(url),
{
    direct.to_multiset_ensures();
    sources.to_multiset_ensures();
    assert forall|url: Seq<char>| direct.contains(url) <==> sources.contains(url) by {
        assert(direct.contains(url) <==> direct.to_multiset().count(url) > 0);
        assert(sources.contains(url) <==> sources.to_multiset().count(url) > 0);
    }
}

/// A session that could be opened has an attempt to begin with.
pub proof fn law_opened_session_has_an_attempt(
    servers: Seq<Seq<char>>,
    algo: Seq<char>,
    hash: Seq<char>,
    sources: Seq<Seq<char>>,
    direct: Seq<Seq<char>>,
)
    requires
        refusal(algo, hash, sources) is None,
        is_shuffle(direct, sources),
    ensures
        SessionView::planned(
            servers,
            normalized_algo(algo),
            content_hash(algo, hash)->Ok_0,
            sources,
            direct,
        ).next() is Some,
{
    law_every_source_is_tried(direct, sources);
}

/// A slash at the end of a server's base URL makes no difference.
pub proof fn law_trailing_slash_ignored(
    server: Seq<char>,
    algo: Seq<char>,
    hash: Seq<char>,
    sources: Seq<Seq<char>>,
)
    ensures
        server_attempt(server.push('/'), algo, hash, sources) == server_attempt(
            server,
            algo,
            hash,
            sources,
        ),
{
    assert(server.push('/').drop_last() =~= server);
}

/// A blank server value names no server, and with no servers only sources are
/// tried.
pub proof fn law_blank_value_disables_servers(
    value: Seq<char>,
    algo: Seq<char>,
    hash: Seq<char>,
    sources: Seq<Seq<char>>,
    direct: Seq<Seq<char>>,
)
    requires
        forall|i: int| 0 <= i < value.len() ==> is_white_space(#[trigger] value[i]),
    ensures
        server_list(value) == Seq::<Seq<char>>::empty(),
        SessionView::planned(server_list(value), algo, hash, sources, direct).attempts
            == direct.map_values(|u: Seq<char>| direct_attempt(u)),
{
    lemma_blank(value);
    assert(SessionView::planned(server_list(value), algo, hash, sources, direct).attempts
        =~= direct.map_values(|u: Seq<char>| direct_attempt(u)));
}

// --- The life of a session ---

/// What a caller can do to a session.
pub enum Event {
    NextAttempt,
    ReportSuccess,
    ReportPartial,
}

pub open spec fn step(s: SessionView, e: Event) -> SessionView {
    match e {
        Event::NextAttempt => s.advanced(),
        Event::ReportSuccess => s.succeeding(),
        Event::ReportPartial => s.tainted(),
    }
}

/// The session after a history of events.
pub open spec fn run(s: SessionView, events: Seq<Event>) -> SessionView
    decreases events.len(),
{
    if events.len() == 0 {
        s
    } else {
        step(run(s, events.drop_last()), events.last())
    }
}

/// The attempts that were handed out during a history of events.
pub open spec fn handed_out(s: SessionView, events: Seq<Event>) -> Seq<AttemptView>
    decreases events.len(),
{
    if events.len() == 0 {
        Seq::empty()
    } else {
        let before = handed_out(s, events.drop_last());
        match (events.last(), run(s, events.drop_last()).next()) {
            (Event::NextAttempt, Some(a)) => before.push(a),
            _ => before,
        }
    }
}

/// Whatever happens, a session stays well formed and keeps its plan, its
/// algorithm and its hash; it has succeeded just where success was reported, and
/// is finished just where success or a partial download was reported.
pub proof fn law_history(s: SessionView, events: Seq<Event>)
    requires
        s.wf(),
    ensures
        run(s, events).wf(),
        run(s, events).attempts == s.attempts,
        run(s, events).algo == s.algo,
        run(s, events).hash == s.hash,
        run(s, events).current >= s.current,
        run(s, events).success <==> s.success || events.contains(Event::ReportSuccess),
        run(s, events).done <==> s.done || events.contains(Event::ReportSuccess)
            || events.contains(Event::ReportPartial),
    decreases events.len(),
{
    if events.len() > 0 {
        let front = events.drop_last();
        law_history(s, front);
        lemma_contains_last(events, Event::ReportSuccess);
        lemma_contains_last(events, Event::ReportPartial);
    }
}

proof fn lemma_contains_last(events: Seq<Event>, e: Event)
    requires
        events.len() > 0,
    ensures
        events.contains(e) <==> events.drop_last().contains(e) || events.last() == e,
{
    let front = events.drop_last();
    if events.contains(e) {
        let k = choose|k: int| 0 <= k < events.len() && events[k] == e;
        if k < front.len() {
            assert(front[k] == e);
        }
    }
    if front.contains(e) {
        let k = choose|k: int| 0 <= k < front.len() && front[k] == e;
        assert(events[k] == e);
    }
    if events.last() == e {
        assert(events[events.len() - 1] == e);
    }
}

/// Attempts are handed out in the order of the plan, none of them skipped and
/// none handed out twice.
pub proof fn law_attempts_in_order(s: SessionView, events: Seq<Event>)
    requires
        s.wf(),
    ensures
        run(s, events).current <= s.attempts.len(),
        handed_out(s, events) == s.attempts.subrange(
            s.current as int,
            run(s, events).current as int,
        ),
    decreases events.len(),
{
    law_history(s, events);
    if events.len() > 0 {
        law_history(s, events.drop_last());
        law_attempts_in_order(s, events.drop_last());
    }
    assert(handed_out(s, events) =~= s.attempts.subrange(
        s.current as int,
        run(s, events).current as int,
    ));
}

/// Once a session is finished, no attempt is ever handed out again.
pub proof fn law_finished_is_final(s: SessionView, events: Seq<Event>)
    requires
        s.wf(),
        s.done,
    ensures
        run(s, events).next() is None,
        handed_out(s, events) == Seq::<AttemptView>::empty(),
    decreases events.len(),
{
    law_history(s, events);
    if events.len() > 0 {
        law_finished_is_final(s, events.drop_last());
    }
}

/// A caller that keeps asking and reports nothing gets every attempt of the plan,
/// and then none.
pub proof fn law_asking_exhausts_the_plan(s: SessionView, calls: nat)
    requires
        s.wf(),
        !s.done,
    ensures
        ({
            let asked = run(s, Seq::new(calls, |i: int| Event::NextAttempt));
            asked.next() == if s.current + calls < s.attempts.len() {
                Some(s.attempts[(s.current + calls) as int])
            } else {
                None
            }
        }),
{
    lemma_asking(s, calls);
}

proof fn lemma_asking(s: SessionView, calls: nat)
    requires
        s.wf(),
        !s.done,
    ensures
        ({
            let asked = run(s, Seq::new(calls, |i: int| Event::NextAttempt));
            &&& !asked.done
            &&& asked.attempts == s.attempts
            &&& asked.current == if s.current + calls < s.attempts.len() {
                s.current + calls
            } else {
                s.attempts.len()
            }
        }),
    decreases calls,
{
    let events = Seq::new(calls, |i: int| Event::NextAttempt);
    if calls > 0 {
        let fewer = (calls - 1) as nat;
        lemma_asking(s, fewer);
        assert(events.drop_last() =~= Seq::new(fewer, |i: int| Event::NextAttempt));
    }
}

} // verus!
