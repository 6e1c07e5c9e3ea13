//! Lists of quoted strings in the syntax of RFC 8941: the wire form of the
//! `X-Source-Urls` header and of the `FETCHURL_SERVER` value.

use vstd::prelude::*;
use vstd::string::*;
use vstd::utf8::*;

use crate::member::{
    lemma_member_suffix, lemma_parameters_suffix, member_end, parameters_end, pass_parameters,
    pass_well_formed, rest_at,
};
use crate::text::{texts, trim, trimmed, AsText};

verus! {

// --- The bytes with a meaning ---

/// `"`, which opens and closes a string.
pub const QUOTE: u8 = 0x22;

/// `\`, which makes the next byte of a string literal.
pub const BACKSLASH: u8 = 0x5c;

/// `,`, which separates the members of a list.
pub const COMMA: u8 = 0x2c;

pub const SPACE: u8 = 0x20;

pub const TAB: u8 = 0x09;

// --- Reading ---

pub open spec fn is_blank(b: u8) -> bool {
    b == SPACE || b == TAB
}

/// The input without its leading spaces and tabs.
pub open spec fn skip_blank(b: Seq<u8>) -> Seq<u8>
    decreases b.len(),
{
    if b.len() > 0 && is_blank(b[0]) {
        skip_blank(b.skip(1))
    } else {
        b
    }
}

/// The text of a string whose opening quote has been read: every byte is one
/// character, a backslash makes the next byte literal, and the string ends at
/// the first quote that is not escaped, or with the input.
pub open spec fn string_text(b: Seq<u8>) -> Seq<char>
    decreases b.len(),
{
    if b.len() == 0 {
        Seq::empty()
    } else if b[0] == BACKSLASH && b.len() > 1 {
        seq![b[1] as char] + string_text(b.skip(2))
    } else if b[0] == QUOTE {
        Seq::empty()
    } else {
        seq![b[0] as char] + string_text(b.skip(1))
    }
}

/// What follows the closing quote of a string whose opening quote has been
/// read.
pub open spec fn after_string(b: Seq<u8>) -> Seq<u8>
    decreases b.len(),
{
    if b.len() == 0 {
        b
    } else if b[0] == BACKSLASH && b.len() > 1 {
        after_string(b.skip(2))
    } else if b[0] == QUOTE {
        b.skip(1)
    } else {
        after_string(b.skip(1))
    }
}

/// What follows the first comma; nothing where there is none.
pub open spec fn after_comma(b: Seq<u8>) -> Seq<u8>
    decreases b.len(),
{
    if b.len() == 0 {
        b
    } else if b[0] == COMMA {
        b.skip(1)
    } else {
        after_comma(b.skip(1))
    }
}

/// Whether a well-formed part of a member has its end at `end`, with nothing but
/// spaces and tabs between it and a comma or the end of the list.
pub open spec fn ends_member(end: Option<Seq<u8>>) -> bool {
    end is Some && (skip_blank(end->0).len() == 0 || skip_blank(end->0)[0] == COMMA)
}

/// What follows the comma that ends a member of which `b` is left and of which a
/// well-formed part has its end at `end`. Where that part is all that is left of
/// the member, the comma is the one behind it: commas inside its quoted strings
/// do not count. A malformed member ends at the first comma.
pub open spec fn after_member(b: Seq<u8>, end: Option<Seq<u8>>) -> Seq<u8> {
    if ends_member(end) {
        after_comma(end->0)
    } else {
        after_comma(b)
    }
}

/// The strings of a list. Members that are not strings are passed over, and so
/// are the parameters of a string: whatever stands between it and the comma that
/// ends its member.
pub open spec fn string_list(b: Seq<u8>) -> Seq<Seq<char>>
    decreases b.len(),
{
    proof {
        lemma_reading_shortens(b);
    }
    let s = skip_blank(b);
    if s.len() == 0 {
        Seq::empty()
    } else if s[0] != QUOTE {
        string_list(after_member(s, member_end(s)))
    } else {
        let rest = after_string(s.skip(1));
        seq![string_text(s.skip(1))] + string_list(after_member(rest, parameters_end(rest)))
    }
}

proof fn lemma_skip_blank_len(b: Seq<u8>)
    ensures
        skip_blank(b).len() <= b.len(),
    decreases b.len(),
{
    if b.len() > 0 && is_blank(b[0]) {
        lemma_skip_blank_len(b.skip(1));
    }
}

proof fn lemma_after_string_len(b: Seq<u8>)
    ensures
        after_string(b).len() <= b.len(),
    decreases b.len(),
{
    if b.len() > 0 {
        if b[0] == BACKSLASH && b.len() > 1 {
            lemma_after_string_len(b.skip(2));
        } else if b[0] != QUOTE {
            lemma_after_string_len(b.skip(1));
        }
    }
}

proof fn lemma_after_comma_len(b: Seq<u8>)
    ensures
        b.len() > 0 ==> after_comma(b).len() < b.len(),
        after_comma(b).len() <= b.len(),
    decreases b.len(),
{
    if b.len() > 0 && b[0] != COMMA {
        lemma_after_comma_len(b.skip(1));
    }
}

/// Reading a member of a list always consumes input.
pub proof fn lemma_reading_shortens(b: Seq<u8>)
    ensures
        skip_blank(b).len() <= b.len(),
        skip_blank(b).len() > 0 ==> {
            let s = skip_blank(b);
            let rest = after_string(s.skip(1));
            &&& after_member(s, member_end(s)).len() < b.len()
            &&& after_member(rest, parameters_end(rest)).len() < b.len()
        },
{
    lemma_skip_blank_len(b);
    let s = skip_blank(b);
    if s.len() > 0 {
        let rest = after_string(s.skip(1));
        lemma_after_string_len(s.skip(1));
        lemma_member_suffix(s);
        lemma_parameters_suffix(rest);
        lemma_after_comma_len(s);
        lemma_after_comma_len(rest);
        lemma_after_comma_len(member_end(s)->0);
        lemma_after_comma_len(parameters_end(rest)->0);
    }
}

fn pass_blank(bytes: &[u8], from: usize) -> (i: usize)
    requires
        from <= bytes@.len(),
    ensures
        from <= i <= bytes@.len(),
        bytes@.skip(i as int) == skip_blank(bytes@.skip(from as int)),
{
    let mut i: usize = from;
    while i < bytes.len() && (bytes[i] == SPACE || bytes[i] == TAB)
        invariant
            from <= i <= bytes@.len(),
            skip_blank(bytes@.skip(i as int)) == skip_blank(bytes@.skip(from as int)),
        decreases bytes@.len() - i,
    {
        assert(bytes@.skip(i as int).skip(1) =~= bytes@.skip(i + 1));
        i += 1;
    }
    i
}

fn read_string(bytes: &[u8], from: usize) -> (r: (String, usize))
    requires
        from <= bytes@.len(),
    ensures
        r.0@ == string_text(bytes@.skip(from as int)),
        from <= r.1 <= bytes@.len(),
        bytes@.skip(r.1 as int) == after_string(bytes@.skip(from as int)),
{
    let mut s = String::new();
    let mut i: usize = from;
    while i < bytes.len()
        invariant
            from <= i <= bytes@.len(),
            s@ + string_text(bytes@.skip(i as int)) == string_text(bytes@.skip(from as int)),
            after_string(bytes@.skip(i as int)) == after_string(bytes@.skip(from as int)),
        decreases bytes@.len() - i,
    {
        let ghost rest = bytes@.skip(i as int);
        assert(rest.skip(1) =~= bytes@.skip(i + 1));
        let c = bytes[i];
        if c == BACKSLASH && i + 1 < bytes.len() {
            assert(rest.skip(2) =~= bytes@.skip(i + 2));
            let ghost before = s@;
            s.push(bytes[i + 1] as char);
            i += 2;
            assert(s@ + string_text(bytes@.skip(i as int)) =~= before + string_text(rest));
        } else if c == QUOTE {
            i += 1;
            assert(s@ =~= s@ + string_text(rest));
            return (s, i);
        } else {
            let ghost before = s@;
            s.push(c as char);
            i += 1;
            assert(s@ + string_text(bytes@.skip(i as int)) =~= before + string_text(rest));
        }
    }
    assert(s@ =~= s@ + string_text(bytes@.skip(i as int)));
    (s, i)
}

fn pass_comma(bytes: &[u8], from: usize) -> (i: usize)
    requires
        from <= bytes@.len(),
    ensures
        from <= i <= bytes@.len(),
        bytes@.skip(i as int) == after_comma(bytes@.skip(from as int)),
{
    let mut i: usize = from;
    while i < bytes.len() && bytes[i] != COMMA
        invariant
            from <= i <= bytes@.len(),
            after_comma(bytes@.skip(i as int)) == after_comma(bytes@.skip(from as int)),
        decreases bytes@.len() - i,
    {
        assert(bytes@.skip(i as int).skip(1) =~= bytes@.skip(i + 1));
        i += 1;
    }
    if i < bytes.len() {
        assert(bytes@.skip(i as int).skip(1) =~= bytes@.skip(i + 1));
        i += 1;
    }
    i
}

fn pass_member(bytes: &[u8], from: usize, end: Option<usize>) -> (i: usize)
    requires
        from <= bytes@.len(),
        end is Some ==> from <= end->0 <= bytes@.len(),
    ensures
        from <= i <= bytes@.len(),
        bytes@.skip(i as int) == after_member(bytes@.skip(from as int), rest_at(bytes@, end)),
{
    if let Some(end) = end {
        let close = pass_blank(bytes, end);
        if close >= bytes.len() || bytes[close] == COMMA {
            return pass_comma(bytes, end);
        }
    }
    pass_comma(bytes, from)
}

/// Read the strings of an RFC 8941 list, ignoring their parameters.
pub fn parse_sfv_string_list(input: &str) -> (r: Vec<String>)
    ensures
        texts(r@) == string_list(encode_utf8(input@)),
{
    let mut results: Vec<String> = Vec::new();
    let bytes = input.as_bytes();
    let mut i: usize = 0;
    assert(bytes@.skip(0) =~= bytes@);
    assert(texts(results@) + string_list(bytes@) =~= string_list(bytes@));
    while i < bytes.len()
        invariant
            0 <= i <= bytes@.len(),
            texts(results@) + string_list(bytes@.skip(i as int)) == string_list(bytes@),
        decreases bytes@.len() - i,
    {
        let ghost rest = bytes@.skip(i as int);
        proof {
            lemma_reading_shortens(rest);
        }
        let start = pass_blank(bytes, i);
        let ghost s = bytes@.skip(start as int);
        if start >= bytes.len() {
            assert(s.len() == 0);
            assert(string_list(bytes@.skip(start as int)) == string_list(rest));
            i = start;
        } else if bytes[start] != QUOTE {
            let close = pass_well_formed(bytes, start);
            i = pass_member(bytes, start, close);
        } else {
            assert(s.skip(1) =~= bytes@.skip(start + 1));
            let (text, end) = read_string(bytes, start + 1);
            let ghost before = texts(results@);
            results.push(text);
            let close = pass_parameters(bytes, end);
            i = pass_member(bytes, end, close);
            assert(texts(results@) =~= before.push(text@));
            assert(texts(results@) + string_list(bytes@.skip(i as int)) =~= before + string_list(
                rest,
            ));
        }
    }
    assert(bytes@.skip(i as int) =~= Seq::<u8>::empty());
    assert(texts(results@) + string_list(Seq::<u8>::empty()) =~= texts(results@));
    results
}

/// The servers that a `FETCHURL_SERVER` value names: none where it is blank, the
/// trimmed value itself where it does not start with a quote, else the strings
/// of the list.
pub open spec fn server_list(value: Seq<char>) -> Seq<Seq<char>> {
    let v = trimmed(value);
    if v.len() == 0 {
        Seq::empty()
    } else if v[0] != '"' {
        seq![v]
    } else {
        string_list(encode_utf8(v))
    }
}

/// Parse the value of the `FETCHURL_SERVER` environment variable (an RFC 8941
/// string list, or one bare URL).
pub fn parse_fetchurl_server(value: &str) -> (r: Vec<String>)
    ensures
        texts(r@) == server_list(value@),
{
    let value = trim(value);
    if value.is_empty() {
        let none: Vec<String> = Vec::new();
        assert(texts(none@) =~= Seq::<Seq<char>>::empty());
        return none;
    }
    if value.get_char(0) != '"' {
        let mut one: Vec<String> = Vec::new();
        one.push(value.to_owned());
        assert(texts(one@) =~= seq![value@]);
        return one;
    }
    parse_sfv_string_list(value)
}

// --- Writing ---

/// A character of a quoted string: quotes and backslashes are escaped.
pub open spec fn escaped_char(c: char) -> Seq<char> {
    if c == '\\' || c == '"' {
        seq!['\\', c]
    } else {
        seq![c]
    }
}

pub open spec fn escaped(s: Seq<char>) -> Seq<char>
    decreases s.len(),
{
    if s.len() == 0 {
        Seq::empty()
    } else {
        escaped_char(s.first()) + escaped(s.drop_first())
    }
}

/// A text as a quoted string.
pub open spec fn quoted(s: Seq<char>) -> Seq<char> {
    seq!['"'] + escaped(s) + seq!['"']
}

/// Texts as a list of quoted strings, separated by a comma and a space.
pub open spec fn encoded_list(items: Seq<Seq<char>>) -> Seq<char> {
    if items.len() == 0 {
        Seq::empty()
    } else {
        quoted(items.first()) + continued_list(items.drop_first())
    }
}

/// The members of a list that follow its first one, each with its separator.
pub open spec fn continued_list(items: Seq<Seq<char>>) -> Seq<char>
    decreases items.len(),
{
    if items.len() == 0 {
        Seq::empty()
    } else {
        seq![',', ' '] + quoted(items.first()) + continued_list(items.drop_first())
    }
}

fn push_quoted(out: &mut String, s: &str)
    ensures
        final(out)@ == old(out)@ + quoted(s@),
{
    let ghost before = out@;
    out.push('"');
    let ghost opened = out@;
    assert(s@.skip(0) =~= s@);
    for c in it: s.chars()
        invariant
            it.seq() == s@,
            out@ + escaped(s@.skip(it.index() as int)) == opened + escaped(s@),
    {
        let ghost rest = s@.skip(it.index() as int);
        let ghost prior = out@;
        assert(rest.drop_first() =~= s@.skip(it.index() + 1));
        if c == '\\' || c == '"' {
            out.push('\\');
        }
        out.push(c);
        assert(out@ + escaped(rest.drop_first()) =~= prior + escaped(rest));
    }
    assert(s@.skip(s@.len() as int) =~= Seq::<char>::empty());
    assert(out@ =~= opened + escaped(s@));
    out.push('"');
    assert(out@ =~= before + quoted(s@));
}

/// Write strings as an RFC 8941 list.
pub fn encode_sfv_string_list(strings: &[&str]) -> (r: String)
    ensures
        r@ == encoded_list(texts(strings@)),
{
    let ghost all = texts(strings@);
    let mut out = String::new();
    if strings.len() == 0 {
        return out;
    }
    push_quoted(&mut out, strings[0]);
    assert(out@ + continued_list(all.skip(1)) =~= encoded_list(all)) by {
        assert(all.skip(1) =~= all.drop_first());
    }
    let mut i: usize = 1;
    while i < strings.len()
        invariant
            all == texts(strings@),
            1 <= i <= strings@.len(),
            out@ + continued_list(all.skip(i as int)) == encoded_list(all),
        decreases strings@.len() - i,
    {
        let ghost prior = out@;
        let ghost rest = all.skip(i as int);
        assert(rest.drop_first() =~= all.skip(i + 1));
        out.push(',');
        out.push(' ');
        push_quoted(&mut out, strings[i]);
        i += 1;
        assert(out@ + continued_list(rest.drop_first()) =~= prior + continued_list(rest));
    }
    assert(all.skip(i as int) =~= Seq::<Seq<char>>::empty());
    assert(out@ =~= encoded_list(all));
    out
}

/// Encode source URLs as an RFC 8941 string list for the `X-Source-Urls` header.
pub fn encode_source_urls<T: AsText>(urls: &[T]) -> (r: String)
    ensures
        r@ == encoded_list(texts(urls@)),
{
    let mut strs: Vec<&str> = Vec::new();
    let mut i: usize = 0;
    while i < urls.len()
        invariant
            i <= urls@.len(),
            texts(strs@) == texts(urls@).take(i as int),
        decreases urls@.len() - i,
    {
        let ghost before = texts(strs@);
        strs.push(urls[i].as_text());
        i += 1;
        assert(texts(strs@) =~= before.push(texts(urls@)[i - 1]));
        assert(texts(strs@) =~= texts(urls@).take(i as int));
    }
    assert(texts(urls@).take(i as int) =~= texts(urls@));
    encode_sfv_string_list(strs.as_slice())
}

} // verus!
