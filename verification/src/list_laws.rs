//! Laws of string lists, stated over the bytes that are read and the characters
//! that are written.

use vstd::prelude::*;
use vstd::utf8::*;

use crate::laws::{
    lemma_quoted_first, lemma_scalar_bytes, lemma_to_the_comma, lemma_utf8_concat,
    lemma_utf8_single, octets,
};
use crate::member::{
    bare_item_end, inner_list_end, is_rest, item_end, lemma_bare_item_before_comma,
    lemma_item_settled, lemma_member_before_comma, lemma_member_settled, lemma_member_suffix,
    lemma_parameter_suffix,
    lemma_parameters_before_comma, lemma_parameters_printable, lemma_parameters_settled,
    lemma_parameters_suffix, lemma_rest_free, member_end, no_quote_behind, parameter_end,
    parameters_end, skip_class, starts, string_end, ByteClass,
};
use crate::sfv::{
    after_comma, after_member, after_string, continued_list, encoded_list, escaped, escaped_char,
    quoted, skip_blank, string_list, string_text, BACKSLASH, COMMA, QUOTE,
};

verus! {

// --- Reading: what stands between members ---

/// Nothing holds no string.
pub proof fn law_empty_list()
    ensures
        string_list(Seq::<u8>::empty()).len() == 0,
{
}

/// Spaces and tabs before a member never matter.
pub proof fn law_leading_blank_ignored(blank: u8, b: Seq<u8>)
    requires
        blank == 0x20 || blank == 0x09,
    ensures
        string_list(seq![blank] + b) == string_list(b),
{
    assert((seq![blank] + b).skip(1) =~= b);
    assert(skip_blank(seq![blank] + b) == skip_blank(b));
}

/// An empty member never matters.
pub proof fn law_empty_member_ignored(b: Seq<u8>)
    ensures
        string_list(seq![0x2cu8] + b) == string_list(b),
{
    let whole = seq![COMMA] + b;
    assert(whole.skip(1) =~= b);
    assert(skip_blank(whole) == whole);
    assert(member_end(whole) is None);
}

// --- Reading: the characters of a string ---

proof fn lemma_string_first(x: Seq<u8>)
    ensures
        string_list(seq![QUOTE] + x) == seq![string_text(x)] + string_list(
            after_member(after_string(x), parameters_end(after_string(x))),
        ),
{
    let whole = seq![QUOTE] + x;
    assert(whole.skip(1) =~= x);
    assert(skip_blank(whole) == whole);
}

/// A byte of a string that is neither a quote nor a backslash is a character of
/// the string, before those that follow, and changes nothing else.
pub proof fn law_byte_of_a_string(c: u8, x: Seq<u8>)
    requires
        c != 0x22,
        c != 0x5c,
    ensures
        string_list(seq![0x22u8] + x).len() > 0,
        string_list(seq![0x22u8] + (seq![c] + x)) == seq![
            seq![c as char] + string_list(seq![0x22u8] + x)[0],
        ] + string_list(seq![0x22u8] + x).skip(1),
{
    let y = seq![c] + x;
    assert(y.skip(1) =~= x);
    lemma_string_first(x);
    lemma_string_first(y);
    assert(string_list(seq![0x22u8] + x).skip(1) =~= string_list(
        after_member(after_string(x), parameters_end(after_string(x))),
    ));
}

/// A backslash in a string makes any byte that follows a character of the string.
pub proof fn law_escaped_byte_of_a_string(c: u8, x: Seq<u8>)
    ensures
        string_list(seq![0x22u8] + x).len() > 0,
        string_list(seq![0x22u8] + (seq![0x5cu8, c] + x)) == seq![
            seq![c as char] + string_list(seq![0x22u8] + x)[0],
        ] + string_list(seq![0x22u8] + x).skip(1),
{
    let y = seq![0x5cu8, c] + x;
    assert(y.skip(2) =~= x);
    lemma_string_first(x);
    lemma_string_first(y);
    assert(string_list(seq![0x22u8] + x).skip(1) =~= string_list(
        after_member(after_string(x), parameters_end(after_string(x))),
    ));
}

/// A string ends at a quote, or with the list; a backslash at the very end is a
/// character of it.
pub proof fn law_end_of_a_string(tail: Seq<u8>)
    ensures
        string_list(seq![0x22u8, 0x22u8] + tail).len() > 0,
        string_list(seq![0x22u8, 0x22u8] + tail)[0].len() == 0,
        string_list(seq![0x22u8]) == seq![Seq::<char>::empty()],
        string_list(seq![0x22u8, 0x5cu8]) == seq![seq!['\\']],
{
    let none = Seq::<u8>::empty();
    assert(seq![0x22u8, 0x22u8] + tail =~= seq![QUOTE] + (seq![QUOTE] + tail));
    lemma_string_first(seq![QUOTE] + tail);
    assert(seq![0x22u8] =~= seq![QUOTE] + none);
    lemma_string_first(none);
    assert(after_comma(none) =~= none);
    assert(parameters_end(none) == Some(none));
    assert(string_list(none) =~= Seq::<Seq<char>>::empty());
    assert(string_list(seq![0x22u8]) =~= seq![Seq::<char>::empty()]);
    let slash = seq![BACKSLASH];
    assert(seq![0x22u8, 0x5cu8] =~= seq![QUOTE] + slash);
    lemma_string_first(slash);
    assert(slash.skip(1) =~= none);
    assert(string_text(none) =~= Seq::<char>::empty());
    assert(BACKSLASH as char == '\\');
    assert(string_text(slash) =~= seq!['\\']);
    assert(after_string(none) =~= none);
    assert(after_string(slash) =~= none);
    assert(string_list(seq![0x22u8, 0x5cu8]) =~= seq![seq!['\\']]);
}

// --- Reading: what follows a string ---

proof fn lemma_empty_string_first(t: Seq<u8>)
    ensures
        string_list(seq![QUOTE, QUOTE] + t) == seq![Seq::<char>::empty()] + string_list(
            after_member(t, parameters_end(t)),
        ),
{
    let x = seq![QUOTE] + t;
    assert(seq![QUOTE, QUOTE] + t =~= seq![QUOTE] + x);
    assert(x.skip(1) =~= t);
    lemma_string_first(x);
}

/// The first comma ends a member, unless a well-formed part reaches beyond it.
proof fn lemma_first_comma(m: Seq<u8>, rest: Seq<u8>, end: Option<Seq<u8>>)
    requires
        !m.contains(COMMA),
        end is Some ==> is_rest(end->0, m + (seq![COMMA] + rest)) && end->0.len() > rest.len(),
    ensures
        after_member(m + (seq![COMMA] + rest), end) == rest,
{
    let whole = m + (seq![COMMA] + rest);
    lemma_to_the_comma(m, rest);
    if end is Some {
        let n = whole.len() - end->0.len();
        let left = m.skip(n);
        assert(end->0 =~= left + (seq![COMMA] + rest));
        lemma_rest_free(left, m, COMMA);
        lemma_to_the_comma(left, rest);
    }
}

proof fn lemma_no_comma(b: Seq<u8>, end: Option<Seq<u8>>)
    requires
        !b.contains(COMMA),
        end is Some ==> is_rest(end->0, b),
    ensures
        after_member(b, end) == Seq::<u8>::empty(),
{
    lemma_to_the_comma(b, Seq::empty());
    if end is Some {
        lemma_rest_free(end->0, b, COMMA);
        lemma_to_the_comma(end->0, Seq::empty());
    }
}

/// Without a comma behind it, a string is the last one, whatever follows it.
pub proof fn law_no_comma_no_further_string(tail: Seq<u8>)
    requires
        !tail.contains(0x2c),
    ensures
        string_list(seq![0x22u8, 0x22u8] + tail).len() == 1,
{
    lemma_empty_string_first(tail);
    lemma_parameters_suffix(tail);
    lemma_no_comma(tail, parameters_end(tail));
    assert(string_list(Seq::<u8>::empty()) =~= Seq::<Seq<char>>::empty());
}

/// Behind a string, reading goes on at the first comma, whatever stands before
/// it, where no quote stands directly behind an equals sign there, where no quote
/// follows the comma, or where what stands there does not start with a semicolon.
pub proof fn law_next_member_at_the_first_comma(tail: Seq<u8>, rest: Seq<u8>)
    requires
        !tail.contains(0x2c),
        (forall|i: int| 0 < i < tail.len() && #[trigger] tail[i] == 0x22 ==> tail[i - 1] != 0x3d)
            || !rest.contains(0x22) || tail.len() == 0 || tail[0] != 0x3b,
    ensures
        string_list(seq![0x22u8, 0x22u8] + tail + seq![0x2cu8] + rest) == seq![
            Seq::<char>::empty(),
        ] + string_list(rest),
{
    let more = seq![COMMA] + rest;
    let t = tail + more;
    assert(seq![QUOTE, QUOTE] + tail + seq![COMMA] + rest =~= seq![QUOTE, QUOTE] + t);
    lemma_empty_string_first(t);
    lemma_parameters_suffix(t);
    lemma_parameters_suffix(tail);
    lemma_more_without_quote(rest);
    lemma_parameters_before_comma(tail, more);
    if tail.len() == 0 {
        assert(t =~= more);
    }
    assert(no_quote_behind(tail, 0x3d) || !rest.contains(0x22) || parameters_end(t) == Some(t));
    lemma_first_comma(tail, rest, parameters_end(t));
}

proof fn lemma_more_without_quote(rest: Seq<u8>)
    ensures
        !rest.contains(QUOTE) ==> !(seq![COMMA] + rest).contains(QUOTE),
{
    let more = seq![COMMA] + rest;
    if more.contains(QUOTE) {
        let i = choose|i: int| 0 <= i < more.len() && more[i] == QUOTE;
        assert(rest[i - 1] == QUOTE);
    }
}

/// Parameters are printable ASCII: where another byte stands behind a string,
/// before the first comma, reading goes on at that comma.
pub proof fn law_next_member_behind_unprintable(tail: Seq<u8>, k: int, rest: Seq<u8>)
    requires
        !tail.contains(0x2c),
        0 <= k < tail.len(),
        !(0x20 <= tail[k] <= 0x7e),
    ensures
        string_list(seq![0x22u8, 0x22u8] + tail + seq![0x2cu8] + rest) == seq![
            Seq::<char>::empty(),
        ] + string_list(rest),
{
    let t = tail + (seq![COMMA] + rest);
    assert(seq![QUOTE, QUOTE] + tail + seq![COMMA] + rest =~= seq![QUOTE, QUOTE] + t);
    lemma_empty_string_first(t);
    lemma_parameters_suffix(t);
    lemma_parameters_printable(t);
    assert(t[k] == tail[k]);
    lemma_first_comma(tail, rest, parameters_end(t));
}

// --- Reading: members that are not strings ---

proof fn lemma_other_member(b: Seq<u8>)
    requires
        b.len() > 0,
        b[0] != QUOTE,
        b[0] != 0x20,
        b[0] != 0x09,
    ensures
        string_list(b) == string_list(after_member(b, member_end(b))),
{
    assert(skip_blank(b) == b);
}

/// A last member that does not start with a quote holds no string.
pub proof fn law_other_last_member(member: Seq<u8>)
    requires
        member.len() > 0,
        member[0] != 0x22,
        member[0] != 0x20,
        member[0] != 0x09,
        !member.contains(0x2c),
    ensures
        string_list(member).len() == 0,
{
    lemma_other_member(member);
    lemma_member_suffix(member);
    lemma_no_comma(member, member_end(member));
    assert(string_list(Seq::<u8>::empty()) =~= Seq::<Seq<char>>::empty());
}

/// A member that does not start with a quote ends at the first comma, whatever
/// else it holds, where none of its quotes stands directly behind an equals sign,
/// an opening parenthesis or a space, or where no quote follows the comma.
pub proof fn law_other_member_ends_at_the_first_comma(member: Seq<u8>, rest: Seq<u8>)
    requires
        member.len() > 0,
        member[0] != 0x22,
        member[0] != 0x20,
        member[0] != 0x09,
        !member.contains(0x2c),
        (forall|i: int|
            0 < i < member.len() && #[trigger] member[i] == 0x22 ==> member[i - 1] != 0x3d
                && member[i - 1] != 0x28 && member[i - 1] != 0x20) || !rest.contains(0x22),
    ensures
        string_list(member + seq![0x2cu8] + rest) == string_list(rest),
{
    let more = seq![COMMA] + rest;
    let whole = member + more;
    assert(member + seq![COMMA] + rest =~= whole);
    lemma_other_member(whole);
    lemma_member_suffix(whole);
    lemma_member_suffix(member);
    lemma_more_without_quote(rest);
    lemma_member_before_comma(member, more);
    assert((no_quote_behind(member, 0x3d) && no_quote_behind(member, 0x28) && no_quote_behind(
        member,
        0x20,
    )) || !rest.contains(0x22));
    lemma_first_comma(member, rest, member_end(whole));
}

// --- Reading: well-formed members, which may hold commas in quotes ---

/// A written string of printable ASCII is a well-formed string.
pub proof fn law_written_strings_are_well_formed(s: Seq<char>)
    requires
        forall|i: int| 0 <= i < s.len() ==> ' ' <= #[trigger] s[i] <= '~',
    ensures
        bare_item_end(encode_utf8(encoded_list(seq![s]))) == Some(Seq::<u8>::empty()),
{
    let e = encode_utf8(escaped(s));
    let b = encode_utf8(encoded_list(seq![s]));
    assert(seq![s].drop_first() =~= Seq::<Seq<char>>::empty());
    assert(encoded_list(seq![s]) =~= seq!['"'] + escaped(s) + seq!['"']);
    lemma_utf8_concat(seq!['"'] + escaped(s), seq!['"']);
    lemma_utf8_concat(seq!['"'], escaped(s));
    lemma_utf8_single('"');
    lemma_scalar_bytes('"');
    assert(b =~= seq![QUOTE] + (e + seq![QUOTE]));
    assert(b.skip(1) =~= e + seq![QUOTE]);
    lemma_escaped_is_well_formed(s);
}

proof fn lemma_escaped_is_well_formed(s: Seq<char>)
    requires
        forall|i: int| 0 <= i < s.len() ==> ' ' <= #[trigger] s[i] <= '~',
    ensures
        string_end(encode_utf8(escaped(s)) + seq![QUOTE]) == Some(Seq::<u8>::empty()),
    decreases s.len(),
{
    let b = encode_utf8(escaped(s)) + seq![QUOTE];
    if s.len() == 0 {
        assert(b =~= seq![QUOTE]);
        assert(b.skip(1) =~= Seq::<u8>::empty());
    } else {
        let c = s[0];
        let tail = s.drop_first();
        let more = encode_utf8(escaped(tail)) + seq![QUOTE];
        assert forall|i: int| 0 <= i < tail.len() implies ' ' <= #[trigger] tail[i] <= '~' by {
            assert(tail[i] == s[i + 1]);
        }
        lemma_escaped_is_well_formed(tail);
        lemma_utf8_concat(escaped_char(c), escaped(tail));
        lemma_utf8_single(c);
        lemma_scalar_bytes(c);
        let head = encode_utf8(escaped_char(c));
        assert(b =~= head + more);
        if c == '\\' || c == '"' {
            lemma_utf8_concat(seq!['\\'], seq![c]);
            lemma_utf8_single('\\');
            lemma_scalar_bytes('\\');
            assert(escaped_char(c) =~= seq!['\\'] + seq![c]);
            assert(head =~= seq![BACKSLASH, c as u8]);
            assert(b.skip(2) =~= more);
        } else {
            assert(head =~= seq![c as u8]);
            assert(b.skip(1) =~= more);
        }
    }
}

proof fn lemma_class_all(class: ByteClass, b: Seq<u8>)
    requires
        forall|i: int| 0 <= i < b.len() ==> class.has(#[trigger] b[i]),
    ensures
        skip_class(class, b) == Seq::<u8>::empty(),
    decreases b.len(),
{
    if b.len() > 0 {
        let tail = b.skip(1);
        assert forall|i: int| 0 <= i < tail.len() implies class.has(#[trigger] tail[i]) by {
            assert(tail[i] == b[i + 1]);
        }
        lemma_class_all(class, tail);
    } else {
        assert(b =~= Seq::<u8>::empty());
    }
}

proof fn lemma_class_run(class: ByteClass, run: Seq<u8>, more: Seq<u8>)
    requires
        forall|i: int| 0 <= i < run.len() ==> class.has(#[trigger] run[i]),
        more.len() == 0 || !class.has(more[0]),
    ensures
        skip_class(class, run + more) == more,
    decreases run.len(),
{
    if run.len() > 0 {
        let tail = run.skip(1);
        assert forall|i: int| 0 <= i < tail.len() implies class.has(#[trigger] tail[i]) by {
            assert(tail[i] == run[i + 1]);
        }
        lemma_class_run(class, tail, more);
        assert((run + more).skip(1) =~= tail + more);
    } else {
        assert(run + more =~= more);
    }
}

/// Tokens are well-formed: a letter or `*`, then letters, digits and
/// ``!#$%&'*+-.^_`|~:/``.
pub proof fn law_tokens_are_well_formed(v: Seq<u8>)
    requires
        v.len() > 0,
        0x41 <= v[0] <= 0x5a || 0x61 <= v[0] <= 0x7a || v[0] == 0x2a,
        forall|i: int|
            0 <= i < v.len() ==> {
                ||| 0x41 <= #[trigger] v[i] <= 0x5a
                ||| 0x61 <= v[i] <= 0x7a
                ||| 0x2d <= v[i] <= 0x3a
                ||| v[i] == 0x21
                ||| 0x23 <= v[i] <= 0x27
                ||| v[i] == 0x2a
                ||| v[i] == 0x2b
                ||| 0x5e <= v[i] <= 0x60
                ||| v[i] == 0x7c
                ||| v[i] == 0x7e
            },
    ensures
        bare_item_end(v) == Some(Seq::<u8>::empty()),
{
    lemma_class_all(ByteClass::Token, v);
}

/// Integers of 1 to 15 digits, and decimals of 1 to 12 digits before the point
/// and 1 to 3 behind it, are well-formed, with or without a minus sign.
pub proof fn law_numbers_are_well_formed(whole: Seq<u8>, fraction: Seq<u8>)
    requires
        forall|i: int| 0 <= i < whole.len() ==> 0x30 <= #[trigger] whole[i] <= 0x39,
        forall|i: int| 0 <= i < fraction.len() ==> 0x30 <= #[trigger] fraction[i] <= 0x39,
        1 <= whole.len() <= 15,
    ensures
        bare_item_end(whole) == Some(Seq::<u8>::empty()),
        bare_item_end(seq![0x2du8] + whole) == Some(Seq::<u8>::empty()),
        whole.len() <= 12 && 1 <= fraction.len() <= 3 ==> {
            &&& bare_item_end(whole + (seq![0x2eu8] + fraction)) == Some(Seq::<u8>::empty())
            &&& bare_item_end(seq![0x2du8] + (whole + (seq![0x2eu8] + fraction))) == Some(
                Seq::<u8>::empty(),
            )
        },
{
    assert(0x30 <= whole[0] <= 0x39);
    lemma_class_all(ByteClass::Digit, whole);
    lemma_class_all(ByteClass::Digit, fraction);
    let point = seq![0x2eu8] + fraction;
    lemma_class_run(ByteClass::Digit, whole, point);
    assert(point.skip(1) =~= fraction);
    assert((seq![0x2du8] + whole).skip(1) =~= whole);
    assert((seq![0x2du8] + (whole + point)).skip(1) =~= whole + point);
    assert((whole + point)[0] == whole[0]);
}

/// Byte sequences in base64 between colons, and the booleans `?0` and `?1`, are
/// well-formed.
pub proof fn law_bytes_and_booleans_are_well_formed(v: Seq<u8>)
    requires
        forall|i: int|
            0 <= i < v.len() ==> {
                ||| 0x41 <= #[trigger] v[i] <= 0x5a
                ||| 0x61 <= v[i] <= 0x7a
                ||| 0x30 <= v[i] <= 0x39
                ||| v[i] == 0x2b
                ||| v[i] == 0x2f
                ||| v[i] == 0x3d
            },
    ensures
        bare_item_end(seq![0x3au8] + v + seq![0x3au8]) == Some(Seq::<u8>::empty()),
        bare_item_end(seq![0x3fu8, 0x30u8]) == Some(Seq::<u8>::empty()),
        bare_item_end(seq![0x3fu8, 0x31u8]) == Some(Seq::<u8>::empty()),
{
    let colon = seq![0x3au8];
    lemma_class_run(ByteClass::Base64, v, colon);
    assert((colon + v + colon).skip(1) =~= v + colon);
    assert(colon.skip(1) =~= Seq::<u8>::empty());
    assert(seq![0x3fu8, 0x30u8].skip(2) =~= Seq::<u8>::empty());
    assert(seq![0x3fu8, 0x31u8].skip(2) =~= Seq::<u8>::empty());
}

/// A semicolon, any spaces and a key, with or without an equals sign and a
/// well-formed value, before well-formed parameters are well-formed parameters.
/// A key is a lowercase letter or `*`, then lowercase letters, digits and `_-.*`.
pub proof fn law_parameters_are_well_formed(
    spaces: nat,
    key: Seq<u8>,
    value: Seq<u8>,
    others: Seq<u8>,
)
    requires
        key.len() > 0,
        0x61 <= key[0] <= 0x7a || key[0] == 0x2a,
        forall|i: int|
            0 <= i < key.len() ==> {
                ||| 0x61 <= #[trigger] key[i] <= 0x7a
                ||| 0x30 <= key[i] <= 0x39
                ||| key[i] == 0x5f
                ||| key[i] == 0x2d
                ||| key[i] == 0x2e
                ||| key[i] == 0x2a
            },
        bare_item_end(value) == Some(Seq::<u8>::empty()),
        parameters_end(others) == Some(Seq::<u8>::empty()),
    ensures
        parameters_end(Seq::<u8>::empty()) == Some(Seq::<u8>::empty()),
        parameters_end(seq![0x3bu8] + Seq::new(spaces, |i: int| 0x20u8) + key + others) == Some(
            Seq::<u8>::empty(),
        ),
        parameters_end(
            seq![0x3bu8] + Seq::new(spaces, |i: int| 0x20u8) + key + seq![0x3du8] + value + others,
        ) == Some(Seq::<u8>::empty()),
{
    let blank = Seq::new(spaces, |i: int| 0x20u8);
    let assigned = seq![0x3du8] + (value + others);
    let flag = seq![0x3bu8] + blank + key + others;
    let full = seq![0x3bu8] + blank + key + seq![0x3du8] + value + others;
    assert(others.len() == 0 || others[0] == 0x3b);
    assert(flag.skip(1) =~= blank + (key + others));
    assert(full.skip(1) =~= blank + (key + assigned));
    assert((key + others)[0] == key[0]);
    assert((key + assigned)[0] == key[0]);
    lemma_class_run(ByteClass::Space, blank, key + others);
    lemma_class_run(ByteClass::Space, blank, key + assigned);
    lemma_class_run(ByteClass::Key, key, others);
    lemma_class_run(ByteClass::Key, key, assigned);
    assert(assigned.skip(1) =~= value + others);
    if others.len() > 0 {
        lemma_bare_item_before_comma(value, others);
        assert(Seq::<u8>::empty() + others =~= others);
    } else {
        assert(value + others =~= value);
        assert(others =~= Seq::<u8>::empty());
    }
    assert(parameter_end(flag.skip(1)) == Some(others));
    assert(parameter_end(full.skip(1)) == Some(others));
}

/// A well-formed value with well-formed parameters is a well-formed member.
pub proof fn law_items_are_well_formed(value: Seq<u8>, parameters: Seq<u8>)
    requires
        bare_item_end(value) == Some(Seq::<u8>::empty()),
        parameters_end(parameters) == Some(Seq::<u8>::empty()),
    ensures
        member_end(value + parameters) == Some(Seq::<u8>::empty()),
{
    assert(parameters.len() == 0 || parameters[0] == 0x3b);
    if parameters.len() > 0 {
        lemma_bare_item_before_comma(value, parameters);
        assert(Seq::<u8>::empty() + parameters =~= parameters);
    } else {
        assert(value + parameters =~= value);
        assert(parameters =~= Seq::<u8>::empty());
    }
    assert(value.len() > 0 && value[0] != 0x28);
    assert(item_end(value + parameters) == Some(Seq::<u8>::empty()));
    assert(!starts(value + parameters, 0x28));
}

/// Items with spaces between them, up to a closing parenthesis, are an inner
/// list, and with an opening parenthesis before it and parameters behind it a
/// member.
pub proof fn law_inner_lists_are_well_formed(item: Seq<u8>, more: Seq<u8>)
    requires
        item_end(item) == Some(Seq::<u8>::empty()),
    ensures
        inner_list_end(seq![0x29u8] + more) == Some(more),
        inner_list_end(seq![0x20u8] + more) == inner_list_end(more),
        more.len() > 0 && (more[0] == 0x20 || more[0] == 0x29) ==> inner_list_end(item + more)
            == inner_list_end(more),
        inner_list_end(more) is Some ==> member_end(seq![0x28u8] + more) == parameters_end(
            inner_list_end(more)->0,
        ),
{
    assert((seq![0x29u8] + more).skip(1) =~= more);
    assert((seq![0x20u8] + more).skip(1) =~= more);
    assert((seq![0x28u8] + more).skip(1) =~= more);
    assert(skip_class(ByteClass::Space, seq![0x29u8] + more) == seq![0x29u8] + more);
    assert(skip_class(ByteClass::Space, seq![0x20u8] + more) == skip_class(ByteClass::Space, more));
    if more.len() > 0 && (more[0] == 0x20 || more[0] == 0x29) {
        lemma_item_settled(item, more);
        assert(Seq::<u8>::empty() + more =~= more);
        assert(item.len() > 0 && item[0] != 0x20 && item[0] != 0x29);
        assert((item + more)[0] == item[0]);
        assert(skip_class(ByteClass::Space, item + more) == item + more);
    }
}

/// A member that does not start with a quote and is well-formed, with any spaces
/// and tabs behind it, is passed over up to the comma that follows: the commas in
/// its quoted strings end nothing.
pub proof fn law_well_formed_members_reach_their_comma(
    member: Seq<u8>,
    blank: Seq<u8>,
    rest: Seq<u8>,
)
    requires
        member_end(member) == Some(Seq::<u8>::empty()),
        member[0] != 0x22,
        forall|i: int| 0 <= i < blank.len() ==> #[trigger] blank[i] == 0x20 || blank[i] == 0x09,
    ensures
        string_list(member + blank + seq![0x2cu8] + rest) == string_list(rest),
        string_list(member + blank).len() == 0,
{
    let comma = seq![COMMA] + rest;
    lemma_all_blank(blank);
    lemma_blank_before(blank, comma);
    lemma_to_the_comma(blank, rest);
    assert(member.len() > 0);
    assert(member[0] != 0x20 && member[0] != 0x09);
    lemma_member_then_blank(member, blank + comma);
    lemma_member_then_blank(member, blank);
    assert(member + blank + seq![COMMA] + rest =~= member + (blank + comma));
    lemma_other_member(member + (blank + comma));
    lemma_other_member(member + blank);
    assert(string_list(Seq::<u8>::empty()) =~= Seq::<Seq<char>>::empty());
}

proof fn lemma_member_then_blank(member: Seq<u8>, more: Seq<u8>)
    requires
        member_end(member) == Some(Seq::<u8>::empty()),
        more.len() == 0 || more[0] == 0x20 || more[0] == 0x09 || more[0] == COMMA,
    ensures
        member_end(member + more) == Some(more),
{
    if more.len() > 0 {
        lemma_member_settled(member, more);
        assert(Seq::<u8>::empty() + more =~= more);
    } else {
        assert(member + more =~= member);
        assert(more =~= Seq::<u8>::empty());
    }
}

/// Behind well-formed parameters and any spaces and tabs, reading goes on at the
/// comma that follows: the commas in their quoted values end nothing.
pub proof fn law_well_formed_parameters_reach_their_comma(
    s: Seq<char>,
    parameters: Seq<u8>,
    blank: Seq<u8>,
    rest: Seq<u8>,
)
    requires
        parameters_end(parameters) == Some(Seq::<u8>::empty()),
        forall|i: int| 0 <= i < blank.len() ==> #[trigger] blank[i] == 0x20 || blank[i] == 0x09,
    ensures
        string_list(
            encode_utf8(encoded_list(seq![s])) + parameters + blank + seq![0x2cu8] + rest,
        ) == seq![octets(s)] + string_list(rest),
        string_list(encode_utf8(encoded_list(seq![s])) + parameters + blank) == seq![octets(s)],
{
    assert(seq![s].drop_first() =~= Seq::<Seq<char>>::empty());
    assert(encoded_list(seq![s]) =~= quoted(s));
    let q = encode_utf8(quoted(s));
    lemma_all_blank(blank);
    let comma = seq![COMMA] + rest;
    lemma_blank_before(blank, comma);
    lemma_parameters_then_blank(parameters, blank + comma);
    lemma_parameters_then_blank(parameters, blank);
    assert(q + parameters + blank + seq![COMMA] + rest =~= q + (parameters + (blank + comma)));
    assert(q + parameters + blank =~= q + (parameters + blank));
    lemma_quoted_first(s, parameters + (blank + comma));
    lemma_quoted_first(s, parameters + blank);
    lemma_to_the_comma(blank, rest);
    assert(seq![octets(s)] + string_list(Seq::<u8>::empty()) =~= seq![octets(s)]);
}

/// Where anything but a comma follows well-formed parameters and spaces or tabs,
/// they are not all that is left of the member, and it ends at the first comma,
/// be it in a quoted value.
pub proof fn law_text_behind_parameters(
    s: Seq<char>,
    front: Seq<u8>,
    back: Seq<u8>,
    blank: Seq<u8>,
    text: Seq<u8>,
)
    requires
        !front.contains(0x2c),
        parameters_end(front + (seq![0x2cu8] + back)) == Some(Seq::<u8>::empty()),
        blank.len() > 0,
        forall|i: int| 0 <= i < blank.len() ==> #[trigger] blank[i] == 0x20 || blank[i] == 0x09,
        text.len() > 0,
        text[0] != 0x20,
        text[0] != 0x09,
        text[0] != 0x2c,
    ensures
        string_list(
            encode_utf8(encoded_list(seq![s])) + front + seq![0x2cu8] + back + blank + text,
        ) == seq![octets(s)] + string_list(back + blank + text),
{
    assert(seq![s].drop_first() =~= Seq::<Seq<char>>::empty());
    assert(encoded_list(seq![s]) =~= quoted(s));
    let q = encode_utf8(quoted(s));
    let parameters = front + (seq![COMMA] + back);
    let more = blank + text;
    assert(more[0] == blank[0]);
    lemma_parameters_then_blank(parameters, more);
    lemma_blank_before(blank, text);
    lemma_to_the_comma(front, back + blank + text);
    assert(parameters + more =~= front + (seq![COMMA] + (back + blank + text)));
    assert(q + front + seq![COMMA] + back + blank + text =~= q + (parameters + more));
    lemma_quoted_first(s, parameters + more);
}

/// Where anything but a comma follows a well-formed member and spaces or tabs, it
/// ends at the first comma, be it in a quoted string.
pub proof fn law_text_behind_other_members(
    front: Seq<u8>,
    back: Seq<u8>,
    blank: Seq<u8>,
    text: Seq<u8>,
)
    requires
        front.len() > 0,
        front[0] != 0x22,
        !front.contains(0x2c),
        member_end(front + (seq![0x2cu8] + back)) == Some(Seq::<u8>::empty()),
        blank.len() > 0,
        forall|i: int| 0 <= i < blank.len() ==> #[trigger] blank[i] == 0x20 || blank[i] == 0x09,
        text.len() > 0,
        text[0] != 0x20,
        text[0] != 0x09,
        text[0] != 0x2c,
    ensures
        string_list(front + seq![0x2cu8] + back + blank + text) == string_list(
            back + blank + text,
        ),
{
    let member = front + (seq![COMMA] + back);
    let more = blank + text;
    assert(member[0] == front[0]);
    assert(member[0] != 0x20 && member[0] != 0x09);
    assert(more[0] == blank[0]);
    lemma_member_then_blank(member, more);
    lemma_blank_before(blank, text);
    lemma_to_the_comma(front, back + blank + text);
    assert(member + more =~= front + (seq![COMMA] + (back + blank + text)));
    assert(front + seq![COMMA] + back + blank + text =~= member + more);
    lemma_other_member(member + more);
}

proof fn lemma_all_blank(blank: Seq<u8>)
    requires
        forall|i: int| 0 <= i < blank.len() ==> #[trigger] blank[i] == 0x20 || blank[i] == 0x09,
    ensures
        skip_blank(blank).len() == 0,
        !blank.contains(COMMA),
    decreases blank.len(),
{
    if blank.len() > 0 {
        let tail = blank.skip(1);
        assert forall|i: int| 0 <= i < tail.len() implies #[trigger] tail[i] == 0x20 || tail[i]
            == 0x09 by {
            assert(tail[i] == blank[i + 1]);
        }
        lemma_all_blank(tail);
    }
}

proof fn lemma_blank_before(blank: Seq<u8>, more: Seq<u8>)
    requires
        forall|i: int| 0 <= i < blank.len() ==> #[trigger] blank[i] == 0x20 || blank[i] == 0x09,
    ensures
        skip_blank(blank + more) == skip_blank(more),
    decreases blank.len(),
{
    if blank.len() > 0 {
        let tail = blank.skip(1);
        assert forall|i: int| 0 <= i < tail.len() implies #[trigger] tail[i] == 0x20 || tail[i]
            == 0x09 by {
            assert(tail[i] == blank[i + 1]);
        }
        lemma_blank_before(tail, more);
        assert((blank + more).skip(1) =~= tail + more);
    } else {
        assert(blank + more =~= more);
    }
}

proof fn lemma_parameters_then_blank(parameters: Seq<u8>, more: Seq<u8>)
    requires
        parameters_end(parameters) == Some(Seq::<u8>::empty()),
        more.len() == 0 || more[0] == 0x20 || more[0] == 0x09 || more[0] == COMMA,
    ensures
        parameters_end(parameters + more) == Some(more),
{
    if more.len() > 0 {
        lemma_parameters_settled(parameters, more);
        assert(Seq::<u8>::empty() + more =~= more);
    } else {
        assert(parameters + more =~= parameters);
        assert(more =~= Seq::<u8>::empty());
    }
}

// --- Reading: where a well-formed part ends, and where there is none ---

/// A string goes on over printable ASCII and over escaped quotes and backslashes,
/// and ends behind a quote; it is malformed at any other byte and where it is not
/// closed.
pub proof fn law_string_end(c: u8, x: Seq<u8>)
    ensures
        string_end(Seq::<u8>::empty()) is None,
        string_end(seq![0x22u8] + x) == Some(x),
        0x20 <= c <= 0x7e && c != 0x22 && c != 0x5c ==> string_end(seq![c] + x) == string_end(x),
        c < 0x20 || c > 0x7e ==> string_end(seq![c] + x) is None,
        c == 0x22 || c == 0x5c ==> string_end(seq![0x5cu8, c] + x) == string_end(x),
        c != 0x22 && c != 0x5c ==> string_end(seq![0x5cu8, c] + x) is None,
        string_end(seq![0x5cu8]) is None,
{
    assert((seq![c] + x).skip(1) =~= x);
    assert((seq![0x22u8] + x).skip(1) =~= x);
    assert((seq![0x5cu8, c] + x).skip(2) =~= x);
}

/// A token is as long as its bytes allow.
pub proof fn law_token_end(run: Seq<u8>, rest: Seq<u8>)
    requires
        run.len() > 0,
        0x41 <= run[0] <= 0x5a || 0x61 <= run[0] <= 0x7a || run[0] == 0x2a,
        forall|i: int|
            0 <= i < run.len() ==> {
                ||| 0x41 <= #[trigger] run[i] <= 0x5a
                ||| 0x61 <= run[i] <= 0x7a
                ||| 0x2d <= run[i] <= 0x3a
                ||| run[i] == 0x21
                ||| 0x23 <= run[i] <= 0x27
                ||| run[i] == 0x2a
                ||| run[i] == 0x2b
                ||| 0x5e <= run[i] <= 0x60
                ||| run[i] == 0x7c
                ||| run[i] == 0x7e
            },
        rest.len() > 0 ==> {
            ||| rest[0] < 0x21
            ||| rest[0] == 0x22
            ||| 0x28 <= rest[0] <= 0x29
            ||| rest[0] == 0x2c
            ||| 0x3b <= rest[0] <= 0x40
            ||| 0x5b <= rest[0] <= 0x5d
            ||| rest[0] == 0x7b
            ||| rest[0] == 0x7d
            ||| rest[0] > 0x7e
        },
    ensures
        bare_item_end(run + rest) == Some(rest),
{
    assert((run + rest)[0] == run[0]);
    lemma_class_run(ByteClass::Token, run, rest);
}

/// A number is as long as its digits allow, with a point only where digits stand
/// before it; too many digits, or none where one is due, make it malformed.
pub proof fn law_number_end(whole: Seq<u8>, fraction: Seq<u8>, rest: Seq<u8>)
    requires
        forall|i: int| 0 <= i < whole.len() ==> 0x30 <= #[trigger] whole[i] <= 0x39,
        forall|i: int| 0 <= i < fraction.len() ==> 0x30 <= #[trigger] fraction[i] <= 0x39,
        rest.len() > 0 ==> !(0x30 <= rest[0] <= 0x39),
    ensures
        ({
            let point = seq![0x2eu8] + (fraction + rest);
            let decimal = if 1 <= whole.len() <= 12 && 1 <= fraction.len() <= 3 {
                Some(rest)
            } else {
                None
            };
            let integer = if 1 <= whole.len() <= 15 {
                Some(rest)
            } else {
                None
            };
            &&& whole.len() > 0 ==> bare_item_end(whole + point) == decimal
            &&& bare_item_end(seq![0x2du8] + (whole + point)) == decimal
            &&& rest.len() == 0 || rest[0] != 0x2e ==> {
                &&& whole.len() > 0 ==> bare_item_end(whole + rest) == integer
                &&& bare_item_end(seq![0x2du8] + (whole + rest)) == integer
            }
        }),
{
    let point = seq![0x2eu8] + (fraction + rest);
    lemma_class_run(ByteClass::Digit, whole, point);
    lemma_class_run(ByteClass::Digit, whole, rest);
    lemma_class_run(ByteClass::Digit, fraction, rest);
    assert(point.skip(1) =~= fraction + rest);
    assert((seq![0x2du8] + (whole + point)).skip(1) =~= whole + point);
    assert((seq![0x2du8] + (whole + rest)).skip(1) =~= whole + rest);
    if whole.len() > 0 {
        assert(0x30 <= whole[0] <= 0x39);
        assert((whole + point)[0] == whole[0]);
        assert((whole + rest)[0] == whole[0]);
    }
}

/// A byte sequence ends behind a second colon, with only base64 before it.
pub proof fn law_byte_sequence_end(run: Seq<u8>, rest: Seq<u8>)
    requires
        forall|i: int|
            0 <= i < run.len() ==> {
                ||| 0x41 <= #[trigger] run[i] <= 0x5a
                ||| 0x61 <= run[i] <= 0x7a
                ||| 0x30 <= run[i] <= 0x39
                ||| run[i] == 0x2b
                ||| run[i] == 0x2f
                ||| run[i] == 0x3d
            },
        rest.len() > 0 ==> !(0x41 <= rest[0] <= 0x5a) && !(0x61 <= rest[0] <= 0x7a) && !(0x30
            <= rest[0] <= 0x39) && rest[0] != 0x2b && rest[0] != 0x2f && rest[0] != 0x3d,
    ensures
        bare_item_end(seq![0x3au8] + (run + rest)) == if rest.len() > 0 && rest[0] == 0x3a {
            Some(rest.skip(1))
        } else {
            None
        },
{
    lemma_class_run(ByteClass::Base64, run, rest);
    assert((seq![0x3au8] + (run + rest)).skip(1) =~= run + rest);
}

/// A boolean is a question mark and `0` or `1`.
pub proof fn law_boolean_end(c: u8, rest: Seq<u8>)
    ensures
        bare_item_end(seq![0x3fu8]) is None,
        bare_item_end(seq![0x3fu8, c] + rest) == if c == 0x30 || c == 0x31 {
            Some(rest)
        } else {
            None
        },
{
    assert((seq![0x3fu8, c] + rest).skip(2) =~= rest);
}

/// A value starts with a quote, a colon, a question mark, a minus sign, a digit, a
/// letter or `*`; with a quote it is a string.
pub proof fn law_first_byte_of_a_value(c: u8, x: Seq<u8>)
    ensures
        bare_item_end(Seq::<u8>::empty()) is None,
        c == 0x22 ==> bare_item_end(seq![c] + x) == string_end(x),
        c != 0x22 && c != 0x3a && c != 0x3f && c != 0x2d && !(0x30 <= c <= 0x39) && !(0x41 <= c
            <= 0x5a) && !(0x61 <= c <= 0x7a) && c != 0x2a ==> bare_item_end(seq![c] + x) is None,
{
    assert((seq![c] + x).skip(1) =~= x);
}

/// Parameters end where no semicolon follows. Behind a semicolon and any spaces
/// a key is due, and behind an equals sign a value.
pub proof fn law_parameters_end(spaces: nat, key: Seq<u8>, rest: Seq<u8>)
    requires
        forall|i: int|
            0 <= i < key.len() ==> {
                ||| 0x61 <= #[trigger] key[i] <= 0x7a
                ||| 0x30 <= key[i] <= 0x39
                ||| key[i] == 0x5f
                ||| key[i] == 0x2d
                ||| key[i] == 0x2e
                ||| key[i] == 0x2a
            },
        rest.len() > 0 ==> {
            &&& !(0x61 <= rest[0] <= 0x7a)
            &&& !(0x30 <= rest[0] <= 0x39)
            &&& rest[0] != 0x5f
            &&& rest[0] != 0x2d
            &&& rest[0] != 0x2e
            &&& rest[0] != 0x2a
        },
        key.len() == 0 && rest.len() > 0 ==> rest[0] != 0x20,
    ensures
        ({
            let b = seq![0x3bu8] + (Seq::new(spaces, |i: int| 0x20u8) + (key + rest));
            &&& key.len() == 0 || !(0x61 <= key[0] <= 0x7a || key[0] == 0x2a) ==> parameters_end(
                b,
            ) is None
            &&& key.len() > 0 && (0x61 <= key[0] <= 0x7a || key[0] == 0x2a) ==> parameters_end(b)
                == if rest.len() > 0 && rest[0] == 0x3d {
                match bare_item_end(rest.skip(1)) {
                    Some(end) => parameters_end(end),
                    None => None,
                }
            } else {
                parameters_end(rest)
            }
        }),
        rest.len() == 0 || rest[0] != 0x3b ==> parameters_end(rest) == Some(rest),
{
    let blank = Seq::new(spaces, |i: int| 0x20u8);
    let b = seq![0x3bu8] + (blank + (key + rest));
    assert(b.skip(1) =~= blank + (key + rest));
    if key.len() > 0 {
        assert((key + rest)[0] == key[0]);
    } else {
        assert(key + rest =~= rest);
    }
    lemma_class_run(ByteClass::Space, blank, key + rest);
    lemma_class_run(ByteClass::Key, key, rest);
    lemma_parameter_suffix(b.skip(1));
}

/// A member is a value with parameters, or an inner list with parameters; in an
/// inner list, a space or the closing parenthesis follows every item.
pub proof fn law_member_end(b: Seq<u8>)
    ensures
        item_end(b) == match bare_item_end(b) {
            Some(rest) => parameters_end(rest),
            None => None,
        },
        b.len() == 0 || b[0] != 0x28 ==> member_end(b) == item_end(b),
        member_end(seq![0x28u8] + b) == match inner_list_end(b) {
            Some(rest) => parameters_end(rest),
            None => None,
        },
        inner_list_end(seq![0x29u8] + b) == Some(b),
        inner_list_end(seq![0x20u8] + b) == inner_list_end(b),
        b.len() == 0 || (b[0] != 0x20 && b[0] != 0x29) ==> inner_list_end(b) == match item_end(b) {
            Some(rest) => if rest.len() > 0 && (rest[0] == 0x20 || rest[0] == 0x29) {
                inner_list_end(rest)
            } else {
                None
            },
            None => None,
        },
{
    assert((seq![0x28u8] + b).skip(1) =~= b);
    assert((seq![0x29u8] + b).skip(1) =~= b);
    assert((seq![0x20u8] + b).skip(1) =~= b);
    assert(skip_class(ByteClass::Space, seq![0x29u8] + b) == seq![0x29u8] + b);
    assert(skip_class(ByteClass::Space, seq![0x20u8] + b) == skip_class(ByteClass::Space, b));
}

/// Behind a string, reading goes on at the comma that follows its well-formed
/// parameters and any spaces and tabs. Where the parameters are malformed, or
/// anything else follows them, it goes on at the very first comma.
pub proof fn law_where_reading_goes_on(
    s: Seq<char>,
    front: Seq<u8>,
    back: Seq<u8>,
    blank: Seq<u8>,
    text: Seq<u8>,
)
    requires
        !front.contains(0x2c),
        forall|i: int| 0 <= i < blank.len() ==> #[trigger] blank[i] == 0x20 || blank[i] == 0x09,
        text.len() > 0 ==> text[0] != 0x20 && text[0] != 0x09,
    ensures
        ({
            let tail = front + (seq![0x2cu8] + back);
            let read = string_list(encode_utf8(encoded_list(seq![s])) + tail);
            &&& parameters_end(tail) is None ==> read == seq![octets(s)] + string_list(back)
            &&& parameters_end(tail) == Some(blank + text) && text.len() > 0 && text[0] != 0x2c
                ==> read == seq![octets(s)] + string_list(back)
            &&& parameters_end(tail) == Some(blank + text) && text.len() > 0 && text[0] == 0x2c
                ==> read == seq![octets(s)] + string_list(text.skip(1))
            &&& parameters_end(tail) == Some(blank) ==> read == seq![octets(s)]
        }),
{
    let tail = front + (seq![0x2cu8] + back);
    assert(seq![s].drop_first() =~= Seq::<Seq<char>>::empty());
    assert(encoded_list(seq![s]) =~= quoted(s));
    lemma_quoted_first(s, tail);
    lemma_where_member_ends(front, back, blank, text, parameters_end(tail));
    assert(seq![octets(s)] + string_list(Seq::<u8>::empty()) =~= seq![octets(s)]);
}

/// A member that does not start with a quote is passed over up to the comma that
/// follows it, where it is well-formed and only spaces and tabs stand between;
/// else up to the very first comma.
pub proof fn law_where_other_members_end(
    front: Seq<u8>,
    back: Seq<u8>,
    blank: Seq<u8>,
    text: Seq<u8>,
)
    requires
        front.len() > 0,
        front[0] != 0x22,
        front[0] != 0x20,
        front[0] != 0x09,
        !front.contains(0x2c),
        forall|i: int| 0 <= i < blank.len() ==> #[trigger] blank[i] == 0x20 || blank[i] == 0x09,
        text.len() > 0 ==> text[0] != 0x20 && text[0] != 0x09,
    ensures
        ({
            let b = front + (seq![0x2cu8] + back);
            &&& member_end(b) is None ==> string_list(b) == string_list(back)
            &&& member_end(b) == Some(blank + text) && text.len() > 0 && text[0] != 0x2c
                ==> string_list(b) == string_list(back)
            &&& member_end(b) == Some(blank + text) && text.len() > 0 && text[0] == 0x2c
                ==> string_list(b) == string_list(text.skip(1))
            &&& member_end(b) == Some(blank) ==> string_list(b).len() == 0
        }),
{
    let b = front + (seq![0x2cu8] + back);
    assert(b[0] == front[0]);
    lemma_other_member(b);
    lemma_where_member_ends(front, back, blank, text, member_end(b));
    assert(string_list(Seq::<u8>::empty()) =~= Seq::<Seq<char>>::empty());
}

proof fn lemma_where_member_ends(
    front: Seq<u8>,
    back: Seq<u8>,
    blank: Seq<u8>,
    text: Seq<u8>,
    end: Option<Seq<u8>>,
)
    requires
        !front.contains(0x2c),
        forall|i: int| 0 <= i < blank.len() ==> #[trigger] blank[i] == 0x20 || blank[i] == 0x09,
        text.len() > 0 ==> text[0] != 0x20 && text[0] != 0x09,
    ensures
        ({
            let next = after_member(front + (seq![0x2cu8] + back), end);
            &&& end is None ==> next == back
            &&& end == Some(blank + text) && text.len() > 0 && text[0] != 0x2c ==> next == back
            &&& end == Some(blank + text) && text.len() > 0 && text[0] == 0x2c ==> next
                == text.skip(1)
            &&& end == Some(blank) ==> next == Seq::<u8>::empty()
        }),
{
    lemma_to_the_comma(front, back);
    lemma_all_blank(blank);
    lemma_blank_before(blank, text);
    lemma_to_the_comma(blank, Seq::empty());
    if text.len() > 0 && text[0] == 0x2c {
        lemma_to_the_comma(blank, text.skip(1));
        assert(text =~= seq![COMMA] + text.skip(1));
    }
}

// --- Writing ---

/// Lists are written one behind the other with a comma and a space between them;
/// an empty list is written as nothing.
pub proof fn law_written_lists_are_joined(a: Seq<Seq<char>>, b: Seq<Seq<char>>)
    requires
        a.len() > 0,
        b.len() > 0,
    ensures
        encoded_list(Seq::empty()).len() == 0,
        encoded_list(a + b) == encoded_list(a) + ", "@ + encoded_list(b),
{
    reveal_strlit(", ");
    assert(", "@ =~= seq![',', ' ']);
    assert((a + b).first() == a.first());
    assert((a + b).drop_first() =~= a.drop_first() + b);
    lemma_continued(a.drop_first(), b);
    assert(encoded_list(a + b) =~= encoded_list(a) + ", "@ + encoded_list(b));
}

proof fn lemma_continued(a: Seq<Seq<char>>, b: Seq<Seq<char>>)
    requires
        b.len() > 0,
    ensures
        continued_list(a + b) == continued_list(a) + seq![',', ' '] + encoded_list(b),
    decreases a.len(),
{
    if a.len() == 0 {
        assert(a + b =~= b);
        assert(continued_list(b) =~= seq![',', ' '] + encoded_list(b));
        assert(continued_list(a) + seq![',', ' '] + encoded_list(b) =~= seq![',', ' ']
            + encoded_list(b));
    } else {
        assert((a + b).first() == a.first());
        assert((a + b).drop_first() =~= a.drop_first() + b);
        lemma_continued(a.drop_first(), b);
        assert(continued_list(a + b) =~= continued_list(a) + seq![',', ' '] + encoded_list(b));
    }
}

/// A text without quotes and backslashes is written as it is, between quotes.
pub proof fn law_written_verbatim(s: Seq<char>)
    requires
        !s.contains('"'),
        !s.contains('\\'),
    ensures
        encoded_list(seq![s]) == seq!['"'] + s + seq!['"'],
{
    assert(seq![s].drop_first() =~= Seq::<Seq<char>>::empty());
    lemma_escaped_verbatim(s);
    assert(encoded_list(seq![s]) =~= seq!['"'] + s + seq!['"']);
}

proof fn lemma_escaped_verbatim(s: Seq<char>)
    requires
        !s.contains('"'),
        !s.contains('\\'),
    ensures
        escaped(s) == s,
    decreases s.len(),
{
    if s.len() > 0 {
        let tail = s.drop_first();
        assert(s.contains(s[0]));
        assert forall|c: char| tail.contains(c) implies s.contains(c) by {
            let i = choose|i: int| 0 <= i < tail.len() && tail[i] == c;
            assert(s[i + 1] == c);
        }
        lemma_escaped_verbatim(tail);
        assert(escaped(s) =~= s);
    } else {
        assert(escaped(s) =~= s);
    }
}

/// A backslash is written before a quote and before a backslash, wherever they
/// stand, and nowhere else.
pub proof fn law_written_escapes(a: Seq<char>, c: char, b: Seq<char>)
    ensures
        encoded_list(seq![Seq::<char>::empty()]) == seq!['"', '"'],
        encoded_list(seq![a + seq![c] + b]) == encoded_list(seq![a]).drop_last() + (if c == '"' || c
            == '\\' {
            seq!['\\', c]
        } else {
            seq![c]
        }) + encoded_list(seq![b]).drop_first(),
{
    let none = Seq::<char>::empty();
    let s = a + seq![c] + b;
    assert(seq![s].drop_first() =~= Seq::<Seq<char>>::empty());
    assert(seq![a].drop_first() =~= Seq::<Seq<char>>::empty());
    assert(seq![b].drop_first() =~= Seq::<Seq<char>>::empty());
    assert(seq![none].drop_first() =~= Seq::<Seq<char>>::empty());
    assert(encoded_list(seq![none]) =~= seq!['"', '"']);
    lemma_escaped_concat(a + seq![c], b);
    lemma_escaped_concat(a, seq![c]);
    assert(seq![c].drop_first() =~= none);
    assert(escaped(none) =~= none);
    assert(escaped(seq![c]) =~= escaped_char(c));
    assert(encoded_list(seq![s]) =~= encoded_list(seq![a]).drop_last() + escaped_char(c)
        + encoded_list(seq![b]).drop_first());
}

proof fn lemma_escaped_concat(a: Seq<char>, b: Seq<char>)
    ensures
        escaped(a + b) == escaped(a) + escaped(b),
    decreases a.len(),
{
    if a.len() == 0 {
        assert(a + b =~= b);
        assert(escaped(a) + escaped(b) =~= escaped(b));
    } else {
        assert((a + b).first() == a.first());
        assert((a + b).drop_first() =~= a.drop_first() + b);
        lemma_escaped_concat(a.drop_first(), b);
        assert(escaped(a + b) =~= escaped(a) + escaped(b));
    }
}

} // verus!
