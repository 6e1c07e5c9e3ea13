//! The members of a list in the syntax of RFC 8941 (items and inner lists, with
//! their parameters): where a well-formed one ends. Only there does a quote open
//! a string whose commas end no member.

use vstd::prelude::*;

use crate::sfv::{BACKSLASH, COMMA, QUOTE, SPACE, TAB};

verus! {

// --- The bytes with a meaning ---

/// `;`, which introduces a parameter.
pub const SEMICOLON: u8 = 0x3b;

/// `=`, which stands between the key and the value of a parameter.
pub const EQUALS: u8 = 0x3d;

/// `(`, which opens an inner list.
pub const OPEN: u8 = 0x28;

/// `)`, which closes an inner list.
pub const CLOSE: u8 = 0x29;

/// `:`, which opens and closes a byte sequence.
pub const COLON: u8 = 0x3a;

/// `?`, which introduces a boolean.
pub const QUESTION: u8 = 0x3f;

pub const MINUS: u8 = 0x2d;

pub const DOT: u8 = 0x2e;

pub const STAR: u8 = 0x2a;

pub open spec fn is_digit(b: u8) -> bool {
    0x30 <= b <= 0x39
}

pub open spec fn is_lower(b: u8) -> bool {
    0x61 <= b <= 0x7a
}

pub open spec fn is_upper(b: u8) -> bool {
    0x41 <= b <= 0x5a
}

/// The bytes that a run may consist of.
#[derive(Clone, Copy)]
pub enum ByteClass {
    Space,
    Digit,
    /// Lowercase letters, digits and `_-.*`.
    Key,
    /// Letters, digits and ``!#$%&'*+-.^_`|~:/``.
    Token,
    /// Letters, digits and `+/=`.
    Base64,
}

impl ByteClass {
    pub open spec fn has(self, b: u8) -> bool {
        match self {
            ByteClass::Space => b == SPACE,
            ByteClass::Digit => is_digit(b),
            ByteClass::Key => is_lower(b) || is_digit(b) || b == 0x5f || b == MINUS || b == DOT || b
                == STAR,
            ByteClass::Token => is_lower(b) || is_upper(b) || 0x2d <= b <= 0x3a || b == 0x21 || 0x23
                <= b <= 0x27 || b == 0x2a || b == 0x2b || 0x5e <= b <= 0x60 || b == 0x7c || b
                == 0x7e,
            ByteClass::Base64 => is_lower(b) || is_upper(b) || is_digit(b) || b == 0x2b || b == 0x2f
                || b == EQUALS,
        }
    }

    fn contains(self, b: u8) -> (r: bool)
        ensures
            r == self.has(b),
    {
        let digit = 0x30 <= b && b <= 0x39;
        let lower = 0x61 <= b && b <= 0x7a;
        let upper = 0x41 <= b && b <= 0x5a;
        match self {
            ByteClass::Space => b == SPACE,
            ByteClass::Digit => digit,
            ByteClass::Key => lower || digit || b == 0x5f || b == MINUS || b == DOT || b == STAR,
            ByteClass::Token => lower || upper || (0x2d <= b && b <= 0x3a) || b == 0x21 || (0x23
                <= b && b <= 0x27) || b == 0x2a || b == 0x2b || (0x5e <= b && b <= 0x60) || b
                == 0x7c || b == 0x7e,
            ByteClass::Base64 => lower || upper || digit || b == 0x2b || b == 0x2f || b == EQUALS,
        }
    }
}

// --- Where a well-formed part ends ---

/// Whether the input starts with the byte `c`.
pub open spec fn starts(b: Seq<u8>, c: u8) -> bool {
    b.len() > 0 && b[0] == c
}

/// The input without its leading bytes of a class.
pub open spec fn skip_class(class: ByteClass, b: Seq<u8>) -> Seq<u8>
    decreases b.len(),
{
    if b.len() > 0 && class.has(b[0]) {
        skip_class(class, b.skip(1))
    } else {
        b
    }
}

/// What follows a well-formed string whose opening quote has been read: printable
/// ASCII up to a closing quote, in which a backslash escapes a quote or a
/// backslash.
pub open spec fn string_end(b: Seq<u8>) -> Option<Seq<u8>>
    decreases b.len(),
{
    if b.len() == 0 {
        None
    } else if b[0] == QUOTE {
        Some(b.skip(1))
    } else if b[0] == BACKSLASH {
        if b.len() > 1 && (b[1] == QUOTE || b[1] == BACKSLASH) {
            string_end(b.skip(2))
        } else {
            None
        }
    } else if 0x20 <= b[0] <= 0x7e {
        string_end(b.skip(1))
    } else {
        None
    }
}

/// What follows an integer of at most 15 digits, or a decimal of at most 12
/// digits before the point and 3 behind it.
pub open spec fn number_end(b: Seq<u8>) -> Option<Seq<u8>> {
    let digits = if starts(b, MINUS) {
        b.skip(1)
    } else {
        b
    };
    let rest = skip_class(ByteClass::Digit, digits);
    let n = digits.len() - rest.len();
    if n == 0 || n > 15 {
        None
    } else if starts(rest, DOT) {
        let end = skip_class(ByteClass::Digit, rest.skip(1));
        let m = rest.len() - 1 - end.len();
        if n <= 12 && 1 <= m <= 3 {
            Some(end)
        } else {
            None
        }
    } else {
        Some(rest)
    }
}

/// What follows a byte sequence whose opening colon has been read.
pub open spec fn binary_end(b: Seq<u8>) -> Option<Seq<u8>> {
    let rest = skip_class(ByteClass::Base64, b);
    if starts(rest, COLON) {
        Some(rest.skip(1))
    } else {
        None
    }
}

/// What follows a token.
pub open spec fn token_end(b: Seq<u8>) -> Option<Seq<u8>> {
    if b.len() > 0 && (is_lower(b[0]) || is_upper(b[0]) || b[0] == STAR) {
        Some(skip_class(ByteClass::Token, b))
    } else {
        None
    }
}

/// What follows a string, byte sequence, boolean, number or token.
pub open spec fn bare_item_end(b: Seq<u8>) -> Option<Seq<u8>> {
    if b.len() == 0 {
        None
    } else if b[0] == QUOTE {
        string_end(b.skip(1))
    } else if b[0] == COLON {
        binary_end(b.skip(1))
    } else if b[0] == QUESTION {
        if b.len() > 1 && 0x30 <= b[1] <= 0x31 {
            Some(b.skip(2))
        } else {
            None
        }
    } else if b[0] == MINUS || is_digit(b[0]) {
        number_end(b)
    } else {
        token_end(b)
    }
}

/// What follows a parameter whose semicolon has been read: a key, with a value
/// where an equals sign follows.
pub open spec fn parameter_end(b: Seq<u8>) -> Option<Seq<u8>> {
    let s = skip_class(ByteClass::Space, b);
    if s.len() > 0 && (is_lower(s[0]) || s[0] == STAR) {
        let rest = skip_class(ByteClass::Key, s);
        if starts(rest, EQUALS) {
            bare_item_end(rest.skip(1))
        } else {
            Some(rest)
        }
    } else {
        None
    }
}

/// What follows any number of parameters.
pub open spec fn parameters_end(b: Seq<u8>) -> Option<Seq<u8>>
    decreases b.len(),
{
    proof {
        if b.len() > 0 {
            lemma_parameter_suffix(b.skip(1));
        }
    }
    if starts(b, SEMICOLON) {
        match parameter_end(b.skip(1)) {
            Some(rest) => parameters_end(rest),
            None => None,
        }
    } else {
        Some(b)
    }
}

/// What follows an item with its parameters.
pub open spec fn item_end(b: Seq<u8>) -> Option<Seq<u8>> {
    match bare_item_end(b) {
        Some(rest) => parameters_end(rest),
        None => None,
    }
}

/// What follows the closing parenthesis of an inner list that has been opened:
/// items with spaces between them.
pub open spec fn inner_list_end(b: Seq<u8>) -> Option<Seq<u8>>
    decreases b.len(),
{
    proof {
        lemma_skip_class_suffix(ByteClass::Space, b);
        lemma_item_suffix(skip_class(ByteClass::Space, b));
    }
    let s = skip_class(ByteClass::Space, b);
    if starts(s, CLOSE) {
        Some(s.skip(1))
    } else {
        match item_end(s) {
            Some(rest) => if starts(rest, SPACE) || starts(rest, CLOSE) {
                inner_list_end(rest)
            } else {
                None
            },
            None => None,
        }
    }
}

/// What follows an item or an inner list, with its parameters.
pub open spec fn member_end(b: Seq<u8>) -> Option<Seq<u8>> {
    if starts(b, OPEN) {
        match inner_list_end(b.skip(1)) {
            Some(rest) => parameters_end(rest),
            None => None,
        }
    } else {
        item_end(b)
    }
}

// --- What is left is an end of the input ---

/// Whether `rest` is the end of `b`.
pub open spec fn is_rest(rest: Seq<u8>, b: Seq<u8>) -> bool {
    rest.len() <= b.len() && rest == b.skip(b.len() - rest.len())
}

pub(crate) proof fn lemma_rest_of_rest(c: Seq<u8>, b: Seq<u8>, a: Seq<u8>)
    requires
        is_rest(c, b),
        is_rest(b, a),
    ensures
        is_rest(c, a),
{
    assert(c =~= a.skip(a.len() - c.len()));
}

/// A byte that does not occur in the input does not occur in an end of it.
pub(crate) proof fn lemma_rest_free(rest: Seq<u8>, b: Seq<u8>, c: u8)
    requires
        is_rest(rest, b),
        !b.contains(c),
    ensures
        !rest.contains(c),
{
    if rest.contains(c) {
        let i = choose|i: int| 0 <= i < rest.len() && rest[i] == c;
        assert(b[b.len() - rest.len() + i] == c);
    }
}

pub proof fn lemma_skip_class_suffix(class: ByteClass, b: Seq<u8>)
    ensures
        is_rest(skip_class(class, b), b),
    decreases b.len(),
{
    if b.len() > 0 && class.has(b[0]) {
        lemma_skip_class_suffix(class, b.skip(1));
        lemma_rest_of_rest(skip_class(class, b.skip(1)), b.skip(1), b);
    } else {
        assert(b.skip(0) =~= b);
    }
}

proof fn lemma_string_suffix(b: Seq<u8>)
    ensures
        string_end(b) is Some ==> is_rest(string_end(b)->0, b),
    decreases b.len(),
{
    if b.len() > 0 && b[0] != QUOTE && string_end(b) is Some {
        let next = if b[0] == BACKSLASH {
            b.skip(2)
        } else {
            b.skip(1)
        };
        lemma_string_suffix(next);
        lemma_rest_of_rest(string_end(b)->0, next, b);
    }
}

proof fn lemma_bare_item_suffix(b: Seq<u8>)
    ensures
        bare_item_end(b) is Some ==> is_rest(bare_item_end(b)->0, b) && bare_item_end(b)->0.len()
            < b.len(),
{
    if bare_item_end(b) is Some {
        let end = bare_item_end(b)->0;
        let tail = b.skip(1);
        if b[0] == QUOTE {
            lemma_string_suffix(tail);
            lemma_rest_of_rest(end, tail, b);
        } else if b[0] == COLON {
            let rest = skip_class(ByteClass::Base64, tail);
            lemma_skip_class_suffix(ByteClass::Base64, tail);
            lemma_rest_of_rest(end, rest, tail);
            lemma_rest_of_rest(end, tail, b);
        } else if b[0] == QUESTION {
        } else if b[0] == MINUS || is_digit(b[0]) {
            let digits = if starts(b, MINUS) {
                tail
            } else {
                b
            };
            assert(b.skip(0) =~= b);
            let rest = skip_class(ByteClass::Digit, digits);
            lemma_skip_class_suffix(ByteClass::Digit, digits);
            lemma_rest_of_rest(rest, digits, b);
            if starts(rest, DOT) {
                lemma_skip_class_suffix(ByteClass::Digit, rest.skip(1));
                lemma_rest_of_rest(end, rest.skip(1), rest);
                lemma_rest_of_rest(end, rest, b);
            }
        } else {
            lemma_skip_class_suffix(ByteClass::Token, tail);
            lemma_rest_of_rest(end, tail, b);
        }
    }
}

pub proof fn lemma_parameter_suffix(b: Seq<u8>)
    ensures
        parameter_end(b) is Some ==> is_rest(parameter_end(b)->0, b),
{
    if parameter_end(b) is Some {
        let s = skip_class(ByteClass::Space, b);
        let rest = skip_class(ByteClass::Key, s);
        lemma_skip_class_suffix(ByteClass::Space, b);
        lemma_skip_class_suffix(ByteClass::Key, s);
        lemma_rest_of_rest(rest, s, b);
        if starts(rest, EQUALS) {
            lemma_bare_item_suffix(rest.skip(1));
            lemma_rest_of_rest(rest.skip(1), rest, b);
            lemma_rest_of_rest(parameter_end(b)->0, rest.skip(1), b);
        }
    }
}

/// What follows parameters is the end of the input.
pub proof fn lemma_parameters_suffix(b: Seq<u8>)
    ensures
        parameters_end(b) is Some ==> is_rest(parameters_end(b)->0, b),
    decreases b.len(),
{
    assert(b.skip(0) =~= b);
    if parameters_end(b) is Some && starts(b, SEMICOLON) {
        let rest = parameter_end(b.skip(1))->0;
        lemma_parameter_suffix(b.skip(1));
        lemma_rest_of_rest(rest, b.skip(1), b);
        lemma_parameters_suffix(rest);
        lemma_rest_of_rest(parameters_end(b)->0, rest, b);
    }
}

pub proof fn lemma_item_suffix(b: Seq<u8>)
    ensures
        item_end(b) is Some ==> is_rest(item_end(b)->0, b) && item_end(b)->0.len() < b.len(),
{
    if item_end(b) is Some {
        let rest = bare_item_end(b)->0;
        lemma_bare_item_suffix(b);
        lemma_parameters_suffix(rest);
        lemma_rest_of_rest(item_end(b)->0, rest, b);
    }
}

proof fn lemma_inner_list_suffix(b: Seq<u8>)
    ensures
        inner_list_end(b) is Some ==> is_rest(inner_list_end(b)->0, b),
    decreases b.len(),
{
    if inner_list_end(b) is Some {
        let s = skip_class(ByteClass::Space, b);
        lemma_skip_class_suffix(ByteClass::Space, b);
        if !starts(s, CLOSE) {
            let rest = item_end(s)->0;
            lemma_item_suffix(s);
            lemma_rest_of_rest(rest, s, b);
            lemma_inner_list_suffix(rest);
            lemma_rest_of_rest(inner_list_end(b)->0, rest, b);
        } else {
            lemma_rest_of_rest(s.skip(1), s, b);
        }
    }
}

/// What follows a member is the end of the input.
pub proof fn lemma_member_suffix(b: Seq<u8>)
    ensures
        member_end(b) is Some ==> is_rest(member_end(b)->0, b) && member_end(b)->0.len() < b.len(),
{
    if member_end(b) is Some {
        if starts(b, OPEN) {
            let rest = inner_list_end(b.skip(1))->0;
            lemma_inner_list_suffix(b.skip(1));
            lemma_rest_of_rest(rest, b.skip(1), b);
            lemma_parameters_suffix(rest);
            lemma_rest_of_rest(member_end(b)->0, rest, b);
        } else {
            lemma_item_suffix(b);
        }
    }
}

// --- Finding the end ---

/// The input from a position on.
pub(crate) open spec fn rest_at(b: Seq<u8>, at: Option<usize>) -> Option<Seq<u8>> {
    match at {
        Some(i) => Some(b.skip(i as int)),
        None => None,
    }
}

fn at(bytes: &[u8], i: usize, c: u8) -> (r: bool)
    requires
        i <= bytes@.len(),
    ensures
        r == starts(bytes@.skip(i as int), c),
        r ==> i < bytes.len(),
{
    i < bytes.len() && bytes[i] == c
}

fn pass_class(class: ByteClass, bytes: &[u8], from: usize) -> (i: usize)
    requires
        from <= bytes@.len(),
    ensures
        from <= i <= bytes@.len(),
        bytes@.skip(i as int) == skip_class(class, bytes@.skip(from as int)),
{
    let mut i: usize = from;
    while i < bytes.len() && class.contains(bytes[i])
        invariant
            from <= i <= bytes@.len(),
            skip_class(class, bytes@.skip(i as int)) == skip_class(class, bytes@.skip(from as int)),
        decreases bytes@.len() - i,
    {
        assert(bytes@.skip(i as int).skip(1) =~= bytes@.skip(i + 1));
        i += 1;
    }
    i
}

fn pass_string(bytes: &[u8], from: usize) -> (r: Option<usize>)
    requires
        from <= bytes@.len(),
    ensures
        r is Some ==> from <= r->0 <= bytes@.len(),
        rest_at(bytes@, r) == string_end(bytes@.skip(from as int)),
{
    let mut i: usize = from;
    while i < bytes.len()
        invariant
            from <= i <= bytes@.len(),
            string_end(bytes@.skip(i as int)) == string_end(bytes@.skip(from as int)),
        decreases bytes@.len() - i,
    {
        assert(bytes@.skip(i as int).skip(1) =~= bytes@.skip(i + 1));
        let c = bytes[i];
        if c == QUOTE {
            return Some(i + 1);
        } else if c == BACKSLASH {
            if i + 1 < bytes.len() && (bytes[i + 1] == QUOTE || bytes[i + 1] == BACKSLASH) {
                assert(bytes@.skip(i as int).skip(2) =~= bytes@.skip(i + 2));
                i += 2;
            } else {
                return None;
            }
        } else if 0x20 <= c && c <= 0x7e {
            i += 1;
        } else {
            return None;
        }
    }
    None
}

fn pass_number(bytes: &[u8], from: usize) -> (r: Option<usize>)
    requires
        from <= bytes@.len(),
    ensures
        r is Some ==> from <= r->0 <= bytes@.len(),
        rest_at(bytes@, r) == number_end(bytes@.skip(from as int)),
{
    let mut digits: usize = from;
    if at(bytes, from, MINUS) {
        assert(bytes@.skip(from as int).skip(1) =~= bytes@.skip(from + 1));
        digits += 1;
    }
    let rest = pass_class(ByteClass::Digit, bytes, digits);
    let n: usize = rest - digits;
    if n == 0 || n > 15 {
        None
    } else if at(bytes, rest, DOT) {
        assert(bytes@.skip(rest as int).skip(1) =~= bytes@.skip(rest + 1));
        let end = pass_class(ByteClass::Digit, bytes, rest + 1);
        let m: usize = end - rest - 1;
        if n <= 12 && 1 <= m && m <= 3 {
            Some(end)
        } else {
            None
        }
    } else {
        Some(rest)
    }
}

fn pass_bare_item(bytes: &[u8], from: usize) -> (r: Option<usize>)
    requires
        from <= bytes@.len(),
    ensures
        r is Some ==> from <= r->0 <= bytes@.len(),
        rest_at(bytes@, r) == bare_item_end(bytes@.skip(from as int)),
{
    let ghost b = bytes@.skip(from as int);
    if from >= bytes.len() {
        return None;
    }
    assert(b.skip(1) =~= bytes@.skip(from + 1));
    let c = bytes[from];
    if c == QUOTE {
        pass_string(bytes, from + 1)
    } else if c == COLON {
        let rest = pass_class(ByteClass::Base64, bytes, from + 1);
        if at(bytes, rest, COLON) {
            assert(bytes@.skip(rest as int).skip(1) =~= bytes@.skip(rest + 1));
            Some(rest + 1)
        } else {
            None
        }
    } else if c == QUESTION {
        if from + 1 < bytes.len() && 0x30 <= bytes[from + 1] && bytes[from + 1] <= 0x31 {
            assert(b.skip(2) =~= bytes@.skip(from + 2));
            Some(from + 2)
        } else {
            None
        }
    } else if c == MINUS || ByteClass::Digit.contains(c) {
        pass_number(bytes, from)
    } else if (0x61 <= c && c <= 0x7a) || (0x41 <= c && c <= 0x5a) || c == STAR {
        Some(pass_class(ByteClass::Token, bytes, from))
    } else {
        None
    }
}

fn pass_parameter(bytes: &[u8], from: usize) -> (r: Option<usize>)
    requires
        from <= bytes@.len(),
    ensures
        r is Some ==> from <= r->0 <= bytes@.len(),
        rest_at(bytes@, r) == parameter_end(bytes@.skip(from as int)),
{
    let s = pass_class(ByteClass::Space, bytes, from);
    if s < bytes.len() && ((0x61 <= bytes[s] && bytes[s] <= 0x7a) || bytes[s] == STAR) {
        let rest = pass_class(ByteClass::Key, bytes, s);
        if at(bytes, rest, EQUALS) {
            assert(bytes@.skip(rest as int).skip(1) =~= bytes@.skip(rest + 1));
            pass_bare_item(bytes, rest + 1)
        } else {
            Some(rest)
        }
    } else {
        None
    }
}

/// Find the end of well-formed parameters.
pub(crate) fn pass_parameters(bytes: &[u8], from: usize) -> (r: Option<usize>)
    requires
        from <= bytes@.len(),
    ensures
        r is Some ==> from <= r->0 <= bytes@.len(),
        rest_at(bytes@, r) == parameters_end(bytes@.skip(from as int)),
{
    let mut i: usize = from;
    while at(bytes, i, SEMICOLON)
        invariant
            from <= i <= bytes@.len(),
            parameters_end(bytes@.skip(i as int)) == parameters_end(bytes@.skip(from as int)),
        decreases bytes@.len() - i,
    {
        assert(bytes@.skip(i as int).skip(1) =~= bytes@.skip(i + 1));
        match pass_parameter(bytes, i + 1) {
            Some(rest) => {
                i = rest;
            },
            None => {
                return None;
            },
        }
    }
    Some(i)
}

fn pass_item(bytes: &[u8], from: usize) -> (r: Option<usize>)
    requires
        from <= bytes@.len(),
    ensures
        r is Some ==> from <= r->0 <= bytes@.len(),
        rest_at(bytes@, r) == item_end(bytes@.skip(from as int)),
{
    match pass_bare_item(bytes, from) {
        Some(rest) => pass_parameters(bytes, rest),
        None => None,
    }
}

fn pass_inner_list(bytes: &[u8], from: usize) -> (r: Option<usize>)
    requires
        from <= bytes@.len(),
    ensures
        r is Some ==> from <= r->0 <= bytes@.len(),
        rest_at(bytes@, r) == inner_list_end(bytes@.skip(from as int)),
{
    let mut i: usize = pass_class(ByteClass::Space, bytes, from);
    proof {
        lemma_skip_class_twice(ByteClass::Space, bytes@.skip(from as int));
    }
    while !at(bytes, i, CLOSE)
        invariant
            from <= i <= bytes@.len(),
            skip_class(ByteClass::Space, bytes@.skip(i as int)) == bytes@.skip(i as int),
            inner_list_end(bytes@.skip(i as int)) == inner_list_end(bytes@.skip(from as int)),
        decreases bytes@.len() - i,
    {
        proof {
            lemma_item_suffix(bytes@.skip(i as int));
        }
        match pass_item(bytes, i) {
            Some(rest) => {
                if at(bytes, rest, SPACE) || at(bytes, rest, CLOSE) {
                    i = pass_class(ByteClass::Space, bytes, rest);
                    proof {
                        lemma_skip_class_twice(ByteClass::Space, bytes@.skip(rest as int));
                    }
                    assert(inner_list_end(bytes@.skip(i as int)) == inner_list_end(
                        bytes@.skip(rest as int),
                    ));
                } else {
                    return None;
                }
            },
            None => {
                return None;
            },
        }
    }
    assert(bytes@.skip(i as int).skip(1) =~= bytes@.skip(i + 1));
    Some(i + 1)
}

proof fn lemma_skip_class_twice(class: ByteClass, b: Seq<u8>)
    ensures
        skip_class(class, skip_class(class, b)) == skip_class(class, b),
    decreases b.len(),
{
    if b.len() > 0 && class.has(b[0]) {
        lemma_skip_class_twice(class, b.skip(1));
    }
}

/// Find the end of a well-formed member.
pub(crate) fn pass_well_formed(bytes: &[u8], from: usize) -> (r: Option<usize>)
    requires
        from <= bytes@.len(),
    ensures
        r is Some ==> from <= r->0 <= bytes@.len(),
        rest_at(bytes@, r) == member_end(bytes@.skip(from as int)),
{
    if at(bytes, from, OPEN) {
        assert(bytes@.skip(from as int).skip(1) =~= bytes@.skip(from + 1));
        match pass_inner_list(bytes, from + 1) {
            Some(rest) => pass_parameters(bytes, rest),
            None => None,
        }
    } else {
        pass_item(bytes, from)
    }
}

// --- Members that a comma follows ---

/// Whether no quote stands directly behind the byte `c`.
pub open spec fn no_quote_behind(b: Seq<u8>, c: u8) -> bool {
    forall|i: int| 0 < i < b.len() && #[trigger] b[i] == QUOTE ==> b[i - 1] != c
}

/// No string that is opened in the parameters `b` is closed in `more`.
spec fn parameters_shut(b: Seq<u8>, more: Seq<u8>) -> bool {
    no_quote_behind(b, EQUALS) || !more.contains(QUOTE)
}

/// No string that is opened in the items `b` is closed in `more`.
spec fn items_shut(b: Seq<u8>, more: Seq<u8>) -> bool {
    !more.contains(QUOTE) || (!starts(b, QUOTE) && no_quote_behind(b, EQUALS) && no_quote_behind(
        b,
        OPEN,
    ) && no_quote_behind(b, SPACE))
}

/// Whether the end found in `b` with `more` behind it is the end found in `b`,
/// with `more` behind it. Where none is found in `b`, this takes that no string
/// is left open for `more` to close.
pub(crate) open spec fn keeps_end(
    b: Seq<u8>,
    more: Seq<u8>,
    end: Option<Seq<u8>>,
    with: Option<Seq<u8>>,
    shut: bool,
) -> bool {
    &&& end is Some ==> with == Some(end->0 + more)
    &&& end is None && shut ==> with is None
}

pub(crate) proof fn lemma_rest_no_quote_behind(rest: Seq<u8>, b: Seq<u8>, c: u8)
    requires
        is_rest(rest, b),
        no_quote_behind(b, c),
    ensures
        no_quote_behind(rest, c),
{
    let n = b.len() - rest.len();
    assert forall|i: int| 0 < i < rest.len() && #[trigger] rest[i] == QUOTE implies rest[i - 1]
        != c by {
        assert(b[n + i] == rest[i]);
        assert(b[n + i - 1] == rest[i - 1]);
    }
}

proof fn lemma_class_before_comma(class: ByteClass, b: Seq<u8>, more: Seq<u8>)
    requires
        more.len() > 0,
        !class.has(more[0]),
    ensures
        skip_class(class, b + more) == skip_class(class, b) + more,
    decreases b.len(),
{
    if b.len() > 0 {
        assert((b + more).skip(1) =~= b.skip(1) + more);
        lemma_class_before_comma(class, b.skip(1), more);
    } else {
        assert(b + more =~= more);
    }
}

proof fn lemma_string_kept(b: Seq<u8>, more: Seq<u8>)
    requires
        more.len() > 0,
        more[0] == COMMA || more[0] == SEMICOLON,
    ensures
        keeps_end(b, more, string_end(b), string_end(b + more), !more.contains(QUOTE)),
    decreases b.len(),
{
    if b.len() == 0 {
        assert(b + more =~= more);
        if !more.contains(QUOTE) {
            lemma_unclosed_string(more);
        }
    } else if b[0] == BACKSLASH {
        if b.len() > 1 {
            assert((b + more).skip(2) =~= b.skip(2) + more);
            lemma_string_kept(b.skip(2), more);
        }
    } else {
        assert((b + more).skip(1) =~= b.skip(1) + more);
        if b[0] != QUOTE {
            lemma_string_kept(b.skip(1), more);
        }
    }
}

proof fn lemma_unclosed_string(b: Seq<u8>)
    requires
        !b.contains(QUOTE),
    ensures
        string_end(b) is None,
    decreases b.len(),
{
    if b.len() > 0 {
        assert(b[0] != QUOTE);
        lemma_rest_free(b.skip(1), b, QUOTE);
        lemma_unclosed_string(b.skip(1));
        if b.len() > 1 {
            lemma_rest_free(b.skip(2), b, QUOTE);
            lemma_unclosed_string(b.skip(2));
        }
    }
}

pub(crate) proof fn lemma_bare_item_before_comma(b: Seq<u8>, more: Seq<u8>)
    requires
        more.len() > 0,
        more[0] == COMMA || more[0] == SEMICOLON,
    ensures
        keeps_end(
            b,
            more,
            bare_item_end(b),
            bare_item_end(b + more),
            !starts(b, QUOTE) || !more.contains(QUOTE),
        ),
{
    if b.len() == 0 {
        assert(b + more =~= more);
    } else {
        let tail = b.skip(1);
        assert((b + more).skip(1) =~= tail + more);
        if b[0] == QUOTE {
            lemma_string_kept(tail, more);
        } else if b[0] == COLON {
            let rest = skip_class(ByteClass::Base64, tail);
            lemma_class_before_comma(ByteClass::Base64, tail, more);
            if rest.len() > 0 {
                assert((rest + more).skip(1) =~= rest.skip(1) + more);
            }
        } else if b[0] == QUESTION {
            if b.len() > 1 {
                assert((b + more).skip(2) =~= b.skip(2) + more);
            }
        } else if b[0] == MINUS || is_digit(b[0]) {
            let digits = if starts(b, MINUS) {
                tail
            } else {
                b
            };
            let rest = skip_class(ByteClass::Digit, digits);
            lemma_class_before_comma(ByteClass::Digit, digits, more);
            if rest.len() > 0 {
                assert((rest + more).skip(1) =~= rest.skip(1) + more);
                lemma_class_before_comma(ByteClass::Digit, rest.skip(1), more);
            }
        } else {
            lemma_class_before_comma(ByteClass::Token, b, more);
        }
    }
}

proof fn lemma_parameter_before_comma(b: Seq<u8>, more: Seq<u8>)
    requires
        more.len() > 0,
        more[0] == COMMA || more[0] == SEMICOLON,
    ensures
        keeps_end(
            b,
            more,
            parameter_end(b),
            parameter_end(b + more),
            parameters_shut(b, more),
        ),
{
    let s = skip_class(ByteClass::Space, b);
    lemma_class_before_comma(ByteClass::Space, b, more);
    if s.len() > 0 {
        let rest = skip_class(ByteClass::Key, s);
        lemma_class_before_comma(ByteClass::Key, s, more);
        if rest.len() > 0 {
            assert((rest + more).skip(1) =~= rest.skip(1) + more);
            lemma_bare_item_before_comma(rest.skip(1), more);
            lemma_skip_class_suffix(ByteClass::Space, b);
            lemma_skip_class_suffix(ByteClass::Key, s);
            lemma_rest_of_rest(rest, s, b);
            if no_quote_behind(b, EQUALS) {
                lemma_rest_no_quote_behind(rest, b, EQUALS);
                if rest.len() > 1 {
                    assert(rest.skip(1)[0] == rest[1]);
                }
            }
        }
    }
}

/// A comma behind parameters leaves their end where it is.
pub(crate) proof fn lemma_parameters_before_comma(b: Seq<u8>, more: Seq<u8>)
    requires
        starts(more, COMMA),
    ensures
        parameters_end(b) is Some ==> parameters_end(b + more) == Some(parameters_end(b)->0 + more),
        parameters_end(b) is None && (no_quote_behind(b, EQUALS) || !more.contains(QUOTE))
            ==> parameters_end(b + more) is None,
    decreases b.len(),
{
    if starts(b, SEMICOLON) {
        let tail = b.skip(1);
        assert((b + more).skip(1) =~= tail + more);
        lemma_parameter_before_comma(tail, more);
        lemma_parameter_suffix(tail);
        if no_quote_behind(b, EQUALS) {
            lemma_rest_no_quote_behind(tail, b, EQUALS);
        }
        if parameter_end(tail) is Some {
            let rest = parameter_end(tail)->0;
            lemma_parameters_before_comma(rest, more);
            if no_quote_behind(b, EQUALS) {
                lemma_rest_no_quote_behind(rest, tail, EQUALS);
            }
        }
    }
}

proof fn lemma_item_before_comma(b: Seq<u8>, more: Seq<u8>)
    requires
        starts(more, COMMA),
    ensures
        keeps_end(b, more, item_end(b), item_end(b + more), items_shut(b, more)),
{
    lemma_bare_item_before_comma(b, more);
    if bare_item_end(b) is Some {
        let rest = bare_item_end(b)->0;
        lemma_bare_item_suffix(b);
        lemma_parameters_before_comma(rest, more);
        if no_quote_behind(b, EQUALS) {
            lemma_rest_no_quote_behind(rest, b, EQUALS);
        }
    }
}

proof fn lemma_inner_list_before_comma(b: Seq<u8>, more: Seq<u8>)
    requires
        starts(more, COMMA),
    ensures
        keeps_end(b, more, inner_list_end(b), inner_list_end(b + more), items_shut(b, more)),
    decreases b.len(),
{
    let s = skip_class(ByteClass::Space, b);
    lemma_class_before_comma(ByteClass::Space, b, more);
    lemma_skip_class_suffix(ByteClass::Space, b);
    if starts(s, CLOSE) {
        assert((s + more).skip(1) =~= s.skip(1) + more);
    } else {
        lemma_item_before_comma(s, more);
        lemma_item_suffix(s);
        if items_shut(b, more) && more.contains(QUOTE) {
            lemma_first_behind_spaces(b);
            lemma_rest_no_quote_behind(s, b, EQUALS);
            lemma_rest_no_quote_behind(s, b, OPEN);
            lemma_rest_no_quote_behind(s, b, SPACE);
        }
        if item_end(s) is Some {
            let rest = item_end(s)->0;
            if items_shut(b, more) && more.contains(QUOTE) {
                lemma_rest_no_quote_behind(rest, s, EQUALS);
                lemma_rest_no_quote_behind(rest, s, OPEN);
                lemma_rest_no_quote_behind(rest, s, SPACE);
            }
            if rest.len() > 0 {
                lemma_inner_list_before_comma(rest, more);
            } else {
                assert(rest + more =~= more);
            }
        }
    }
}

proof fn lemma_first_behind_spaces(b: Seq<u8>)
    requires
        !starts(b, QUOTE),
        no_quote_behind(b, SPACE),
    ensures
        !starts(skip_class(ByteClass::Space, b), QUOTE),
    decreases b.len(),
{
    if b.len() > 0 && b[0] == SPACE {
        if b.len() > 1 {
            assert(b.skip(1)[0] == b[1]);
        }
        lemma_rest_no_quote_behind(b.skip(1), b, SPACE);
        lemma_first_behind_spaces(b.skip(1));
    }
}

/// A comma behind a member leaves its end where it is.
pub(crate) proof fn lemma_member_before_comma(b: Seq<u8>, more: Seq<u8>)
    requires
        starts(more, COMMA),
    ensures
        member_end(b) is Some ==> member_end(b + more) == Some(member_end(b)->0 + more),
        member_end(b) is None && (!more.contains(QUOTE) || (!starts(b, QUOTE) && no_quote_behind(
            b,
            EQUALS,
        ) && no_quote_behind(b, OPEN) && no_quote_behind(b, SPACE))) ==> member_end(
            b + more,
        ) is None,
{
    if starts(b, OPEN) {
        let tail = b.skip(1);
        assert((b + more).skip(1) =~= tail + more);
        lemma_inner_list_before_comma(tail, more);
        lemma_inner_list_suffix(tail);
        if items_shut(b, more) && more.contains(QUOTE) {
            lemma_rest_no_quote_behind(tail, b, EQUALS);
            lemma_rest_no_quote_behind(tail, b, OPEN);
            lemma_rest_no_quote_behind(tail, b, SPACE);
            if tail.len() > 0 {
                assert(tail[0] == b[1]);
            }
        }
        if inner_list_end(tail) is Some {
            let rest = inner_list_end(tail)->0;
            lemma_parameters_before_comma(rest, more);
            if no_quote_behind(tail, EQUALS) {
                lemma_rest_no_quote_behind(rest, tail, EQUALS);
            }
        }
    } else {
        if b.len() == 0 {
            assert(b + more =~= more);
        }
        lemma_item_before_comma(b, more);
    }
}

// --- Members that anything follows ---

/// Whether `more` behind an end cannot belong to what was passed over: something
/// stands between them, or it starts with a byte that ends everything.
pub(crate) open spec fn settled(end: Seq<u8>, more: Seq<u8>) -> bool {
    end.len() > 0 || (more.len() > 0 && (more[0] == SPACE || more[0] == TAB || more[0] == COMMA
        || more[0] == CLOSE))
}

proof fn lemma_class_settled(class: ByteClass, b: Seq<u8>, more: Seq<u8>)
    requires
        skip_class(class, b).len() > 0 || (more.len() > 0 && !class.has(more[0])),
    ensures
        skip_class(class, b + more) == skip_class(class, b) + more,
    decreases b.len(),
{
    if b.len() > 0 {
        assert((b + more).skip(1) =~= b.skip(1) + more);
        if class.has(b[0]) {
            lemma_class_settled(class, b.skip(1), more);
        }
    } else {
        assert(b + more =~= more);
    }
}

proof fn lemma_string_before_comma(b: Seq<u8>, more: Seq<u8>)
    requires
        string_end(b) is Some,
    ensures
        string_end(b + more) == Some(string_end(b)->0 + more),
    decreases b.len(),
{
    if b[0] == BACKSLASH {
        assert((b + more).skip(2) =~= b.skip(2) + more);
        lemma_string_before_comma(b.skip(2), more);
    } else {
        assert((b + more).skip(1) =~= b.skip(1) + more);
        if b[0] != QUOTE {
            lemma_string_before_comma(b.skip(1), more);
        }
    }
}

proof fn lemma_bare_item_settled(b: Seq<u8>, more: Seq<u8>)
    requires
        bare_item_end(b) is Some,
        settled(bare_item_end(b)->0, more),
    ensures
        bare_item_end(b + more) == Some(bare_item_end(b)->0 + more),
{
    let tail = b.skip(1);
    assert((b + more).skip(1) =~= tail + more);
    if b[0] == QUOTE {
        lemma_string_before_comma(tail, more);
    } else if b[0] == COLON {
        let rest = skip_class(ByteClass::Base64, tail);
        lemma_class_settled(ByteClass::Base64, tail, more);
        assert((rest + more).skip(1) =~= rest.skip(1) + more);
    } else if b[0] == QUESTION {
        assert((b + more).skip(2) =~= b.skip(2) + more);
    } else if b[0] == MINUS || is_digit(b[0]) {
        let digits = if starts(b, MINUS) {
            tail
        } else {
            b
        };
        let rest = skip_class(ByteClass::Digit, digits);
        lemma_class_settled(ByteClass::Digit, digits, more);
        if starts(rest, DOT) {
            assert((rest + more).skip(1) =~= rest.skip(1) + more);
            lemma_class_settled(ByteClass::Digit, rest.skip(1), more);
        }
    } else {
        lemma_class_settled(ByteClass::Token, b, more);
    }
}

proof fn lemma_parameter_settled(b: Seq<u8>, more: Seq<u8>)
    requires
        parameter_end(b) is Some,
        settled(parameter_end(b)->0, more),
    ensures
        parameter_end(b + more) == Some(parameter_end(b)->0 + more),
{
    let s = skip_class(ByteClass::Space, b);
    let rest = skip_class(ByteClass::Key, s);
    lemma_class_settled(ByteClass::Space, b, more);
    lemma_class_settled(ByteClass::Key, s, more);
    if starts(rest, EQUALS) {
        assert((rest + more).skip(1) =~= rest.skip(1) + more);
        lemma_bare_item_settled(rest.skip(1), more);
    }
}

/// What stands behind settled parameters leaves their end where it is.
pub(crate) proof fn lemma_parameters_settled(b: Seq<u8>, more: Seq<u8>)
    requires
        parameters_end(b) is Some,
        settled(parameters_end(b)->0, more),
    ensures
        parameters_end(b + more) == Some(parameters_end(b)->0 + more),
    decreases b.len(),
{
    if starts(b, SEMICOLON) {
        let tail = b.skip(1);
        let end = parameter_end(tail)->0;
        assert((b + more).skip(1) =~= tail + more);
        lemma_parameter_suffix(tail);
        lemma_parameters_suffix(end);
        lemma_parameter_settled(tail, more);
        lemma_parameters_settled(end, more);
    }
}

/// What stands behind a settled item leaves its end where it is.
pub(crate) proof fn lemma_item_settled(b: Seq<u8>, more: Seq<u8>)
    requires
        item_end(b) is Some,
        settled(item_end(b)->0, more),
    ensures
        item_end(b + more) == Some(item_end(b)->0 + more),
{
    lemma_parameters_suffix(bare_item_end(b)->0);
    lemma_bare_item_settled(b, more);
    lemma_parameters_settled(bare_item_end(b)->0, more);
}

proof fn lemma_inner_list_settled(b: Seq<u8>, more: Seq<u8>)
    requires
        inner_list_end(b) is Some,
    ensures
        inner_list_end(b + more) == Some(inner_list_end(b)->0 + more),
    decreases b.len(),
{
    let s = skip_class(ByteClass::Space, b);
    lemma_skip_class_suffix(ByteClass::Space, b);
    lemma_item_suffix(s);
    lemma_class_settled(ByteClass::Space, b, more);
    if starts(s, CLOSE) {
        assert((s + more).skip(1) =~= s.skip(1) + more);
    } else {
        lemma_item_settled(s, more);
        lemma_inner_list_settled(item_end(s)->0, more);
    }
}

/// What stands behind a settled member leaves its end where it is.
pub(crate) proof fn lemma_member_settled(b: Seq<u8>, more: Seq<u8>)
    requires
        member_end(b) is Some,
        settled(member_end(b)->0, more),
    ensures
        member_end(b + more) == Some(member_end(b)->0 + more),
{
    if starts(b, OPEN) {
        assert((b + more).skip(1) =~= b.skip(1) + more);
        lemma_inner_list_settled(b.skip(1), more);
        lemma_parameters_settled(inner_list_end(b.skip(1))->0, more);
    } else {
        lemma_item_suffix(b);
        lemma_item_settled(b, more);
    }
}

// --- What is passed over is printable ---

/// Whether all bytes of `b` before its end `end` are printable ASCII.
pub(crate) open spec fn printable_to(b: Seq<u8>, end: Seq<u8>) -> bool {
    forall|i: int| 0 <= i < b.len() - end.len() ==> 0x20 <= #[trigger] b[i] <= 0x7e
}

proof fn lemma_printable_on(b: Seq<u8>, c: Seq<u8>, end: Seq<u8>)
    requires
        is_rest(c, b),
        printable_to(b, c),
        printable_to(c, end),
    ensures
        printable_to(b, end),
{
    let n = b.len() - c.len();
    assert forall|i: int| 0 <= i < b.len() - end.len() implies 0x20 <= #[trigger] b[i] <= 0x7e by {
        if i >= n {
            assert(b[i] == c[i - n]);
        }
    }
}

proof fn lemma_class_printable(class: ByteClass, b: Seq<u8>)
    ensures
        printable_to(b, skip_class(class, b)),
    decreases b.len(),
{
    if b.len() > 0 && class.has(b[0]) {
        lemma_class_printable(class, b.skip(1));
        lemma_printable_on(b, b.skip(1), skip_class(class, b));
    }
}

proof fn lemma_string_printable(b: Seq<u8>)
    requires
        string_end(b) is Some,
    ensures
        printable_to(b, string_end(b)->0),
    decreases b.len(),
{
    if b[0] != QUOTE {
        let next = if b[0] == BACKSLASH {
            b.skip(2)
        } else {
            b.skip(1)
        };
        lemma_string_printable(next);
        lemma_printable_on(b, next, string_end(b)->0);
    }
}

proof fn lemma_bare_item_printable(b: Seq<u8>)
    requires
        bare_item_end(b) is Some,
    ensures
        printable_to(b, bare_item_end(b)->0),
{
    let end = bare_item_end(b)->0;
    let tail = b.skip(1);
    if b[0] == QUOTE {
        lemma_string_printable(tail);
        lemma_printable_on(b, tail, end);
    } else if b[0] == COLON {
        let rest = skip_class(ByteClass::Base64, tail);
        lemma_class_printable(ByteClass::Base64, tail);
        lemma_skip_class_suffix(ByteClass::Base64, tail);
        lemma_printable_on(tail, rest, end);
        lemma_printable_on(b, tail, end);
    } else if b[0] == QUESTION {
    } else if b[0] == MINUS || is_digit(b[0]) {
        let digits = if starts(b, MINUS) {
            tail
        } else {
            b
        };
        assert(b.skip(0) =~= b);
        let rest = skip_class(ByteClass::Digit, digits);
        lemma_class_printable(ByteClass::Digit, digits);
        lemma_skip_class_suffix(ByteClass::Digit, digits);
        lemma_printable_on(b, digits, rest);
        lemma_rest_of_rest(rest, digits, b);
        if starts(rest, DOT) {
            lemma_class_printable(ByteClass::Digit, rest.skip(1));
            lemma_printable_on(rest, rest.skip(1), end);
            lemma_printable_on(b, rest, end);
        }
    } else {
        lemma_class_printable(ByteClass::Token, b);
    }
}

/// Well-formed parameters are printable ASCII.
pub(crate) proof fn lemma_parameters_printable(b: Seq<u8>)
    ensures
        parameters_end(b) is Some ==> printable_to(b, parameters_end(b)->0),
    decreases b.len(),
{
    if parameters_end(b) is Some && starts(b, SEMICOLON) {
        let tail = b.skip(1);
        let end = parameter_end(tail)->0;
        let s = skip_class(ByteClass::Space, tail);
        let rest = skip_class(ByteClass::Key, s);
        lemma_class_printable(ByteClass::Space, tail);
        lemma_class_printable(ByteClass::Key, s);
        lemma_skip_class_suffix(ByteClass::Space, tail);
        lemma_skip_class_suffix(ByteClass::Key, s);
        lemma_printable_on(tail, s, rest);
        lemma_rest_of_rest(rest, s, tail);
        if starts(rest, EQUALS) {
            lemma_bare_item_printable(rest.skip(1));
            lemma_printable_on(rest, rest.skip(1), end);
            lemma_printable_on(tail, rest, end);
        }
        lemma_parameter_suffix(tail);
        lemma_parameters_printable(end);
        lemma_printable_on(tail, end, parameters_end(b)->0);
        lemma_printable_on(b, tail, parameters_end(b)->0);
    }
}

} // verus!
