//! The value grammar, executed: each rule reads a window of bytes and gives
//! the outcome that the grammar assigns to it.

use crate::json_grammar::{
    array_tail, digits_end, document, elements, exponent, is_alphanumeric, is_digit, is_sign,
    is_space, member, members, number, number_bits, object_tail, scalar, spaces_end,
    streaming_double, string_end, string_tail, text_of, truth, value, word, word_false, word_null,
    word_true, Lex, NumberScan, Outcome, BACKSLASH, CLOSE_BRACE, CLOSE_BRACKET, COLON, COMMA, CR,
    DIGIT_0, DIGIT_9, LF, LOWER_A, LOWER_E, LOWER_N, LOWER_Z, MINUS, OPEN_BRACE, OPEN_BRACKET, PLUS,
    POINT, QUOTE, SPACE, TAB, UPPER_A, UPPER_E, UPPER_Z,
};
use crate::json_laws::{lemma_document_well_formed, lemma_spaces_end_bounds};
use crate::value::{
    entries_view, insert_entry, items_view, lemma_array_view, lemma_object_view, store, Json,
    JsonValue,
};
use vstd::prelude::*;
use vstd::slice::slice_subrange;

verus! {

/// What a rule made of a window.
#[derive(Debug, PartialEq)]
pub enum Parsed<T> {
    Complete { value: T, used: usize },
    Incomplete,
    Malformed,
}

impl<T: View> View for Parsed<T> {
    type V = Outcome<T::V>;

    open spec fn view(&self) -> Outcome<T::V> {
        match self {
            Parsed::Complete { value, used } => Outcome::Complete {
                value: value@,
                used: *used as int,
            },
            Parsed::Incomplete => Outcome::Incomplete,
            Parsed::Malformed => Outcome::Malformed,
        }
    }
}

/// What a token rule made of a window.
#[derive(Debug, PartialEq, Eq, Clone, Copy)]
pub enum Lexed {
    Token(usize),
    Incomplete,
    Malformed,
    NoMatch,
}

impl View for Lexed {
    type V = Lex;

    open spec fn view(&self) -> Lex {
        match self {
            Lexed::Token(n) => Lex::Token(*n as int),
            Lexed::Incomplete => Lex::Incomplete,
            Lexed::Malformed => Lex::Malformed,
            Lexed::NoMatch => Lex::NoMatch,
        }
    }
}

/// Calls `nom::number::streaming::double` on the window and hands back what
/// it returned: the bit pattern of the double and the length of the rest, or
/// which of nom's three errors came.
#[verifier::external_body]
fn double_scan(window: &[u8]) -> (r: NumberScan)
    ensures
        r == streaming_double(window@),
{
    match nom::number::streaming::double::<&[u8], nom::error::Error<&[u8]>>(window) {
        Ok((rest, x)) => NumberScan::Number { bits: x.to_bits(), rest: rest.len() },
        Err(nom::Err::Incomplete(_)) => NumberScan::Incomplete,
        Err(nom::Err::Error(_)) => NumberScan::Rejected,
        Err(nom::Err::Failure(_)) => NumberScan::Failed,
    }
}

fn byte_is_space(b: u8) -> (r: bool)
    ensures
        r == is_space(b),
{
    b == SPACE || b == TAB || b == CR || b == LF
}

fn byte_is_digit(b: u8) -> (r: bool)
    ensures
        r == is_digit(b),
{
    DIGIT_0 <= b && b <= DIGIT_9
}

fn byte_is_alphanumeric(b: u8) -> (r: bool)
    ensures
        r == is_alphanumeric(b),
{
    (UPPER_A <= b && b <= UPPER_Z) || (LOWER_A <= b && b <= LOWER_Z) || byte_is_digit(b)
}

fn byte_is_sign(b: u8) -> (r: bool)
    ensures
        r == is_sign(b),
{
    b == PLUS || b == MINUS
}

/// Skips whitespace from index `from` on.
pub fn sp(input: &[u8], from: usize) -> (to: usize)
    ensures
        to == spaces_end(input@, from as int),
        from <= to,
        from <= input.len() ==> to <= input.len(),
{
    let mut i: usize = from;
    while i < input.len() && byte_is_space(input[i])
        invariant
            from <= i,
            from <= input.len() ==> i <= input.len(),
            spaces_end(input@, i as int) == spaces_end(input@, from as int),
        decreases input.len() - i,
    {
        i += 1;
    }
    i
}

/// Skips digits from index `from` on.
pub fn digits(input: &[u8], from: usize) -> (to: usize)
    ensures
        to == digits_end(input@, from as int),
        from <= to,
        from <= input.len() ==> to <= input.len(),
{
    let mut i: usize = from;
    while i < input.len() && byte_is_digit(input[i])
        invariant
            from <= i,
            from <= input.len() ==> i <= input.len(),
            digits_end(input@, i as int) == digits_end(input@, from as int),
        decreases input.len() - i,
    {
        i += 1;
    }
    i
}

/// The exponent of a number whose mantissa ends before index `m`.
fn exponent_token(input: &[u8], m: usize) -> (r: Lexed)
    requires
        m < input.len(),
    ensures
        r@ == exponent(input@, m as int),
        r matches Lexed::Token(n) ==> m <= n < input.len(),
{
    if input[m] == LOWER_E || input[m] == UPPER_E {
        if m + 1 >= input.len() {
            Lexed::Incomplete
        } else {
            let b: usize = if byte_is_sign(input[m + 1]) {
                m + 2
            } else {
                m + 1
            };
            let g = digits(input, b);
            if g >= input.len() {
                Lexed::Incomplete
            } else if g == b {
                Lexed::Malformed
            } else {
                Lexed::Token(g)
            }
        }
    } else {
        Lexed::Token(m)
    }
}

/// A number at the start of the window.
pub fn number_token(input: &[u8]) -> (r: Lexed)
    ensures
        r@ == number(input@),
        r matches Lexed::Token(n) ==> 0 < n < input.len(),
{
    let a: usize = if input.len() > 0 && byte_is_sign(input[0]) {
        1
    } else {
        0
    };
    if a >= input.len() {
        return Lexed::Incomplete;
    }
    let d = digits(input, a);
    if d > a {
        if d >= input.len() {
            Lexed::Incomplete
        } else if input[d] == POINT {
            let f = digits(input, d + 1);
            if f >= input.len() {
                Lexed::Incomplete
            } else {
                exponent_token(input, f)
            }
        } else {
            exponent_token(input, d)
        }
    } else if input[a] == POINT {
        let f = digits(input, a + 1);
        if f >= input.len() {
            Lexed::Incomplete
        } else if f == a + 1 {
            Lexed::NoMatch
        } else {
            exponent_token(input, f)
        }
    } else {
        Lexed::NoMatch
    }
}

/// A literal word at the start of the window.
fn word_token(input: &[u8], w: &[u8]) -> (r: Lexed)
    ensures
        r@ == word(input@, w@),
        r matches Lexed::Token(n) ==> n == w.len() && n <= input.len(),
{
    let mut i: usize = 0;
    while i < input.len() && i < w.len()
        invariant
            i <= input.len(),
            i <= w.len(),
            forall|j: int| 0 <= j < i ==> input@[j] == w@[j],
        decreases input.len() - i,
    {
        if input[i] != w[i] {
            return Lexed::NoMatch;
        }
        i += 1;
    }
    if input.len() >= w.len() {
        Lexed::Token(w.len())
    } else {
        Lexed::Incomplete
    }
}

/// The word `true` or the word `false`.
pub fn boolean(input: &[u8]) -> (r: Parsed<JsonValue>)
    ensures
        r@ == truth(input@),
{
    let t: [u8; 4] = [0x74, 0x72, 0x75, 0x65];
    let f: [u8; 5] = [0x66, 0x61, 0x6c, 0x73, 0x65];
    assert(t@ =~= word_true());
    assert(f@ =~= word_false());
    match word_token(input, t.as_slice()) {
        Lexed::Token(n) => Parsed::Complete { value: JsonValue::Boolean(true), used: n },
        Lexed::NoMatch => match word_token(input, f.as_slice()) {
            Lexed::Token(n) => Parsed::Complete { value: JsonValue::Boolean(false), used: n },
            Lexed::Incomplete => Parsed::Incomplete,
            _ => Parsed::Malformed,
        },
        Lexed::Incomplete => Parsed::Incomplete,
        Lexed::Malformed => Parsed::Malformed,
    }
}

/// The word `null`.
pub fn null(input: &[u8]) -> (r: Lexed)
    ensures
        r@ == word(input@, word_null()),
        r matches Lexed::Token(n) ==> n == 4 && n <= input.len(),
{
    let w: [u8; 4] = [0x6e, 0x75, 0x6c, 0x6c];
    assert(w@ =~= word_null());
    word_token(input, w.as_slice())
}

/// The body of a string from index `from` on, up to the closing quote.
pub fn parse_str(input: &[u8], from: usize) -> (r: Parsed<()>)
    ensures
        r@ == string_end(input@, from as int),
        r matches Parsed::Complete { value: _, used } ==> from < used <= input.len(),
{
    let mut i: usize = from;
    while i < input.len()
        invariant
            from <= i,
            string_end(input@, i as int) == string_end(input@, from as int),
        decreases input.len() - i,
    {
        let b = input[i];
        if byte_is_alphanumeric(b) {
            i += 1;
        } else if b == BACKSLASH {
            if i + 1 >= input.len() {
                return Parsed::Incomplete;
            } else if input[i + 1] == QUOTE || input[i + 1] == LOWER_N || input[i + 1]
                == BACKSLASH {
                i += 2;
            } else {
                return Parsed::Malformed;
            }
        } else if b == QUOTE {
            return Parsed::Complete { value: (), used: i + 1 };
        } else {
            return Parsed::Malformed;
        }
    }
    Parsed::Incomplete
}

/// The text of the bytes from index `from` up to index `to`.
pub fn text(input: &[u8], from: usize, to: usize) -> (r: String)
    requires
        from <= to <= input.len(),
    ensures
        r@ == text_of(input@.subrange(from as int, to as int)),
{
    let mut r = String::new();
    let mut i: usize = from;
    while i < to
        invariant
            from <= i <= to <= input.len(),
            r@ == text_of(input@.subrange(from as int, i as int)),
        decreases to - i,
    {
        r.push(input[i] as char);
        proof {
            assert(text_of(input@.subrange(from as int, i as int)).push(input@[i as int] as char)
                =~= text_of(input@.subrange(from as int, i + 1)));
        }
        i += 1;
    }
    r
}

/// A string whose opening quote stands before the window.
pub fn string(input: &[u8]) -> (r: Parsed<String>)
    ensures
        r@ == string_tail(input@),
        r matches Parsed::Complete { value: _, used } ==> 0 < used <= input.len(),
{
    match parse_str(input, 0) {
        Parsed::Complete { value: _, used } => Parsed::Complete {
            value: text(input, 0, used - 1),
            used,
        },
        Parsed::Incomplete => Parsed::Incomplete,
        Parsed::Malformed => Parsed::Malformed,
    }
}

/// The value of a number token, given what the scan of the token and of the
/// byte after it returned: the double where the scan stopped at that byte,
/// nothing otherwise.
pub fn number_value(scan: NumberScan) -> (r: Option<JsonValue>)
    ensures
        match number_bits(scan) {
            Some(bits) => r matches Some(v) && v@ == Json::Num(bits),
            None => r is None,
        },
{
    match scan {
        NumberScan::Number { bits, rest } => if rest == 1 {
            Some(JsonValue::Num(bits))
        } else {
            None
        },
        _ => None,
    }
}

/// A number or one of the words `true`, `false` and `null`.
pub fn scalar_value(input: &[u8]) -> (r: Parsed<JsonValue>)
    ensures
        r@ == scalar(input@),
        r matches Parsed::Complete { value: _, used } ==> 0 < used <= input.len(),
{
    match number_token(input) {
        Lexed::Token(n) => {
            let scan = double_scan(slice_subrange(input, 0, n + 1));
            match number_value(scan) {
                Some(v) => Parsed::Complete { value: v, used: n },
                None => Parsed::Malformed,
            }
        },
        Lexed::Incomplete => Parsed::Incomplete,
        Lexed::Malformed => Parsed::Malformed,
        Lexed::NoMatch => match boolean(input) {
            Parsed::Malformed => match null(input) {
                Lexed::Token(n) => Parsed::Complete { value: JsonValue::Null, used: n },
                Lexed::Incomplete => Parsed::Incomplete,
                _ => Parsed::Malformed,
            },
            other => other,
        },
    }
}

/// The same outcome, seen from `k` bytes earlier in the window.
fn shift<T: View>(p: Parsed<T>, k: usize) -> (r: Parsed<T>)
    requires
        p matches Parsed::Complete { value: _, used } ==> used + k <= usize::MAX,
    ensures
        r@ == p@.after(k as int),
{
    match p {
        Parsed::Complete { value, used } => Parsed::Complete { value, used: used + k },
        Parsed::Incomplete => Parsed::Incomplete,
        Parsed::Malformed => Parsed::Malformed,
    }
}

/// A value of any kind, after optional whitespace.
pub fn json_value(input: &[u8]) -> (r: Parsed<JsonValue>)
    ensures
        r@ == value(input@),
        r matches Parsed::Complete { value: _, used } ==> 0 < used <= input.len(),
    decreases input.len(), 1int,
{
    let k = sp(input, 0);
    if k >= input.len() {
        return Parsed::Incomplete;
    }
    let t = slice_subrange(input, k, input.len());
    assert(t@ =~= input@.skip(k as int));
    let inner = if t[0] == OPEN_BRACE {
        shift(hash(slice_subrange(t, 1, t.len())), 1)
    } else if t[0] == OPEN_BRACKET {
        shift(array(slice_subrange(t, 1, t.len())), 1)
    } else if t[0] == QUOTE {
        match string(slice_subrange(t, 1, t.len())) {
            Parsed::Complete { value, used } => Parsed::Complete {
                value: JsonValue::Str(value),
                used: used + 1,
            },
            Parsed::Incomplete => Parsed::Incomplete,
            Parsed::Malformed => Parsed::Malformed,
        }
    } else {
        scalar_value(t)
    };
    shift(inner, k)
}

/// An array whose opening bracket stands before the window.
pub fn array(input: &[u8]) -> (r: Parsed<JsonValue>)
    ensures
        r@ == array_tail(input@),
        r matches Parsed::Complete { value: _, used } ==> 0 < used <= input.len(),
    decreases input.len(), 3int,
{
    let k = sp(input, 0);
    if k >= input.len() {
        return Parsed::Incomplete;
    }
    if input[k] == CLOSE_BRACKET {
        let items: Vec<JsonValue> = Vec::new();
        proof {
            lemma_array_view(items);
            assert(items_view(items@) =~= Seq::<Json>::empty());
        }
        return Parsed::Complete { value: JsonValue::Array(items), used: k + 1 };
    }
    let mut found: Vec<JsonValue> = Vec::new();
    let mut pos: usize = 0;
    assert(input@.skip(0) =~= input@);
    assert(items_view(found@) =~= Seq::<Json>::empty());
    loop
        invariant
            pos <= input.len(),
            array_tail(input@) == elements(input@.skip(pos as int), items_view(found@)).after(
                pos as int,
            ),
        decreases input.len() - pos,
    {
        let w = slice_subrange(input, pos, input.len());
        assert(w@ =~= input@.skip(pos as int));
        match json_value(w) {
            Parsed::Complete { value, used } => {
                let k = sp(w, used);
                if k >= w.len() {
                    return Parsed::Incomplete;
                }
                let ghost before = items_view(found@);
                let ghost item = value@;
                found.push(value);
                assert(items_view(found@) =~= before.push(item));
                if w[k] == COMMA {
                    assert(w@.skip(k + 1) =~= input@.skip(pos + k + 1));
                    pos = pos + k + 1;
                } else if w[k] == CLOSE_BRACKET {
                    proof {
                        lemma_array_view(found);
                    }
                    return Parsed::Complete { value: JsonValue::Array(found), used: pos + k + 1 };
                } else {
                    return Parsed::Malformed;
                }
            },
            Parsed::Incomplete => {
                return Parsed::Incomplete;
            },
            Parsed::Malformed => {
                return Parsed::Malformed;
            },
        }
    }
}

/// One member of an object: a key, a colon and a value.
pub fn key_value(input: &[u8]) -> (r: Parsed<(String, JsonValue)>)
    ensures
        r@ == member(input@),
        r matches Parsed::Complete { value: _, used } ==> 0 < used <= input.len(),
    decreases input.len(), 2int,
{
    let k = sp(input, 0);
    if k >= input.len() {
        return Parsed::Incomplete;
    }
    if input[k] != QUOTE {
        return Parsed::Malformed;
    }
    let e = match parse_str(input, k + 1) {
        Parsed::Complete { value: _, used } => used,
        Parsed::Incomplete => {
            return Parsed::Incomplete;
        },
        Parsed::Malformed => {
            return Parsed::Malformed;
        },
    };
    let c = sp(input, e);
    if c >= input.len() {
        return Parsed::Incomplete;
    }
    if input[c] != COLON {
        return Parsed::Malformed;
    }
    let v = slice_subrange(input, c + 1, input.len());
    assert(v@ =~= input@.skip(c + 1));
    match json_value(v) {
        Parsed::Complete { value, used } => Parsed::Complete {
            value: (text(input, k + 1, e - 1), value),
            used: c + 1 + used,
        },
        Parsed::Incomplete => Parsed::Incomplete,
        Parsed::Malformed => Parsed::Malformed,
    }
}

/// What the members of an object come to once the first of them is read.
proof fn lemma_members_step(
    s: Seq<u8>,
    found: Seq<(Seq<char>, Json)>,
    key: Seq<char>,
    item: Json,
    used: int,
)
    requires
        member(s) == (Outcome::Complete { value: (key, item), used }),
        0 < used <= s.len(),
    ensures
        ({
            let q = spaces_end(s, used);
            members(s, found) == if q >= s.len() {
                Outcome::Incomplete
            } else if s[q] == COMMA {
                members(s.skip(q + 1), store(found, key, item)).after(q + 1)
            } else if s[q] == CLOSE_BRACE {
                Outcome::Complete { value: Json::Object(store(found, key, item)), used: q + 1 }
            } else {
                Outcome::Malformed
            }
        }),
{
    lemma_spaces_end_bounds(s, used);
}

/// An object whose opening brace stands before the window.
pub fn hash(input: &[u8]) -> (r: Parsed<JsonValue>)
    ensures
        r@ == object_tail(input@),
        r matches Parsed::Complete { value: _, used } ==> 0 < used <= input.len(),
    decreases input.len(), 4int,
{
    let k = sp(input, 0);
    if k >= input.len() {
        return Parsed::Incomplete;
    }
    if input[k] == CLOSE_BRACE {
        let entries: Vec<(String, JsonValue)> = Vec::new();
        proof {
            lemma_object_view(entries);
            assert(entries_view(entries@) =~= Seq::<(Seq<char>, Json)>::empty());
        }
        return Parsed::Complete { value: JsonValue::Object(entries), used: k + 1 };
    }
    let mut found: Vec<(String, JsonValue)> = Vec::new();
    let mut pos: usize = 0;
    assert(input@.skip(0) =~= input@);
    assert(entries_view(found@) =~= Seq::<(Seq<char>, Json)>::empty());
    loop
        invariant
            pos <= input.len(),
            object_tail(input@) == members(input@.skip(pos as int), entries_view(found@)).after(
                pos as int,
            ),
        decreases input.len() - pos,
    {
        let w = slice_subrange(input, pos, input.len());
        assert(w@ =~= input@.skip(pos as int));
        match key_value(w) {
            Parsed::Complete { value: (key, value), used } => {
                let q = sp(w, used);
                let ghost before = entries_view(found@);
                let ghost stored = store(before, key@, value@);
                proof {
                    lemma_members_step(w@, before, key@, value@, used as int);
                }
                if q >= w.len() {
                    return Parsed::Incomplete;
                }
                insert_entry(&mut found, key, value);
                if w[q] == COMMA {
                    assert(w@.skip(q + 1) =~= input@.skip(pos + q + 1));
                    pos = pos + q + 1;
                } else if w[q] == CLOSE_BRACE {
                    proof {
                        lemma_object_view(found);
                    }
                    return Parsed::Complete { value: JsonValue::Object(found), used: pos + q + 1 };
                } else {
                    return Parsed::Malformed;
                }
            },
            Parsed::Incomplete => {
                return Parsed::Incomplete;
            },
            Parsed::Malformed => {
                return Parsed::Malformed;
            },
        }
    }
}

/// A document: optional whitespace, then an object, an array or `null`, then
/// the whitespace that follows it in the window.
pub fn root(input: &[u8]) -> (r: Parsed<JsonValue>)
    ensures
        r@ == document(input@),
        r matches Parsed::Complete { value, used } ==> 0 < used <= input.len()
            && value@.well_formed(),
{
    proof {
        reveal(document);
        lemma_document_well_formed(input@);
    }
    let k = sp(input, 0);
    if k >= input.len() {
        return Parsed::Incomplete;
    }
    let t = slice_subrange(input, k, input.len());
    assert(t@ =~= input@.skip(k as int));
    let top = if t[0] == OPEN_BRACE {
        shift(hash(slice_subrange(t, 1, t.len())), 1)
    } else if t[0] == OPEN_BRACKET {
        shift(array(slice_subrange(t, 1, t.len())), 1)
    } else {
        match null(t) {
            Lexed::Token(n) => Parsed::Complete { value: JsonValue::Null, used: n },
            Lexed::Incomplete => Parsed::Incomplete,
            _ => Parsed::Malformed,
        }
    };
    match top {
        Parsed::Complete { value, used } => Parsed::Complete { value, used: sp(input, k + used) },
        Parsed::Incomplete => Parsed::Incomplete,
        Parsed::Malformed => Parsed::Malformed,
    }
}

} // verus!
