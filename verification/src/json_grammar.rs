//! The value grammar, as mathematical functions from a window of bytes to a
//! three-way outcome.

use crate::value::{store, Json};
use vstd::prelude::*;

verus! {

/// What a grammar rule makes of a window: a value and the number of bytes it
/// took, a window that ends too early to tell, or one that no further bytes
/// can turn into a value.
pub enum Outcome<T> {
    Complete { value: T, used: int },
    Incomplete,
    Malformed,
}

impl<T> Outcome<T> {
    /// The same outcome, seen from `k` bytes earlier in the window.
    pub open spec fn after(self, k: int) -> Outcome<T> {
        match self {
            Outcome::Complete { value, used } => Outcome::Complete { value, used: used + k },
            other => other,
        }
    }
}

/// What a token rule makes of a window: the length of the token, a window that
/// ends too early, a token that went wrong after its start, or no token.
pub enum Lex {
    Token(int),
    Incomplete,
    Malformed,
    NoMatch,
}

// The bytes that the grammar names.
pub const SPACE: u8 = 0x20;

pub const TAB: u8 = 0x09;

pub const CR: u8 = 0x0d;

pub const LF: u8 = 0x0a;

pub const DIGIT_0: u8 = 0x30;

pub const DIGIT_9: u8 = 0x39;

pub const UPPER_A: u8 = 0x41;

pub const UPPER_Z: u8 = 0x5a;

pub const LOWER_A: u8 = 0x61;

pub const LOWER_Z: u8 = 0x7a;

pub const PLUS: u8 = 0x2b;

pub const MINUS: u8 = 0x2d;

pub const POINT: u8 = 0x2e;

pub const LOWER_E: u8 = 0x65;

pub const UPPER_E: u8 = 0x45;

pub const LOWER_N: u8 = 0x6e;

pub const QUOTE: u8 = 0x22;

pub const BACKSLASH: u8 = 0x5c;

pub const COMMA: u8 = 0x2c;

pub const COLON: u8 = 0x3a;

pub const OPEN_BRACKET: u8 = 0x5b;

pub const CLOSE_BRACKET: u8 = 0x5d;

pub const OPEN_BRACE: u8 = 0x7b;

pub const CLOSE_BRACE: u8 = 0x7d;

/// A space, a tab, a carriage return or a line feed.
pub open spec fn is_space(b: u8) -> bool {
    b == SPACE || b == TAB || b == CR || b == LF
}

/// A decimal digit.
pub open spec fn is_digit(b: u8) -> bool {
    DIGIT_0 <= b <= DIGIT_9
}

/// A letter or a digit of ASCII.
pub open spec fn is_alphanumeric(b: u8) -> bool {
    (UPPER_A <= b <= UPPER_Z) || (LOWER_A <= b <= LOWER_Z) || is_digit(b)
}

/// A plus or a minus.
pub open spec fn is_sign(b: u8) -> bool {
    b == PLUS || b == MINUS
}

/// The first index at or after `from` whose byte is no whitespace: the
/// length of the window when there is none.
pub open spec fn spaces_end(s: Seq<u8>, from: int) -> int
    decreases s.len() - from,
{
    if 0 <= from < s.len() && is_space(s[from]) {
        spaces_end(s, from + 1)
    } else {
        from
    }
}

/// The first index at or after `from` whose byte is no digit: the length of
/// the window when there is none.
pub open spec fn digits_end(s: Seq<u8>, from: int) -> int
    decreases s.len() - from,
{
    if 0 <= from < s.len() && is_digit(s[from]) {
        digits_end(s, from + 1)
    } else {
        from
    }
}

/// A literal word at the start of the window. A window that is a proper
/// prefix of the word is incomplete.
pub open spec fn word(s: Seq<u8>, w: Seq<u8>) -> Lex {
    if exists|i: int| 0 <= i < s.len() && i < w.len() && s[i] != w[i] {
        Lex::NoMatch
    } else if s.len() >= w.len() {
        Lex::Token(w.len() as int)
    } else {
        Lex::Incomplete
    }
}

/// The bytes of the word `true`.
pub open spec fn word_true() -> Seq<u8> {
    seq![0x74u8, 0x72u8, 0x75u8, 0x65u8]
}

/// The bytes of the word `false`.
pub open spec fn word_false() -> Seq<u8> {
    seq![0x66u8, 0x61u8, 0x6cu8, 0x73u8, 0x65u8]
}

/// The bytes of the word `null`.
pub open spec fn word_null() -> Seq<u8> {
    seq![0x6eu8, 0x75u8, 0x6cu8, 0x6cu8]
}

/// The exponent of a number whose mantissa ends before index `m`.
pub open spec fn exponent(s: Seq<u8>, m: int) -> Lex
    recommends
        m < s.len(),
{
    if s[m] == LOWER_E || s[m] == UPPER_E {
        if m + 1 >= s.len() {
            Lex::Incomplete
        } else {
            let b: int = if is_sign(s[m + 1]) {
                m + 2
            } else {
                m + 1
            };
            let g = digits_end(s, b);
            if g >= s.len() {
                Lex::Incomplete
            } else if g == b {
                Lex::Malformed
            } else {
                Lex::Token(g)
            }
        }
    } else {
        Lex::Token(m)
    }
}

/// A number at the start of the window: an optional sign; digits with an
/// optional point and fraction, or a point and a fraction; an optional
/// exponent. A number is complete only when the byte after it is in the
/// window.
pub open spec fn number(s: Seq<u8>) -> Lex {
    let a: int = if s.len() > 0 && is_sign(s[0]) {
        1
    } else {
        0
    };
    let d = digits_end(s, a);
    if a >= s.len() {
        Lex::Incomplete
    } else if d > a {
        if d >= s.len() {
            Lex::Incomplete
        } else if s[d] == POINT {
            let f = digits_end(s, d + 1);
            if f >= s.len() {
                Lex::Incomplete
            } else {
                exponent(s, f)
            }
        } else {
            exponent(s, d)
        }
    } else if s[a] == POINT {
        let f = digits_end(s, a + 1);
        if f >= s.len() {
            Lex::Incomplete
        } else if f == a + 1 {
            Lex::NoMatch
        } else {
            exponent(s, f)
        }
    } else {
        Lex::NoMatch
    }
}

/// A byte that may follow a backslash: a quote, the letter `n` or a
/// backslash.
pub open spec fn is_escapable(b: u8) -> bool {
    b == QUOTE || b == LOWER_N || b == BACKSLASH
}

/// The rest of a string whose body is scanned up to index `from`: letters and
/// digits, and a backslash before a quote, an `n` or a backslash, up to the
/// closing quote. The outcome counts the closing quote.
pub open spec fn string_end(s: Seq<u8>, from: int) -> Outcome<()>
    decreases s.len() - from,
{
    if from >= s.len() {
        Outcome::Incomplete
    } else if is_alphanumeric(s[from]) {
        string_end(s, from + 1)
    } else if s[from] == BACKSLASH {
        if from + 1 >= s.len() {
            Outcome::Incomplete
        } else if is_escapable(s[from + 1]) {
            string_end(s, from + 2)
        } else {
            Outcome::Malformed
        }
    } else if s[from] == QUOTE {
        Outcome::Complete { value: (), used: from + 1 }
    } else {
        Outcome::Malformed
    }
}

/// The text that a run of bytes stands for, one character for each byte.
pub open spec fn text_of(bytes: Seq<u8>) -> Seq<char> {
    Seq::new(bytes.len(), |i: int| bytes[i] as char)
}

/// A string whose opening quote stands before the window. The value is the
/// body as it was written, escapes included.
pub open spec fn string_tail(s: Seq<u8>) -> Outcome<Seq<char>> {
    match string_end(s, 0) {
        Outcome::Complete { value: _, used } => Outcome::Complete {
            value: text_of(s.subrange(0, used - 1)),
            used,
        },
        Outcome::Incomplete => Outcome::Incomplete,
        Outcome::Malformed => Outcome::Malformed,
    }
}

/// What the number parser of the parsing library makes of a window: a double,
/// given by its bit pattern, and the number of bytes left over; a window that
/// ends too early; no number; or a number that went wrong after its start.
pub enum NumberScan {
    Number { bits: u64, rest: usize },
    Incomplete,
    Rejected,
    Failed,
}

/// The outcome of the parsing library's streaming parser for doubles on a
/// window.
pub uninterp spec fn streaming_double(window: Seq<u8>) -> NumberScan;

/// The double of a number token, from the scan of the token and the byte that
/// follows it: the scan must have stopped at that byte.
pub open spec fn number_bits(scan: NumberScan) -> Option<u64> {
    match scan {
        NumberScan::Number { bits, rest } => if rest == 1 {
            Some(bits)
        } else {
            None
        },
        _ => None,
    }
}

/// One of the words `true` and `false` at the start of the window.
pub open spec fn truth(s: Seq<u8>) -> Outcome<Json> {
    match word(s, word_true()) {
        Lex::Token(n) => Outcome::Complete { value: Json::Boolean(true), used: n },
        Lex::NoMatch => match word(s, word_false()) {
            Lex::Token(n) => Outcome::Complete { value: Json::Boolean(false), used: n },
            Lex::Incomplete => Outcome::Incomplete,
            _ => Outcome::Malformed,
        },
        Lex::Incomplete => Outcome::Incomplete,
        Lex::Malformed => Outcome::Malformed,
    }
}

/// One of the words `true`, `false` and `null` at the start of the window.
pub open spec fn literal(s: Seq<u8>) -> Outcome<Json> {
    match truth(s) {
        Outcome::Malformed => match word(s, word_null()) {
            Lex::Token(n) => Outcome::Complete { value: Json::Null, used: n },
            Lex::Incomplete => Outcome::Incomplete,
            _ => Outcome::Malformed,
        },
        decided => decided,
    }
}

/// A number or a literal word at the start of the window.
pub open spec fn scalar(s: Seq<u8>) -> Outcome<Json> {
    match number(s) {
        Lex::Token(n) => match number_bits(streaming_double(s.subrange(0, n + 1))) {
            Some(bits) => Outcome::Complete { value: Json::Num(bits), used: n },
            None => Outcome::Malformed,
        },
        Lex::Incomplete => Outcome::Incomplete,
        Lex::Malformed => Outcome::Malformed,
        Lex::NoMatch => literal(s),
    }
}

/// A value of any kind, after optional whitespace.
pub open spec fn value(s: Seq<u8>) -> Outcome<Json>
    decreases s.len(), 1int,
{
    let k = spaces_end(s, 0);
    if !(0 <= k < s.len()) {
        Outcome::Incomplete
    } else {
        let t = s.skip(k);
        let inner = if t[0] == OPEN_BRACE {
            object_tail(t.skip(1)).after(1)
        } else if t[0] == OPEN_BRACKET {
            array_tail(t.skip(1)).after(1)
        } else if t[0] == QUOTE {
            match string_tail(t.skip(1)) {
                Outcome::Complete { value, used } => Outcome::Complete {
                    value: Json::Str(value),
                    used: used + 1,
                },
                Outcome::Incomplete => Outcome::Incomplete,
                Outcome::Malformed => Outcome::Malformed,
            }
        } else {
            scalar(t)
        };
        inner.after(k)
    }
}

/// An array whose opening bracket stands before the window.
pub open spec fn array_tail(s: Seq<u8>) -> Outcome<Json>
    decreases s.len(), 3int,
{
    let k = spaces_end(s, 0);
    if !(0 <= k < s.len()) {
        Outcome::Incomplete
    } else if s[k] == CLOSE_BRACKET {
        Outcome::Complete { value: Json::Array(Seq::empty()), used: k + 1 }
    } else {
        elements(s, Seq::empty())
    }
}

/// The items of an array from the start of the window on, up to the closing
/// bracket; `found` holds the items before the window.
pub open spec fn elements(s: Seq<u8>, found: Seq<Json>) -> Outcome<Json>
    decreases s.len(), 2int,
{
    match value(s) {
        Outcome::Complete { value, used } => {
            let k = spaces_end(s, used);
            if !(0 < used <= k) {
                Outcome::Malformed
            } else if k >= s.len() {
                Outcome::Incomplete
            } else if s[k] == COMMA {
                elements(s.skip(k + 1), found.push(value)).after(k + 1)
            } else if s[k] == CLOSE_BRACKET {
                Outcome::Complete { value: Json::Array(found.push(value)), used: k + 1 }
            } else {
                Outcome::Malformed
            }
        },
        Outcome::Incomplete => Outcome::Incomplete,
        Outcome::Malformed => Outcome::Malformed,
    }
}

/// One member of an object: optional whitespace, a string as the key,
/// optional whitespace, a colon, and a value.
pub open spec fn member(s: Seq<u8>) -> Outcome<(Seq<char>, Json)>
    decreases s.len(), 2int,
{
    let k = spaces_end(s, 0);
    if !(0 <= k < s.len()) {
        Outcome::Incomplete
    } else if s[k] != QUOTE {
        Outcome::Malformed
    } else {
        match string_end(s, k + 1) {
            Outcome::Complete { value: _, used: e } => {
                let c = spaces_end(s, e);
                if !(k < e <= c) {
                    Outcome::Malformed
                } else if c >= s.len() {
                    Outcome::Incomplete
                } else if s[c] != COLON {
                    Outcome::Malformed
                } else {
                    match value(s.skip(c + 1)) {
                        Outcome::Complete { value, used } => Outcome::Complete {
                            value: (text_of(s.subrange(k + 1, e - 1)), value),
                            used: c + 1 + used,
                        },
                        Outcome::Incomplete => Outcome::Incomplete,
                        Outcome::Malformed => Outcome::Malformed,
                    }
                }
            },
            Outcome::Incomplete => Outcome::Incomplete,
            Outcome::Malformed => Outcome::Malformed,
        }
    }
}

/// An object whose opening brace stands before the window.
pub open spec fn object_tail(s: Seq<u8>) -> Outcome<Json>
    decreases s.len(), 4int,
{
    let k = spaces_end(s, 0);
    if !(0 <= k < s.len()) {
        Outcome::Incomplete
    } else if s[k] == CLOSE_BRACE {
        Outcome::Complete { value: Json::Object(Seq::empty()), used: k + 1 }
    } else {
        members(s, Seq::empty())
    }
}

/// The members of an object from the start of the window on, up to the
/// closing brace; `found` holds the entries before the window. A key that
/// comes again replaces the value that it had.
pub open spec fn members(s: Seq<u8>, found: Seq<(Seq<char>, Json)>) -> Outcome<Json>
    decreases s.len(), 3int,
{
    match member(s) {
        Outcome::Complete { value: (key, value), used } => {
            let q = spaces_end(s, used);
            if !(0 < used <= q) {
                Outcome::Malformed
            } else if q >= s.len() {
                Outcome::Incomplete
            } else if s[q] == COMMA {
                members(s.skip(q + 1), store(found, key, value)).after(q + 1)
            } else if s[q] == CLOSE_BRACE {
                Outcome::Complete { value: Json::Object(store(found, key, value)), used: q + 1 }
            } else {
                Outcome::Malformed
            }
        },
        Outcome::Incomplete => Outcome::Incomplete,
        Outcome::Malformed => Outcome::Malformed,
    }
}

/// A document: optional whitespace, then an object, an array or `null`, then
/// the whitespace that follows it in the window. A string, a number or a
/// boolean is no document.
#[verifier::opaque]
pub open spec fn document(s: Seq<u8>) -> Outcome<Json> {
    let k = spaces_end(s, 0);
    if !(0 <= k < s.len()) {
        Outcome::Incomplete
    } else {
        let t = s.skip(k);
        let top = if t[0] == OPEN_BRACE {
            object_tail(t.skip(1)).after(1)
        } else if t[0] == OPEN_BRACKET {
            array_tail(t.skip(1)).after(1)
        } else {
            match word(t, word_null()) {
                Lex::Token(n) => Outcome::Complete { value: Json::Null, used: n },
                Lex::Incomplete => Outcome::Incomplete,
                _ => Outcome::Malformed,
            }
        };
        match top {
            Outcome::Complete { value, used } => Outcome::Complete {
                value,
                used: spaces_end(s, k + used),
            },
            Outcome::Incomplete => Outcome::Incomplete,
            Outcome::Malformed => Outcome::Malformed,
        }
    }
}

} // verus!
