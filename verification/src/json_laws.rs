//! What holds of the value grammar on every window: how much a rule takes,
//! and that more bytes behind a window never change what was decided on it.

use crate::json_grammar::{
    array_tail, digits_end, document, elements, exponent, is_digit, is_sign, is_space, member,
    members, number, object_tail, scalar, spaces_end, string_end, string_tail, value, word,
    word_false, word_null, word_true, Lex, Outcome, LOWER_N, OPEN_BRACE, OPEN_BRACKET,
};
use crate::value::{distinct_keys, has_key, key_index, store, Json};
use vstd::prelude::*;

verus! {

/// Whitespace is skipped forwards, and never past the end of the window.
pub proof fn lemma_spaces_end_bounds(s: Seq<u8>, from: int)
    requires
        0 <= from <= s.len(),
    ensures
        from <= spaces_end(s, from) <= s.len(),
        forall|i: int| from <= i < spaces_end(s, from) ==> is_space(#[trigger] s[i]),
        spaces_end(s, from) < s.len() ==> !is_space(s[spaces_end(s, from)]),
    decreases s.len() - from,
{
    if from < s.len() && is_space(s[from]) {
        lemma_spaces_end_bounds(s, from + 1);
    }
}

/// Digits are skipped forwards, and never past the end of the window.
pub proof fn lemma_digits_end_bounds(s: Seq<u8>, from: int)
    requires
        0 <= from <= s.len(),
    ensures
        from <= digits_end(s, from) <= s.len(),
        forall|i: int| from <= i < digits_end(s, from) ==> is_digit(#[trigger] s[i]),
        digits_end(s, from) < s.len() ==> !is_digit(s[digits_end(s, from)]),
    decreases s.len() - from,
{
    if from < s.len() && is_digit(s[from]) {
        lemma_digits_end_bounds(s, from + 1);
    }
}

/// A number token is not empty, and the byte behind it is in the window.
pub proof fn lemma_number_bounds(s: Seq<u8>)
    ensures
        number(s) matches Lex::Token(n) ==> 0 < n < s.len(),
{
    let a: int = if s.len() > 0 && is_sign(s[0]) {
        1
    } else {
        0
    };
    if a < s.len() {
        lemma_digits_end_bounds(s, a);
        lemma_digits_end_bounds(s, a + 1);
        let d = digits_end(s, a);
        if d < s.len() {
            lemma_digits_end_bounds(s, d + 1);
            lemma_exponent_bounds(s, d);
            let f = digits_end(s, d + 1);
            if f < s.len() {
                lemma_exponent_bounds(s, f);
            }
        }
        let f = digits_end(s, a + 1);
        if f < s.len() {
            lemma_exponent_bounds(s, f);
        }
    }
}

proof fn lemma_exponent_bounds(s: Seq<u8>, m: int)
    requires
        0 <= m < s.len(),
    ensures
        exponent(s, m) matches Lex::Token(n) ==> m <= n < s.len(),
{
    if m + 1 < s.len() {
        lemma_digits_end_bounds(s, m + 1);
        if m + 2 <= s.len() {
            lemma_digits_end_bounds(s, m + 2);
        }
    }
}

/// A string ends behind the index at which its scan began, inside the window.
pub proof fn lemma_string_end_bounds(s: Seq<u8>, from: int)
    requires
        0 <= from,
    ensures
        string_end(s, from) matches Outcome::Complete { value: _, used } ==> from < used
            <= s.len(),
    decreases s.len() - from,
{
    if from < s.len() {
        lemma_string_end_bounds(s, from + 1);
        if from + 1 < s.len() {
            lemma_string_end_bounds(s, from + 2);
        }
    }
}

/// A scalar takes at least one byte, and no more than the window holds.
pub proof fn lemma_scalar_bounds(s: Seq<u8>)
    ensures
        scalar(s) matches Outcome::Complete { value: _, used } ==> 0 < used <= s.len(),
{
    lemma_number_bounds(s);
}

/// A value takes at least one byte, and no more than the window holds.
pub proof fn lemma_value_bounds(s: Seq<u8>)
    ensures
        value(s) matches Outcome::Complete { value: _, used } ==> 0 < used <= s.len(),
    decreases s.len(), 1int,
{
    let k = spaces_end(s, 0);
    lemma_spaces_end_bounds(s, 0);
    if 0 <= k < s.len() {
        let t = s.skip(k);
        let rest = t.skip(1);
        lemma_object_bounds(rest);
        lemma_array_bounds(rest);
        lemma_string_end_bounds(rest, 0);
        lemma_scalar_bounds(t);
    }
}

/// An array takes at least its closing bracket, and no more than the window
/// holds.
pub proof fn lemma_array_bounds(s: Seq<u8>)
    ensures
        array_tail(s) matches Outcome::Complete { value: _, used } ==> 0 < used <= s.len(),
    decreases s.len(), 3int,
{
    lemma_spaces_end_bounds(s, 0);
    lemma_elements_bounds(s, Seq::empty());
}

/// The items of an array take at least one byte, and no more than the
/// window holds.
pub proof fn lemma_elements_bounds(s: Seq<u8>, found: Seq<Json>)
    ensures
        elements(s, found) matches Outcome::Complete { value: _, used } ==> 0 < used <= s.len(),
    decreases s.len(), 2int,
{
    lemma_value_bounds(s);
    match value(s) {
        Outcome::Complete { value, used } => {
            lemma_spaces_end_bounds(s, used);
            let k = spaces_end(s, used);
            if k < s.len() {
                lemma_elements_bounds(s.skip(k + 1), found.push(value));
            }
        },
        _ => {},
    }
}

/// An object takes at least its closing brace, and no more than the window
/// holds.
pub proof fn lemma_object_bounds(s: Seq<u8>)
    ensures
        object_tail(s) matches Outcome::Complete { value: _, used } ==> 0 < used <= s.len(),
    decreases s.len(), 4int,
{
    lemma_spaces_end_bounds(s, 0);
    lemma_members_bounds(s, Seq::empty());
}

/// The members of an object take at least one byte, and no more than the
/// window holds.
pub proof fn lemma_members_bounds(s: Seq<u8>, found: Seq<(Seq<char>, Json)>)
    ensures
        members(s, found) matches Outcome::Complete { value: _, used } ==> 0 < used <= s.len(),
    decreases s.len(), 3int,
{
    lemma_member_bounds(s);
    match member(s) {
        Outcome::Complete { value: (key, value), used } => {
            lemma_spaces_end_bounds(s, used);
            let q = spaces_end(s, used);
            if q < s.len() {
                lemma_members_bounds(s.skip(q + 1), store(found, key, value));
            }
        },
        _ => {},
    }
}

/// A member takes at least one byte, and no more than the window holds.
pub proof fn lemma_member_bounds(s: Seq<u8>)
    ensures
        member(s) matches Outcome::Complete { value: _, used } ==> 0 < used <= s.len(),
    decreases s.len(), 2int,
{
    lemma_spaces_end_bounds(s, 0);
    let k = spaces_end(s, 0);
    if 0 <= k < s.len() {
        lemma_string_end_bounds(s, k + 1);
        match string_end(s, k + 1) {
            Outcome::Complete { value: _, used: e } => {
                lemma_spaces_end_bounds(s, e);
                let c = spaces_end(s, e);
                if c < s.len() {
                    lemma_value_bounds(s.skip(c + 1));
                }
            },
            _ => {},
        }
    }
}

/// A document takes at least one byte, and no more than the window holds.
pub proof fn lemma_document_bounds(s: Seq<u8>)
    ensures
        document(s) matches Outcome::Complete { value: _, used } ==> 0 < used <= s.len(),
{
    reveal(document);
    lemma_spaces_end_bounds(s, 0);
    let k = spaces_end(s, 0);
    if 0 <= k < s.len() {
        let t = s.skip(k);
        lemma_object_bounds(t.skip(1));
        lemma_array_bounds(t.skip(1));
        let top = if t[0] == OPEN_BRACE {
            object_tail(t.skip(1)).after(1)
        } else if t[0] == OPEN_BRACKET {
            array_tail(t.skip(1)).after(1)
        } else {
            match word(t, word_null()) {
                Lex::Token(n) => Outcome::Complete { value: Json::Null, used: n },
                Lex::Incomplete => Outcome::Incomplete,
                _ => Outcome::Malformed,
            }
        };
        match top {
            Outcome::Complete { value: _, used } => {
                lemma_spaces_end_bounds(s, k + used);
            },
            _ => {},
        }
    }
}

/// Skipping whitespace in a window that starts `j` bytes later comes to the
/// same byte.
pub proof fn lemma_spaces_end_skip(s: Seq<u8>, j: int, from: int)
    requires
        0 <= j,
        0 <= from,
        from + j <= s.len(),
    ensures
        spaces_end(s.skip(j), from) + j == spaces_end(s, from + j),
    decreases s.len() - from - j,
{
    if from + j < s.len() && is_space(s[from + j]) {
        lemma_spaces_end_skip(s, j, from + 1);
    }
}

/// Whitespace that ends inside a window ends at the same byte when more
/// bytes follow the window; whitespace that runs to its end goes on into
/// them.
pub proof fn lemma_spaces_end_extend(s: Seq<u8>, x: Seq<u8>, from: int)
    requires
        0 <= from <= s.len(),
    ensures
        spaces_end(s, from) < s.len() ==> spaces_end(s + x, from) == spaces_end(s, from),
        spaces_end(s, from) >= s.len() ==> spaces_end(s + x, from) == s.len() + spaces_end(x, 0),
    decreases s.len() - from,
{
    if from < s.len() {
        if is_space(s[from]) {
            lemma_spaces_end_extend(s, x, from + 1);
        }
    } else {
        lemma_spaces_end_skip(s + x, s.len() as int, 0);
        assert((s + x).skip(s.len() as int) =~= x);
    }
}

/// Digits that end inside a window end at the same byte when more bytes
/// follow the window.
pub proof fn lemma_digits_end_extend(s: Seq<u8>, x: Seq<u8>, from: int)
    requires
        0 <= from <= s.len(),
    ensures
        digits_end(s, from) < s.len() ==> digits_end(s + x, from) == digits_end(s, from),
    decreases s.len() - from,
{
    if from < s.len() && is_digit(s[from]) {
        lemma_digits_end_extend(s, x, from + 1);
    }
}

/// A word that is found, or ruled out, stays so when more bytes follow.
pub proof fn lemma_word_extend(s: Seq<u8>, x: Seq<u8>, w: Seq<u8>)
    ensures
        !(word(s, w) is Incomplete) ==> word(s + x, w) == word(s, w),
{
    if word(s, w) is NoMatch {
        let i = choose|i: int| 0 <= i < s.len() && i < w.len() && s[i] != w[i];
        assert((s + x)[i] != w[i]);
    } else if word(s, w) is Token {
        assert forall|i: int| 0 <= i < (s + x).len() && i < w.len() implies (s + x)[i]
            == w[i] by {
            assert((s + x)[i] == s[i]);
        }
    }
}

proof fn lemma_exponent_extend(s: Seq<u8>, x: Seq<u8>, m: int)
    requires
        0 <= m < s.len(),
    ensures
        !(exponent(s, m) is Incomplete) ==> exponent(s + x, m) == exponent(s, m),
{
    if m + 1 < s.len() {
        lemma_digits_end_extend(s, x, m + 1);
        if m + 2 <= s.len() {
            lemma_digits_end_extend(s, x, m + 2);
        }
    }
}

/// A number token that is found, ruled out or gone wrong stays so when more
/// bytes follow.
pub proof fn lemma_number_extend(s: Seq<u8>, x: Seq<u8>)
    ensures
        !(number(s) is Incomplete) ==> number(s + x) == number(s),
{
    let a: int = if s.len() > 0 && is_sign(s[0]) {
        1
    } else {
        0
    };
    if a < s.len() {
        lemma_digits_end_bounds(s, a);
        lemma_digits_end_extend(s, x, a);
        let d = digits_end(s, a);
        if d > a {
            if d < s.len() {
                lemma_exponent_extend(s, x, d);
                lemma_digits_end_bounds(s, d + 1);
                lemma_digits_end_extend(s, x, d + 1);
                let f = digits_end(s, d + 1);
                if f < s.len() {
                    lemma_exponent_extend(s, x, f);
                }
            }
        } else {
            lemma_digits_end_bounds(s, a + 1);
            lemma_digits_end_extend(s, x, a + 1);
            let f = digits_end(s, a + 1);
            if f < s.len() {
                lemma_exponent_extend(s, x, f);
            }
        }
    }
}

/// A string that is closed, or gone wrong, stays so when more bytes follow.
pub proof fn lemma_string_end_extend(s: Seq<u8>, x: Seq<u8>, from: int)
    requires
        0 <= from,
    ensures
        !(string_end(s, from) is Incomplete) ==> string_end(s + x, from) == string_end(s, from),
    decreases s.len() - from,
{
    if from < s.len() {
        lemma_string_end_extend(s, x, from + 1);
        if from + 1 < s.len() {
            lemma_string_end_extend(s, x, from + 2);
        }
    }
}

proof fn lemma_string_tail_extend(s: Seq<u8>, x: Seq<u8>)
    ensures
        !(string_tail(s) is Incomplete) ==> string_tail(s + x) == string_tail(s),
{
    lemma_string_end_extend(s, x, 0);
    lemma_string_end_bounds(s, 0);
    match string_end(s, 0) {
        Outcome::Complete { value: _, used } => {
            assert((s + x).subrange(0, used - 1) =~= s.subrange(0, used - 1));
        },
        _ => {},
    }
}

/// A scalar that is decided stays as it is when more bytes follow.
pub proof fn lemma_scalar_extend(s: Seq<u8>, x: Seq<u8>)
    ensures
        !(scalar(s) is Incomplete) ==> scalar(s + x) == scalar(s),
{
    lemma_number_extend(s, x);
    lemma_number_bounds(s);
    match number(s) {
        Lex::Token(n) => {
            assert((s + x).subrange(0, n + 1) =~= s.subrange(0, n + 1));
        },
        Lex::NoMatch => {
            lemma_word_extend(s, x, word_true());
            lemma_word_extend(s, x, word_false());
            lemma_word_extend(s, x, word_null());
        },
        _ => {},
    }
}

/// A value that is decided stays as it is when more bytes follow.
pub proof fn lemma_value_extend(s: Seq<u8>, x: Seq<u8>)
    ensures
        !(value(s) is Incomplete) ==> value(s + x) == value(s),
    decreases s.len(), 1int,
{
    let k = spaces_end(s, 0);
    lemma_spaces_end_bounds(s, 0);
    lemma_spaces_end_extend(s, x, 0);
    if 0 <= k < s.len() {
        let t = s.skip(k);
        assert((s + x).skip(k) =~= t + x);
        assert((t + x).skip(1) =~= t.skip(1) + x);
        assert((t + x)[0] == t[0]);
        lemma_object_extend(t.skip(1), x);
        lemma_array_extend(t.skip(1), x);
        lemma_string_tail_extend(t.skip(1), x);
        lemma_scalar_extend(t, x);
    }
}

/// An array that is decided stays as it is when more bytes follow.
pub proof fn lemma_array_extend(s: Seq<u8>, x: Seq<u8>)
    ensures
        !(array_tail(s) is Incomplete) ==> array_tail(s + x) == array_tail(s),
    decreases s.len(), 3int,
{
    lemma_spaces_end_bounds(s, 0);
    lemma_spaces_end_extend(s, x, 0);
    lemma_elements_extend(s, x, Seq::empty());
}

/// Items that are decided stay as they are when more bytes follow.
pub proof fn lemma_elements_extend(s: Seq<u8>, x: Seq<u8>, found: Seq<Json>)
    ensures
        !(elements(s, found) is Incomplete) ==> elements(s + x, found) == elements(s, found),
    decreases s.len(), 2int,
{
    lemma_value_extend(s, x);
    lemma_value_bounds(s);
    match value(s) {
        Outcome::Complete { value, used } => {
            lemma_spaces_end_bounds(s, used);
            lemma_spaces_end_extend(s, x, used);
            let k = spaces_end(s, used);
            if k < s.len() {
                assert((s + x)[k] == s[k]);
                assert((s + x).skip(k + 1) =~= s.skip(k + 1) + x);
                lemma_elements_extend(s.skip(k + 1), x, found.push(value));
            }
        },
        _ => {},
    }
}

/// An object that is decided stays as it is when more bytes follow.
pub proof fn lemma_object_extend(s: Seq<u8>, x: Seq<u8>)
    ensures
        !(object_tail(s) is Incomplete) ==> object_tail(s + x) == object_tail(s),
    decreases s.len(), 4int,
{
    lemma_spaces_end_bounds(s, 0);
    lemma_spaces_end_extend(s, x, 0);
    lemma_members_extend(s, x, Seq::empty());
}

/// Members that are decided stay as they are when more bytes follow.
pub proof fn lemma_members_extend(s: Seq<u8>, x: Seq<u8>, found: Seq<(Seq<char>, Json)>)
    ensures
        !(members(s, found) is Incomplete) ==> members(s + x, found) == members(s, found),
    decreases s.len(), 3int,
{
    lemma_member_extend(s, x);
    lemma_member_bounds(s);
    match member(s) {
        Outcome::Complete { value: (key, value), used } => {
            lemma_spaces_end_bounds(s, used);
            lemma_spaces_end_extend(s, x, used);
            let q = spaces_end(s, used);
            if q < s.len() {
                assert((s + x)[q] == s[q]);
                assert((s + x).skip(q + 1) =~= s.skip(q + 1) + x);
                lemma_members_extend(s.skip(q + 1), x, store(found, key, value));
            }
        },
        _ => {},
    }
}

/// A member that is decided stays as it is when more bytes follow.
pub proof fn lemma_member_extend(s: Seq<u8>, x: Seq<u8>)
    ensures
        !(member(s) is Incomplete) ==> member(s + x) == member(s),
    decreases s.len(), 2int,
{
    lemma_spaces_end_bounds(s, 0);
    lemma_spaces_end_extend(s, x, 0);
    let k = spaces_end(s, 0);
    if 0 <= k < s.len() {
        assert((s + x)[k] == s[k]);
        lemma_string_end_bounds(s, k + 1);
        lemma_string_end_extend(s, x, k + 1);
        match string_end(s, k + 1) {
            Outcome::Complete { value: _, used: e } => {
                assert((s + x).subrange(k + 1, e - 1) =~= s.subrange(k + 1, e - 1));
                lemma_spaces_end_bounds(s, e);
                lemma_spaces_end_extend(s, x, e);
                let c = spaces_end(s, e);
                if c < s.len() {
                    assert((s + x)[c] == s[c]);
                    assert((s + x).skip(c + 1) =~= s.skip(c + 1) + x);
                    lemma_value_extend(s.skip(c + 1), x);
                }
            },
            _ => {},
        }
    }
}

/// More bytes behind a window never change the document that was decoded
/// from it, nor make good a window that is malformed: the decoded value
/// stays, and only the whitespace behind it may grow.
pub proof fn lemma_document_extend(s: Seq<u8>, x: Seq<u8>)
    ensures
        document(s) is Malformed ==> document(s + x) is Malformed,
        document(s) matches Outcome::Complete { value, used } ==> document(s + x) == (
        Outcome::Complete {
            value,
            used: if used < s.len() {
                used
            } else {
                s.len() + spaces_end(x, 0)
            },
        }),
{
    reveal(document);
    lemma_spaces_end_bounds(s, 0);
    lemma_spaces_end_extend(s, x, 0);
    let k = spaces_end(s, 0);
    if 0 <= k < s.len() {
        let t = s.skip(k);
        assert((s + x).skip(k) =~= t + x);
        assert((t + x).skip(1) =~= t.skip(1) + x);
        assert((t + x)[0] == t[0]);
        lemma_object_extend(t.skip(1), x);
        lemma_array_extend(t.skip(1), x);
        lemma_object_bounds(t.skip(1));
        lemma_array_bounds(t.skip(1));
        lemma_word_extend(t, x, word_null());
        let top = if t[0] == OPEN_BRACE {
            object_tail(t.skip(1)).after(1)
        } else if t[0] == OPEN_BRACKET {
            array_tail(t.skip(1)).after(1)
        } else {
            match word(t, word_null()) {
                Lex::Token(n) => Outcome::Complete { value: Json::Null, used: n },
                Lex::Incomplete => Outcome::Incomplete,
                _ => Outcome::Malformed,
            }
        };
        match top {
            Outcome::Complete { value: _, used } => {
                lemma_spaces_end_bounds(s, k + used);
                lemma_spaces_end_extend(s, x, k + used);
            },
            _ => {},
        }
    }
}

/// Entries with distinct keys and well-formed values.
pub open spec fn entries_well_formed(entries: Seq<(Seq<char>, Json)>) -> bool {
    distinct_keys(entries) && forall|i: int|
        0 <= i < entries.len() ==> (#[trigger] entries[i]).1.well_formed()
}

/// Storing a well-formed value keeps the keys distinct and the values
/// well-formed.
pub proof fn lemma_store_well_formed(
    entries: Seq<(Seq<char>, Json)>,
    key: Seq<char>,
    value: Json,
)
    requires
        entries_well_formed(entries),
        value.well_formed(),
    ensures
        entries_well_formed(store(entries, key, value)),
{
    reveal(store);
    let after = store(entries, key, value);
    if has_key(entries, key) {
        let at = key_index(entries, key);
        assert forall|i: int, j: int| 0 <= i < j < after.len() implies (#[trigger] after[i]).0 != (
        #[trigger] after[j]).0 by {
            assert(after[i].0 == entries[i].0);
            assert(after[j].0 == entries[j].0);
        }
        assert forall|i: int| 0 <= i < after.len() implies (
        #[trigger] after[i]).1.well_formed() by {
            if i != at {
                assert(after[i] == entries[i]);
            }
        }
    } else {
        assert forall|i: int, j: int| 0 <= i < j < after.len() implies (#[trigger] after[i]).0 != (
        #[trigger] after[j]).0 by {
            assert(after[i] == entries[i]);
            if j < entries.len() {
                assert(after[j] == entries[j]);
            }
        }
        assert forall|i: int| 0 <= i < after.len() implies (
        #[trigger] after[i]).1.well_formed() by {
            if i < entries.len() {
                assert(after[i] == entries[i]);
            }
        }
    }
}

/// A scalar is well-formed.
proof fn lemma_scalar_well_formed(s: Seq<u8>)
    ensures
        scalar(s) matches Outcome::Complete { value, used: _ } ==> value.well_formed(),
{
}

/// Every value that the grammar yields is well-formed: no object in it, at
/// any depth, has a key twice.
pub proof fn lemma_value_well_formed(s: Seq<u8>)
    ensures
        value(s) matches Outcome::Complete { value, used: _ } ==> value.well_formed(),
    decreases s.len(), 1int,
{
    let k = spaces_end(s, 0);
    lemma_spaces_end_bounds(s, 0);
    if 0 <= k < s.len() {
        let t = s.skip(k);
        lemma_object_well_formed(t.skip(1));
        lemma_array_well_formed(t.skip(1));
        lemma_scalar_well_formed(t);
    }
}

/// Every array that the grammar yields is well-formed.
pub proof fn lemma_array_well_formed(s: Seq<u8>)
    ensures
        array_tail(s) matches Outcome::Complete { value, used: _ } ==> value.well_formed(),
    decreases s.len(), 3int,
{
    lemma_elements_well_formed(s, Seq::empty());
}

proof fn lemma_elements_well_formed(s: Seq<u8>, found: Seq<Json>)
    requires
        forall|i: int| 0 <= i < found.len() ==> (#[trigger] found[i]).well_formed(),
    ensures
        elements(s, found) matches Outcome::Complete { value, used: _ } ==> value.well_formed(),
    decreases s.len(), 2int,
{
    lemma_value_well_formed(s);
    lemma_value_bounds(s);
    match value(s) {
        Outcome::Complete { value, used } => {
            lemma_spaces_end_bounds(s, used);
            let k = spaces_end(s, used);
            let next = found.push(value);
            assert forall|i: int| 0 <= i < next.len() implies (
            #[trigger] next[i]).well_formed() by {
                if i < found.len() {
                    assert(next[i] == found[i]);
                }
            }
            if k < s.len() {
                lemma_elements_well_formed(s.skip(k + 1), next);
            }
        },
        _ => {},
    }
}

/// Every object that the grammar yields is well-formed.
pub proof fn lemma_object_well_formed(s: Seq<u8>)
    ensures
        object_tail(s) matches Outcome::Complete { value, used: _ } ==> value.well_formed(),
    decreases s.len(), 4int,
{
    lemma_members_well_formed(s, Seq::empty());
}

proof fn lemma_members_well_formed(s: Seq<u8>, found: Seq<(Seq<char>, Json)>)
    requires
        entries_well_formed(found),
    ensures
        members(s, found) matches Outcome::Complete { value, used: _ } ==> value.well_formed(),
    decreases s.len(), 3int,
{
    lemma_member_well_formed(s);
    lemma_member_bounds(s);
    match member(s) {
        Outcome::Complete { value: (key, value), used } => {
            lemma_spaces_end_bounds(s, used);
            let q = spaces_end(s, used);
            lemma_store_well_formed(found, key, value);
            if q < s.len() {
                lemma_members_well_formed(s.skip(q + 1), store(found, key, value));
            }
        },
        _ => {},
    }
}

proof fn lemma_member_well_formed(s: Seq<u8>)
    ensures
        member(s) matches Outcome::Complete { value, used: _ } ==> value.1.well_formed(),
    decreases s.len(), 2int,
{
    lemma_spaces_end_bounds(s, 0);
    let k = spaces_end(s, 0);
    if 0 <= k < s.len() {
        lemma_string_end_bounds(s, k + 1);
        match string_end(s, k + 1) {
            Outcome::Complete { value: _, used: e } => {
                lemma_spaces_end_bounds(s, e);
                let c = spaces_end(s, e);
                if c < s.len() {
                    lemma_value_well_formed(s.skip(c + 1));
                }
            },
            _ => {},
        }
    }
}

/// Every document that is decoded is well-formed: the keys of each object
/// in it are distinct.
pub proof fn lemma_document_well_formed(s: Seq<u8>)
    ensures
        document(s) matches Outcome::Complete { value, used: _ } ==> value.well_formed(),
{
    reveal(document);
    lemma_spaces_end_bounds(s, 0);
    let k = spaces_end(s, 0);
    if 0 <= k < s.len() {
        let t = s.skip(k);
        lemma_object_well_formed(t.skip(1));
        lemma_array_well_formed(t.skip(1));
    }
}

/// A document starts with a brace, a bracket or the word `null`: a window
/// whose first byte behind the whitespace is none of `{`, `[` and `n` is
/// malformed, though the same bytes may be a value inside an array.
pub proof fn lemma_document_start(s: Seq<u8>)
    ensures
        ({
            let k = spaces_end(s, 0);
            0 <= k < s.len() && s[k] != OPEN_BRACE && s[k]
                != OPEN_BRACKET && s[k] != LOWER_N
                ==> document(s) is Malformed
        }),
{
    reveal(document);
    lemma_spaces_end_bounds(s, 0);
    let k = spaces_end(s, 0);
    if 0 <= k < s.len() {
        let t = s.skip(k);
        assert(word_null()[0] == LOWER_N);
        if t[0] != LOWER_N {
            assert(0 <= 0 < t.len() && 0 < word_null().len() && t[0] != word_null()[0]);
        }
    }
}

} // verus!
