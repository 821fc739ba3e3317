//! Work on text, character by character.

use vstd::prelude::*;

verus! {

/// `String::push` of the standard library: the string afterwards is the
/// string before with the character appended, as its documentation says.
pub assume_specification[ String::push ](s: &mut String, c: char)
    ensures
        final(s)@ == old(s)@.push(c),
;

/// The contents of a sequence of strings.
pub open spec fn texts(strings: Seq<String>) -> Seq<Seq<char>> {
    Seq::new(strings.len(), |i: int| strings[i]@)
}

/// The pieces of `s` from index `start` on, when the search for the
/// delimiter `d` stands at index `at`. A match ends a piece; the search goes
/// on behind it, and at least one character further.
pub open spec fn split_from(s: Seq<char>, d: Seq<char>, start: int, at: int) -> Seq<Seq<char>>
    decreases s.len() + 1 - at,
{
    if !(0 <= start <= at) || at + d.len() > s.len() {
        seq![s.subrange(start, s.len() as int)]
    } else if s.subrange(at, at + d.len()) == d {
        seq![s.subrange(start, at)] + split_from(
            s,
            d,
            at + d.len(),
            if d.len() == 0 {
                at + 1
            } else {
                at + d.len()
            },
        )
    } else {
        split_from(s, d, start, at + 1)
    }
}

/// The pieces of `s` between the occurrences of the delimiter `d`, found
/// from the left and not overlapping. With an empty delimiter every
/// character is a piece, between two empty ones.
pub open spec fn split_text(s: Seq<char>, d: Seq<char>) -> Seq<Seq<char>> {
    split_from(s, d, 0, 0)
}

/// The characters of a string.
pub fn chars_of(s: &str) -> (v: Vec<char>)
    ensures
        v@ == s@,
{
    let mut v: Vec<char> = Vec::new();
    for c in it: s.chars()
        invariant
            v@ == it.seq().take(it.index() as int),
    {
        v.push(c);
    }
    v
}

/// The string of the characters from index `from` up to index `to`.
pub fn string_of(chars: &Vec<char>, from: usize, to: usize) -> (r: String)
    requires
        from <= to <= chars.len(),
    ensures
        r@ == chars@.subrange(from as int, to as int),
{
    let mut r = String::new();
    let mut i: usize = from;
    while i < to
        invariant
            from <= i <= to <= chars.len(),
            r@ == chars@.subrange(from as int, i as int),
        decreases to - i,
    {
        r.push(chars[i]);
        assert(chars@.subrange(from as int, i as int).push(chars@[i as int])
            =~= chars@.subrange(from as int, i + 1));
        i += 1;
    }
    r
}

/// Whether `d` stands in `s` at index `at`.
fn stands_at(s: &Vec<char>, d: &Vec<char>, at: usize) -> (r: bool)
    requires
        at + d.len() <= s.len(),
    ensures
        r == (s@.subrange(at as int, at + d.len()) == d@),
{
    let mut j: usize = 0;
    while j < d.len()
        invariant
            j <= d.len(),
            at + d.len() <= s.len(),
            forall|k: int| 0 <= k < j ==> s@[at + k] == d@[k],
        decreases d.len() - j,
    {
        if s[at + j] != d[j] {
            assert(s@.subrange(at as int, at + d.len())[j as int] != d@[j as int]);
            return false;
        }
        j += 1;
    }
    assert(s@.subrange(at as int, at + d.len()) =~= d@);
    true
}

/// Splits `s` at the occurrences of `delim`.
pub fn split(s: &str, delim: &str) -> (pieces: Vec<String>)
    ensures
        texts(pieces@) == split_text(s@, delim@),
{
    let chars = chars_of(s);
    let d = chars_of(delim);
    let mut pieces: Vec<String> = Vec::new();
    let mut start: usize = 0;
    let mut at: usize = 0;
    assert(texts(pieces@) + split_from(chars@, d@, 0, 0) =~= split_text(s@, delim@));
    while at < chars.len() && d.len() <= chars.len() - at
        invariant
            start <= at <= chars.len(),
            chars@ == s@,
            d@ == delim@,
            texts(pieces@) + split_from(chars@, d@, start as int, at as int) == split_text(
                s@,
                delim@,
            ),
        decreases chars.len() - at,
    {
        if stands_at(&chars, &d, at) {
            let ghost before = texts(pieces@);
            let piece = string_of(&chars, start, at);
            pieces.push(piece);
            assert(texts(pieces@) =~= before.push(chars@.subrange(start as int, at as int)));
            let ghost next_at: int = if d.len() == 0 {
                at + 1
            } else {
                at + d.len()
            };
            assert(texts(pieces@) + split_from(chars@, d@, at + d.len(), next_at) =~= before
                + split_from(chars@, d@, start as int, at as int));
            start = at + d.len();
            at = if d.len() == 0 {
                at + 1
            } else {
                at + d.len()
            };
        } else {
            at = at + 1;
        }
    }
    if at == chars.len() && d.len() == 0 {
        // the empty delimiter also stands at the end
        let ghost before = texts(pieces@);
        let piece = string_of(&chars, start, at);
        pieces.push(piece);
        assert(chars@.subrange(at as int, at + d.len()) =~= d@);
        assert(texts(pieces@) =~= before.push(chars@.subrange(start as int, at as int)));
        assert(texts(pieces@) + split_from(chars@, d@, at as int, at + 1) =~= before + split_from(
            chars@,
            d@,
            start as int,
            at as int,
        ));
        start = at;
        let ghost before = texts(pieces@);
        let piece = string_of(&chars, start, chars.len());
        pieces.push(piece);
        assert(texts(pieces@) =~= before + split_from(chars@, d@, at as int, at + 1));
        return pieces;
    }
    let ghost before = texts(pieces@);
    let piece = string_of(&chars, start, chars.len());
    pieces.push(piece);
    assert(texts(pieces@) =~= before.push(chars@.subrange(start as int, chars@.len() as int)));
    assert(texts(pieces@) =~= before + split_from(chars@, d@, start as int, at as int));
    pieces
}

} // verus!
