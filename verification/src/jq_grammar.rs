//! The filter grammar, as mathematical functions from the text of a filter
//! expression to the pipeline that it denotes, or to the position at which
//! it stops being one.

use crate::jq_parser::Stage;
use vstd::prelude::*;

verus! {

/// A space or a tab.
pub open spec fn is_blank(c: char) -> bool {
    c == ' ' || c == '\t'
}

/// A letter or a digit of ASCII.
pub open spec fn is_word_char(c: char) -> bool {
    ('a' <= c && c <= 'z') || ('A' <= c && c <= 'Z') || ('0' <= c && c <= '9')
}

/// The first index at or after `from` whose character is no blank: the
/// length of the text when there is none.
pub open spec fn blanks_end(s: Seq<char>, from: int) -> int
    decreases s.len() - from,
{
    if 0 <= from < s.len() && is_blank(s[from]) {
        blanks_end(s, from + 1)
    } else {
        from
    }
}

/// The first index at or after `from` whose character is no letter or
/// digit: the length of the text when there is none.
pub open spec fn word_end(s: Seq<char>, from: int) -> int
    decreases s.len() - from,
{
    if 0 <= from < s.len() && is_word_char(s[from]) {
        word_end(s, from + 1)
    } else {
        from
    }
}

/// The member names from index `at` on, each a point and a word, as many as
/// there are, after the names in `found`; and the index behind the last.
pub open spec fn fields_from(s: Seq<char>, at: int, found: Seq<Seq<char>>) -> (Seq<Seq<char>>, int)
    decreases s.len() - at,
{
    let e = word_end(s, at + 1);
    if 0 <= at < s.len() && s[at] == '.' && at + 1 < e <= s.len() {
        fields_from(s, e, found.push(s.subrange(at + 1, e)))
    } else {
        (found, at)
    }
}

/// The rest of an argument list, from index `at` behind an argument on: the
/// closing parenthesis, or a comma between optional blanks and a further
/// argument. An error gives the index behind the last argument that was
/// read.
pub open spec fn arguments_from(s: Seq<char>, at: int, found: Seq<Seq<char>>) -> Result<
    (Seq<Seq<char>>, int),
    int,
>
    decreases s.len() - at,
{
    if !(0 <= at < s.len()) {
        Err(at)
    } else if s[at] == ')' {
        Ok((found, at + 1))
    } else {
        let c = blanks_end(s, at);
        let b = blanks_end(s, c + 1);
        let e = word_end(s, b);
        if at <= c < s.len() && s[c] == ',' && c < b < e <= s.len() {
            arguments_from(s, e, found.push(s.subrange(b, e)))
        } else {
            Err(at)
        }
    }
}

/// A function call from index `at` on: a name, and in parentheses its
/// arguments, none or more. An error gives the index at which the call
/// could not go on.
pub open spec fn call_at(s: Seq<char>, at: int) -> Result<(Stage, int), int> {
    let e = word_end(s, at);
    if !(0 <= at < e <= s.len()) {
        Err(at)
    } else if !(e < s.len() && s[e] == '(') {
        Err(e)
    } else {
        let name = s.subrange(at, e);
        let w = word_end(s, e + 1);
        if e + 1 < s.len() && s[e + 1] == ')' {
            Ok((Stage::Call { name, args: Seq::empty() }, e + 2))
        } else if !(e + 1 < w <= s.len()) {
            Err(e + 1)
        } else {
            match arguments_from(s, w, seq![s.subrange(e + 1, w)]) {
                Ok((args, n)) => Ok((Stage::Call { name, args }, n)),
                Err(p) => Err(p),
            }
        }
    }
}

/// One filter from index `at` on, between optional blanks: a point alone,
/// which is the identity; a chain of member names; or a function call. An
/// error gives the index at which the filter could not go on.
pub open spec fn filter_at(s: Seq<char>, at: int) -> Result<(Stage, int), int> {
    let a = blanks_end(s, at);
    if 0 <= a < s.len() && s[a] == '.' {
        let (fields, e) = fields_from(s, a, Seq::empty());
        if fields.len() == 0 {
            Ok((Stage::Fields(fields), blanks_end(s, a + 1)))
        } else {
            Ok((Stage::Fields(fields), blanks_end(s, e)))
        }
    } else {
        match call_at(s, a) {
            Ok((stage, n)) => Ok((stage, blanks_end(s, n))),
            Err(p) => Err(p),
        }
    }
}

/// The filters from index `at` on, separated by bars, up to the end of the
/// text, after the filters in `found`.
pub open spec fn stages_from(s: Seq<char>, at: int, found: Seq<Stage>) -> Result<Seq<Stage>, int>
    decreases s.len() - at,
{
    match filter_at(s, at) {
        Ok((stage, n)) => {
            if n >= s.len() {
                Ok(found.push(stage))
            } else if at < n && s[n] == '|' {
                stages_from(s, n + 1, found.push(stage))
            } else {
                Err(n)
            }
        },
        Err(p) => Err(p),
    }
}

/// The pipeline that a filter expression denotes, or the position at which
/// the expression stops being one.
pub open spec fn pipeline_of(s: Seq<char>) -> Result<Seq<Stage>, int> {
    stages_from(s, 0, Seq::empty())
}

} // verus!
