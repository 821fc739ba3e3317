//! The text of a value: compact, one line.

use crate::value::{entries_view, items_view, lemma_array_view, lemma_object_view, Json, JsonValue};
use vstd::prelude::*;
use vstd::string::StringExecFns;

verus! {

/// The text in which a double is shown, given its bit pattern.
pub uninterp spec fn double_text(bits: u64) -> Seq<char>;

/// Reads the double back from the eight bytes of its bit pattern with
/// `nom::number::complete::be_f64`, which takes the first eight bytes of its
/// input and fails only on fewer, and formats it with `format!`, as
/// `Display` shows a double. The result is there on every pattern, and is
/// the text of that double.
#[verifier::external_body]
fn number_text(bits: u64) -> (r: Option<String>)
    ensures
        r is Some,
        r->0@ == double_text(bits),
{
    match nom::number::complete::be_f64::<&[u8], nom::error::Error<&[u8]>>(&bits.to_be_bytes()) {
        Ok((_, x)) => Some(format!("{}", x)),
        Err(_) => None,
    }
}

/// The text of a value. Null is `null`, a boolean `true` or `false`, a number
/// the text of its double, and a string its raw text. The items of an array
/// stand between brackets, the entries of an object between braces, each
/// as key, colon and value; commas separate them, and no whitespace is added.
pub open spec fn render(v: Json) -> Seq<char>
    decreases v, 0nat,
{
    match v {
        Json::Null => "null"@,
        Json::Str(s) => s,
        Json::Boolean(b) => if b {
            "true"@
        } else {
            "false"@
        },
        Json::Num(bits) => double_text(bits),
        Json::Array(items) => "["@ + render_items(items, items.len()) + "]"@,
        Json::Object(entries) => "{"@ + render_entries(entries, entries.len()) + "}"@,
    }
}

/// The text of the first `upto` items, with commas between them.
pub open spec fn render_items(items: Seq<Json>, upto: nat) -> Seq<char>
    decreases items, upto,
{
    if upto == 0 || upto > items.len() {
        Seq::empty()
    } else if upto == 1 {
        render(items[0])
    } else {
        render_items(items, (upto - 1) as nat) + ","@ + render(items[upto - 1])
    }
}

/// The text of the first `upto` entries, with commas between them.
pub open spec fn render_entries(entries: Seq<(Seq<char>, Json)>, upto: nat) -> Seq<char>
    decreases entries, upto,
{
    if upto == 0 || upto > entries.len() {
        Seq::empty()
    } else if upto == 1 {
        entries[0].0 + ":"@ + render(entries[0].1)
    } else {
        render_entries(entries, (upto - 1) as nat) + ","@ + entries[upto - 1].0 + ":"@ + render(
            entries[upto - 1].1,
        )
    }
}

impl JsonValue {
    /// The text of the value, as it is written to the output.
    pub fn to_text(&self) -> (r: String)
        ensures
            r@ == render(self@),
        decreases self,
    {
        match self {
            JsonValue::Null => String::from_str("null"),
            JsonValue::Str(s) => s.clone(),
            JsonValue::Boolean(b) => if *b {
                String::from_str("true")
            } else {
                String::from_str("false")
            },
            JsonValue::Num(n) => number_text(*n).unwrap(),
            JsonValue::Array(a) => {
                proof {
                    lemma_array_view(*a);
                }
                let ghost items = items_view(a@);
                let mut r = String::new();
                let mut i: usize = 0;
                while i < a.len()
                    invariant
                        *self == JsonValue::Array(*a),
                        items == items_view(a@),
                        i <= a.len(),
                        r@ == render_items(items, i as nat),
                    decreases a.len() - i,
                {
                    if i != 0 {
                        r.append(",");
                    }
                    assert(decreases_to!(*self => self->Array_0));
                    let item = a[i].to_text();
                    r.append(item.as_str());
                    i += 1;
                    assert(r@ =~= render_items(items, i as nat));
                }
                let mut whole = String::from_str("[");
                whole.append(r.as_str());
                whole.append("]");
                whole
            },
            JsonValue::Object(o) => {
                proof {
                    lemma_object_view(*o);
                }
                let ghost entries = entries_view(o@);
                let mut r = String::new();
                let mut i: usize = 0;
                while i < o.len()
                    invariant
                        *self == JsonValue::Object(*o),
                        entries == entries_view(o@),
                        i <= o.len(),
                        r@ == render_entries(entries, i as nat),
                    decreases o.len() - i,
                {
                    if i != 0 {
                        r.append(",");
                    }
                    r.append(o[i].0.as_str());
                    r.append(":");
                    assert(decreases_to!(*self => self->Object_0));
                    assert(decreases_to!(o@[i as int] => o@[i as int].1));
                    let item = o[i].1.to_text();
                    r.append(item.as_str());
                    i += 1;
                    assert(r@ =~= render_entries(entries, i as nat));
                }
                let mut whole = String::from_str("{");
                whole.append(r.as_str());
                whole.append("}");
                whole
            },
        }
    }
}

} // verus!
