//! The filter language: what a filter is, what it makes of a value, and how
//! it is read from text.

use crate::jq_grammar::{
    arguments_from, blanks_end, call_at, fields_from, filter_at, is_blank, is_word_char,
    pipeline_of, stages_from, word_end,
};
use crate::number::{count_bits, double_of_count};
use crate::text::{chars_of, split, split_text, string_of, texts};
use crate::value::{
    find_key, has_key, items_view, key_index, lemma_array_view, lemma_object_view, Json, JsonValue,
};
use vstd::prelude::*;
use vstd::string::StringExecFns;

verus! {

/// The mathematical content of a filter.
pub enum Stage {
    /// A chain of member names; the empty chain is the identity.
    Fields(Seq<Seq<char>>),
    /// A call of a builtin function.
    Call { name: Seq<char>, args: Seq<Seq<char>> },
}

/// Why a filter cannot be applied to a value at all.
pub enum TypeFault {
    LengthOfNonContainer,
    SplitOfNonString,
    SplitWithoutDelimiter,
    UnknownFunction(Seq<char>),
}

/// The value reached from `v` by the member names from index `from` on.
/// There is none where a name is missing or the value is no object.
pub open spec fn descend(v: Json, fields: Seq<Seq<char>>, from: int) -> Option<Json>
    decreases fields.len() - from,
{
    if !(0 <= from < fields.len()) {
        Some(v)
    } else {
        match v.member(fields[from]) {
            Some(m) => descend(m, fields, from + 1),
            None => None,
        }
    }
}

/// The pieces of a split, as an array of strings.
pub open spec fn string_array(pieces: Seq<Seq<char>>) -> Json {
    Json::Array(Seq::new(pieces.len(), |i: int| Json::Str(pieces[i])))
}

/// What the builtin function `name` makes of `v`.
pub open spec fn call(name: Seq<char>, args: Seq<Seq<char>>, v: Json) -> Result<
    Option<Json>,
    TypeFault,
> {
    if name == "length"@ {
        match v {
            Json::Array(items) => Ok(Some(Json::Num(double_of_count(items.len())))),
            Json::Object(entries) => Ok(Some(Json::Num(double_of_count(entries.len())))),
            _ => Err(TypeFault::LengthOfNonContainer),
        }
    } else if name == "split"@ {
        if args.len() == 0 {
            Err(TypeFault::SplitWithoutDelimiter)
        } else {
            match v {
                Json::Str(s) => Ok(Some(string_array(split_text(s, args[0])))),
                _ => Err(TypeFault::SplitOfNonString),
            }
        }
    } else {
        Err(TypeFault::UnknownFunction(name))
    }
}

/// What one filter makes of `v`: a value, nothing, or a fault.
pub open spec fn apply_stage(stage: Stage, v: Json) -> Result<Option<Json>, TypeFault> {
    match stage {
        Stage::Fields(fields) => Ok(descend(v, fields, 0)),
        Stage::Call { name, args } => call(name, args, v),
    }
}

/// What the filters from index `from` on make of `v`, each taking what the
/// one before it gave. Once a filter gives nothing, or a fault, that is the
/// result.
pub open spec fn apply_stages(stages: Seq<Stage>, from: int, v: Json) -> Result<
    Option<Json>,
    TypeFault,
>
    decreases stages.len() - from,
{
    if !(0 <= from < stages.len()) {
        Ok(Some(v))
    } else {
        match apply_stage(stages[from], v) {
            Ok(Some(w)) => apply_stages(stages, from + 1, w),
            Ok(None) => Ok(None),
            Err(fault) => Err(fault),
        }
    }
}

/// A filter is applied to a value of the wrong kind, or names no builtin
/// function. Unlike a missing member, this ends the run.
#[derive(Debug, PartialEq, Eq)]
pub enum FatalTypeError {
    LengthOfNonContainer,
    SplitOfNonString,
    SplitWithoutDelimiter,
    UnknownFunction { name: String },
}

impl View for FatalTypeError {
    type V = TypeFault;

    open spec fn view(&self) -> TypeFault {
        match self {
            FatalTypeError::LengthOfNonContainer => TypeFault::LengthOfNonContainer,
            FatalTypeError::SplitOfNonString => TypeFault::SplitOfNonString,
            FatalTypeError::SplitWithoutDelimiter => TypeFault::SplitWithoutDelimiter,
            FatalTypeError::UnknownFunction { name } => TypeFault::UnknownFunction(name@),
        }
    }
}

/// The text of the message for a fault.
pub open spec fn fault_message(fault: TypeFault) -> Seq<char> {
    match fault {
        TypeFault::LengthOfNonContainer => "cannot take length of non-array/object"@,
        TypeFault::SplitOfNonString => "cannot split non-string"@,
        TypeFault::SplitWithoutDelimiter => "cannot split without a delimiter"@,
        TypeFault::UnknownFunction(name) => "unknown function "@ + name,
    }
}

impl FatalTypeError {
    /// The message for this error.
    pub fn message(&self) -> (r: String)
        ensures
            r@ == fault_message(self@),
    {
        match self {
            FatalTypeError::LengthOfNonContainer => String::from_str(
                "cannot take length of non-array/object",
            ),
            FatalTypeError::SplitOfNonString => String::from_str("cannot split non-string"),
            FatalTypeError::SplitWithoutDelimiter => String::from_str(
                "cannot split without a delimiter",
            ),
            FatalTypeError::UnknownFunction { name } => {
                let mut r = String::from_str("unknown function ");
                r.append(name.as_str());
                r
            },
        }
    }
}

/// One stage of a pipeline.
#[derive(Debug, PartialEq, Eq)]
pub enum Filter {
    FieldAccessor { fields: Vec<String> },
    FunctionCall { name: String, args: Vec<String> },
}

impl View for Filter {
    type V = Stage;

    open spec fn view(&self) -> Stage {
        match self {
            Filter::FieldAccessor { fields } => Stage::Fields(texts(fields@)),
            Filter::FunctionCall { name, args } => Stage::Call {
                name: name@,
                args: texts(args@),
            },
        }
    }
}

/// The content of what a filter returned.
pub open spec fn result_view(r: Result<Option<JsonValue>, FatalTypeError>) -> Result<
    Option<Json>,
    TypeFault,
> {
    match r {
        Ok(Some(v)) => Ok(Some(v@)),
        Ok(None) => Ok(None),
        Err(e) => Err(e@),
    }
}

/// The array of the strings `pieces`.
fn strings_value(pieces: &Vec<String>) -> (r: JsonValue)
    ensures
        r@ == string_array(texts(pieces@)),
{
    let mut items: Vec<JsonValue> = Vec::new();
    let mut i: usize = 0;
    while i < pieces.len()
        invariant
            i <= pieces.len(),
            items@.len() == i,
            forall|j: int| 0 <= j < i ==> (#[trigger] items@[j])@ == Json::Str(pieces@[j]@),
        decreases pieces.len() - i,
    {
        items.push(JsonValue::Str(pieces[i].clone()));
        i += 1;
    }
    proof {
        lemma_array_view(items);
        assert(items_view(items@) =~= string_array(texts(pieces@))->Array_0);
    }
    JsonValue::Array(items)
}

impl Filter {
    /// Applies the filter to a value. A chain of member names gives the
    /// member it leads to, or nothing; a builtin function gives its result,
    /// or the error that says why it cannot take the value.
    pub fn apply(&self, val: &JsonValue) -> (r: Result<Option<JsonValue>, FatalTypeError>)
        ensures
            result_view(r) == apply_stage(self@, val@),
    {
        match self {
            Filter::FieldAccessor { fields } => {
                let mut cur: &JsonValue = val;
                let mut i: usize = 0;
                while i < fields.len()
                    invariant
                        i <= fields.len(),
                        apply_stage(self@, val@) == Ok::<Option<Json>, TypeFault>(
                            descend(val@, texts(fields@), 0),
                        ),
                        descend(val@, texts(fields@), 0) == descend(
                            cur@,
                            texts(fields@),
                            i as int,
                        ),
                    decreases fields.len() - i,
                {
                    match cur {
                        JsonValue::Object(entries) => {
                            proof {
                                lemma_object_view(*entries);
                            }
                            match find_key(entries, &fields[i]) {
                                Some(j) => {
                                    cur = &entries[j].1;
                                },
                                None => {
                                    return Ok(None);
                                },
                            }
                        },
                        _ => {
                            return Ok(None);
                        },
                    }
                    i += 1;
                }
                Ok(Some(cur.clone()))
            },
            Filter::FunctionCall { name, args } => {
                let length = String::from_str("length");
                let split_name = String::from_str("split");
                if *name == length {
                    match val {
                        JsonValue::Array(a) => {
                            proof {
                                lemma_array_view(*a);
                            }
                            Ok(Some(JsonValue::Num(count_bits(a.len()))))
                        },
                        JsonValue::Object(o) => {
                            proof {
                                lemma_object_view(*o);
                            }
                            Ok(Some(JsonValue::Num(count_bits(o.len()))))
                        },
                        _ => Err(FatalTypeError::LengthOfNonContainer),
                    }
                } else if *name == split_name {
                    if args.len() == 0 {
                        return Err(FatalTypeError::SplitWithoutDelimiter);
                    }
                    match val {
                        JsonValue::Str(s) => {
                            let pieces = split(s.as_str(), args[0].as_str());
                            Ok(Some(strings_value(&pieces)))
                        },
                        _ => Err(FatalTypeError::SplitOfNonString),
                    }
                } else {
                    Err(FatalTypeError::UnknownFunction { name: name.clone() })
                }
            },
        }
    }
}

/// The contents of a sequence of filters.
pub open spec fn stages_view(filters: Seq<Filter>) -> Seq<Stage> {
    Seq::new(filters.len(), |i: int| filters[i]@)
}

/// Filters that are applied one after the other, each to what the one before
/// it gave. A pipeline always has at least one filter.
#[derive(Debug, PartialEq, Eq)]
pub struct Pipeline {
    filters: Vec<Filter>,
}

impl View for Pipeline {
    type V = Seq<Stage>;

    closed spec fn view(&self) -> Seq<Stage> {
        stages_view(self.filters@)
    }
}

impl Pipeline {
    #[verifier::type_invariant]
    spec fn has_a_filter(&self) -> bool {
        self.filters@.len() > 0
    }

    /// A pipeline of the given filters; there is none without a filter.
    pub fn new(filters: Vec<Filter>) -> (r: Option<Pipeline>)
        ensures
            match r {
                Some(p) => filters@.len() > 0 && p@ == stages_view(filters@),
                None => filters@.len() == 0,
            },
    {
        if filters.len() == 0 {
            None
        } else {
            Some(Pipeline { filters })
        }
    }

    /// The filters, in the order in which they are applied.
    pub fn filters(&self) -> (r: &Vec<Filter>)
        ensures
            stages_view(r@) == self@,
            r@.len() > 0,
            self@.len() > 0,
    {
        proof {
            use_type_invariant(self);
        }
        &self.filters
    }

    /// Applies the filters from left to right. Where one of them gives
    /// nothing, the pipeline gives nothing and the later ones are not applied;
    /// where one fails, the pipeline fails with its error.
    pub fn apply(&self, val: &JsonValue) -> (r: Result<Option<JsonValue>, FatalTypeError>)
        ensures
            self@.len() > 0,
            result_view(r) == apply_stages(self@, 0, val@),
            val@.well_formed() ==> (r matches Ok(Some(v)) ==> v@.well_formed()),
    {
        proof {
            use_type_invariant(self);
            if val@.well_formed() {
                lemma_apply_keeps_well_formed(self@, 0, val@);
            }
        }
        let mut cur: JsonValue = val.clone();
        let mut i: usize = 0;
        while i < self.filters.len()
            invariant
                i <= self.filters.len(),
                apply_stages(self@, 0, val@) == apply_stages(self@, i as int, cur@),
            decreases self.filters.len() - i,
        {
            match self.filters[i].apply(&cur) {
                Ok(Some(next)) => {
                    cur = next;
                },
                Ok(None) => {
                    return Ok(None);
                },
                Err(e) => {
                    return Err(e);
                },
            }
            i += 1;
        }
        Ok(Some(cur))
    }
}

/// The identity pipeline gives back every value unchanged.
pub proof fn lemma_identity_returns_input(v: Json)
    ensures
        apply_stages(seq![Stage::Fields(Seq::empty())], 0, v) == Ok::<Option<Json>, TypeFault>(
            Some(v),
        ),
{
    let stages = seq![Stage::Fields(Seq::<Seq<char>>::empty())];
    assert(apply_stage(stages[0], v) == Ok::<Option<Json>, TypeFault>(Some(v)));
    assert(apply_stages(stages, 1, v) == Ok::<Option<Json>, TypeFault>(Some(v)));
}

/// The expression `.` denotes the identity pipeline.
pub proof fn lemma_point_is_identity()
    ensures
        pipeline_of("."@) == Ok::<Seq<Stage>, int>(seq![Stage::Fields(Seq::empty())]),
{
    reveal_strlit(".");
    let s = "."@;
    assert(blanks_end(s, 0) == 0);
    assert(word_end(s, 1) == 1);
    assert(fields_from(s, 0, Seq::empty()) == (Seq::<Seq<char>>::empty(), 0int));
    assert(blanks_end(s, 1) == 1);
    assert(filter_at(s, 0) == Ok::<(Stage, int), int>((Stage::Fields(Seq::empty()), 1int)));
    assert(Seq::<Stage>::empty().push(Stage::Fields(Seq::empty())) =~= seq![
        Stage::Fields(Seq::empty()),
    ]);
}

/// The value that a chain of member names leads to inside a well-formed
/// value is well-formed.
pub proof fn lemma_descend_well_formed(v: Json, fields: Seq<Seq<char>>, from: int)
    requires
        v.well_formed(),
    ensures
        descend(v, fields, from) matches Some(w) ==> w.well_formed(),
    decreases fields.len() - from,
{
    if 0 <= from < fields.len() {
        match v {
            Json::Object(entries) => {
                if has_key(entries, fields[from]) {
                    let at = key_index(entries, fields[from]);
                    assert(entries[at].1.well_formed());
                    lemma_descend_well_formed(entries[at].1, fields, from + 1);
                }
            },
            _ => {},
        }
    }
}

/// What a pipeline makes of a well-formed value is well-formed.
pub proof fn lemma_apply_keeps_well_formed(stages: Seq<Stage>, from: int, v: Json)
    requires
        v.well_formed(),
    ensures
        apply_stages(stages, from, v) matches Ok(Some(w)) ==> w.well_formed(),
    decreases stages.len() - from,
{
    if 0 <= from < stages.len() {
        match stages[from] {
            Stage::Fields(fields) => {
                lemma_descend_well_formed(v, fields, 0);
            },
            Stage::Call { name, args } => {
                match v {
                    Json::Str(text) => {
                        if args.len() > 0 {
                            let pieces = split_text(text, args[0]);
                            assert forall|i: int| 0 <= i < pieces.len() implies (
                            #[trigger] string_array(pieces)->Array_0[i]).well_formed() by {
                                assert(string_array(pieces)->Array_0[i] == Json::Str(pieces[i]));
                            }
                        }
                    },
                    _ => {},
                }
            },
        }
        match apply_stage(stages[from], v) {
            Ok(Some(w)) => {
                lemma_apply_keeps_well_formed(stages, from + 1, w);
            },
            _ => {},
        }
    }
}

/// A filter expression that is no pipeline, with the index of the character
/// at which it stops being one.
#[derive(Debug, PartialEq, Eq)]
pub struct FilterParseError {
    pub position: usize,
}

fn char_is_blank(c: char) -> (r: bool)
    ensures
        r == is_blank(c),
{
    c == ' ' || c == '\t'
}

fn char_is_word(c: char) -> (r: bool)
    ensures
        r == is_word_char(c),
{
    ('a' <= c && c <= 'z') || ('A' <= c && c <= 'Z') || ('0' <= c && c <= '9')
}

/// Skips blanks from index `from` on.
pub fn sp(i: &Vec<char>, from: usize) -> (to: usize)
    ensures
        to == blanks_end(i@, from as int),
        from <= to,
        from <= i.len() ==> to <= i.len(),
{
    let mut k: usize = from;
    while k < i.len() && char_is_blank(i[k])
        invariant
            from <= k,
            from <= i.len() ==> k <= i.len(),
            blanks_end(i@, k as int) == blanks_end(i@, from as int),
        decreases i.len() - k,
    {
        k += 1;
    }
    k
}

/// Skips letters and digits from index `from` on.
pub fn identifier(i: &Vec<char>, from: usize) -> (to: usize)
    ensures
        to == word_end(i@, from as int),
        from <= to,
        from <= i.len() ==> to <= i.len(),
{
    let mut k: usize = from;
    while k < i.len() && char_is_word(i[k])
        invariant
            from <= k,
            from <= i.len() ==> k <= i.len(),
            word_end(i@, k as int) == word_end(i@, from as int),
        decreases i.len() - k,
    {
        k += 1;
    }
    k
}

/// Reads member names from index `at` on, each a point and a word.
pub fn field_accessor_chain(i: &Vec<char>, at: usize) -> (r: (Vec<String>, usize))
    ensures
        (texts(r.0@), r.1 as int) == fields_from(i@, at as int, Seq::empty()),
        at <= r.1,
        at <= i.len() ==> r.1 <= i.len(),
        r.0@.len() > 0 ==> at < r.1,
{
    let mut found: Vec<String> = Vec::new();
    let mut k: usize = at;
    assert(texts(found@) =~= Seq::<Seq<char>>::empty());
    loop
        invariant
            at <= k,
            at <= i.len() ==> k <= i.len(),
            found@.len() > 0 ==> at < k,
            fields_from(i@, at as int, Seq::empty()) == fields_from(i@, k as int, texts(found@)),
        decreases i.len() - k,
    {
        if k >= i.len() || i[k] != '.' {
            return (found, k);
        }
        let e = identifier(i, k + 1);
        if e == k + 1 {
            return (found, k);
        }
        let ghost before = texts(found@);
        found.push(string_of(i, k + 1, e));
        assert(texts(found@) =~= before.push(i@.subrange(k + 1, e as int)));
        k = e;
    }
}

/// Reads the rest of an argument list, from index `at` behind the first
/// argument on.
pub fn function_args(i: &Vec<char>, at: usize, first: String) -> (r: Result<
    (Vec<String>, usize),
    FilterParseError,
>)
    ensures
        match r {
            Ok((args, next)) => arguments_from(i@, at as int, seq![first@]) == Ok::<
                (Seq<Seq<char>>, int),
                int,
            >((texts(args@), next as int)) && at < next <= i.len(),
            Err(e) => arguments_from(i@, at as int, seq![first@]) == Err::<
                (Seq<Seq<char>>, int),
                int,
            >(e.position as int) && (at <= i.len() ==> e.position <= i.len()),
        },
{
    let mut found: Vec<String> = Vec::new();
    found.push(first);
    assert(texts(found@) =~= seq![first@]);
    let mut k: usize = at;
    loop
        invariant
            at <= k,
            at <= i.len() ==> k <= i.len(),
            arguments_from(i@, at as int, seq![first@]) == arguments_from(
                i@,
                k as int,
                texts(found@),
            ),
        decreases i.len() - k,
    {
        if k >= i.len() {
            return Err(FilterParseError { position: k });
        }
        if i[k] == ')' {
            return Ok((found, k + 1));
        }
        let c = sp(i, k);
        if c >= i.len() || i[c] != ',' {
            return Err(FilterParseError { position: k });
        }
        let b = sp(i, c + 1);
        let e = identifier(i, b);
        if e == b {
            return Err(FilterParseError { position: k });
        }
        let ghost before = texts(found@);
        found.push(string_of(i, b, e));
        assert(texts(found@) =~= before.push(i@.subrange(b as int, e as int)));
        k = e;
    }
}

/// Reads a function call from index `at` on.
pub fn function_call(i: &Vec<char>, at: usize) -> (r: Result<(Filter, usize), FilterParseError>)
    ensures
        match r {
            Ok((f, next)) => call_at(i@, at as int) == Ok::<(Stage, int), int>((f@, next as int))
                && at < next <= i.len(),
            Err(e) => call_at(i@, at as int) == Err::<(Stage, int), int>(e.position as int)
                && (at <= i.len() ==> e.position <= i.len()),
        },
{
    let e = identifier(i, at);
    if e == at {
        return Err(FilterParseError { position: at });
    }
    if e >= i.len() || i[e] != '(' {
        return Err(FilterParseError { position: e });
    }
    let name = string_of(i, at, e);
    if e + 1 < i.len() && i[e + 1] == ')' {
        let args: Vec<String> = Vec::new();
        assert(texts(args@) =~= Seq::<Seq<char>>::empty());
        return Ok((Filter::FunctionCall { name, args }, e + 2));
    }
    let w = identifier(i, e + 1);
    if w == e + 1 {
        return Err(FilterParseError { position: e + 1 });
    }
    match function_args(i, w, string_of(i, e + 1, w)) {
        Ok((args, n)) => Ok((Filter::FunctionCall { name, args }, n)),
        Err(e) => Err(e),
    }
}

/// Reads one filter from index `at` on, between optional blanks.
pub fn filter(i: &Vec<char>, at: usize) -> (r: Result<(Filter, usize), FilterParseError>)
    ensures
        match r {
            Ok((f, next)) => filter_at(i@, at as int) == Ok::<(Stage, int), int>(
                (f@, next as int),
            ) && at < next <= i.len(),
            Err(e) => filter_at(i@, at as int) == Err::<(Stage, int), int>(e.position as int)
                && (at <= i.len() ==> e.position <= i.len()),
        },
{
    let a = sp(i, at);
    if a < i.len() && i[a] == '.' {
        let (fields, e) = field_accessor_chain(i, a);
        if fields.len() == 0 {
            Ok((Filter::FieldAccessor { fields }, sp(i, a + 1)))
        } else {
            Ok((Filter::FieldAccessor { fields }, sp(i, e)))
        }
    } else {
        match function_call(i, a) {
            Ok((f, n)) => Ok((f, sp(i, n))),
            Err(e) => Err(e),
        }
    }
}

/// Reads filters separated by bars, up to the end of the text.
pub fn pipeline(i: &Vec<char>) -> (r: Result<Vec<Filter>, FilterParseError>)
    ensures
        match r {
            Ok(filters) => pipeline_of(i@) == Ok::<Seq<Stage>, int>(stages_view(filters@))
                && filters@.len() > 0,
            Err(e) => pipeline_of(i@) == Err::<Seq<Stage>, int>(e.position as int) && e.position
                <= i.len(),
        },
{
    let mut found: Vec<Filter> = Vec::new();
    let mut at: usize = 0;
    assert(stages_view(found@) =~= Seq::<Stage>::empty());
    loop
        invariant
            at <= i.len(),
            pipeline_of(i@) == stages_from(i@, at as int, stages_view(found@)),
        decreases i.len() - at,
    {
        match filter(i, at) {
            Ok((f, n)) => {
                let ghost before = stages_view(found@);
                let ghost stage = f@;
                found.push(f);
                assert(stages_view(found@) =~= before.push(stage));
                if n >= i.len() {
                    return Ok(found);
                } else if i[n] == '|' {
                    at = n + 1;
                } else {
                    return Err(FilterParseError { position: n });
                }
            },
            Err(e) => {
                return Err(e);
            },
        }
    }
}

/// Reads a filter expression. The result is the pipeline that the grammar
/// assigns to the text, or the position at which the text stops being a
/// pipeline.
pub fn parse_filter(i: &str) -> (r: Result<Pipeline, FilterParseError>)
    ensures
        match r {
            Ok(p) => pipeline_of(i@) == Ok::<Seq<Stage>, int>(p@) && p@.len() > 0,
            Err(e) => pipeline_of(i@) == Err::<Seq<Stage>, int>(e.position as int) && e.position
                <= i@.len(),
        },
{
    let chars = chars_of(i);
    match pipeline(&chars) {
        Ok(filters) => Ok(Pipeline { filters }),
        Err(e) => Err(e),
    }
}

} // verus!
