//! What holds of the filter grammar: every pipeline, written in its plain
//! form, is read back as itself.

use crate::jq_grammar::{
    arguments_from, blanks_end, call_at, fields_from, filter_at, is_blank, is_word_char,
    pipeline_of, stages_from, word_end,
};
use crate::jq_parser::Stage;
use vstd::prelude::*;

verus! {

/// A word: one or more letters and digits.
pub open spec fn is_word(w: Seq<char>) -> bool {
    w.len() > 0 && forall|i: int| 0 <= i < w.len() ==> is_word_char(#[trigger] w[i])
}

/// A sequence of words.
pub open spec fn are_words(ws: Seq<Seq<char>>) -> bool {
    forall|i: int| 0 <= i < ws.len() ==> is_word(#[trigger] ws[i])
}

/// A filter whose names and arguments are words.
pub open spec fn is_plain(stage: Stage) -> bool {
    match stage {
        Stage::Fields(fields) => are_words(fields),
        Stage::Call { name, args } => is_word(name) && are_words(args),
    }
}

/// A chain of member names as it is written: a point before each name.
pub open spec fn fields_text(fields: Seq<Seq<char>>) -> Seq<char>
    decreases fields.len(),
{
    if fields.len() == 0 {
        Seq::empty()
    } else {
        seq!['.'] + fields[0] + fields_text(fields.drop_first())
    }
}

/// The arguments behind the first as they are written, a comma before each,
/// and the closing parenthesis.
pub open spec fn more_args_text(args: Seq<Seq<char>>) -> Seq<char>
    decreases args.len(),
{
    if args.len() == 0 {
        seq![')']
    } else {
        seq![','] + args[0] + more_args_text(args.drop_first())
    }
}

/// A filter as it is written, without blanks.
pub open spec fn stage_text(stage: Stage) -> Seq<char> {
    match stage {
        Stage::Fields(fields) => if fields.len() == 0 {
            seq!['.']
        } else {
            fields_text(fields)
        },
        Stage::Call { name, args } => name + seq!['('] + (if args.len() == 0 {
            seq![')']
        } else {
            args[0] + more_args_text(args.drop_first())
        }),
    }
}

/// A pipeline as it is written, a bar between its filters.
pub open spec fn pipeline_text(stages: Seq<Stage>) -> Seq<char>
    decreases stages.len(),
{
    if stages.len() == 0 {
        Seq::empty()
    } else if stages.len() == 1 {
        stage_text(stages[0])
    } else {
        stage_text(stages[0]) + seq!['|'] + pipeline_text(stages.drop_first())
    }
}

/// The text `t` stands in `s` at index `at`.
pub open spec fn stands(s: Seq<char>, at: int, t: Seq<char>) -> bool {
    0 <= at && at + t.len() <= s.len() && s.subrange(at, at + t.len()) == t
}

/// Where two texts stand one behind the other, each of them stands.
proof fn lemma_stands_split(s: Seq<char>, at: int, a: Seq<char>, b: Seq<char>)
    requires
        stands(s, at, a + b),
    ensures
        stands(s, at, a),
        stands(s, at + a.len(), b),
{
    let whole = s.subrange(at, at + (a + b).len());
    assert(s.subrange(at, at + a.len()) =~= whole.subrange(0, a.len() as int));
    assert(whole.subrange(0, a.len() as int) =~= a);
    assert(s.subrange(at + a.len(), at + a.len() + b.len()) =~= whole.subrange(
        a.len() as int,
        (a + b).len() as int,
    ));
    assert(whole.subrange(a.len() as int, (a + b).len() as int) =~= b);
}

/// A word that stands in the text, with no letter or digit behind it, is
/// read to its end.
proof fn lemma_word_read(s: Seq<char>, at: int, w: Seq<char>, from: int)
    requires
        stands(s, at, w),
        forall|i: int| 0 <= i < w.len() ==> is_word_char(#[trigger] w[i]),
        at <= from <= at + w.len(),
        at + w.len() == s.len() || !is_word_char(s[at + w.len()]),
    ensures
        word_end(s, from) == at + w.len(),
    decreases at + w.len() - from,
{
    if from < at + w.len() {
        assert(s[from] == s.subrange(at, at + w.len())[from - at]);
        assert(is_word_char(w[from - at]));
        lemma_word_read(s, at, w, from + 1);
    }
}

/// The first character of what is written for a chain of names is a point.
proof fn lemma_fields_text_start(fields: Seq<Seq<char>>)
    requires
        fields.len() > 0,
    ensures
        fields_text(fields).len() > 0,
        fields_text(fields)[0] == '.',
{
}

/// The first character of what follows an argument is a comma or a closing
/// parenthesis.
proof fn lemma_more_args_text_start(args: Seq<Seq<char>>)
    ensures
        more_args_text(args).len() > 0,
        more_args_text(args)[0] == ',' || more_args_text(args)[0] == ')',
{
}

/// A chain of names that stands in the text, with the end of the text or a
/// bar behind it, is read name by name.
proof fn lemma_fields_read(s: Seq<char>, at: int, fields: Seq<Seq<char>>, found: Seq<Seq<char>>)
    requires
        stands(s, at, fields_text(fields)),
        are_words(fields),
        at + fields_text(fields).len() == s.len() || s[at + fields_text(fields).len()] == '|',
    ensures
        fields_from(s, at, found) == (found + fields, at + fields_text(fields).len()),
    decreases fields.len(),
{
    if fields.len() == 0 {
        assert(found + fields =~= found);
    } else {
        let w = fields[0];
        let rest = fields.drop_first();
        assert(is_word(w));
        assert(fields_text(fields) == (seq!['.'] + w) + fields_text(rest));
        lemma_stands_split(s, at, seq!['.'] + w, fields_text(rest));
        lemma_stands_split(s, at, seq!['.'], w);
        assert(s[at] == s.subrange(at, at + 1)[0]);
        let e = at + 1 + w.len();
        if rest.len() > 0 {
            lemma_fields_text_start(rest);
            assert(s[e] == s.subrange(e, e + fields_text(rest).len())[0]);
        }
        lemma_word_read(s, at + 1, w, at + 1);
        assert forall|i: int| 0 <= i < rest.len() implies is_word(#[trigger] rest[i]) by {
            assert(rest[i] == fields[i + 1]);
        }
        lemma_fields_read(s, e, rest, found.push(w));
        assert(found.push(w) + rest =~= found + fields);
    }
}

/// Arguments that stand in the text, up to the closing parenthesis, are
/// read one by one.
proof fn lemma_args_read(s: Seq<char>, at: int, args: Seq<Seq<char>>, found: Seq<Seq<char>>)
    requires
        stands(s, at, more_args_text(args)),
        are_words(args),
    ensures
        arguments_from(s, at, found) == Ok::<(Seq<Seq<char>>, int), int>(
            (found + args, at + more_args_text(args).len()),
        ),
    decreases args.len(),
{
    if args.len() == 0 {
        assert(s[at] == s.subrange(at, at + 1)[0]);
        assert(found + args =~= found);
    } else {
        let w = args[0];
        let rest = args.drop_first();
        assert(is_word(w));
        assert(more_args_text(args) == (seq![','] + w) + more_args_text(rest));
        lemma_stands_split(s, at, seq![','] + w, more_args_text(rest));
        lemma_stands_split(s, at, seq![','], w);
        assert(s[at] == s.subrange(at, at + 1)[0]);
        let b = at + 1;
        let e = b + w.len();
        assert(s[b] == s.subrange(b, b + w.len())[0]);
        assert(is_word_char(w[0]));
        lemma_more_args_text_start(rest);
        assert(s[e] == s.subrange(e, e + more_args_text(rest).len())[0]);
        lemma_word_read(s, b, w, b);
        assert(blanks_end(s, at) == at);
        assert(blanks_end(s, b) == b);
        assert forall|i: int| 0 <= i < rest.len() implies is_word(#[trigger] rest[i]) by {
            assert(rest[i] == args[i + 1]);
        }
        lemma_args_read(s, e, rest, found.push(w));
        assert(found.push(w) + rest =~= found + args);
    }
}

/// A function call that stands in the text is read as it was written.
proof fn lemma_call_read(s: Seq<char>, at: int, name: Seq<char>, args: Seq<Seq<char>>)
    requires
        stands(s, at, stage_text(Stage::Call { name, args })),
        is_word(name),
        are_words(args),
    ensures
        call_at(s, at) == Ok::<(Stage, int), int>(
            (Stage::Call { name, args }, at + stage_text(Stage::Call { name, args }).len()),
        ),
{
    let tail = if args.len() == 0 {
        seq![')']
    } else {
        args[0] + more_args_text(args.drop_first())
    };
    assert(stage_text(Stage::Call { name, args }) == (name + seq!['(']) + tail);
    lemma_stands_split(s, at, name + seq!['('], tail);
    lemma_stands_split(s, at, name, seq!['(']);
    let e = at + name.len();
    assert(s[e] == s.subrange(e, e + 1)[0]);
    lemma_word_read(s, at, name, at);
    assert(word_end(s, at) == e);
    assert(s.subrange(at, e) == name);
    assert(s[e] == '(');
    if args.len() == 0 {
        assert(s[e + 1] == s.subrange(e + 1, e + 2)[0]);
        assert(args =~= Seq::<Seq<char>>::empty());
        assert(tail.len() == 1);
    } else {
        let w = args[0];
        let rest = args.drop_first();
        assert(is_word(w));
        lemma_stands_split(s, e + 1, w, more_args_text(rest));
        assert(s[e + 1] == s.subrange(e + 1, e + 1 + w.len())[0]);
        assert(is_word_char(w[0]));
        let x = e + 1 + w.len();
        lemma_more_args_text_start(rest);
        assert(s[x] == s.subrange(x, x + more_args_text(rest).len())[0]);
        lemma_word_read(s, e + 1, w, e + 1);
        assert(word_end(s, e + 1) == x);
        assert(s.subrange(e + 1, x) == w);
        assert(s[e + 1] != ')');
        assert forall|i: int| 0 <= i < rest.len() implies is_word(#[trigger] rest[i]) by {
            assert(rest[i] == args[i + 1]);
        }
        lemma_args_read(s, x, rest, seq![w]);
        assert(seq![w] + rest =~= args);
        assert(tail.len() == w.len() + more_args_text(rest).len());
    }
}

/// A plain filter that stands in the text, with the end of the text or a bar
/// behind it, is read as it was written.
proof fn lemma_filter_read(s: Seq<char>, at: int, stage: Stage)
    requires
        stands(s, at, stage_text(stage)),
        is_plain(stage),
        at + stage_text(stage).len() == s.len() || s[at + stage_text(stage).len()] == '|',
    ensures
        filter_at(s, at) == Ok::<(Stage, int), int>((stage, at + stage_text(stage).len())),
        stage_text(stage).len() > 0,
{
    let end = at + stage_text(stage).len();
    assert(blanks_end(s, end) == end);
    match stage {
        Stage::Fields(fields) => {
            if fields.len() == 0 {
                assert(s[at] == s.subrange(at, at + 1)[0]);
                assert(word_end(s, at + 1) == at + 1);
                assert(fields =~= Seq::<Seq<char>>::empty());
            } else {
                lemma_fields_text_start(fields);
                assert(s[at] == s.subrange(at, end)[0]);
                lemma_fields_read(s, at, fields, Seq::empty());
                assert(Seq::<Seq<char>>::empty() + fields =~= fields);
            }
            assert(blanks_end(s, at) == at);
        },
        Stage::Call { name, args } => {
            assert(stage_text(stage)[0] == name[0]);
            assert(s[at] == s.subrange(at, end)[0]);
            assert(is_word_char(name[0]));
            assert(blanks_end(s, at) == at);
            lemma_call_read(s, at, name, args);
        },
    }
}

/// Plain filters that stand in the text up to its end, with bars between
/// them, are read one by one.
proof fn lemma_stages_read(s: Seq<char>, at: int, stages: Seq<Stage>, found: Seq<Stage>)
    requires
        stages.len() > 0,
        stands(s, at, pipeline_text(stages)),
        at + pipeline_text(stages).len() == s.len(),
        forall|i: int| 0 <= i < stages.len() ==> is_plain(#[trigger] stages[i]),
    ensures
        stages_from(s, at, found) == Ok::<Seq<Stage>, int>(found + stages),
    decreases stages.len(),
{
    let first = stages[0];
    if stages.len() == 1 {
        lemma_filter_read(s, at, first);
        assert(found.push(first) =~= found + stages);
    } else {
        let rest = stages.drop_first();
        assert(pipeline_text(stages) == (stage_text(first) + seq!['|']) + pipeline_text(rest));
        lemma_stands_split(s, at, stage_text(first) + seq!['|'], pipeline_text(rest));
        lemma_stands_split(s, at, stage_text(first), seq!['|']);
        let n = at + stage_text(first).len();
        assert(s[n] == s.subrange(n, n + 1)[0]);
        lemma_filter_read(s, at, first);
        assert forall|i: int| 0 <= i < rest.len() implies is_plain(#[trigger] rest[i]) by {
            assert(rest[i] == stages[i + 1]);
        }
        lemma_stages_read(s, n + 1, rest, found.push(first));
        assert(found.push(first) + rest =~= found + stages);
    }
}

/// Reading is the inverse of writing: a pipeline of plain filters, written
/// without blanks, is read back as the same pipeline.
pub proof fn lemma_written_pipeline_is_read(stages: Seq<Stage>)
    requires
        stages.len() > 0,
        forall|i: int| 0 <= i < stages.len() ==> is_plain(#[trigger] stages[i]),
    ensures
        pipeline_of(pipeline_text(stages)) == Ok::<Seq<Stage>, int>(stages),
{
    let s = pipeline_text(stages);
    assert(s.subrange(0, s.len() as int) =~= s);
    lemma_stages_read(s, 0, stages, Seq::empty());
    assert(Seq::<Stage>::empty() + stages =~= stages);
}

} // verus!
