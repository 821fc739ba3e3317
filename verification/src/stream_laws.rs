//! What the decode loop yields, whatever the pieces in which the bytes come.

use crate::json_grammar::{
    array_tail, document, object_tail, spaces_end, word, word_null, Lex, Outcome, OPEN_BRACE,
    OPEN_BRACKET,
};
use crate::json_laws::{
    lemma_array_bounds, lemma_document_bounds, lemma_document_extend, lemma_document_well_formed,
    lemma_object_bounds, lemma_spaces_end_bounds, lemma_spaces_end_skip,
};
use crate::value::Json;
use vstd::prelude::*;

verus! {

/// How a sequence of documents ends: the source is at its end and no
/// further document is complete, or the pending bytes are malformed.
#[derive(Debug, PartialEq, Eq, Clone, Copy)]
pub enum Ending {
    Drained,
    Failed,
}

/// The documents that the decode loop yields, and how it ends, when
/// `pending` is in the buffer and the source will deliver `chunks`, one at
/// each request for more bytes, before it reports its end. An empty chunk
/// is the report of the end.
pub open spec fn decoded(pending: Seq<u8>, chunks: Seq<Seq<u8>>) -> (Seq<Json>, Ending)
    decreases chunks.len(), pending.len(),
{
    match document(pending) {
        Outcome::Complete { value, used } => {
            if 0 < used <= pending.len() {
                let (items, ending) = decoded(pending.skip(used), chunks);
                (seq![value] + items, ending)
            } else {
                (Seq::empty(), Ending::Failed)
            }
        },
        Outcome::Incomplete => {
            if chunks.len() == 0 || chunks[0].len() == 0 {
                (Seq::empty(), Ending::Drained)
            } else {
                decoded(pending + chunks[0], chunks.drop_first())
            }
        },
        Outcome::Malformed => (Seq::empty(), Ending::Failed),
    }
}

/// No chunk is empty.
pub open spec fn no_chunk_empty(chunks: Seq<Seq<u8>>) -> bool {
    forall|i: int| 0 <= i < chunks.len() ==> (#[trigger] chunks[i]).len() > 0
}

/// The bytes of all the chunks, one after the other.
pub open spec fn joined(chunks: Seq<Seq<u8>>) -> Seq<u8>
    decreases chunks.len(),
{
    if chunks.len() == 0 {
        Seq::empty()
    } else {
        chunks[0] + joined(chunks.drop_first())
    }
}

/// Whitespace that is skipped from the start of a window is also skipped
/// from any byte inside it.
proof fn lemma_spaces_end_inside(s: Seq<u8>, j: int, from: int)
    requires
        0 <= from <= j <= spaces_end(s, from),
        from <= s.len(),
    ensures
        spaces_end(s, j) == spaces_end(s, from),
    decreases j - from,
{
    if from < j {
        lemma_spaces_end_bounds(s, from);
        lemma_spaces_end_inside(s, j, from + 1);
    }
}

/// Whitespace before a window is skipped: the document decoded from the
/// window without it is the same, taken from that many bytes later.
pub proof fn lemma_document_skips_spaces(s: Seq<u8>, j: int)
    requires
        0 <= j <= spaces_end(s, 0),
    ensures
        document(s) == document(s.skip(j)).after(j),
{
    reveal(document);
    lemma_spaces_end_bounds(s, 0);
    lemma_spaces_end_inside(s, j, 0);
    lemma_spaces_end_skip(s, j, 0);
    let k = spaces_end(s, 0);
    let r = s.skip(j);
    if 0 <= k < s.len() {
        let t = s.skip(k);
        assert(r.skip(k - j) =~= t);
        lemma_object_bounds(t.skip(1));
        lemma_array_bounds(t.skip(1));
        let top = if t[0] == OPEN_BRACE {
            object_tail(t.skip(1)).after(1)
        } else if t[0] == OPEN_BRACKET {
            array_tail(t.skip(1)).after(1)
        } else {
            match word(t, word_null()) {
                Lex::Token(n) => Outcome::Complete { value: Json::Null, used: n },
                Lex::Incomplete => Outcome::Incomplete,
                _ => Outcome::Malformed,
            }
        };
        match top {
            Outcome::Complete { value: _, used } => {
                lemma_spaces_end_skip(s, j, k - j + used);
            },
            _ => {},
        }
    }
}

/// Whitespace before the pending bytes does not change what is decoded when
/// no more bytes come.
pub proof fn lemma_decoded_skips_spaces(s: Seq<u8>, j: int)
    requires
        0 <= j <= spaces_end(s, 0),
    ensures
        decoded(s.skip(j), Seq::empty()) == decoded(s, Seq::empty()),
{
    lemma_document_skips_spaces(s, j);
    lemma_document_bounds(s.skip(j));
    lemma_spaces_end_bounds(s, 0);
    match document(s.skip(j)) {
        Outcome::Complete { value: _, used } => {
            assert(s.skip(j).skip(used) =~= s.skip(used + j));
        },
        _ => {},
    }
}

/// Batch and incremental decoding agree: the documents that the loop yields,
/// and the way it ends, depend only on the bytes that the source delivers
/// before its end, not on the pieces in which it delivers them.
pub proof fn lemma_chunks_do_not_matter(pending: Seq<u8>, chunks: Seq<Seq<u8>>)
    requires
        no_chunk_empty(chunks),
    ensures
        decoded(pending, chunks) == decoded(pending + joined(chunks), Seq::empty()),
    decreases chunks.len(), pending.len(),
{
    let all = joined(chunks);
    let whole = pending + all;
    lemma_document_bounds(pending);
    lemma_document_extend(pending, all);
    match document(pending) {
        Outcome::Complete { value, used } => {
            lemma_chunks_do_not_matter(pending.skip(used), chunks);
            if used < pending.len() {
                assert(whole.skip(used) =~= pending.skip(used) + all);
            } else {
                let j = spaces_end(all, 0);
                lemma_spaces_end_bounds(all, 0);
                assert(pending.skip(used) + all =~= all);
                assert(whole.skip(pending.len() + j) =~= all.skip(j));
                lemma_decoded_skips_spaces(all, j);
            }
        },
        Outcome::Incomplete => {
            if chunks.len() == 0 {
                assert(whole =~= pending);
            } else {
                assert forall|i: int| 0 <= i < chunks.drop_first().len() implies (
                #[trigger] chunks.drop_first()[i]).len() > 0 by {
                    assert(chunks.drop_first()[i] == chunks[i + 1]);
                }
                lemma_chunks_do_not_matter(pending + chunks[0], chunks.drop_first());
                assert((pending + chunks[0]) + joined(chunks.drop_first()) =~= whole);
            }
        },
        Outcome::Malformed => {},
    }
}

/// Documents written one after the other are decoded one by one: where each
/// text alone is one document, their concatenation yields exactly these
/// documents, in order, and then ends.
pub proof fn lemma_documents_in_sequence(texts: Seq<Seq<u8>>, values: Seq<Json>)
    requires
        texts.len() == values.len(),
        forall|i: int|
            0 <= i < texts.len() ==> document(#[trigger] texts[i]) == (Outcome::Complete {
                value: values[i],
                used: texts[i].len() as int,
            }),
    ensures
        decoded(joined(texts), Seq::empty()) == (values, Ending::Drained),
    decreases texts.len(),
{
    reveal(document);
    if texts.len() == 0 {
        assert(values =~= Seq::<Json>::empty());
        assert(joined(texts) =~= Seq::<u8>::empty());
    } else {
        let first = texts[0];
        let rest = joined(texts.drop_first());
        lemma_document_bounds(first);
        lemma_document_extend(first, rest);
        let j = spaces_end(rest, 0);
        lemma_spaces_end_bounds(rest, 0);
        assert((first + rest).skip(first.len() + j) =~= rest.skip(j));
        lemma_decoded_skips_spaces(rest, j);
        assert forall|i: int| 0 <= i < texts.drop_first().len() implies document(
            #[trigger] texts.drop_first()[i],
        ) == (Outcome::Complete {
            value: values.drop_first()[i],
            used: texts.drop_first()[i].len() as int,
        }) by {
            assert(texts.drop_first()[i] == texts[i + 1]);
        }
        lemma_documents_in_sequence(texts.drop_first(), values.drop_first());
        assert(seq![values[0]] + values.drop_first() =~= values);
    }
}

/// Once a document is complete in the pending bytes, it is the first that
/// is decoded from them and whatever follows, and the rest is decoded from
/// what it leaves pending and what follows.
pub proof fn lemma_decoded_after_item(pending: Seq<u8>, rest: Seq<u8>)
    ensures
        document(pending) matches Outcome::Complete { value, used } ==> decoded(
            pending + rest,
            Seq::empty(),
        ) == (
            seq![value] + decoded(pending.skip(used) + rest, Seq::empty()).0,
            decoded(pending.skip(used) + rest, Seq::empty()).1,
        ),
{
    match document(pending) {
        Outcome::Complete { value, used } => {
            lemma_document_bounds(pending);
            if rest.len() == 0 {
                assert(pending + rest =~= pending);
                assert(pending.skip(used) + rest =~= pending.skip(used));
            } else {
                let chunks = seq![rest];
                assert(joined(chunks.drop_first()) =~= Seq::<u8>::empty());
                assert(joined(chunks) =~= rest);
                lemma_chunks_do_not_matter(pending, chunks);
                lemma_chunks_do_not_matter(pending.skip(used), chunks);
            }
        },
        _ => {},
    }
}

/// Every item of a sequence is well-formed.
pub open spec fn all_well_formed(items: Seq<Json>) -> bool {
    forall|i: int| 0 <= i < items.len() ==> (#[trigger] items[i]).well_formed()
}

/// Every document that the decode loop yields is well-formed.
pub proof fn lemma_decoded_well_formed(pending: Seq<u8>, chunks: Seq<Seq<u8>>)
    ensures
        all_well_formed(decoded(pending, chunks).0),
    decreases chunks.len(), pending.len(),
{
    lemma_document_well_formed(pending);
    match document(pending) {
        Outcome::Complete { value, used } => {
            if 0 < used <= pending.len() {
                lemma_decoded_well_formed(pending.skip(used), chunks);
                let rest = decoded(pending.skip(used), chunks).0;
                let all = seq![value] + rest;
                assert forall|i: int| 0 <= i < all.len() implies (
                #[trigger] all[i]).well_formed() by {
                    if i > 0 {
                        assert(all[i] == rest[i - 1]);
                    } else {
                        assert(all[i] == value);
                    }
                }
            }
        },
        Outcome::Incomplete => {
            if chunks.len() > 0 && chunks[0].len() > 0 {
                lemma_decoded_well_formed(pending + chunks[0], chunks.drop_first());
            }
        },
        Outcome::Malformed => {},
    }
}

} // verus!
