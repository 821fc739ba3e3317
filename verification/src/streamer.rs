//! The decode loop, as a state machine: a buffer of bytes with a window of
//! pending ones, into which the caller feeds what it has read and from which
//! it pulls the documents that are complete.

use crate::json_grammar::{document, Outcome};
use crate::json_parser::{root, Parsed};
use crate::json_laws::lemma_document_extend;
use crate::stream_laws::{
    all_well_formed, decoded, lemma_decoded_after_item, lemma_decoded_well_formed, Ending,
};
use crate::value::{items_view, Json, JsonValue};
use vstd::prelude::*;
use vstd::slice::slice_subrange;

verus! {

/// The number of bytes by which the buffer grows.
pub const DEFAULT_BUF_SIZE: usize = 100;

/// A buffer and two cursors into it. The bytes before `start` are consumed,
/// those from `start` up to `end` are pending, and the rest is free.
#[derive(Debug)]
pub struct Streamer {
    buf: Vec<u8>,
    start: usize,
    end: usize,
    eof: bool,
    failed: bool,
}

/// What a pull on the streamer gives: a document, a request for more bytes,
/// the end of the sequence, or the error that ends it; after the error
/// every pull gives the end.
#[derive(Debug, PartialEq)]
pub enum Step {
    Item(JsonValue),
    NeedInput,
    Done,
    Malformed,
}

/// The mathematical content of a step.
pub enum StepView {
    Item(Json),
    NeedInput,
    Done,
    Malformed,
}

impl View for Step {
    type V = StepView;

    open spec fn view(&self) -> StepView {
        match self {
            Step::Item(v) => StepView::Item(v@),
            Step::NeedInput => StepView::NeedInput,
            Step::Done => StepView::Done,
            Step::Malformed => StepView::Malformed,
        }
    }
}

impl Streamer {
    /// The cursors are in order and inside the buffer.
    pub closed spec fn wf(&self) -> bool {
        self.start <= self.end <= self.buf@.len()
    }

    /// The bytes that are read and not yet decoded.
    pub closed spec fn pending(&self) -> Seq<u8> {
        self.buf@.subrange(self.start as int, self.end as int)
    }

    /// Whether the source has reported its end.
    pub closed spec fn ended(&self) -> bool {
        self.eof
    }

    /// Whether a malformed document has ended the sequence.
    pub closed spec fn failed(&self) -> bool {
        self.failed
    }

    /// The number of bytes before the pending ones.
    pub closed spec fn consumed(&self) -> nat {
        self.start as nat
    }

    /// The length of the buffer.
    pub closed spec fn capacity(&self) -> nat {
        self.buf@.len()
    }

    /// The number of bytes behind the pending ones.
    pub open spec fn free(&self) -> int {
        self.capacity() - self.consumed() - self.pending().len()
    }

    /// The number of bytes that the next delivery can bring: what is free,
    /// or the default size once nothing is.
    pub open spec fn room(&self) -> int {
        if self.free() > 0 {
            self.free()
        } else {
            DEFAULT_BUF_SIZE as int
        }
    }

    /// A streamer with nothing pending and a buffer of the default size.
    pub fn new() -> (r: Self)
        ensures
            r.wf(),
            r.pending() == Seq::<u8>::empty(),
            !r.ended(),
            !r.failed(),
            r.consumed() == 0,
            r.capacity() == DEFAULT_BUF_SIZE,
    {
        let mut buf: Vec<u8> = Vec::with_capacity(DEFAULT_BUF_SIZE);
        let mut i: usize = 0;
        while i < DEFAULT_BUF_SIZE
            invariant
                i <= DEFAULT_BUF_SIZE,
                buf@.len() == i,
            decreases DEFAULT_BUF_SIZE - i,
        {
            buf.push(0);
            i += 1;
        }
        let r = Streamer { buf, start: 0, end: 0, eof: false, failed: false };
        assert(r.pending() =~= Seq::<u8>::empty());
        r
    }

    /// The pending bytes.
    pub fn buf(&self) -> (r: &[u8])
        requires
            self.wf(),
        ensures
            r@ == self.pending(),
    {
        slice_subrange(self.buf.as_slice(), self.start, self.end)
    }

    /// Whether the buffer can still grow by the default size.
    pub fn can_grow(&self) -> (r: bool)
        ensures
            r == (self.capacity() + DEFAULT_BUF_SIZE <= usize::MAX),
    {
        self.buf.len() <= usize::MAX - DEFAULT_BUF_SIZE
    }

    /// Lengthens the buffer by the default size.
    pub fn grow_buf(&mut self)
        requires
            old(self).wf(),
            old(self).capacity() + DEFAULT_BUF_SIZE <= usize::MAX,
        ensures
            final(self).wf(),
            final(self).capacity() == old(self).capacity() + DEFAULT_BUF_SIZE,
            final(self).pending() == old(self).pending(),
            final(self).consumed() == old(self).consumed(),
            final(self).ended() == old(self).ended(),
            final(self).failed() == old(self).failed(),
    {
        let ghost before = self.buf@;
        let mut i: usize = 0;
        while i < DEFAULT_BUF_SIZE
            invariant
                i <= DEFAULT_BUF_SIZE,
                self.buf@.len() == before.len() + i,
                self.buf@.subrange(0, before.len() as int) == before,
                self.start == old(self).start,
                self.end == old(self).end,
                self.eof == old(self).eof,
                self.failed == old(self).failed,
                self.start <= self.end <= before.len(),
                before.len() + DEFAULT_BUF_SIZE <= usize::MAX,
            decreases DEFAULT_BUF_SIZE - i,
        {
            self.buf.push(0);
            assert(self.buf@.subrange(0, before.len() as int) =~= before);
            i += 1;
        }
        assert(self.pending() =~= old(self).pending());
    }

    /// Moves the pending bytes to the front of a buffer of their size.
    pub fn realign_buf(&mut self)
        requires
            old(self).wf(),
        ensures
            final(self).wf(),
            final(self).pending() == old(self).pending(),
            final(self).consumed() == 0,
            final(self).capacity() == old(self).pending().len(),
            final(self).ended() == old(self).ended(),
            final(self).failed() == old(self).failed(),
    {
        let len = self.end - self.start;
        let mut moved: Vec<u8> = Vec::with_capacity(DEFAULT_BUF_SIZE);
        let mut i: usize = 0;
        while i < len
            invariant
                self.wf(),
                len == self.end - self.start,
                i <= len,
                moved@ == self.buf@.subrange(self.start as int, self.start + i),
            decreases len - i,
        {
            moved.push(self.buf[self.start + i]);
            assert(moved@ =~= self.buf@.subrange(self.start as int, self.start + i + 1));
            i += 1;
        }
        self.buf = moved;
        self.start = 0;
        self.end = len;
        assert(self.pending() =~= old(self).pending());
    }

    /// Marks the first `n` pending bytes as consumed. When nothing is left
    /// pending the buffer is reset, and both cursors go back to its front.
    pub fn advance_by(&mut self, n: usize)
        requires
            old(self).wf(),
            n <= old(self).pending().len(),
        ensures
            final(self).wf(),
            final(self).pending() == old(self).pending().skip(n as int),
            final(self).ended() == old(self).ended(),
            final(self).failed() == old(self).failed(),
            n == old(self).pending().len() ==> final(self).consumed() == 0
                && final(self).capacity() == 0,
            n < old(self).pending().len() ==> final(self).consumed() == old(self).consumed() + n
                && final(self).capacity() == old(self).capacity(),
    {
        self.start += n;
        assert(self.pending() =~= old(self).pending().skip(n as int));
        if self.start >= self.end {
            self.realign_buf();
        }
    }

    /// Takes bytes that the source delivered: as many of `chunk` as fit behind
    /// the pending ones, after the buffer has grown by the default size if
    /// nothing fitted. An empty chunk says that the source is at its end;
    /// from then on nothing is taken.
    pub fn consume(&mut self, chunk: &[u8]) -> (n: usize)
        requires
            old(self).wf(),
            old(self).capacity() + DEFAULT_BUF_SIZE <= usize::MAX,
        ensures
            final(self).wf(),
            final(self).consumed() == old(self).consumed(),
            final(self).failed() == old(self).failed(),
            final(self).pending() == old(self).pending() + chunk@.subrange(0, n as int),
            old(self).ended() ==> n == 0 && final(self).ended(),
            !old(self).ended() ==> n == vstd::math::min(chunk@.len() as int, old(self).room())
                && final(self).ended() == (chunk@.len() == 0),
            final(self).capacity() == old(self).capacity() + if old(self).ended()
                || old(self).free() > 0 {
                0int
            } else {
                DEFAULT_BUF_SIZE as int
            },
    {
        if self.eof {
            assert(self.pending() + chunk@.subrange(0, 0) =~= self.pending());
            return 0;
        }
        if self.end >= self.buf.len() {
            self.grow_buf();
        }
        assert(self.end == old(self).end) by {
            assert(self.pending().len() == self.end - self.start);
            assert(old(self).pending().len() == old(self).end - old(self).start);
        }
        assert(self.pending() == old(self).pending());
        let room = self.buf.len() - self.end;
        let n = if chunk.len() < room {
            chunk.len()
        } else {
            room
        };
        let ghost before = self.buf@;
        let mut i: usize = 0;
        while i < n
            invariant
                i <= n <= chunk.len(),
                self.start == old(self).start,
                self.end == old(self).end,
                self.eof == old(self).eof,
                self.failed == old(self).failed,
                self.start <= self.end,
                self.end + n <= self.buf@.len() <= usize::MAX,
                self.buf@.len() == before.len(),
                before.subrange(self.start as int, self.end as int) == old(self).pending(),
                self.buf@.subrange(0, self.end as int) == before.subrange(0, self.end as int),
                self.buf@.subrange(self.end as int, self.end + i) == chunk@.subrange(0, i as int),
            decreases n - i,
        {
            let ghost prev = self.buf@;
            self.buf.set(self.end + i, chunk[i]);
            assert(self.buf@.subrange(0, self.end as int) =~= prev.subrange(0, self.end as int));
            assert(self.buf@.subrange(self.end as int, self.end + i + 1) =~= prev.subrange(
                self.end as int,
                self.end + i,
            ).push(chunk@[i as int]));
            assert(chunk@.subrange(0, i + 1) =~= chunk@.subrange(0, i as int).push(
                chunk@[i as int],
            ));
            i += 1;
        }
        self.end += n;
        if n == 0 {
            self.eof = true;
        }
        assert(self.pending() =~= old(self).pending() + chunk@.subrange(0, n as int)) by {
            assert(self.buf@.subrange(self.start as int, old(self).end as int)
                =~= self.buf@.subrange(0, old(self).end as int).subrange(
                self.start as int,
                old(self).end as int,
            ));
            assert(before.subrange(0, old(self).end as int).subrange(
                self.start as int,
                old(self).end as int,
            ) =~= before.subrange(self.start as int, old(self).end as int));
            assert(self.buf@.subrange(self.start as int, self.end as int) =~= self.buf@.subrange(
                self.start as int,
                old(self).end as int,
            ) + self.buf@.subrange(old(self).end as int, self.end as int));
        }
        n
    }

    /// Pulls the next document. The pending bytes are decoded as one
    /// document: a complete one is handed out and its bytes are consumed; an
    /// incomplete one asks for more bytes, or ends the sequence once the
    /// source is at its end; a malformed one is an error that ends the
    /// sequence. Once the sequence has ended with an error, nothing more
    /// comes.
    pub fn next(&mut self) -> (r: Step)
        requires
            old(self).wf(),
        ensures
            final(self).wf(),
            final(self).ended() == old(self).ended(),
            old(self).failed() ==> {
                &&& r@ == StepView::Done
                &&& final(self).failed()
                &&& final(self).pending() == old(self).pending()
                &&& final(self).consumed() == old(self).consumed()
                &&& final(self).capacity() == old(self).capacity()
            },
            !old(self).failed() ==> match document(old(self).pending()) {
                Outcome::Complete { value, used } => {
                    &&& r@ == StepView::Item(value)
                    &&& !final(self).failed()
                    &&& value.well_formed()
                    &&& 0 < used <= old(self).pending().len()
                    &&& final(self).pending() == old(self).pending().skip(used)
                    &&& used == old(self).pending().len() ==> final(self).consumed() == 0
                        && final(self).capacity() == 0
                    &&& used < old(self).pending().len() ==> {
                        &&& final(self).consumed() == old(self).consumed() + used
                        &&& final(self).capacity() == old(self).capacity()
                    }
                },
                Outcome::Incomplete => {
                    &&& r@ == (if old(self).ended() {
                        StepView::Done
                    } else {
                        StepView::NeedInput
                    })
                    &&& !final(self).failed()
                    &&& final(self).pending() == old(self).pending()
                    &&& final(self).consumed() == old(self).consumed()
                    &&& final(self).capacity() == old(self).capacity()
                },
                Outcome::Malformed => {
                    &&& r@ == StepView::Malformed
                    &&& final(self).failed()
                    &&& final(self).pending() == old(self).pending()
                    &&& final(self).consumed() == old(self).consumed()
                    &&& final(self).capacity() == old(self).capacity()
                },
            },
    {
        if self.failed {
            return Step::Done;
        }
        let parsed = root(self.buf());
        match parsed {
            Parsed::Complete { value, used } => {
                self.advance_by(used);
                Step::Item(value)
            },
            Parsed::Incomplete => {
                if self.eof {
                    Step::Done
                } else {
                    Step::NeedInput
                }
            },
            Parsed::Malformed => {
                self.failed = true;
                Step::Malformed
            },
        }
    }
}

/// Decodes a whole input: the documents in it, and how their sequence ends.
/// The input goes through a streamer, which takes it in pieces as its
/// buffer has room; the result is what the decode loop yields for these
/// bytes however they are delivered.
pub fn decode_all(input: &[u8]) -> (r: (Vec<JsonValue>, Ending))
    requires
        input.len() + 2 * DEFAULT_BUF_SIZE <= usize::MAX,
    ensures
        (items_view(r.0@), r.1) == decoded(input@, Seq::empty()),
        all_well_formed(items_view(r.0@)),
{
    proof {
        lemma_decoded_well_formed(input@, Seq::empty());
    }
    let mut streamer = Streamer::new();
    let mut items: Vec<JsonValue> = Vec::new();
    let mut fed: usize = 0;
    assert(streamer.pending() + input@.skip(0) =~= input@);
    assert(items_view(items@) + decoded(input@, Seq::empty()).0 =~= decoded(
        input@,
        Seq::empty(),
    ).0);
    loop
        invariant
            streamer.wf(),
            !streamer.failed(),
            fed <= input.len(),
            input.len() + 2 * DEFAULT_BUF_SIZE <= usize::MAX,
            all_well_formed(decoded(input@, Seq::empty()).0),
            streamer.ended() ==> fed == input.len(),
            streamer.consumed() + streamer.pending().len() <= fed,
            0 <= streamer.free() <= DEFAULT_BUF_SIZE,
            decoded(input@, Seq::empty()) == (
                items_view(items@) + decoded(
                    streamer.pending() + input@.skip(fed as int),
                    Seq::empty(),
                ).0,
                decoded(streamer.pending() + input@.skip(fed as int), Seq::empty()).1,
            ),
        decreases
                input.len() - fed,
                streamer.pending().len(),
                if streamer.ended() {
                    0int
                } else {
                    1int
                },
    {
        let ghost pending = streamer.pending();
        let ghost rest = input@.skip(fed as int);
        let ghost before = items_view(items@);
        proof {
            lemma_decoded_after_item(pending, rest);
            lemma_document_extend(pending, rest);
        }
        match streamer.next() {
            Step::Item(v) => {
                let ghost item = v@;
                items.push(v);
                assert(items_view(items@) =~= before.push(item));
                assert(items_view(items@) + decoded(
                    streamer.pending() + rest,
                    Seq::empty(),
                ).0 =~= before + (seq![item] + decoded(streamer.pending() + rest, Seq::empty()).0));
            },
            Step::NeedInput => {
                let chunk = slice_subrange(input, fed, input.len());
                let n = streamer.consume(chunk);
                assert(chunk@ =~= rest);
                assert(streamer.pending() + input@.skip(fed + n) =~= pending + rest);
                fed = fed + n;
            },
            Step::Done => {
                assert(pending + rest =~= pending);
                assert(items_view(items@) + Seq::<Json>::empty() =~= items_view(items@));
                return (items, Ending::Drained);
            },
            Step::Malformed => {
                assert(items_view(items@) + Seq::<Json>::empty() =~= items_view(items@));
                return (items, Ending::Failed);
            },
        }
    }
}

} // verus!
