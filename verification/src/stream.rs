//! The pipeline for input that arrives piece by piece: it keeps the bytes
//! that no event has taken yet and the containers that are open, and nothing
//! else of the document.

use vstd::prelude::*;
use crate::error::{AppError, ParseError};
use crate::event::EventView;
use crate::format::{push_all, push_text, text};
use crate::grammar::{advance, initial, Nesting, State};
use crate::parse::{pull_event, pulled, Pull, PullView};

verus! {

/// How the reading of a window ends.
pub enum Ending {
    /// The window ends before the next event is decided.
    NeedMore,
    /// The top-level value is complete.
    Done,
    /// The input is no JSON document.
    Failed(ParseError),
}

/// What reading a window to its end gives: the events that it decides and
/// their text, the position behind the last of them and the state there, and
/// how the reading ends.
pub struct Drained {
    pub events: Seq<EventView>,
    pub text: Seq<u8>,
    pub pos: int,
    pub st: State,
    pub end: Ending,
}

/// The outcome `rest` of reading on, behind the events `events` with the text
/// `text`.
pub open spec fn behind(events: Seq<EventView>, text: Seq<u8>, rest: Drained) -> Drained {
    Drained {
        events: events + rest.events,
        text: text + rest.text,
        pos: rest.pos,
        st: rest.st,
        end: rest.end,
    }
}

/// What reading the window `w` from `pos` on in state `st` gives, one pull
/// after the other until one yields no event; the text is indented by `size`
/// spaces per level and ends with a newline where the document is complete.
#[verifier::opaque]
pub open spec fn drain(w: Seq<u8>, pos: int, st: State, at_end: bool, size: nat) -> Drained
    decreases w.len() - pos,
    via drain_ends
{
    match pulled(w, pos, st, at_end) {
        Err(e) => stopped(pos, st, Ending::Failed(e)),
        Ok((PullView::NeedMore, _)) => stopped(pos, st, Ending::NeedMore),
        Ok((PullView::End, _)) => stopped(pos, st, Ending::Done),
        Ok((PullView::Event(ev), next)) => behind(
            seq![ev],
            text(st, ev, size),
            drain(w, next, advance(st, ev), at_end, size),
        ),
    }
}

#[via_fn]
proof fn drain_ends(w: Seq<u8>, pos: int, st: State, at_end: bool, size: nat) {
    crate::bounds::lemma_step_moves(w, pos, st);
}

/// Where reading stops without an event: at `pos` in state `st`, with nothing
/// read, and ending as `end` says.
pub open spec fn stopped(pos: int, st: State, end: Ending) -> Drained {
    Drained {
        events: Seq::empty(),
        text: if end is Done {
            seq![0x0au8]
        } else {
            Seq::empty()
        },
        pos,
        st,
        end,
    }
}

/// What reading a window gives, by what the first pull gives: where it
/// yields an event, that event followed by what reading on behind it gives;
/// else nothing but the way in which reading ends.
pub proof fn lemma_drain_unfolds(w: Seq<u8>, pos: int, st: State, at_end: bool, size: nat)
    ensures
        drain(w, pos, st, at_end, size) == match pulled(w, pos, st, at_end) {
            Err(e) => stopped(pos, st, Ending::Failed(e)),
            Ok((PullView::NeedMore, _)) => stopped(pos, st, Ending::NeedMore),
            Ok((PullView::End, _)) => stopped(pos, st, Ending::Done),
            Ok((PullView::Event(ev), next)) => behind(
                seq![ev],
                text(st, ev, size),
                drain(w, next, advance(st, ev), at_end, size),
            ),
        },
{
    reveal(drain);
}

/// Reading on behind nothing gives what reading on gives.
pub proof fn lemma_behind_nothing(rest: Drained)
    ensures
        behind(Seq::empty(), Seq::empty(), rest) == rest,
{
    assert(Seq::<EventView>::empty() + rest.events =~= rest.events);
    assert(Seq::<u8>::empty() + rest.text =~= rest.text);
}

/// Reading on behind two runs of events, one after the other, gives what
/// reading on behind both together gives.
pub proof fn lemma_behind_twice(
    first: Seq<EventView>,
    first_text: Seq<u8>,
    second: Seq<EventView>,
    second_text: Seq<u8>,
    rest: Drained,
)
    ensures
        behind(first, first_text, behind(second, second_text, rest)) == behind(
            first + second,
            first_text + second_text,
            rest,
        ),
{
    assert(first + (second + rest.events) =~= (first + second) + rest.events);
    assert(first_text + (second_text + rest.text) =~= (first_text + second_text) + rest.text);
}

/// `n`, or the largest offset that can be held where `n` is beyond it.
pub open spec fn clip(n: int) -> usize {
    if n <= usize::MAX {
        n as usize
    } else {
        usize::MAX
    }
}

/// The sum of two offsets, held at the largest offset where it is beyond it.
pub fn add_clipped(a: usize, b: usize) -> (sum: usize)
    ensures
        sum == clip(a + b),
{
    if b <= usize::MAX - a {
        a + b
    } else {
        usize::MAX
    }
}

/// What a call of [`Pipeline::feed`] returns for a reading that ends with
/// `end`, where `consumed` bytes of the input lie in front of the window:
/// whether the document is complete, or the failure at its offset in the
/// whole input.
pub open spec fn feed_result(end: Ending, consumed: int) -> Result<bool, AppError> {
    match end {
        Ending::NeedMore => Ok(false),
        Ending::Done => Ok(true),
        Ending::Failed(e) => Err(
            AppError::Parse(ParseError { kind: e.kind, offset: clip(consumed + e.offset) }),
        ),
    }
}

/// What a call of [`Pipeline::feed`] does: it leads from the pipeline
/// `before` to the pipeline `after`, appends to the output `out_before`,
/// which gives `out_after`, and returns `r`. A pipeline that is finished
/// stays as it is. Else the bytes at hand, those that were pending and those
/// of `chunk`, are read as far as they decide; the text of what was read is
/// appended, and the bytes behind it stay pending.
pub open spec fn feeds(
    before: Pipeline,
    chunk: Seq<u8>,
    at_end: bool,
    out_before: Seq<u8>,
    after: Pipeline,
    out_after: Seq<u8>,
    r: Result<bool, AppError>,
) -> bool {
    if before.finished {
        r == Ok::<bool, AppError>(true) && after == before && out_after == out_before
    } else {
        let window = before.pending@ + chunk;
        let read = drain(window, 0, before.nesting@, at_end, before.indent_size as nat);
        &&& out_after == out_before + read.text
        &&& after.nesting@ == read.st
        &&& after.indent_size == before.indent_size
        &&& 0 <= read.pos <= window.len()
        &&& after.pending@ == window.subrange(read.pos, window.len() as int)
        &&& after.consumed == clip(before.consumed + read.pos)
        &&& after.finished == (read.end is Done)
        &&& r == feed_result(read.end, before.consumed as int)
    }
}

/// The pipeline: the containers that are open, the indentation unit, the
/// bytes that were handed over and not read yet, the number of bytes in front
/// of them, and whether the document is complete.
#[derive(Clone, Debug)]
pub struct Pipeline {
    pub nesting: Nesting,
    pub indent_size: usize,
    pub pending: Vec<u8>,
    pub consumed: usize,
    pub finished: bool,
}

impl Pipeline {
    /// A pipeline at the start of a document, which indents by `indent_size`
    /// spaces per level.
    pub fn new(indent_size: usize) -> (pipeline: Self)
        ensures
            pipeline.nesting@ == initial(),
            pipeline.indent_size == indent_size,
            pipeline.pending@ == Seq::<u8>::empty(),
            pipeline.consumed == 0,
            !pipeline.finished,
    {
        Pipeline {
            nesting: Nesting::new(),
            indent_size,
            pending: Vec::new(),
            consumed: 0,
            finished: false,
        }
    }

    /// Takes the next piece of the input, `chunk`; `at_end` says that it is
    /// the last. Every event that the bytes at hand decide is read and its
    /// text appended to `out`, with the final newline once the document is
    /// complete; the bytes that were read are dropped. The result says
    /// whether the document is complete. A failure is returned with its
    /// offset in the whole input, after the text of the events before it has
    /// been appended. Once the document is complete nothing more is read.
    pub fn feed(&mut self, chunk: &[u8], at_end: bool, out: &mut Vec<u8>) -> (r: Result<
        bool,
        AppError,
    >)
        ensures
            feeds(*old(self), chunk@, at_end, old(out)@, *final(self), final(out)@, r),
    {
        if self.finished {
            return Ok(true);
        }
        push_all(&mut self.pending, chunk);
        let ghost window = self.pending@;
        let ghost start = self.nesting@;
        let ghost size = self.indent_size as nat;
        let ghost whole = drain(window, 0, start, at_end, size);
        let ghost mut events: Seq<EventView> = Seq::empty();
        let ghost mut written: Seq<u8> = Seq::empty();
        let mut pos: usize = 0;
        let mut result: Result<bool, AppError> = Ok(false);
        let mut going = true;
        proof {
            lemma_behind_nothing(whole);
            assert(out@ =~= old(out)@ + written);
        }
        while going
            invariant
                self.pending@ == window,
                self.indent_size as nat == size,
                self.consumed == old(self).consumed,
                pos <= window.len(),
                out@ == old(out)@ + written,
                going ==> result == Ok::<bool, AppError>(false),
                going ==> !self.finished && whole == behind(
                    events,
                    written,
                    drain(window, pos as int, self.nesting@, at_end, size),
                ),
                !going ==> {
                    &&& written == whole.text
                    &&& whole.pos == pos
                    &&& whole.st == self.nesting@
                    &&& self.finished == (whole.end is Done)
                    &&& result == feed_result(whole.end, self.consumed as int)
                },
            decreases window.len() - pos + (if going { 1int } else { 0int }),
        {
            let ghost here = self.nesting@;
            let ghost rest = drain(window, pos as int, here, at_end, size);
            proof {
                lemma_drain_unfolds(window, pos as int, here, at_end, size);
            }
            match pull_event(self.pending.as_slice(), pos, &self.nesting, at_end) {
                Err(e) => {
                    result = Err(
                        AppError::Parse(
                            ParseError { kind: e.kind, offset: add_clipped(self.consumed, e.offset) },
                        ),
                    );
                    going = false;
                    proof {
                        assert(written + rest.text =~= written);
                    }
                },
                Ok((Pull::Event(ev), next)) => {
                    push_text(out, &self.nesting, &ev, self.indent_size);
                    self.nesting.advance(&ev);
                    proof {
                        let piece = text(here, ev@, size);
                        let after = drain(window, next as int, self.nesting@, at_end, size);
                        assert(rest == behind(seq![ev@], piece, after));
                        lemma_behind_twice(events, written, seq![ev@], piece, after);
                        assert(events + seq![ev@] =~= events.push(ev@));
                        events = events.push(ev@);
                        written = written + piece;
                    }
                    pos = next;
                },
                Ok((Pull::NeedMore, _)) => {
                    going = false;
                    proof {
                        assert(written + rest.text =~= written);
                    }
                },
                Ok((Pull::End, _)) => {
                    out.push(0x0a);
                    self.finished = true;
                    result = Ok(true);
                    going = false;
                    proof {
                        written = written + seq![0x0au8];
                        assert(out@ =~= old(out)@ + written);
                    }
                },
            }
        }
        let rest = self.pending.split_off(pos);
        self.pending = rest;
        self.consumed = add_clipped(self.consumed, pos);
        result
    }
}

} // verus!
