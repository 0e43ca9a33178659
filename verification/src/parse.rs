//! The pull parser: yields the next structural event of a document on demand,
//! reading no further into the input than that event needs.

use vstd::prelude::*;
use crate::error::{failure, ParseError, ParseErrorKind};
use crate::event::{Event, EventView};
use crate::format::token;
use crate::grammar::{advance, initial, Kind, Nesting, State};
use crate::scan::{
    at, byte_at, is_digit, number_end, scan_number, scan_string, skip_whitespace, skip_ws,
    string_from, word_at,
};

verus! {

/// The value, or the opening of one, that starts at `pos`: the event and the
/// position behind it.
pub open spec fn value_at(s: Seq<u8>, pos: int) -> Result<(EventView, int), ParseError> {
    match at(s, pos) {
        None => Err(failure(ParseErrorKind::UnexpectedEnd, pos)),
        Some(c) => if c == 0x7b {
            Ok((EventView::BeginObject, pos + 1))
        } else if c == 0x5b {
            Ok((EventView::BeginArray, pos + 1))
        } else if c == 0x22 {
            match string_from(s, pos + 1) {
                Ok((text, end)) => Ok((EventView::String(text), end)),
                Err(e) => Err(e),
            }
        } else if c == 0x74 {
            if word_at(s, pos, token(EventView::Bool(true))) {
                Ok((EventView::Bool(true), pos + 4))
            } else {
                Err(failure(ParseErrorKind::InvalidLiteral, pos))
            }
        } else if c == 0x66 {
            if word_at(s, pos, token(EventView::Bool(false))) {
                Ok((EventView::Bool(false), pos + 5))
            } else {
                Err(failure(ParseErrorKind::InvalidLiteral, pos))
            }
        } else if c == 0x6e {
            if word_at(s, pos, token(EventView::Null)) {
                Ok((EventView::Null, pos + 4))
            } else {
                Err(failure(ParseErrorKind::InvalidLiteral, pos))
            }
        } else if c == 0x2d || is_digit(c) {
            match number_end(s, pos) {
                Ok(end) => Ok((EventView::Number(s.subrange(pos, end)), end)),
                Err(e) => Err(e),
            }
        } else {
            Err(failure(ParseErrorKind::ExpectedValue, pos))
        },
    }
}

/// The object key that starts at `pos`, with the colon that follows it: the
/// event and the position behind the colon.
pub open spec fn key_at(s: Seq<u8>, pos: int) -> Result<(EventView, int), ParseError> {
    match at(s, pos) {
        None => Err(failure(ParseErrorKind::UnexpectedEnd, pos)),
        Some(c) => if c != 0x22 {
            Err(failure(ParseErrorKind::ExpectedKey, pos))
        } else {
            match string_from(s, pos + 1) {
                Err(e) => Err(e),
                Ok((text, end)) => {
                    let colon = skip_ws(s, end);
                    match at(s, colon) {
                        None => Err(failure(ParseErrorKind::UnexpectedEnd, colon)),
                        Some(c) => if c == 0x3a {
                            Ok((EventView::Key(text), colon + 1))
                        } else {
                            Err(failure(ParseErrorKind::ExpectedColon, colon))
                        },
                    }
                },
            }
        },
    }
}

/// The child of a container of kind `kind` that starts at `pos`: an element
/// of an array, or a key of an object.
pub open spec fn child_at(s: Seq<u8>, pos: int, kind: Kind) -> Result<(EventView, int), ParseError> {
    match kind {
        Kind::Array => value_at(s, pos),
        Kind::Object => key_at(s, pos),
    }
}

/// The bracket that closes a container of kind `kind`.
pub open spec fn closer(kind: Kind) -> u8 {
    match kind {
        Kind::Array => 0x5du8,
        Kind::Object => 0x7du8,
    }
}

/// The event that closes a container of kind `kind`.
pub open spec fn closing(kind: Kind) -> EventView {
    match kind {
        Kind::Array => EventView::EndArray,
        Kind::Object => EventView::EndObject,
    }
}

/// What comes next inside the innermost open container, `frame`, read from
/// `pos`, where whitespace has been skipped: the closing bracket, or a child,
/// behind a comma if it is not the first.
pub open spec fn inside_at(s: Seq<u8>, pos: int, frame: crate::grammar::Frame) -> Result<
    (EventView, int),
    ParseError,
> {
    match at(s, pos) {
        None => Err(failure(ParseErrorKind::UnexpectedEnd, pos)),
        Some(c) => if c == closer(frame.kind) {
            Ok((closing(frame.kind), pos + 1))
        } else if !frame.has_child {
            child_at(s, pos, frame.kind)
        } else if c == 0x2c {
            child_at(s, skip_ws(s, pos + 1), frame.kind)
        } else {
            Err(failure(ParseErrorKind::ExpectedCommaOrEnd, pos))
        },
    }
}

/// The next event of the input `s` read from `pos` in state `st`, with the
/// position behind it; `None` once the top-level value is complete.
pub open spec fn step(s: Seq<u8>, pos: int, st: State) -> Result<Option<(EventView, int)>, ParseError> {
    if st.done {
        Ok(None)
    } else {
        let start = skip_ws(s, pos);
        let found = if st.after_key || st.frames.len() == 0 {
            value_at(s, start)
        } else {
            inside_at(s, start, st.frames.last())
        };
        match found {
            Ok(next) => Ok(Some(next)),
            Err(e) => Err(e),
        }
    }
}

/// All events of the input `s` from `pos` on, read in state `st`.
#[verifier::opaque]
pub open spec fn events_from(s: Seq<u8>, pos: int, st: State) -> Result<Seq<EventView>, ParseError>
    decreases s.len() - pos,
    via events_from_ends
{
    match step(s, pos, st) {
        Err(e) => Err(e),
        Ok(None) => Ok(Seq::empty()),
        Ok(Some((ev, next))) => match events_from(s, next, advance(st, ev)) {
            Ok(rest) => Ok(seq![ev] + rest),
            Err(e) => Err(e),
        },
    }
}

#[via_fn]
proof fn events_from_ends(s: Seq<u8>, pos: int, st: State) {
    crate::bounds::lemma_step_moves(s, pos, st);
}

/// The events of an input, by what the first step gives: nothing once the
/// top-level value is complete, else the event that the step yields followed
/// by the events from behind it.
pub proof fn lemma_events_unfold(s: Seq<u8>, pos: int, st: State)
    ensures
        events_from(s, pos, st) == match step(s, pos, st) {
            Err(e) => Err(e),
            Ok(None) => Ok(Seq::empty()),
            Ok(Some((ev, next))) => match events_from(s, next, advance(st, ev)) {
                Ok(rest) => Ok(seq![ev] + rest),
                Err(e) => Err(e),
            },
        },
{
    reveal(events_from);
}

/// The events of the document `s`: those of its one top-level value.
pub open spec fn parse(s: Seq<u8>) -> Result<Seq<EventView>, ParseError> {
    events_from(s, 0, initial())
}

fn copy_range(input: &[u8], from: usize, to: usize) -> (bytes: Vec<u8>)
    requires
        from <= to <= input.len(),
    ensures
        bytes@ == input@.subrange(from as int, to as int),
{
    let mut bytes: Vec<u8> = Vec::new();
    let mut i = from;
    while i < to
        invariant
            from <= i <= to <= input.len(),
            bytes@ == input@.subrange(from as int, i as int),
        decreases to - i,
    {
        bytes.push(input[i]);
        assert(input@.subrange(from as int, i + 1) =~= input@.subrange(from as int, i as int).push(
            input@[i as int],
        ));
        i += 1;
    }
    bytes
}

fn has_true(input: &[u8], pos: usize) -> (b: bool)
    ensures
        b == word_at(input@, pos as int, token(EventView::Bool(true))),
{
    let ghost word = token(EventView::Bool(true));
    if pos > input.len() || input.len() - pos < 4 {
        return false;
    }
    let b = input[pos] == 0x74 && input[pos + 1] == 0x72 && input[pos + 2] == 0x75 && input[pos
        + 3] == 0x65;
    proof {
        let part = input@.subrange(pos as int, pos + 4);
        if b {
            assert(part =~= word);
        } else {
            assert(part[0] == input@[pos as int]);
            assert(part[1] == input@[pos + 1]);
            assert(part[2] == input@[pos + 2]);
            assert(part[3] == input@[pos + 3]);
        }
    }
    b
}

fn has_false(input: &[u8], pos: usize) -> (b: bool)
    ensures
        b == word_at(input@, pos as int, token(EventView::Bool(false))),
{
    let ghost word = token(EventView::Bool(false));
    if pos > input.len() || input.len() - pos < 5 {
        return false;
    }
    let b = input[pos] == 0x66 && input[pos + 1] == 0x61 && input[pos + 2] == 0x6c && input[pos
        + 3] == 0x73 && input[pos + 4] == 0x65;
    proof {
        let part = input@.subrange(pos as int, pos + 5);
        if b {
            assert(part =~= word);
        } else {
            assert(part[0] == input@[pos as int]);
            assert(part[1] == input@[pos + 1]);
            assert(part[2] == input@[pos + 2]);
            assert(part[3] == input@[pos + 3]);
            assert(part[4] == input@[pos + 4]);
        }
    }
    b
}

fn has_null(input: &[u8], pos: usize) -> (b: bool)
    ensures
        b == word_at(input@, pos as int, token(EventView::Null)),
{
    let ghost word = token(EventView::Null);
    if pos > input.len() || input.len() - pos < 4 {
        return false;
    }
    let b = input[pos] == 0x6e && input[pos + 1] == 0x75 && input[pos + 2] == 0x6c && input[pos
        + 3] == 0x6c;
    proof {
        let part = input@.subrange(pos as int, pos + 4);
        if b {
            assert(part =~= word);
        } else {
            assert(part[0] == input@[pos as int]);
            assert(part[1] == input@[pos + 1]);
            assert(part[2] == input@[pos + 2]);
            assert(part[3] == input@[pos + 3]);
        }
    }
    b
}

fn failed<T>(kind: ParseErrorKind, offset: usize) -> (r: Result<T, ParseError>)
    ensures
        r == Err::<T, ParseError>(failure(kind, offset as int)),
{
    Err(ParseError { kind, offset })
}

fn read_value(input: &[u8], pos: usize) -> (r: Result<(Event, usize), ParseError>)
    ensures
        match value_at(input@, pos as int) {
            Ok((ev, end)) => r matches Ok((e, next)) && e@ == ev && next == end
                && pos < end <= input.len(),
            Err(e) => r == Err::<(Event, usize), ParseError>(e),
        },
{
    let c = match byte_at(input, pos) {
        None => {
            return failed(ParseErrorKind::UnexpectedEnd, pos);
        },
        Some(c) => c,
    };
    if c == 0x7b {
        Ok((Event::BeginObject, pos + 1))
    } else if c == 0x5b {
        Ok((Event::BeginArray, pos + 1))
    } else if c == 0x22 {
        match scan_string(input, pos + 1) {
            Ok((text, end)) => Ok((Event::String(text), end)),
            Err(e) => Err(e),
        }
    } else if c == 0x74 {
        if has_true(input, pos) {
            Ok((Event::Bool(true), pos + 4))
        } else {
            failed(ParseErrorKind::InvalidLiteral, pos)
        }
    } else if c == 0x66 {
        if has_false(input, pos) {
            Ok((Event::Bool(false), pos + 5))
        } else {
            failed(ParseErrorKind::InvalidLiteral, pos)
        }
    } else if c == 0x6e {
        if has_null(input, pos) {
            Ok((Event::Null, pos + 4))
        } else {
            failed(ParseErrorKind::InvalidLiteral, pos)
        }
    } else if c == 0x2d || (0x30 <= c && c <= 0x39) {
        match scan_number(input, pos) {
            Ok(end) => Ok((Event::Number(copy_range(input, pos, end)), end)),
            Err(e) => Err(e),
        }
    } else {
        failed(ParseErrorKind::ExpectedValue, pos)
    }
}

fn read_key(input: &[u8], pos: usize) -> (r: Result<(Event, usize), ParseError>)
    ensures
        match key_at(input@, pos as int) {
            Ok((ev, end)) => r matches Ok((e, next)) && e@ == ev && next == end
                && pos < end <= input.len(),
            Err(e) => r == Err::<(Event, usize), ParseError>(e),
        },
{
    match byte_at(input, pos) {
        None => failed(ParseErrorKind::UnexpectedEnd, pos),
        Some(c) => {
            if c != 0x22 {
                return failed(ParseErrorKind::ExpectedKey, pos);
            }
            match scan_string(input, pos + 1) {
                Err(e) => Err(e),
                Ok((text, end)) => {
                    let colon = skip_whitespace(input, end);
                    match byte_at(input, colon) {
                        None => failed(ParseErrorKind::UnexpectedEnd, colon),
                        Some(c) => {
                            if c == 0x3a {
                                Ok((Event::Key(text), colon + 1))
                            } else {
                                failed(ParseErrorKind::ExpectedColon, colon)
                            }
                        },
                    }
                },
            }
        },
    }
}

fn read_child(input: &[u8], pos: usize, kind: Kind) -> (r: Result<(Event, usize), ParseError>)
    ensures
        match child_at(input@, pos as int, kind) {
            Ok((ev, end)) => r matches Ok((e, next)) && e@ == ev && next == end
                && pos < end <= input.len(),
            Err(e) => r == Err::<(Event, usize), ParseError>(e),
        },
{
    match kind {
        Kind::Array => read_value(input, pos),
        Kind::Object => read_key(input, pos),
    }
}

fn read_inside(input: &[u8], pos: usize, frame: crate::grammar::Frame) -> (r: Result<
    (Event, usize),
    ParseError,
>)
    ensures
        match inside_at(input@, pos as int, frame) {
            Ok((ev, end)) => r matches Ok((e, next)) && e@ == ev && next == end
                && pos < end <= input.len(),
            Err(e) => r == Err::<(Event, usize), ParseError>(e),
        },
{
    match byte_at(input, pos) {
        None => failed(ParseErrorKind::UnexpectedEnd, pos),
        Some(c) => {
            let is_array = frame.kind == Kind::Array;
            if is_array && c == 0x5d {
                Ok((Event::EndArray, pos + 1))
            } else if !is_array && c == 0x7d {
                Ok((Event::EndObject, pos + 1))
            } else if !frame.has_child {
                read_child(input, pos, frame.kind)
            } else if c == 0x2c {
                read_child(input, skip_whitespace(input, pos + 1), frame.kind)
            } else {
                failed(ParseErrorKind::ExpectedCommaOrEnd, pos)
            }
        },
    }
}

/// Whether the outcome `found` of a step on the window `w` stays what it is
/// however the input goes on behind the window: an event that ends inside the
/// window, with a byte behind it where it is a number; the end of the
/// document; a failure far enough from the end of the window that nothing
/// beyond it was looked for.
pub open spec fn decided(w: Seq<u8>, found: Result<Option<(EventView, int)>, ParseError>) -> bool {
    match found {
        Ok(None) => true,
        Ok(Some((ev, next))) => next < w.len() || (next == w.len() && !(ev is Number)),
        Err(e) => e.offset + LOOKAHEAD <= w.len(),
    }
}

/// The most bytes from the start of a token that decide whether it is
/// malformed: the twelve of a pair of escaped surrogates.
pub const LOOKAHEAD: usize = 12;

/// What a pull on a window gives.
#[derive(Clone, Debug, PartialEq, Eq)]
pub enum Pull {
    /// The next event.
    Event(Event),
    /// The window ends before the next event is decided: more of the input is
    /// needed.
    NeedMore,
    /// The top-level value is complete.
    End,
}

/// The mathematical value of a [`Pull`].
pub enum PullView {
    Event(EventView),
    NeedMore,
    End,
}

impl View for Pull {
    type V = PullView;

    open spec fn view(&self) -> PullView {
        match *self {
            Pull::Event(ev) => PullView::Event(ev@),
            Pull::NeedMore => PullView::NeedMore,
            Pull::End => PullView::End,
        }
    }
}

/// What a pull gives on the window `w`, read from `pos` in state `st`, with
/// the position behind it: the outcome of the step where the window decides
/// it or the input ends with the window, else a request for more.
pub open spec fn pulled(w: Seq<u8>, pos: int, st: State, at_end: bool) -> Result<
    (PullView, int),
    ParseError,
> {
    let found = step(w, pos, st);
    if at_end || decided(w, found) {
        match found {
            Ok(Some((ev, next))) => Ok((PullView::Event(ev), next)),
            Ok(None) => Ok((PullView::End, pos)),
            Err(e) => Err(e),
        }
    } else {
        Ok((PullView::NeedMore, pos))
    }
}

/// Reads the event that comes next in `input` at `pos`, where the containers
/// of `nesting` are open: the event and the position behind it, or `None`
/// once the top-level value is complete.
pub fn read_event(input: &[u8], pos: usize, nesting: &Nesting) -> (r: Result<
    Option<(Event, usize)>,
    ParseError,
>)
    ensures
        match step(input@, pos as int, nesting@) {
            Ok(Some((ev, next))) => r matches Ok(Some((e, end))) && e@ == ev && end == next
                && pos < end <= input.len(),
            Ok(None) => r matches Ok(None),
            Err(e) => r == Err::<Option<(Event, usize)>, ParseError>(e),
        },
{
    if nesting.done {
        return Ok(None);
    }
    let start = skip_whitespace(input, pos);
    let depth = nesting.depth();
    let found = if nesting.after_key || depth == 0 {
        read_value(input, start)
    } else {
        read_inside(input, start, nesting.frames[depth - 1])
    };
    match found {
        Err(e) => Err(e),
        Ok(read) => Ok(Some(read)),
    }
}

/// Reads what comes next in `window` at `pos`, where the containers of
/// `nesting` are open, as far as the window decides it; `at_end` says that
/// the input ends with the window. The result holds the answer and the
/// position behind what was read.
pub fn pull_event(window: &[u8], pos: usize, nesting: &Nesting, at_end: bool) -> (r: Result<
    (Pull, usize),
    ParseError,
>)
    ensures
        match pulled(window@, pos as int, nesting@, at_end) {
            Ok((answer, next)) => r matches Ok((p, end)) && p@ == answer && end == next
                && (answer is Event ==> pos < end <= window.len()
                && crate::grammar::allowed(nesting@, answer->Event_0)),
            Err(e) => r == Err::<(Pull, usize), ParseError>(e),
        },
{
    match read_event(window, pos, nesting) {
        Err(e) => {
            if at_end || (e.offset <= window.len() && window.len() - e.offset >= LOOKAHEAD) {
                Err(e)
            } else {
                Ok((Pull::NeedMore, pos))
            }
        },
        Ok(None) => Ok((Pull::End, pos)),
        Ok(Some((ev, next))) => {
            let is_number = match ev {
                Event::Number(_) => true,
                _ => false,
            };
            if at_end || next < window.len() || !is_number {
                proof {
                    lemma_step_allowed(window@, pos as int, nesting@);
                }
                Ok((Pull::Event(ev), next))
            } else {
                Ok((Pull::NeedMore, pos))
            }
        },
    }
}

/// The parser: how far the input has been read, and the containers that are
/// open there.
#[derive(Clone, Debug)]
pub struct Parser {
    pub pos: usize,
    pub nesting: Nesting,
}

impl Parser {
    /// A parser at the start of a document.
    pub fn new() -> (parser: Self)
        ensures
            parser.pos == 0,
            parser.nesting@ == initial(),
    {
        Parser { pos: 0, nesting: Nesting::new() }
    }

    /// Reads the next event of `input`, which is the whole document:
    /// `Ok(None)` once the top-level value is complete. A failure leaves the
    /// parser as it was.
    pub fn next_event(&mut self, input: &[u8]) -> (r: Result<Option<Event>, ParseError>)
        ensures
            match step(input@, old(self).pos as int, old(self).nesting@) {
                Ok(Some((ev, next))) => r matches Ok(Some(e)) && e@ == ev
                    && final(self).pos == next
                    && old(self).pos < final(self).pos <= input.len()
                    && crate::grammar::allowed(old(self).nesting@, ev)
                    && final(self).nesting@ == advance(old(self).nesting@, ev),
                Ok(None) => r matches Ok(None) && *final(self) == *old(self),
                Err(e) => r == Err::<Option<Event>, ParseError>(e) && *final(self) == *old(self),
            },
    {
        match read_event(input, self.pos, &self.nesting) {
            Err(e) => Err(e),
            Ok(None) => Ok(None),
            Ok(Some((ev, next))) => {
                proof {
                    lemma_step_allowed(input@, self.pos as int, self.nesting@);
                }
                self.pos = next;
                self.nesting.advance(&ev);
                Ok(Some(ev))
            },
        }
    }

    /// Reads the next event from `window`, the part of the input that is at
    /// hand; `at_end` says that the input ends with it. Where the window does
    /// not decide the next event, the answer is `NeedMore` and the parser
    /// stays as it was: the caller pulls again on a longer window. A failure
    /// leaves the parser as it was too.
    pub fn pull(&mut self, window: &[u8], at_end: bool) -> (r: Result<Pull, ParseError>)
        ensures
            match pulled(window@, old(self).pos as int, old(self).nesting@, at_end) {
                Ok((PullView::Event(ev), next)) => r matches Ok(p) && p@ == PullView::Event(ev)
                    && final(self).pos == next
                    && old(self).pos < final(self).pos <= window.len()
                    && crate::grammar::allowed(old(self).nesting@, ev)
                    && final(self).nesting@ == advance(old(self).nesting@, ev),
                Ok((answer, _)) => r matches Ok(p) && p@ == answer && *final(self) == *old(self),
                Err(e) => r == Err::<Pull, ParseError>(e) && *final(self) == *old(self),
            },
    {
        match pull_event(window, self.pos, &self.nesting, at_end) {
            Err(e) => Err(e),
            Ok((Pull::Event(ev), next)) => {
                self.pos = next;
                self.nesting.advance(&ev);
                Ok(Pull::Event(ev))
            },
            Ok((answer, _)) => Ok(answer),
        }
    }

    /// Forgets the bytes that have been read: the caller drops them from the
    /// front of its window, and the parser goes on at the start of what is
    /// left. The result is the number of bytes to drop.
    pub fn rebase(&mut self) -> (read: usize)
        ensures
            read == old(self).pos,
            final(self).pos == 0,
            final(self).nesting == old(self).nesting,
    {
        let read = self.pos;
        self.pos = 0;
        read
    }
}

/// The event that a step yields is allowed in the state in which it is read.
pub proof fn lemma_step_allowed(s: Seq<u8>, pos: int, st: State)
    requires
        step(s, pos, st) matches Ok(Some(_)),
    ensures
        crate::grammar::allowed(st, step(s, pos, st).unwrap().unwrap().0),
{
}

} // verus!
