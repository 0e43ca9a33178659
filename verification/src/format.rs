//! The pretty-printing formatter: turns one event at a time into indented
//! JSON text, keeping only the open containers between events.

use vstd::prelude::*;
use crate::event::{Event, EventView};
use crate::grammar::{advance, allowed, Nesting, State};

verus! {

/// `count` space characters.
pub open spec fn spaces(count: nat) -> Seq<u8> {
    Seq::new(count, |i: int| 0x20u8)
}

/// The indentation of a line at nesting depth `depth`: `size` spaces per level.
pub open spec fn indentation(size: nat, depth: nat) -> Seq<u8>
    decreases depth,
{
    if depth == 0 {
        Seq::empty()
    } else {
        indentation(size, (depth - 1) as nat) + spaces(size)
    }
}

/// A newline followed by the indentation of depth `depth`.
pub open spec fn line_break(size: nat, depth: nat) -> Seq<u8> {
    seq![0x0au8] + indentation(size, depth)
}

/// The lower-case hexadecimal digit of `d`, which is below 16.
pub open spec fn hex_digit(d: int) -> u8 {
    if d < 10 {
        (0x30 + d) as u8
    } else {
        (0x61 + d - 10) as u8
    }
}

/// How one byte of text is written inside a quoted string: the quote, the
/// backslash and the control characters are escaped, the rest is kept.
pub open spec fn escape_byte(b: u8) -> Seq<u8> {
    if b == 0x22 {
        seq![0x5cu8, 0x22u8]
    } else if b == 0x5c {
        seq![0x5cu8, 0x5cu8]
    } else if b == 0x08 {
        seq![0x5cu8, 0x62u8]
    } else if b == 0x0c {
        seq![0x5cu8, 0x66u8]
    } else if b == 0x0a {
        seq![0x5cu8, 0x6eu8]
    } else if b == 0x0d {
        seq![0x5cu8, 0x72u8]
    } else if b == 0x09 {
        seq![0x5cu8, 0x74u8]
    } else if b < 0x20 {
        seq![0x5cu8, 0x75u8, 0x30u8, 0x30u8, hex_digit(b as int / 16), hex_digit(b as int % 16)]
    } else {
        seq![b]
    }
}

/// The bytes of `text`, each escaped.
pub open spec fn escaped(text: Seq<u8>) -> Seq<u8>
    decreases text.len(),
{
    if text.len() == 0 {
        Seq::empty()
    } else {
        escaped(text.drop_last()) + escape_byte(text.last())
    }
}

/// `text` as a JSON string: escaped, between double quotes.
pub open spec fn quoted(text: Seq<u8>) -> Seq<u8> {
    seq![0x22u8] + escaped(text) + seq![0x22u8]
}

/// The comma that separates a child from the one before it, if there is one.
pub open spec fn separator(st: State) -> Seq<u8> {
    if st.frames.len() > 0 && st.frames.last().has_child {
        seq![0x2cu8]
    } else {
        Seq::empty()
    }
}

/// What precedes a value that starts in state `st`: nothing after a key or at
/// the top level, else the separator and a fresh indented line.
pub open spec fn lead(st: State, size: nat) -> Seq<u8> {
    if st.after_key || st.frames.len() == 0 {
        Seq::empty()
    } else {
        separator(st) + line_break(size, st.frames.len())
    }
}

/// What precedes the bracket that closes the innermost container of `st`: a
/// fresh line at the outer depth if the container has a child, else nothing.
pub open spec fn closing_lead(st: State, size: nat) -> Seq<u8> {
    if st.frames.len() > 0 && st.frames.last().has_child {
        line_break(size, (st.frames.len() - 1) as nat)
    } else {
        Seq::empty()
    }
}

/// The text of `ev` without what precedes it.
pub open spec fn token(ev: EventView) -> Seq<u8> {
    match ev {
        EventView::BeginObject => seq![0x7bu8],
        EventView::EndObject => seq![0x7du8],
        EventView::BeginArray => seq![0x5bu8],
        EventView::EndArray => seq![0x5du8],
        EventView::Null => seq![0x6eu8, 0x75u8, 0x6cu8, 0x6cu8],
        EventView::Bool(b) => if b {
            seq![0x74u8, 0x72u8, 0x75u8, 0x65u8]
        } else {
            seq![0x66u8, 0x61u8, 0x6cu8, 0x73u8, 0x65u8]
        },
        EventView::Number(text) => text,
        EventView::String(text) => quoted(text),
        EventView::Key(text) => quoted(text) + seq![0x3au8, 0x20u8],
    }
}

/// The text that event `ev`, allowed in state `st`, adds to the output, with
/// `size` spaces of indentation per level.
pub open spec fn text(st: State, ev: EventView, size: nat) -> Seq<u8> {
    match ev {
        EventView::Key(_) => separator(st) + line_break(size, st.frames.len()) + token(ev),
        EventView::EndObject | EventView::EndArray => closing_lead(st, size) + token(ev),
        _ => lead(st, size) + token(ev),
    }
}

/// The text of the events of `events`, in order, starting in state `st`.
pub open spec fn rendered(st: State, events: Seq<EventView>, size: nat) -> Seq<u8>
    decreases events.len(),
{
    if events.len() == 0 {
        Seq::empty()
    } else {
        text(st, events[0], size) + rendered(advance(st, events[0]), events.drop_first(), size)
    }
}

fn push_hex_digit(out: &mut Vec<u8>, d: u8)
    requires
        d < 16,
    ensures
        final(out)@ == old(out)@.push(hex_digit(d as int)),
{
    if d < 10 {
        out.push(0x30 + d);
    } else {
        out.push(0x61 + (d - 10));
    }
}

fn push_escaped_byte(out: &mut Vec<u8>, b: u8)
    ensures
        final(out)@ == old(out)@ + escape_byte(b),
{
    if b == 0x22 {
        out.push(0x5c);
        out.push(0x22);
    } else if b == 0x5c {
        out.push(0x5c);
        out.push(0x5c);
    } else if b == 0x08 {
        out.push(0x5c);
        out.push(0x62);
    } else if b == 0x0c {
        out.push(0x5c);
        out.push(0x66);
    } else if b == 0x0a {
        out.push(0x5c);
        out.push(0x6e);
    } else if b == 0x0d {
        out.push(0x5c);
        out.push(0x72);
    } else if b == 0x09 {
        out.push(0x5c);
        out.push(0x74);
    } else if b < 0x20 {
        out.push(0x5c);
        out.push(0x75);
        out.push(0x30);
        out.push(0x30);
        push_hex_digit(out, b / 16);
        push_hex_digit(out, b % 16);
    } else {
        out.push(b);
    }
    assert(out@ =~= old(out)@ + escape_byte(b));
}

/// Appends `text` as a JSON string.
pub fn push_quoted(out: &mut Vec<u8>, text: &Vec<u8>)
    ensures
        final(out)@ == old(out)@ + quoted(text@),
{
    out.push(0x22);
    let mut i: usize = 0;
    while i < text.len()
        invariant
            i <= text.len(),
            out@ == old(out)@ + seq![0x22u8] + escaped(text@.subrange(0, i as int)),
        decreases text.len() - i,
    {
        push_escaped_byte(out, text[i]);
        proof {
            let next = text@.subrange(0, i + 1);
            assert(next.drop_last() =~= text@.subrange(0, i as int));
            assert(next.last() == text@[i as int]);
        }
        i += 1;
    }
    out.push(0x22);
    assert(text@.subrange(0, text@.len() as int) =~= text@);
    assert(out@ =~= old(out)@ + quoted(text@));
}

/// Appends every byte of `bytes`.
pub fn push_all(out: &mut Vec<u8>, bytes: &[u8])
    ensures
        final(out)@ == old(out)@ + bytes@,
{
    let mut i: usize = 0;
    while i < bytes.len()
        invariant
            i <= bytes.len(),
            out@ == old(out)@ + bytes@.subrange(0, i as int),
        decreases bytes.len() - i,
    {
        out.push(bytes[i]);
        assert(bytes@.subrange(0, i + 1) =~= bytes@.subrange(0, i as int).push(bytes@[i as int]));
        i += 1;
    }
    assert(bytes@.subrange(0, bytes@.len() as int) =~= bytes@);
}

fn push_spaces(out: &mut Vec<u8>, count: usize)
    ensures
        final(out)@ == old(out)@ + spaces(count as nat),
{
    let mut i: usize = 0;
    while i < count
        invariant
            i <= count,
            out@ == old(out)@ + spaces(i as nat),
        decreases count - i,
    {
        out.push(0x20);
        assert(out@ =~= old(out)@ + spaces((i + 1) as nat));
        i += 1;
    }
}

/// Appends a newline and the indentation of depth `depth`.
pub fn push_line_break(out: &mut Vec<u8>, size: usize, depth: usize)
    ensures
        final(out)@ == old(out)@ + line_break(size as nat, depth as nat),
{
    out.push(0x0a);
    let mut level: usize = 0;
    while level < depth
        invariant
            level <= depth,
            out@ == old(out)@ + seq![0x0au8] + indentation(size as nat, level as nat),
        decreases depth - level,
    {
        push_spaces(out, size);
        assert(out@ =~= old(out)@ + seq![0x0au8] + indentation(size as nat, (level + 1) as nat));
        level += 1;
    }
    assert(out@ =~= old(out)@ + line_break(size as nat, depth as nat));
}

fn push_token(out: &mut Vec<u8>, ev: &Event)
    ensures
        final(out)@ == old(out)@ + token(ev@),
{
    match ev {
        Event::BeginObject => {
            out.push(0x7b);
        },
        Event::EndObject => {
            out.push(0x7d);
        },
        Event::BeginArray => {
            out.push(0x5b);
        },
        Event::EndArray => {
            out.push(0x5d);
        },
        Event::Null => {
            out.push(0x6e);
            out.push(0x75);
            out.push(0x6c);
            out.push(0x6c);
        },
        Event::Bool(b) => {
            if *b {
                out.push(0x74);
                out.push(0x72);
                out.push(0x75);
                out.push(0x65);
            } else {
                out.push(0x66);
                out.push(0x61);
                out.push(0x6c);
                out.push(0x73);
                out.push(0x65);
            }
        },
        Event::Number(text) => {
            push_all(out, text.as_slice());
        },
        Event::String(text) => {
            push_quoted(out, text);
        },
        Event::Key(text) => {
            push_quoted(out, text);
            out.push(0x3a);
            out.push(0x20);
        },
    }
    assert(out@ =~= old(out)@ + token(ev@));
}

/// The formatter: the indentation unit and the containers that are open.
#[derive(Clone, Debug)]
pub struct Formatter {
    pub indent_size: usize,
    pub nesting: Nesting,
}

impl Formatter {
    /// A formatter that indents by `indent_size` spaces per level, with
    /// nothing written yet.
    pub fn new(indent_size: usize) -> (formatter: Self)
        ensures
            formatter.indent_size == indent_size,
            formatter.nesting@ == crate::grammar::initial(),
    {
        Formatter { indent_size, nesting: Nesting::new() }
    }

    /// Writes `ev` to `out` and moves on past it. An event that may not come
    /// next is refused: nothing is written, nothing changes, and the result
    /// is `false`.
    pub fn write_event(&mut self, ev: &Event, out: &mut Vec<u8>) -> (written: bool)
        ensures
            written == allowed(old(self).nesting@, ev@),
            final(self).indent_size == old(self).indent_size,
            written ==> final(self).nesting@ == advance(old(self).nesting@, ev@),
            written ==> final(out)@ == old(out)@ + text(
                old(self).nesting@,
                ev@,
                old(self).indent_size as nat,
            ),
            !written ==> *final(self) == *old(self) && final(out)@ == old(out)@,
    {
        if !self.nesting.accepts(ev) {
            return false;
        }
        push_text(out, &self.nesting, ev, self.indent_size);
        self.nesting.advance(ev);
        true
    }
}

/// Appends the text of `ev`, which comes next where the containers of
/// `nesting` are open, indented by `size` spaces per level.
pub fn push_text(out: &mut Vec<u8>, nesting: &Nesting, ev: &Event, size: usize)
    ensures
        final(out)@ == old(out)@ + text(nesting@, ev@, size as nat),
{
    let depth = nesting.depth();
    match ev {
        Event::Key(_) => {
            if nesting.has_child() {
                out.push(0x2c);
            }
            push_line_break(out, size, depth);
        },
        Event::EndObject | Event::EndArray => {
            if nesting.has_child() {
                push_line_break(out, size, depth - 1);
            }
        },
        _ => {
            if !nesting.after_key && depth > 0 {
                if nesting.has_child() {
                    out.push(0x2c);
                }
                push_line_break(out, size, depth);
            }
        },
    }
    push_token(out, ev);
    assert(out@ =~= old(out)@ + text(nesting@, ev@, size as nat));
}

} // verus!
