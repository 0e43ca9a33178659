//! Reading back what was written: the text that the formatter gives to a
//! stream of events is text from which the parser yields these events.

use vstd::prelude::*;
use crate::bounds::{lemma_digits_end_bounds, lemma_skip_ws_bounds, lemma_string_bounds};
use crate::error::ParseError;
use crate::event::EventView;
use crate::format::{
    closing_lead, escape_byte, escaped, hex_digit, indentation, line_break, rendered, separator,
    spaces, text, token,
};
use crate::grammar::{accepted, advance, allowed, inside, run, starts_value, Kind, State};
use crate::parse::{
    child_at, closer, closing, events_from, inside_at, key_at, lemma_events_unfold, step, value_at,
};
use crate::scan::{
    at, digit_at, digits_end, exponent_digits, exponent_end, fraction_end, hex4, hex_value,
    integer_end, is_digit, is_number, is_ws, lemma_piece_moves, number_end, piece_at, sequence_len,
    short_escape, skip_ws, string_from, unescape, unicode_escape, utf8, word_at, Piece,
};

verus! {

/// Whether the bytes of `chunk` stand in `doc` from `pos` on.
pub open spec fn stands_at(doc: Seq<u8>, pos: int, chunk: Seq<u8>) -> bool {
    &&& 0 <= pos
    &&& pos + chunk.len() <= doc.len()
    &&& forall|i: int| 0 <= i < chunk.len() ==> doc[pos + i] == #[trigger] chunk[i]
}

/// Whether every byte of `doc` from `from` up to `to` is whitespace.
pub open spec fn blank(doc: Seq<u8>, from: int, to: int) -> bool {
    &&& 0 <= from <= to <= doc.len()
    &&& forall|i: int| from <= i < to ==> is_ws(#[trigger] doc[i])
}

/// Where two chunks stand one behind the other, each of them stands.
proof fn lemma_stands_split(doc: Seq<u8>, pos: int, first: Seq<u8>, second: Seq<u8>)
    requires
        stands_at(doc, pos, first + second),
    ensures
        stands_at(doc, pos, first),
        stands_at(doc, pos + first.len(), second),
{
    let both = first + second;
    assert forall|i: int| 0 <= i < first.len() implies doc[pos + i] == #[trigger] first[i] by {
        assert(both[i] == first[i]);
    }
    assert forall|i: int| 0 <= i < second.len() implies doc[pos + first.len() + i]
        == #[trigger] second[i] by {
        assert(both[first.len() + i] == second[i]);
    }
}

/// Skipping whitespace from the start of a blank stretch ends where the
/// stretch ends, if what stands there is no whitespace.
proof fn lemma_skip_blank(doc: Seq<u8>, from: int, to: int)
    requires
        blank(doc, from, to),
        to == doc.len() || !is_ws(doc[to]),
    ensures
        skip_ws(doc, from) == to,
    decreases to - from,
{
    if from < to {
        assert(is_ws(doc[from]));
        lemma_skip_blank(doc, from + 1, to);
    }
}

/// Indentation is made of spaces alone.
proof fn lemma_indentation_is_blank(size: nat, depth: nat)
    ensures
        forall|i: int| 0 <= i < indentation(size, depth).len() ==> indentation(size, depth)[i]
            == 0x20u8,
    decreases depth,
{
    if depth > 0 {
        lemma_indentation_is_blank(size, (depth - 1) as nat);
        let inner = indentation(size, (depth - 1) as nat);
        assert forall|i: int| 0 <= i < indentation(size, depth).len() implies indentation(
            size,
            depth,
        )[i] == 0x20u8 by {
            if i < inner.len() {
                assert((inner + spaces(size))[i] == inner[i]);
            } else {
                assert((inner + spaces(size))[i] == spaces(size)[i - inner.len()]);
            }
        }
    }
}

/// A line break is made of whitespace alone.
proof fn lemma_line_break_is_blank(size: nat, depth: nat)
    ensures
        line_break(size, depth).len() >= 1,
        line_break(size, depth)[0] == 0x0au8,
        forall|i: int| 0 <= i < line_break(size, depth).len() ==> is_ws(
            #[trigger] line_break(size, depth)[i],
        ),
{
    lemma_indentation_is_blank(size, depth);
    let inner = indentation(size, depth);
    assert forall|i: int| 0 <= i < line_break(size, depth).len() implies is_ws(
        #[trigger] line_break(size, depth)[i],
    ) by {
        if i >= 1 {
            assert(line_break(size, depth)[i] == inner[i - 1]);
        }
    }
}

/// The escaped form of a text is the escaped form of its first byte followed
/// by that of the rest.
proof fn lemma_escaped_first(text: Seq<u8>)
    requires
        text.len() > 0,
    ensures
        escaped(text) == escape_byte(text[0]) + escaped(text.drop_first()),
    decreases text.len(),
{
    if text.len() == 1 {
        assert(text.drop_last() =~= Seq::<u8>::empty());
        assert(text.drop_first() =~= Seq::<u8>::empty());
        assert(escaped(text.drop_last()) =~= Seq::<u8>::empty());
        assert(escaped(text) =~= escape_byte(text[0]) + escaped(text.drop_first()));
    } else {
        lemma_escaped_first(text.drop_last());
        assert(text.drop_last().drop_first() =~= text.drop_first().drop_last());
        assert(text.drop_last()[0] == text[0]);
        assert(text.drop_first().last() == text.last());
        assert(escaped(text) =~= escape_byte(text[0]) + (escaped(text.drop_first().drop_last())
            + escape_byte(text.last())));
    }
}

/// A hexadecimal digit that was written reads back as its value.
proof fn lemma_hex_digit_value(d: int)
    requires
        0 <= d < 16,
    ensures
        hex_value(hex_digit(d)) == Some(d),
{
}

/// Whether `text` is UTF-8 text: one character after the other, each a byte
/// below 0x80 or a sequence of two to four bytes.
pub open spec fn well_encoded(text: Seq<u8>) -> bool
    decreases text.len(),
{
    if text.len() == 0 {
        true
    } else if text[0] < 0x80 {
        well_encoded(text.drop_first())
    } else {
        match sequence_len(text, 0) {
            Some(len) => well_encoded(text.subrange(len, text.len() as int)),
            None => false,
        }
    }
}

/// The escaped form of two texts, one after the other, is the escaped form
/// of the first followed by that of the second.
proof fn lemma_escaped_concat(first: Seq<u8>, second: Seq<u8>)
    ensures
        escaped(first + second) == escaped(first) + escaped(second),
    decreases second.len(),
{
    if second.len() == 0 {
        assert(first + second =~= first);
        assert(escaped(first) + escaped(second) =~= escaped(first));
    } else {
        let all = first + second;
        assert(all.drop_last() =~= first + second.drop_last());
        assert(all.last() == second.last());
        lemma_escaped_concat(first, second.drop_last());
        assert(escaped(all) =~= escaped(first) + (escaped(second.drop_last()) + escape_byte(
            second.last(),
        )));
    }
}

/// Bytes from 0x80 on are written as they are.
proof fn lemma_escaped_high(bytes: Seq<u8>)
    requires
        forall|i: int| 0 <= i < bytes.len() ==> bytes[i] >= 0x80,
    ensures
        escaped(bytes) == bytes,
    decreases bytes.len(),
{
    if bytes.len() > 0 {
        lemma_escaped_high(bytes.drop_last());
        assert(escaped(bytes) =~= bytes.drop_last() + seq![bytes.last()]);
        assert(bytes.drop_last() + seq![bytes.last()] =~= bytes);
    }
}

/// The bytes of a UTF-8 sequence are all from 0x80 on, and the sequence is
/// found alike wherever the same bytes stand.
proof fn lemma_sequence_stands(text: Seq<u8>, doc: Seq<u8>, pos: int)
    requires
        sequence_len(text, 0) is Some,
        stands_at(doc, pos, text.subrange(0, sequence_len(text, 0).unwrap())),
    ensures
        sequence_len(doc, pos) == sequence_len(text, 0),
        doc[pos] >= 0x80,
        forall|i: int|
            0 <= i < sequence_len(text, 0).unwrap() ==> #[trigger] text[i] >= 0x80,
        doc.subrange(pos, pos + sequence_len(text, 0).unwrap()) == text.subrange(
            0,
            sequence_len(text, 0).unwrap(),
        ),
{
    let len = sequence_len(text, 0).unwrap();
    let unit = text.subrange(0, len);
    assert(doc[pos + 0] == unit[0]);
    assert(doc[pos + 1] == unit[1]);
    if len >= 3 {
        assert(doc[pos + 2] == unit[2]);
    }
    if len >= 4 {
        assert(doc[pos + 3] == unit[3]);
    }
    assert(doc.subrange(pos, pos + len) =~= unit) by {
        assert forall|i: int| 0 <= i < len implies doc.subrange(pos, pos + len)[i] == unit[i] by {
            assert(doc[pos + i] == unit[i]);
        }
    }
}

/// The escaped form of one byte below 0x80, where it stands, reads back as
/// that byte.
proof fn lemma_escape_reads_back(doc: Seq<u8>, pos: int, b: u8)
    requires
        b < 0x80,
        stands_at(doc, pos, escape_byte(b)),
    ensures
        piece_at(doc, pos) == Piece::Text(seq![b], pos + escape_byte(b).len()),
{
    reveal(piece_at);
    let esc = escape_byte(b);
    assert(doc[pos] == esc[0]);
    if b == 0x22 || b == 0x5c || b == 0x08 || b == 0x0c || b == 0x0a || b == 0x0d || b == 0x09 {
        assert(doc[pos + 1] == esc[1]);
        assert(short_escape(esc[1]) == Some(b));
        assert(unescape(doc, pos) == Some((seq![b], pos + 2)));
    } else if b < 0x20 {
        assert(doc[pos + 1] == esc[1]);
        assert(doc[pos + 2] == esc[2]);
        assert(doc[pos + 3] == esc[3]);
        assert(doc[pos + 4] == esc[4]);
        assert(doc[pos + 5] == esc[5]);
        lemma_hex_digit_value(b as int / 16);
        lemma_hex_digit_value(b as int % 16);
        assert(hex_value(0x30u8) == Some(0int));
        assert(hex4(doc, pos + 2) == Some(b as int));
        assert(utf8(b as int) =~= seq![b]);
        assert(unicode_escape(doc, pos) == Some((seq![b], pos + 6)));
        assert(unescape(doc, pos) == Some((seq![b], pos + 6)));
    } else {
    }
}

/// A text that was written between quotes reads back as it was: where the
/// escaped form of UTF-8 text stands, followed by the closing quote, the
/// string read from there is the text, and it ends behind that quote.
pub proof fn lemma_quoted_reads_back(doc: Seq<u8>, pos: int, text: Seq<u8>)
    requires
        well_encoded(text),
        stands_at(doc, pos, escaped(text) + seq![0x22u8]),
    ensures
        string_from(doc, pos) == Ok::<(Seq<u8>, int), ParseError>(
            (text, pos + escaped(text).len() + 1),
        ),
    decreases text.len(),
{
    let quote = seq![0x22u8];
    if text.len() == 0 {
        assert(escaped(text) =~= Seq::<u8>::empty());
        assert((escaped(text) + quote)[0] == 0x22u8);
        assert(doc[pos] == 0x22u8);
        assert(piece_at(doc, pos) == Piece::Close) by {
            reveal(piece_at);
        }
        assert(text =~= Seq::<u8>::empty());
    } else {
        let len = if text[0] < 0x80 {
            1int
        } else {
            sequence_len(text, 0).unwrap()
        };
        let unit = text.subrange(0, len);
        let rest = text.subrange(len, text.len() as int);
        assert(unit + rest =~= text);
        assert(text[0] < 0x80 ==> rest =~= text.drop_first());
        lemma_escaped_concat(unit, rest);
        let written = escaped(unit);
        assert(escaped(text) + quote =~= written + (escaped(rest) + quote));
        lemma_stands_split(doc, pos, written, escaped(rest) + quote);
        if text[0] < 0x80 {
            assert(unit =~= seq![text[0]]);
            assert(unit.drop_last() =~= Seq::<u8>::empty());
            assert(escaped(unit.drop_last()) =~= Seq::<u8>::empty());
            assert(written =~= escape_byte(text[0]));
            lemma_escape_reads_back(doc, pos, text[0]);
        } else {
            lemma_sequence_bytes_high(text);
            lemma_escaped_high(unit);
            lemma_sequence_stands(text, doc, pos);
            assert(piece_at(doc, pos) == Piece::Text(unit, pos + len)) by {
                reveal(piece_at);
            }
        }
        lemma_quoted_reads_back(doc, pos + written.len(), rest);
        assert(escaped(text).len() == written.len() + escaped(rest).len());
    }
}

/// The bytes of a UTF-8 sequence are all from 0x80 on.
proof fn lemma_sequence_bytes_high(text: Seq<u8>)
    requires
        sequence_len(text, 0) is Some,
    ensures
        forall|i: int|
            0 <= i < text.subrange(0, sequence_len(text, 0).unwrap()).len() ==> text.subrange(
                0,
                sequence_len(text, 0).unwrap(),
            )[i] >= 0x80,
{
}

/// Whether a number can end in front of `c`: at the end of the input, or in
/// front of a byte that continues no number.
pub open spec fn ends_number(c: Option<u8>) -> bool {
    match c {
        None => true,
        Some(b) => !is_digit(b) && b != 0x2e && b != 0x65 && b != 0x45,
    }
}

/// Whether `a` from `pa` and `b` from `pb` hold the same `len` bytes.
pub open spec fn same_bytes(a: Seq<u8>, pa: int, b: Seq<u8>, pb: int, len: int) -> bool {
    &&& 0 <= pa
    &&& 0 <= pb
    &&& 0 <= len
    &&& pa + len <= a.len()
    &&& pb + len <= b.len()
    &&& forall|i: int| pa <= i < pa + len ==> #[trigger] a[i] == b[i + (pb - pa)]
}

/// Where two inputs hold the same bytes, a run of digits inside them has the
/// same length in both, if no digit follows the bytes in the second.
proof fn lemma_digits_agree(a: Seq<u8>, pa: int, b: Seq<u8>, pb: int, len: int, k: int)
    requires
        same_bytes(a, pa, b, pb, len),
        0 <= k <= len,
        digits_end(a, pa + k) <= pa + len,
        !digit_at(b, pb + len),
    ensures
        digits_end(b, pb + k) - pb == digits_end(a, pa + k) - pa,
    decreases len - k,
{
    lemma_digits_end_bounds(a, pa + k);
    if k < len {
        assert(a[pa + k] == b[pb + k]);
        if digit_at(a, pa + k) {
            lemma_digits_end_bounds(a, pa + k + 1);
            lemma_digits_agree(a, pa, b, pb, len, k + 1);
        }
    }
}

/// Where a number ends depends on its own bytes and on the one behind it
/// alone: where two inputs hold the same bytes and the first holds a number
/// in exactly these, so does the second, if what follows there ends a number.
pub proof fn lemma_number_agrees(a: Seq<u8>, pa: int, b: Seq<u8>, pb: int, len: int)
    requires
        same_bytes(a, pa, b, pb, len),
        number_end(a, pa) == Ok::<int, ParseError>(pa + len),
        ends_number(at(b, pb + len)),
    ensures
        number_end(b, pb) == Ok::<int, ParseError>(pb + len),
        len >= 1,
{
    let first = if at(a, pa) == Some(0x2du8) {
        pa + 1
    } else {
        pa
    };
    let integer = integer_end(a, first).unwrap();
    let fraction = fraction_end(a, integer).unwrap();
    lemma_digits_end_bounds(a, first);
    lemma_digits_end_bounds(a, integer + 1);
    lemma_digits_end_bounds(a, exponent_digits(a, fraction));
    assert(first < integer <= fraction <= pa + len);
    assert(a[pa] == b[pb]);
    let shift = pb - pa;
    assert(a[first] == b[first + shift]);
    // the integer part
    if a[first] == 0x30 {
        if first + 1 < pa + len {
            assert(a[first + 1] == b[first + 1 + shift]);
        }
    } else {
        lemma_digits_agree(a, pa, b, pb, len, first - pa);
    }
    assert(integer_end(b, first + shift) == Ok::<int, ParseError>(integer + shift));
    // the fraction
    if integer < pa + len {
        assert(a[integer] == b[integer + shift]);
    }
    if at(a, integer) == Some(0x2eu8) {
        assert(integer + 1 < fraction);
        assert(a[integer + 1] == b[integer + 1 + shift]);
        lemma_digits_agree(a, pa, b, pb, len, integer + 1 - pa);
    }
    assert(fraction_end(b, integer + shift) == Ok::<int, ParseError>(fraction + shift));
    // the exponent
    if fraction < pa + len {
        assert(a[fraction] == b[fraction + shift]);
    }
    if at(a, fraction) == Some(0x65u8) || at(a, fraction) == Some(0x45u8) {
        let digits = exponent_digits(a, fraction);
        assert(digits < pa + len);
        assert(a[fraction + 1] == b[fraction + 1 + shift]);
        assert(a[digits] == b[digits + shift]);
        assert(exponent_digits(b, fraction + shift) == digits + shift);
        lemma_digits_agree(a, pa, b, pb, len, digits - pa);
    }
    assert(exponent_end(b, fraction + shift) == Ok::<int, ParseError>(pb + len));
}

/// The bytes that the parser takes for a number are a number by themselves.
pub proof fn lemma_number_text_is_number(s: Seq<u8>, pos: int, end: int)
    requires
        0 <= pos,
        number_end(s, pos) == Ok::<int, ParseError>(end),
    ensures
        pos < end <= s.len(),
        is_number(s.subrange(pos, end)),
{
    let first = if at(s, pos) == Some(0x2du8) {
        pos + 1
    } else {
        pos
    };
    let integer = integer_end(s, first).unwrap();
    let fraction = fraction_end(s, integer).unwrap();
    lemma_digits_end_bounds(s, first);
    lemma_digits_end_bounds(s, integer + 1);
    lemma_digits_end_bounds(s, exponent_digits(s, fraction));
    assert(first < integer <= fraction <= end <= s.len());
    let text = s.subrange(pos, end);
    lemma_number_agrees(s, pos, text, 0, end - pos);
}

/// Whether the text that `ev` carries can be read back: a number event
/// carries a number, a string or a key carries UTF-8 text.
pub open spec fn sound(ev: EventView) -> bool {
    match ev {
        EventView::Number(text) => is_number(text),
        EventView::String(text) => well_encoded(text),
        EventView::Key(text) => well_encoded(text),
        _ => true,
    }
}

/// Whether every event of `events` is sound.
pub open spec fn all_sound(events: Seq<EventView>) -> bool {
    forall|i: int| 0 <= i < events.len() ==> sound(#[trigger] events[i])
}

/// What holds of every state that a stream of allowed events reaches: a key
/// that awaits its value is a child of an open object, and once the top-level
/// value is complete nothing is open.
pub open spec fn well_formed(st: State) -> bool {
    &&& st.after_key ==> st.frames.len() > 0 && st.frames.last().kind == Kind::Object
        && st.frames.last().has_child
    &&& st.done ==> st.frames.len() == 0 && !st.after_key
}

/// An allowed event leads from a well-formed state to a well-formed state.
pub proof fn lemma_advance_well_formed(st: State, ev: EventView)
    requires
        well_formed(st),
        allowed(st, ev),
    ensures
        well_formed(advance(st, ev)),
{
}

/// Where a chunk of whitespace stands, the input is blank.
proof fn lemma_line_break_stands_blank(doc: Seq<u8>, pos: int, size: nat, depth: nat)
    requires
        stands_at(doc, pos, line_break(size, depth)),
    ensures
        blank(doc, pos, pos + line_break(size, depth).len()),
        line_break(size, depth).len() >= 1,
        doc[pos] == 0x0au8,
{
    let chunk = line_break(size, depth);
    lemma_line_break_is_blank(size, depth);
    assert(doc[pos + 0] == chunk[0]);
    assert forall|i: int| pos <= i < pos + chunk.len() implies is_ws(#[trigger] doc[i]) by {
        assert(doc[pos + (i - pos)] == chunk[i - pos]);
    }
}

/// The text of a value starts with a byte that is neither whitespace nor a
/// comma nor a closing bracket.
proof fn lemma_token_first(ev: EventView)
    requires
        starts_value(ev),
        sound(ev),
    ensures
        token(ev).len() >= 1,
        !is_ws(token(ev)[0]),
        token(ev)[0] != 0x2c,
        token(ev)[0] != 0x5d,
        token(ev)[0] != 0x7d,
{
    match ev {
        EventView::Number(number) => {
            let first = if at(number, 0) == Some(0x2du8) {
                1int
            } else {
                0int
            };
            assert(digit_at(number, first));
        },
        _ => {},
    }
}

/// The text of a value, where it stands, reads back as that value.
proof fn lemma_value_reads_back(doc: Seq<u8>, pos: int, ev: EventView)
    requires
        starts_value(ev),
        sound(ev),
        stands_at(doc, pos, token(ev)),
        ev is Number ==> ends_number(at(doc, pos + token(ev).len())),
    ensures
        value_at(doc, pos) == Ok::<(EventView, int), ParseError>((ev, pos + token(ev).len())),
{
    let word = token(ev);
    lemma_token_first(ev);
    assert(doc[pos + 0] == word[0]);
    match ev {
        EventView::String(content) => {
            assert(word =~= seq![0x22u8] + (escaped(content) + seq![0x22u8]));
            lemma_stands_split(doc, pos, seq![0x22u8], escaped(content) + seq![0x22u8]);
            lemma_quoted_reads_back(doc, pos + 1, content);
        },
        EventView::Number(number) => {
            assert(same_bytes(number, 0, doc, pos, number.len() as int)) by {
                assert forall|i: int| 0 <= i < number.len() implies #[trigger] number[i] == doc[i
                    + pos] by {
                    assert(doc[pos + i] == word[i]);
                }
            }
            lemma_number_agrees(number, 0, doc, pos, number.len() as int);
            let first = if at(number, 0) == Some(0x2du8) {
                1int
            } else {
                0int
            };
            assert(digit_at(number, first));
            assert(doc.subrange(pos, pos + number.len()) =~= number) by {
                assert forall|i: int| 0 <= i < number.len() implies doc.subrange(
                    pos,
                    pos + number.len(),
                )[i] == number[i] by {
                    assert(doc[pos + i] == word[i]);
                }
            }
        },
        EventView::Null | EventView::Bool(_) => {
            assert(doc.subrange(pos, pos + word.len()) =~= word) by {
                assert forall|i: int| 0 <= i < word.len() implies doc.subrange(
                    pos,
                    pos + word.len(),
                )[i] == word[i] by {
                    assert(doc[pos + i] == word[i]);
                }
            }
            assert(word_at(doc, pos, word));
        },
        _ => {},
    }
}

/// The text of a key, where it stands, reads back as that key; the parser
/// stops behind the colon, in front of one space.
proof fn lemma_key_reads_back(doc: Seq<u8>, pos: int, name: Seq<u8>)
    requires
        well_encoded(name),
        stands_at(doc, pos, token(EventView::Key(name))),
    ensures
        key_at(doc, pos) == Ok::<(EventView, int), ParseError>(
            (EventView::Key(name), pos + token(EventView::Key(name)).len() - 1),
        ),
        doc[pos + token(EventView::Key(name)).len() - 1] == 0x20u8,
{
    let word = token(EventView::Key(name));
    let body = escaped(name) + seq![0x22u8];
    assert(word =~= seq![0x22u8] + (body + seq![0x3au8, 0x20u8]));
    lemma_stands_split(doc, pos, seq![0x22u8], body + seq![0x3au8, 0x20u8]);
    lemma_stands_split(doc, pos + 1, body, seq![0x3au8, 0x20u8]);
    lemma_quoted_reads_back(doc, pos + 1, name);
    assert(doc[pos + 0] == word[0]);
    let colon = pos + 1 + body.len();
    assert(doc[colon + 0] == seq![0x3au8, 0x20u8][0]);
    assert(doc[colon + 1] == seq![0x3au8, 0x20u8][1]);
    assert(skip_ws(doc, colon) == colon);
}

/// The position at which the parser stands after it has read the text of
/// `ev`, which starts at `pos`: behind the text, but for a key, whose text
/// ends with a space that the parser leaves.
pub open spec fn read_end(pos: int, st: State, ev: EventView, size: nat) -> int {
    pos + text(st, ev, size).len() - (if ev is Key {
        1int
    } else {
        0int
    })
}

/// The step lemma for a value that starts where nothing precedes it: at the
/// top level, or behind a key.
proof fn lemma_step_reads_plain_value(
    doc: Seq<u8>,
    pos: int,
    start: int,
    st: State,
    ev: EventView,
    size: nat,
)
    requires
        allowed(st, ev),
        sound(ev),
        starts_value(ev),
        st.after_key || st.frames.len() == 0,
        blank(doc, pos, start),
        stands_at(doc, start, text(st, ev, size)),
        ev is Number ==> ends_number(at(doc, start + text(st, ev, size).len())),
    ensures
        step(doc, pos, st) == Ok::<Option<(EventView, int)>, ParseError>(
            Some((ev, start + text(st, ev, size).len())),
        ),
        pos < start + text(st, ev, size).len() <= doc.len(),
{
    let word = token(ev);
    lemma_token_first(ev);
    assert(text(st, ev, size) =~= word);
    assert(doc[start + 0] == word[0]);
    lemma_skip_blank(doc, pos, start);
    lemma_value_reads_back(doc, start, ev);
}

/// Where the text that precedes a child of a container stands behind
/// whitespace, the parser finds the child behind it: `child_at` is asked at
/// the position where the text of the child itself starts.
proof fn lemma_child_is_found(
    doc: Seq<u8>,
    pos: int,
    start: int,
    st: State,
    size: nat,
    word: Seq<u8>,
)
    requires
        !st.done,
        !st.after_key,
        st.frames.len() > 0,
        blank(doc, pos, start),
        stands_at(doc, start, separator(st) + line_break(size, st.frames.len()) + word),
        word.len() >= 1,
        !is_ws(word[0]),
        word[0] != 0x2c,
        word[0] != closer(st.frames.last().kind),
    ensures
        step(doc, pos, st) == match child_at(
            doc,
            start + separator(st).len() + line_break(size, st.frames.len()).len(),
            st.frames.last().kind,
        ) {
            Ok(found) => Ok::<Option<(EventView, int)>, ParseError>(Some(found)),
            Err(e) => Err::<Option<(EventView, int)>, ParseError>(e),
        },
        stands_at(
            doc,
            start + separator(st).len() + line_break(size, st.frames.len()).len(),
            word,
        ),
        pos <= start + separator(st).len() + line_break(size, st.frames.len()).len(),
{
    let frame = st.frames.last();
    let comma = separator(st);
    let gap = line_break(size, st.frames.len());
    assert(comma + gap + word =~= comma + (gap + word));
    lemma_stands_split(doc, start, comma, gap + word);
    lemma_stands_split(doc, start + comma.len(), gap, word);
    let first = start + comma.len();
    let here = first + gap.len();
    lemma_line_break_stands_blank(doc, first, size, st.frames.len());
    assert(doc[here + 0] == word[0]);
    if frame.has_child {
        assert(doc[start + 0] == comma[0]);
        lemma_skip_blank(doc, pos, start);
        lemma_skip_blank(doc, start + 1, here);
        assert(inside_at(doc, start, frame) == child_at(doc, here, frame.kind));
    } else {
        lemma_skip_blank(doc, pos, here);
        assert(inside_at(doc, here, frame) == child_at(doc, here, frame.kind));
    }
}

/// The step lemma for a value that is an element of an array.
proof fn lemma_step_reads_element(
    doc: Seq<u8>,
    pos: int,
    start: int,
    st: State,
    ev: EventView,
    size: nat,
)
    requires
        allowed(st, ev),
        sound(ev),
        starts_value(ev),
        !st.after_key,
        st.frames.len() > 0,
        blank(doc, pos, start),
        stands_at(doc, start, text(st, ev, size)),
        ev is Number ==> ends_number(at(doc, start + text(st, ev, size).len())),
    ensures
        step(doc, pos, st) == Ok::<Option<(EventView, int)>, ParseError>(
            Some((ev, start + text(st, ev, size).len())),
        ),
        pos < start + text(st, ev, size).len() <= doc.len(),
{
    let word = token(ev);
    let here = start + separator(st).len() + line_break(size, st.frames.len()).len();
    lemma_token_first(ev);
    assert(text(st, ev, size) =~= separator(st) + line_break(size, st.frames.len()) + word);
    lemma_child_is_found(doc, pos, start, st, size, word);
    lemma_value_reads_back(doc, here, ev);
}

/// The step lemma for a key.
proof fn lemma_step_reads_key(
    doc: Seq<u8>,
    pos: int,
    start: int,
    st: State,
    ev: EventView,
    size: nat,
)
    requires
        allowed(st, ev),
        ev is Key,
        sound(ev),
        blank(doc, pos, start),
        stands_at(doc, start, text(st, ev, size)),
    ensures
        step(doc, pos, st) == Ok::<Option<(EventView, int)>, ParseError>(
            Some((ev, start + text(st, ev, size).len() - 1)),
        ),
        pos < start + text(st, ev, size).len() - 1 < doc.len(),
        doc[start + text(st, ev, size).len() - 1] == 0x20u8,
{
    let word = token(ev);
    let here = start + separator(st).len() + line_break(size, st.frames.len()).len();
    assert(word[0] == 0x22u8);
    assert(text(st, ev, size) =~= separator(st) + line_break(size, st.frames.len()) + word);
    lemma_child_is_found(doc, pos, start, st, size, word);
    lemma_key_reads_back(doc, here, ev->Key_0);
}

/// The step lemma for the end of a container.
proof fn lemma_step_reads_close(
    doc: Seq<u8>,
    pos: int,
    start: int,
    st: State,
    ev: EventView,
    size: nat,
)
    requires
        allowed(st, ev),
        ev is EndArray || ev is EndObject,
        blank(doc, pos, start),
        stands_at(doc, start, text(st, ev, size)),
    ensures
        step(doc, pos, st) == Ok::<Option<(EventView, int)>, ParseError>(
            Some((ev, start + text(st, ev, size).len())),
        ),
        pos < start + text(st, ev, size).len() <= doc.len(),
{
    let word = token(ev);
    let frame = st.frames.last();
    let gap = closing_lead(st, size);
    assert(text(st, ev, size) =~= gap + word);
    lemma_stands_split(doc, start, gap, word);
    let here = start + gap.len();
    assert(doc[here + 0] == word[0]);
    if frame.has_child {
        lemma_line_break_stands_blank(doc, start, size, (st.frames.len() - 1) as nat);
    }
    lemma_skip_blank(doc, pos, here);
    assert(inside_at(doc, here, frame) == Ok::<(EventView, int), ParseError>(
        (closing(frame.kind), here + 1),
    ));
}

/// One step of the parser reads back the text of one event: where the text of
/// an allowed event stands behind whitespace, the next event that the parser
/// yields in the same state is that event.
pub proof fn lemma_step_reads_back(
    doc: Seq<u8>,
    pos: int,
    start: int,
    st: State,
    ev: EventView,
    size: nat,
)
    requires
        well_formed(st),
        allowed(st, ev),
        sound(ev),
        blank(doc, pos, start),
        stands_at(doc, start, text(st, ev, size)),
        ev is Number ==> ends_number(at(doc, start + text(st, ev, size).len())),
    ensures
        step(doc, pos, st) == Ok::<Option<(EventView, int)>, ParseError>(
            Some((ev, read_end(start, st, ev, size))),
        ),
        pos < read_end(start, st, ev, size) <= doc.len(),
        blank(doc, read_end(start, st, ev, size), start + text(st, ev, size).len()),
{
    if starts_value(ev) {
        if st.after_key || st.frames.len() == 0 {
            lemma_step_reads_plain_value(doc, pos, start, st, ev, size);
        } else {
            lemma_step_reads_element(doc, pos, start, st, ev, size);
        }
    } else if ev is Key {
        lemma_step_reads_key(doc, pos, start, st, ev, size);
    } else {
        lemma_step_reads_close(doc, pos, start, st, ev, size);
    }
}

/// Whether a value has just ended in state `st`: the top-level value is
/// complete, or the innermost open container has a child and awaits no value.
pub open spec fn behind_value(st: State) -> bool {
    st.done || (st.frames.len() > 0 && st.frames.last().has_child && !st.after_key)
}

/// Behind a value the text goes on with a comma or a newline, neither of
/// which continues a number.
proof fn lemma_text_behind_value(st: State, events: Seq<EventView>, size: nat)
    requires
        well_formed(st),
        behind_value(st),
        accepted(st, events),
        run(st, events).done,
    ensures
        ends_number(Some((rendered(st, events, size) + seq![0x0au8])[0])),
{
    let all = rendered(st, events, size) + seq![0x0au8];
    if events.len() == 0 {
        assert(rendered(st, events, size) =~= Seq::<u8>::empty());
        assert(all[0] == 0x0au8);
    } else {
        let ev = events[0];
        let chunk = text(st, ev, size);
        let depth = st.frames.len();
        lemma_line_break_is_blank(size, depth);
        lemma_line_break_is_blank(size, (depth - 1) as nat);
        assert(separator(st) =~= seq![0x2cu8]);
        assert(chunk.len() >= 1 && (chunk[0] == 0x2cu8 || chunk[0] == 0x0au8)) by {
            if ev is EndArray || ev is EndObject {
                assert(chunk[0] == line_break(size, (depth - 1) as nat)[0]);
            } else {
                assert(chunk[0] == separator(st)[0]);
            }
        }
        assert(all[0] == chunk[0]);
    }
}

/// The parser reads back what the formatter wrote: where the text of a
/// stream of events that completes the document stands behind whitespace,
/// followed by a newline, the events that the parser yields from there are
/// those events.
pub proof fn lemma_events_read_back(
    doc: Seq<u8>,
    pos: int,
    start: int,
    st: State,
    events: Seq<EventView>,
    size: nat,
)
    requires
        well_formed(st),
        accepted(st, events),
        all_sound(events),
        run(st, events).done,
        blank(doc, pos, start),
        stands_at(doc, start, rendered(st, events, size) + seq![0x0au8]),
    ensures
        events_from(doc, pos, st) == Ok::<Seq<EventView>, ParseError>(events),
    decreases events.len(),
{
    lemma_events_unfold(doc, pos, st);
    if events.len() == 0 {
        assert(events =~= Seq::<EventView>::empty());
    } else {
        let ev = events[0];
        let rest = events.drop_first();
        let next = advance(st, ev);
        let chunk = text(st, ev, size);
        let tail = rendered(next, rest, size) + seq![0x0au8];
        assert(rendered(st, events, size) + seq![0x0au8] =~= chunk + tail);
        lemma_stands_split(doc, start, chunk, tail);
        lemma_advance_well_formed(st, ev);
        assert(sound(ev));
        assert(all_sound(rest)) by {
            assert forall|i: int| 0 <= i < rest.len() implies sound(#[trigger] rest[i]) by {
                assert(rest[i] == events[i + 1]);
            }
        }
        if ev is Number {
            lemma_text_behind_value(next, rest, size);
            assert(doc[start + chunk.len() + 0] == tail[0]);
        }
        lemma_step_reads_back(doc, pos, start, st, ev, size);
        lemma_events_read_back(
            doc,
            read_end(start, st, ev, size),
            start + chunk.len(),
            next,
            rest,
            size,
        );
        assert(seq![ev] + rest =~= events);
    }
}

/// The UTF-8 encoding of a character, in front of UTF-8 text, is UTF-8 text.
proof fn lemma_utf8_well_encoded(cp: int, rest: Seq<u8>)
    requires
        0 <= cp < 0x110000,
        !(0xd800 <= cp < 0xe000),
        well_encoded(rest),
    ensures
        well_encoded(utf8(cp) + rest),
{
    let bytes = utf8(cp);
    let all = bytes + rest;
    assert(all.subrange(bytes.len() as int, all.len() as int) =~= rest);
    assert(all[0] == bytes[0]);
    if cp < 0x80 {
        assert(all.drop_first() =~= rest);
    } else {
        assert(all[1] == bytes[1]);
        if cp >= 0x800 {
            assert(all[2] == bytes[2]);
        }
        if cp >= 0x10000 {
            assert(all[3] == bytes[3]);
        }
        assert(sequence_len(all, 0) == Some(bytes.len() as int));
    }
}

/// One byte below 0x80, in front of UTF-8 text, is UTF-8 text.
proof fn lemma_low_well_encoded(b: u8, rest: Seq<u8>)
    requires
        b < 0x80,
        well_encoded(rest),
    ensures
        well_encoded(seq![b] + rest),
{
    assert((seq![b] + rest).drop_first() =~= rest);
}

/// The bytes that a piece of a string stands for, in front of UTF-8 text, are
/// UTF-8 text.
proof fn lemma_piece_well_encoded(s: Seq<u8>, pos: int, rest: Seq<u8>)
    requires
        0 <= pos < s.len(),
        piece_at(s, pos) is Text,
        well_encoded(rest),
    ensures
        well_encoded(piece_at(s, pos)->Text_0 + rest),
{
    reveal(piece_at);
    let bytes = piece_at(s, pos)->Text_0;
    if s[pos] == 0x5c {
        let letter = s[pos + 1];
        if letter == 0x75 {
            let unit = hex4(s, pos + 2).unwrap();
            if crate::scan::is_high_surrogate(unit) {
                let low = hex4(s, pos + 8).unwrap();
                lemma_utf8_well_encoded(crate::scan::paired(unit, low), rest);
            } else {
                lemma_utf8_well_encoded(unit, rest);
            }
        } else {
            lemma_low_well_encoded(short_escape(letter).unwrap(), rest);
        }
    } else if s[pos] < 0x80 {
        lemma_low_well_encoded(s[pos], rest);
    } else {
        let len = sequence_len(s, pos).unwrap();
        let all = bytes + rest;
        assert(crate::window::agree(s, all, -pos, pos, pos + len)) by {
            assert forall|i: int| pos <= i < pos + len implies #[trigger] at(s, i) == at(
                all,
                i + (-pos),
            ) by {
                assert(all[i - pos] == bytes[i - pos]);
            }
        }
        crate::window::lemma_sequence_agrees(s, all, -pos, pos, pos + len);
        assert(all.subrange(len, all.len() as int) =~= rest);
    }
}

/// The text of a string that the parser reads is UTF-8 text.
pub proof fn lemma_string_well_encoded(s: Seq<u8>, pos: int)
    requires
        0 <= pos <= s.len(),
        string_from(s, pos) is Ok,
    ensures
        well_encoded(string_from(s, pos).unwrap().0),
    decreases s.len() - pos,
{
    lemma_piece_moves(s, pos);
    match piece_at(s, pos) {
        Piece::Text(bytes, next) => {
            lemma_string_well_encoded(s, next);
            lemma_piece_well_encoded(s, pos, string_from(s, next).unwrap().0);
        },
        _ => {},
    }
}

/// What one step of the parser yields: an event that is allowed in the state
/// and sound, and a position further on in the input.
pub proof fn lemma_step_yields(s: Seq<u8>, pos: int, st: State)
    requires
        0 <= pos <= s.len(),
        step(s, pos, st) matches Ok(Some(_)),
    ensures
        allowed(st, step(s, pos, st).unwrap().unwrap().0),
        sound(step(s, pos, st).unwrap().unwrap().0),
        pos < step(s, pos, st).unwrap().unwrap().1 <= s.len(),
{
    let start = skip_ws(s, pos);
    lemma_skip_ws_bounds(s, pos);
    if st.after_key || st.frames.len() == 0 {
        lemma_value_yields(s, start);
    } else {
        let frame = st.frames.last();
        if s[start] == closer(frame.kind) {
        } else {
            let here = if frame.has_child {
                skip_ws(s, start + 1)
            } else {
                start
            };
            lemma_skip_ws_bounds(s, start + 1);
            match frame.kind {
                Kind::Array => {
                    lemma_value_yields(s, here);
                },
                Kind::Object => {
                    lemma_string_bounds(s, here + 1);
                    lemma_string_well_encoded(s, here + 1);
                    lemma_skip_ws_bounds(s, string_from(s, here + 1).unwrap().1);
                },
            }
        }
    }
}

/// What reading a value yields: a sound event that starts a value, and a
/// position further on in the input.
proof fn lemma_value_yields(s: Seq<u8>, pos: int)
    requires
        0 <= pos,
        value_at(s, pos) is Ok,
    ensures
        starts_value(value_at(s, pos).unwrap().0),
        sound(value_at(s, pos).unwrap().0),
        pos < value_at(s, pos).unwrap().1 <= s.len(),
{
    let c = s[pos];
    if c == 0x22 {
        lemma_string_bounds(s, pos + 1);
        lemma_string_well_encoded(s, pos + 1);
    } else if c == 0x2d || is_digit(c) {
        lemma_number_text_is_number(s, pos, number_end(s, pos).unwrap());
    }
}

/// What holds of the events of a document that parses: each is allowed where
/// it comes, each is sound, and together they complete the document.
pub proof fn lemma_parsed_events(s: Seq<u8>, pos: int, st: State)
    requires
        0 <= pos <= s.len(),
        events_from(s, pos, st) is Ok,
    ensures
        accepted(st, events_from(s, pos, st).unwrap()),
        all_sound(events_from(s, pos, st).unwrap()),
        run(st, events_from(s, pos, st).unwrap()).done,
    decreases s.len() - pos,
{
    let events = events_from(s, pos, st).unwrap();
    lemma_events_unfold(s, pos, st);
    match step(s, pos, st) {
        Ok(Some((ev, next))) => {
            lemma_step_yields(s, pos, st);
            lemma_parsed_events(s, next, advance(st, ev));
            let rest = events_from(s, next, advance(st, ev)).unwrap();
            assert(events =~= seq![ev] + rest);
            assert(events.drop_first() =~= rest);
            assert forall|i: int| 0 <= i < events.len() implies sound(#[trigger] events[i]) by {
                if i > 0 {
                    assert(events[i] == rest[i - 1]);
                }
            }
        },
        _ => {
            assert(events =~= Seq::<EventView>::empty());
        },
    }
}

} // verus!
