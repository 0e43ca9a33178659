//! Windows: what the parser reads in a part of the input is what it reads in
//! the whole input at the same place, so a document may be handed over piece
//! by piece.

use vstd::prelude::*;
use crate::error::{failure, ParseError};
use crate::event::EventView;
use crate::grammar::{Frame, Kind, State};
use crate::parse::{child_at, decided, inside_at, key_at, step, value_at, LOOKAHEAD};
use crate::bounds::{
    lemma_child_bounds, lemma_digits_end_bounds, lemma_inside_bounds, lemma_key_bounds,
    lemma_number_parts_bounds, lemma_skip_ws_bounds, lemma_string_bounds, lemma_value_bounds,
};
use crate::scan::{
    at, digit_at, digits_end, exponent_digits, fraction_end, hex4, integer_end, is_ws,
    lemma_piece_moves, number_end, piece_at, sequence_len, skip_ws, string_from, unescape, word_at,
    Piece,
};

verus! {

/// Whether `b` holds, `shift` positions further on, what `a` holds at every
/// position from `from` up to `upto`: the same byte, or no byte where `a` has
/// ended.
pub open spec fn agree(a: Seq<u8>, b: Seq<u8>, shift: int, from: int, upto: int) -> bool {
    forall|i: int| from <= i < upto ==> #[trigger] at(a, i) == at(b, i + shift)
}

/// The failure `e`, `shift` positions further on.
pub open spec fn moved(e: ParseError, shift: int) -> ParseError {
    failure(e.kind, e.offset + shift)
}

/// Whitespace ends at the same place in two inputs that agree up to there.
pub proof fn lemma_skip_ws_agrees(a: Seq<u8>, b: Seq<u8>, shift: int, pos: int, upto: int)
    requires
        0 <= pos,
        0 <= pos + shift,
        agree(a, b, shift, pos, upto),
        skip_ws(a, pos) < upto,
    ensures
        skip_ws(b, pos + shift) == skip_ws(a, pos) + shift,
    decreases a.len() - pos,
{
    lemma_skip_ws_bounds(a, pos);
    assert(at(a, pos) == at(b, pos + shift));
    if pos < a.len() && is_ws(a[pos]) {
        lemma_skip_ws_agrees(a, b, shift, pos + 1, upto);
    }
}

/// A run of digits ends at the same place in two inputs that agree up to
/// there.
pub proof fn lemma_digits_end_agrees(a: Seq<u8>, b: Seq<u8>, shift: int, pos: int, upto: int)
    requires
        0 <= pos,
        0 <= pos + shift,
        agree(a, b, shift, pos, upto),
        digits_end(a, pos) < upto,
    ensures
        digits_end(b, pos + shift) == digits_end(a, pos) + shift,
    decreases a.len() - pos,
{
    lemma_digits_end_bounds(a, pos);
    assert(at(a, pos) == at(b, pos + shift));
    if digit_at(a, pos) {
        lemma_digits_end_agrees(a, b, shift, pos + 1, upto);
    }
}

/// The outcome `found` of reading a number, `shift` positions further on.
pub open spec fn moved_end(found: Result<int, ParseError>, shift: int) -> Result<int, ParseError> {
    match found {
        Ok(end) => Ok(end + shift),
        Err(e) => Err(moved(e, shift)),
    }
}

/// Whether reading a number that gave `found` looked at no position from
/// `upto` on: it looks at the position behind the number, and at the one
/// where it fails.
pub open spec fn number_within(found: Result<int, ParseError>, upto: int) -> bool {
    match found {
        Ok(end) => end < upto,
        Err(e) => e.offset < upto,
    }
}

/// A number is read alike in two inputs that agree as far as it was looked.
pub proof fn lemma_number_agrees_within(a: Seq<u8>, b: Seq<u8>, shift: int, pos: int, upto: int)
    requires
        0 <= pos,
        0 <= pos + shift,
        pos <= a.len() <= usize::MAX,
        b.len() <= usize::MAX,
        agree(a, b, shift, pos, upto),
        number_within(number_end(a, pos), upto),
    ensures
        number_end(b, pos + shift) == moved_end(number_end(a, pos), shift),
{
    let first = if at(a, pos) == Some(0x2du8) {
        pos + 1
    } else {
        pos
    };
    lemma_digits_end_bounds(a, first);
    lemma_number_parts_bounds(a, pos);
    assert(at(a, pos) == at(b, pos + shift));
    assert(at(a, first) == at(b, first + shift));
    if integer_end(a, first) is Ok {
        let integer = integer_end(a, first).unwrap();
        assert(at(a, first + 1) == at(b, first + 1 + shift));
        if a[first] != 0x30 {
            lemma_digits_end_agrees(a, b, shift, first, upto);
        }
        assert(integer_end(b, first + shift) == Ok::<int, ParseError>(integer + shift));
        assert(at(a, integer) == at(b, integer + shift));
        lemma_digits_end_bounds(a, integer + 1);
        if fraction_end(a, integer) is Ok {
            let fraction = fraction_end(a, integer).unwrap();
            if at(a, integer) == Some(0x2eu8) {
                assert(at(a, integer + 1) == at(b, integer + 1 + shift));
                lemma_digits_end_agrees(a, b, shift, integer + 1, upto);
            }
            assert(fraction_end(b, integer + shift) == Ok::<int, ParseError>(fraction + shift));
            assert(at(a, fraction) == at(b, fraction + shift));
            if at(a, fraction) == Some(0x65u8) || at(a, fraction) == Some(0x45u8) {
                let digits = exponent_digits(a, fraction);
                lemma_digits_end_bounds(a, digits);
                assert(at(a, fraction + 1) == at(b, fraction + 1 + shift));
                assert(at(a, digits) == at(b, digits + shift));
                assert(exponent_digits(b, fraction + shift) == digits + shift);
                if digit_at(a, digits) {
                    lemma_digits_end_agrees(a, b, shift, digits, upto);
                }
            }
        } else {
            assert(at(a, integer + 1) == at(b, integer + 1 + shift));
        }
    } else if digit_at(a, first) {
        assert(at(a, first + 1) == at(b, first + 1 + shift));
    }
}

/// Four hexadecimal digits are read alike in two inputs that agree on them.
proof fn lemma_hex4_agrees(a: Seq<u8>, b: Seq<u8>, shift: int, pos: int, upto: int)
    requires
        0 <= pos,
        0 <= pos + shift,
        agree(a, b, shift, pos, upto),
        pos + 4 <= upto,
    ensures
        hex4(b, pos + shift) == hex4(a, pos),
{
    assert(at(a, pos) == at(b, pos + shift));
    assert(at(a, pos + 1) == at(b, pos + 1 + shift));
    assert(at(a, pos + 2) == at(b, pos + 2 + shift));
    assert(at(a, pos + 3) == at(b, pos + 3 + shift));
}

/// The outcome `found` of reading an escape sequence, `shift` positions
/// further on.
pub open spec fn moved_escape(found: Option<(Seq<u8>, int)>, shift: int) -> Option<
    (Seq<u8>, int),
> {
    match found {
        Some((bytes, next)) => Some((bytes, next + shift)),
        None => None,
    }
}

/// An escape sequence is read alike in two inputs that agree on it, or, where
/// it is malformed, on the twelve bytes from its backslash on.
proof fn lemma_unescape_agrees(a: Seq<u8>, b: Seq<u8>, shift: int, pos: int, upto: int)
    requires
        0 <= pos,
        0 <= pos + shift,
        agree(a, b, shift, pos, upto),
        match unescape(a, pos) {
            Some((_, next)) => next <= upto,
            None => pos + LOOKAHEAD <= upto,
        },
    ensures
        unescape(b, pos + shift) == moved_escape(unescape(a, pos), shift),
        unescape(a, pos) matches Some((_, next)) ==> pos < next <= a.len(),
{
    assert(at(a, pos + 1) == at(b, pos + 1 + shift));
    if at(a, pos + 1) == Some(0x75u8) {
        if pos + 6 <= upto {
            lemma_hex4_agrees(a, b, shift, pos + 2, upto);
        }
        if hex4(a, pos + 2) is Some && crate::scan::is_high_surrogate(hex4(a, pos + 2).unwrap()) {
            assert(at(a, pos + 6) == at(b, pos + 6 + shift));
            assert(at(a, pos + 7) == at(b, pos + 7 + shift));
            lemma_hex4_agrees(a, b, shift, pos + 8, upto);
        }
    }
}

/// A UTF-8 sequence is read alike in two inputs that agree on the four bytes
/// in which it can stand.
pub proof fn lemma_sequence_agrees(a: Seq<u8>, b: Seq<u8>, shift: int, pos: int, upto: int)
    requires
        0 <= pos,
        0 <= pos + shift,
        agree(a, b, shift, pos, upto),
        match sequence_len(a, pos) {
            Some(len) => pos + len <= upto,
            None => pos + 4 <= upto,
        },
    ensures
        sequence_len(b, pos + shift) == sequence_len(a, pos),
        sequence_len(a, pos) matches Some(len) ==> b.subrange(pos + shift, pos + shift + len)
            == a.subrange(pos, pos + len),
{
    assert(at(a, pos) == at(b, pos + shift));
    if pos < a.len() {
        assert(at(a, pos + 1) == at(b, pos + 1 + shift));
        if a[pos] >= 0xe0 && pos + 1 < a.len() {
            assert(at(a, pos + 2) == at(b, pos + 2 + shift));
            if a[pos] >= 0xf0 && pos + 2 < a.len() {
                assert(at(a, pos + 3) == at(b, pos + 3 + shift));
            }
        }
    }
    if sequence_len(a, pos) is Some {
        let len = sequence_len(a, pos).unwrap();
        assert(b.subrange(pos + shift, pos + shift + len) =~= a.subrange(pos, pos + len));
    }
}

/// The outcome `found` of reading a string, `shift` positions further on.
pub open spec fn moved_string(found: Result<(Seq<u8>, int), ParseError>, shift: int) -> Result<
    (Seq<u8>, int),
    ParseError,
> {
    match found {
        Ok((text, end)) => Ok((text, end + shift)),
        Err(e) => Err(moved(e, shift)),
    }
}

/// Whether reading a string that gave `found` looked at no position from
/// `upto` on: it looks at the string's own bytes, and at the twelve from the
/// place where it fails.
pub open spec fn string_within(found: Result<(Seq<u8>, int), ParseError>, upto: int) -> bool {
    match found {
        Ok((_, end)) => end <= upto,
        Err(e) => e.offset + LOOKAHEAD <= upto,
    }
}

/// The piece `piece`, `shift` positions further on.
pub open spec fn moved_piece(piece: Piece, shift: int) -> Piece {
    match piece {
        Piece::Text(bytes, next) => Piece::Text(bytes, next + shift),
        _ => piece,
    }
}

/// Whether reading a piece at `pos` that gave `piece` looked at no position
/// from `upto` on.
pub open spec fn piece_within(piece: Piece, pos: int, upto: int) -> bool {
    match piece {
        Piece::Close => pos < upto,
        Piece::Text(_, next) => next <= upto,
        Piece::Bad(_) => pos + LOOKAHEAD <= upto,
    }
}

/// A piece of a string is read alike in two inputs that agree as far as it
/// was looked.
proof fn lemma_piece_agrees(a: Seq<u8>, b: Seq<u8>, shift: int, pos: int, upto: int)
    requires
        0 <= pos < a.len(),
        0 <= pos + shift,
        agree(a, b, shift, pos, upto),
        piece_within(piece_at(a, pos), pos, upto),
    ensures
        pos + shift < b.len(),
        piece_at(b, pos + shift) == moved_piece(piece_at(a, pos), shift),
{
    reveal(piece_at);
    lemma_piece_moves(a, pos);
    assert(at(a, pos) == at(b, pos + shift));
    if a[pos] == 0x5c {
        lemma_unescape_agrees(a, b, shift, pos, upto);
    } else if a[pos] >= 0x80 {
        lemma_sequence_agrees(a, b, shift, pos, upto);
    }
}

/// A string is read alike in two inputs that agree as far as it was looked.
pub proof fn lemma_string_agrees(a: Seq<u8>, b: Seq<u8>, shift: int, pos: int, upto: int)
    requires
        0 <= pos <= a.len() <= usize::MAX,
        0 <= pos + shift <= b.len() <= usize::MAX,
        agree(a, b, shift, pos, upto),
        string_within(string_from(a, pos), upto),
    ensures
        string_from(b, pos + shift) == moved_string(string_from(a, pos), shift),
    decreases a.len() - pos,
{
    lemma_string_bounds(a, pos);
    assert(at(a, pos) == at(b, pos + shift));
    if pos < a.len() {
        lemma_piece_moves(a, pos);
        match piece_at(a, pos) {
            Piece::Text(bytes, next) => {
                lemma_string_bounds(a, next);
                lemma_piece_agrees(a, b, shift, pos, upto);
                lemma_piece_moves(b, pos + shift);
                lemma_string_agrees(a, b, shift, next, upto);
            },
            _ => {
                lemma_piece_agrees(a, b, shift, pos, upto);
            },
        }
    }
}

/// A word stands in both of two inputs or in neither, where they agree on the
/// bytes in which it would stand.
proof fn lemma_word_agrees(a: Seq<u8>, b: Seq<u8>, shift: int, pos: int, upto: int, word: Seq<u8>)
    requires
        0 <= pos <= a.len(),
        0 <= pos + shift <= b.len(),
        agree(a, b, shift, pos, upto),
        pos + word.len() <= upto,
    ensures
        word_at(b, pos + shift, word) == word_at(a, pos, word),
{
    let end = pos + word.len();
    if end <= a.len() {
        if word.len() > 0 {
            assert(at(a, end - 1) == at(b, end - 1 + shift));
        }
        let in_a = a.subrange(pos, end);
        let in_b = b.subrange(pos + shift, end + shift);
        assert(in_a =~= in_b) by {
            assert forall|i: int| 0 <= i < word.len() implies in_a[i] == in_b[i] by {
                assert(at(a, pos + i) == at(b, pos + i + shift));
            }
        }
    } else {
        assert(at(a, a.len() as int) == at(b, a.len() + shift));
    }
}

/// The outcome `found` of reading a value or a key, `shift` positions further
/// on.
pub open spec fn moved_read(found: Result<(EventView, int), ParseError>, shift: int) -> Result<
    (EventView, int),
    ParseError,
> {
    match found {
        Ok((ev, end)) => Ok((ev, end + shift)),
        Err(e) => Err(moved(e, shift)),
    }
}

/// Whether reading that gave `found` looked at no position from `upto` on: it
/// looks at the bytes of the event, at the one behind a number, and at the
/// twelve from the place where it fails.
pub open spec fn read_within(found: Result<(EventView, int), ParseError>, upto: int) -> bool {
    match found {
        Ok((ev, end)) => end < upto || (end == upto && !(ev is Number)),
        Err(e) => e.offset + LOOKAHEAD <= upto,
    }
}

/// A value is read alike in two inputs that agree as far as it was looked.
pub proof fn lemma_value_agrees(a: Seq<u8>, b: Seq<u8>, shift: int, pos: int, upto: int)
    requires
        0 <= pos <= a.len() <= usize::MAX,
        0 <= pos + shift <= b.len() <= usize::MAX,
        agree(a, b, shift, pos, upto),
        read_within(value_at(a, pos), upto),
    ensures
        value_at(b, pos + shift) == moved_read(value_at(a, pos), shift),
{
    lemma_value_bounds(a, pos);
    assert(at(a, pos) == at(b, pos + shift));
    if pos < a.len() {
        let c = a[pos];
        if c == 0x22 {
            lemma_string_agrees(a, b, shift, pos + 1, upto);
        } else if c == 0x74 || c == 0x66 || c == 0x6e {
            let word = if c == 0x74 {
                crate::format::token(EventView::Bool(true))
            } else if c == 0x66 {
                crate::format::token(EventView::Bool(false))
            } else {
                crate::format::token(EventView::Null)
            };
            if pos + word.len() <= upto {
                lemma_word_agrees(a, b, shift, pos, upto, word);
            }
        } else if c == 0x2d || crate::scan::is_digit(c) {
            lemma_number_parts_bounds(a, pos);
            lemma_number_agrees_within(a, b, shift, pos, upto);
            if number_end(a, pos) is Ok {
                let end = number_end(a, pos).unwrap();
                let in_a = a.subrange(pos, end);
                let in_b = b.subrange(pos + shift, end + shift);
                assert(at(a, end - 1) == at(b, end - 1 + shift));
                assert(in_a =~= in_b) by {
                    assert forall|i: int| 0 <= i < end - pos implies in_a[i] == in_b[i] by {
                        assert(at(a, pos + i) == at(b, pos + i + shift));
                    }
                }
            }
        }
    }
}

/// A key is read alike in two inputs that agree as far as it was looked.
pub proof fn lemma_key_agrees(a: Seq<u8>, b: Seq<u8>, shift: int, pos: int, upto: int)
    requires
        0 <= pos <= a.len() <= usize::MAX,
        0 <= pos + shift <= b.len() <= usize::MAX,
        agree(a, b, shift, pos, upto),
        read_within(key_at(a, pos), upto),
    ensures
        key_at(b, pos + shift) == moved_read(key_at(a, pos), shift),
{
    lemma_key_bounds(a, pos);
    assert(at(a, pos) == at(b, pos + shift));
    if pos < a.len() && a[pos] == 0x22 {
        lemma_string_bounds(a, pos + 1);
        match string_from(a, pos + 1) {
            Err(e) => {
                lemma_string_agrees(a, b, shift, pos + 1, upto);
            },
            Ok((name, end)) => {
                lemma_skip_ws_bounds(a, end);
                let colon = skip_ws(a, end);
                lemma_string_agrees(a, b, shift, pos + 1, upto);
                lemma_skip_ws_agrees(a, b, shift, end, upto);
                assert(at(a, colon) == at(b, colon + shift));
            },
        }
    }
}

/// The outcome `found` of a step, `shift` positions further on.
pub open spec fn moved_step(found: Result<Option<(EventView, int)>, ParseError>, shift: int) -> Result<
    Option<(EventView, int)>,
    ParseError,
> {
    match found {
        Ok(Some((ev, next))) => Ok(Some((ev, next + shift))),
        Ok(None) => Ok(None),
        Err(e) => Err(moved(e, shift)),
    }
}

/// A child of a container is read alike in two inputs that agree as far as
/// it was looked.
proof fn lemma_child_agrees(a: Seq<u8>, b: Seq<u8>, shift: int, pos: int, upto: int, kind: Kind)
    requires
        0 <= pos <= a.len() <= usize::MAX,
        0 <= pos + shift <= b.len() <= usize::MAX,
        agree(a, b, shift, pos, upto),
        read_within(child_at(a, pos, kind), upto),
    ensures
        child_at(b, pos + shift, kind) == moved_read(child_at(a, pos, kind), shift),
{
    match kind {
        Kind::Array => {
            lemma_value_agrees(a, b, shift, pos, upto);
        },
        Kind::Object => {
            lemma_key_agrees(a, b, shift, pos, upto);
        },
    }
}

/// What comes next inside a container is read alike in two inputs that agree
/// as far as it was looked.
proof fn lemma_inside_agrees(
    a: Seq<u8>,
    b: Seq<u8>,
    shift: int,
    pos: int,
    upto: int,
    frame: Frame,
)
    requires
        0 <= pos <= a.len() <= usize::MAX,
        0 <= pos + shift <= b.len() <= usize::MAX,
        agree(a, b, shift, pos, upto),
        read_within(inside_at(a, pos, frame), upto),
    ensures
        inside_at(b, pos + shift, frame) == moved_read(inside_at(a, pos, frame), shift),
{
    lemma_inside_bounds(a, pos, frame);
    assert(at(a, pos) == at(b, pos + shift));
    if pos < a.len() {
        let c = a[pos];
        if c == crate::parse::closer(frame.kind) {
        } else if !frame.has_child {
            lemma_child_agrees(a, b, shift, pos, upto, frame.kind);
        } else if c == 0x2c {
            let here = skip_ws(a, pos + 1);
            lemma_skip_ws_bounds(a, pos + 1);
            lemma_skip_ws_bounds(b, pos + 1 + shift);
            lemma_child_bounds(a, here, frame.kind);
            lemma_skip_ws_agrees(a, b, shift, pos + 1, upto);
            lemma_child_agrees(a, b, shift, here, upto, frame.kind);
        }
    }
}

/// Whether a step that gave `found` looked at no position from `upto` on.
pub open spec fn step_within(found: Result<Option<(EventView, int)>, ParseError>, upto: int) -> bool {
    match found {
        Ok(Some((ev, next))) => next < upto || (next == upto && !(ev is Number)),
        Ok(None) => true,
        Err(e) => e.offset + LOOKAHEAD <= upto,
    }
}

/// A step gives the same in two inputs that agree as far as it looked.
pub proof fn lemma_step_agrees(
    a: Seq<u8>,
    b: Seq<u8>,
    shift: int,
    pos: int,
    upto: int,
    st: State,
)
    requires
        0 <= pos <= a.len() <= usize::MAX,
        0 <= pos + shift <= b.len() <= usize::MAX,
        agree(a, b, shift, pos, upto),
        step_within(step(a, pos, st), upto),
    ensures
        step(b, pos + shift, st) == moved_step(step(a, pos, st), shift),
{
    if !st.done {
        let start = skip_ws(a, pos);
        lemma_skip_ws_bounds(a, pos);
        lemma_skip_ws_bounds(b, pos + shift);
        if st.after_key || st.frames.len() == 0 {
            lemma_value_bounds(a, start);
            lemma_skip_ws_agrees(a, b, shift, pos, upto);
            lemma_value_agrees(a, b, shift, start, upto);
        } else {
            let frame = st.frames.last();
            lemma_inside_bounds(a, start, frame);
            lemma_skip_ws_agrees(a, b, shift, pos, upto);
            lemma_inside_agrees(a, b, shift, start, upto, frame);
        }
    }
}

/// A window decides for the whole input: the outcome of a step that a part
/// of the input decides is the outcome of the step at the same place in the
/// whole input, however the input goes on behind that part.
pub proof fn law_window_decides(window: Seq<u8>, input: Seq<u8>, base: int, pos: int, st: State)
    requires
        0 <= base,
        base + window.len() <= input.len() <= usize::MAX,
        window == input.subrange(base, base + window.len()),
        0 <= pos <= window.len(),
        decided(window, step(window, pos, st)),
    ensures
        step(input, base + pos, st) == moved_step(step(window, pos, st), base),
{
    assert(agree(window, input, base, pos, window.len() as int));
    lemma_step_agrees(window, input, base, pos, window.len() as int, st);
}

/// The last window decides everything: where the input ends with a part of
/// it, the outcome of every step in that part is the outcome of the step at
/// the same place in the whole input.
pub proof fn law_last_window(window: Seq<u8>, input: Seq<u8>, base: int, pos: int, st: State)
    requires
        0 <= base <= input.len() <= usize::MAX,
        window == input.subrange(base, input.len() as int),
        0 <= pos <= window.len(),
    ensures
        step(input, base + pos, st) == moved_step(step(window, pos, st), base),
{
    let upto = window.len() + LOOKAHEAD + 1;
    assert(agree(window, input, base, pos, upto));
    if !st.done {
        lemma_skip_ws_bounds(window, pos);
        let start = skip_ws(window, pos);
        lemma_value_bounds(window, start);
        lemma_inside_bounds(window, start, st.frames.last());
    }
    lemma_step_agrees(window, input, base, pos, upto, st);
}

} // verus!
