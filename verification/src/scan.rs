//! Token recognition: whitespace, literals, numbers and strings, each read
//! from a position in the input bytes.

use vstd::prelude::*;
use crate::error::{failure, ParseError, ParseErrorKind};

verus! {

/// The byte at `pos`, if there is one.
pub open spec fn at(s: Seq<u8>, pos: int) -> Option<u8> {
    if 0 <= pos < s.len() {
        Some(s[pos])
    } else {
        None
    }
}

/// The byte at `pos`, if there is one.
pub fn byte_at(input: &[u8], pos: usize) -> (c: Option<u8>)
    ensures
        c == at(input@, pos as int),
        c is Some ==> pos < input.len(),
{
    if pos < input.len() {
        Some(input[pos])
    } else {
        None
    }
}

/// Whether `b` is JSON whitespace: space, tab, line feed or carriage return.
pub open spec fn is_ws(b: u8) -> bool {
    b == 0x20 || b == 0x09 || b == 0x0a || b == 0x0d
}

/// The first position at or after `pos` that holds no whitespace.
pub open spec fn skip_ws(s: Seq<u8>, pos: int) -> int
    decreases s.len() - pos,
{
    if 0 <= pos < s.len() && is_ws(s[pos]) {
        skip_ws(s, pos + 1)
    } else {
        pos
    }
}

/// The first position at or after `pos` that holds no whitespace.
pub fn skip_whitespace(input: &[u8], pos: usize) -> (end: usize)
    ensures
        end == skip_ws(input@, pos as int),
        pos <= end,
        pos <= input.len() ==> end <= input.len(),
{
    let mut cur = pos;
    while cur < input.len() && (input[cur] == 0x20 || input[cur] == 0x09 || input[cur] == 0x0a
        || input[cur] == 0x0d)
        invariant
            pos <= cur,
            pos <= input.len() ==> cur <= input.len(),
            skip_ws(input@, pos as int) == skip_ws(input@, cur as int),
        decreases input.len() - cur,
    {
        cur += 1;
    }
    cur
}

/// Whether the bytes of `word` stand at `pos`.
pub open spec fn word_at(s: Seq<u8>, pos: int, word: Seq<u8>) -> bool {
    0 <= pos && pos + word.len() <= s.len() && s.subrange(pos, pos + word.len()) == word
}

/// Whether `b` is a decimal digit.
pub open spec fn is_digit(b: u8) -> bool {
    0x30 <= b <= 0x39
}

/// Whether a decimal digit stands at `pos`.
pub open spec fn digit_at(s: Seq<u8>, pos: int) -> bool {
    0 <= pos < s.len() && is_digit(s[pos])
}

/// The first position at or after `pos` that holds no decimal digit.
pub open spec fn digits_end(s: Seq<u8>, pos: int) -> int
    decreases s.len() - pos,
{
    if digit_at(s, pos) {
        digits_end(s, pos + 1)
    } else {
        pos
    }
}

/// The end of the integer part whose first digit is expected at `pos`: a lone
/// zero, or a run of digits that starts with none.
pub open spec fn integer_end(s: Seq<u8>, pos: int) -> Result<int, ParseError> {
    if !digit_at(s, pos) {
        Err(failure(ParseErrorKind::InvalidNumber, pos))
    } else if s[pos] == 0x30 {
        if digit_at(s, pos + 1) {
            Err(failure(ParseErrorKind::InvalidNumber, pos + 1))
        } else {
            Ok(pos + 1)
        }
    } else {
        Ok(digits_end(s, pos))
    }
}

/// The end of the fraction that may start at `pos`: a point and at least one
/// digit, or nothing.
pub open spec fn fraction_end(s: Seq<u8>, pos: int) -> Result<int, ParseError> {
    if at(s, pos) == Some(0x2eu8) {
        if digit_at(s, pos + 1) {
            Ok(digits_end(s, pos + 1))
        } else {
            Err(failure(ParseErrorKind::InvalidNumber, pos + 1))
        }
    } else {
        Ok(pos)
    }
}

/// Where the digits of an exponent whose letter stands at `pos` are expected:
/// behind the letter and the sign, if there is one.
pub open spec fn exponent_digits(s: Seq<u8>, pos: int) -> int {
    if at(s, pos + 1) == Some(0x2bu8) || at(s, pos + 1) == Some(0x2du8) {
        pos + 2
    } else {
        pos + 1
    }
}

/// The end of the exponent that may start at `pos`: `e` or `E`, an optional
/// sign and at least one digit, or nothing.
pub open spec fn exponent_end(s: Seq<u8>, pos: int) -> Result<int, ParseError> {
    if at(s, pos) == Some(0x65u8) || at(s, pos) == Some(0x45u8) {
        let digits = exponent_digits(s, pos);
        if digit_at(s, digits) {
            Ok(digits_end(s, digits))
        } else {
            Err(failure(ParseErrorKind::InvalidNumber, digits))
        }
    } else {
        Ok(pos)
    }
}

/// The end of the number that starts at `pos`: an optional minus sign, an
/// integer part, an optional fraction and an optional exponent.
pub open spec fn number_end(s: Seq<u8>, pos: int) -> Result<int, ParseError> {
    let first = if at(s, pos) == Some(0x2du8) {
        pos + 1
    } else {
        pos
    };
    match integer_end(s, first) {
        Err(e) => Err(e),
        Ok(integer) => match fraction_end(s, integer) {
            Err(e) => Err(e),
            Ok(fraction) => exponent_end(s, fraction),
        },
    }
}

/// Whether `text` is exactly one number.
pub open spec fn is_number(text: Seq<u8>) -> bool {
    number_end(text, 0) == Ok::<int, ParseError>(text.len() as int)
}

fn has_digit(input: &[u8], pos: usize) -> (b: bool)
    ensures
        b == digit_at(input@, pos as int),
{
    pos < input.len() && 0x30 <= input[pos] && input[pos] <= 0x39
}

fn skip_digits(input: &[u8], pos: usize) -> (end: usize)
    ensures
        end == digits_end(input@, pos as int),
        pos <= end,
        pos <= input.len() ==> end <= input.len(),
        digit_at(input@, pos as int) ==> pos < end,
{
    let mut cur = pos;
    while has_digit(input, cur)
        invariant
            pos <= cur,
            pos <= input.len() ==> cur <= input.len(),
            digits_end(input@, pos as int) == digits_end(input@, cur as int),
        decreases input.len() - cur,
    {
        cur += 1;
    }
    cur
}

/// The end of the number that starts at `pos`.
pub fn scan_number(input: &[u8], pos: usize) -> (r: Result<usize, ParseError>)
    ensures
        match number_end(input@, pos as int) {
            Ok(end) => r == Ok::<usize, ParseError>(end as usize) && pos < end <= input.len(),
            Err(e) => r == Err::<usize, ParseError>(e),
        },
{
    let first = if byte_at(input, pos) == Some(0x2d) {
        pos + 1
    } else {
        pos
    };
    if !has_digit(input, first) {
        return Err(ParseError { kind: ParseErrorKind::InvalidNumber, offset: first });
    }
    let integer = if input[first] == 0x30 {
        if has_digit(input, first + 1) {
            return Err(ParseError { kind: ParseErrorKind::InvalidNumber, offset: first + 1 });
        }
        first + 1
    } else {
        skip_digits(input, first)
    };
    let fraction = if byte_at(input, integer) == Some(0x2e) {
        if !has_digit(input, integer + 1) {
            return Err(ParseError { kind: ParseErrorKind::InvalidNumber, offset: integer + 1 });
        }
        skip_digits(input, integer + 1)
    } else {
        integer
    };
    let letter = byte_at(input, fraction);
    if letter == Some(0x65) || letter == Some(0x45) {
        let sign = byte_at(input, fraction + 1);
        let digits = if sign == Some(0x2b) || sign == Some(0x2d) {
            fraction + 2
        } else {
            fraction + 1
        };
        if !has_digit(input, digits) {
            return Err(ParseError { kind: ParseErrorKind::InvalidNumber, offset: digits });
        }
        Ok(skip_digits(input, digits))
    } else {
        Ok(fraction)
    }
}

/// The value of the hexadecimal digit `b`, in either case.
pub open spec fn hex_value(b: u8) -> Option<int> {
    if 0x30 <= b <= 0x39 {
        Some(b - 0x30)
    } else if 0x61 <= b <= 0x66 {
        Some(b - 0x61 + 10)
    } else if 0x41 <= b <= 0x46 {
        Some(b - 0x41 + 10)
    } else {
        None
    }
}

/// The number that the four hexadecimal digits at `pos` spell.
pub open spec fn hex4(s: Seq<u8>, pos: int) -> Option<int> {
    if 0 <= pos && pos + 4 <= s.len() && hex_value(s[pos]) is Some && hex_value(s[pos + 1]) is Some
        && hex_value(s[pos + 2]) is Some && hex_value(s[pos + 3]) is Some {
        Some(
            ((hex_value(s[pos])->0 * 16 + hex_value(s[pos + 1])->0) * 16 + hex_value(
                s[pos + 2],
            )->0) * 16 + hex_value(s[pos + 3])->0,
        )
    } else {
        None
    }
}

/// The UTF-8 encoding of the code point `cp`, which is below 0x110000.
pub open spec fn utf8(cp: int) -> Seq<u8> {
    if cp < 0x80 {
        seq![cp as u8]
    } else if cp < 0x800 {
        seq![(0xc0 + cp / 64) as u8, (0x80 + cp % 64) as u8]
    } else if cp < 0x10000 {
        seq![(0xe0 + cp / 4096) as u8, (0x80 + cp / 64 % 64) as u8, (0x80 + cp % 64) as u8]
    } else {
        seq![
            (0xf0 + cp / 262144) as u8,
            (0x80 + cp / 4096 % 64) as u8,
            (0x80 + cp / 64 % 64) as u8,
            (0x80 + cp % 64) as u8,
        ]
    }
}

/// The byte that the one-letter escape `b` stands for.
pub open spec fn short_escape(b: u8) -> Option<u8> {
    if b == 0x22 || b == 0x5c || b == 0x2f {
        Some(b)
    } else if b == 0x62 {
        Some(0x08u8)
    } else if b == 0x66 {
        Some(0x0cu8)
    } else if b == 0x6e {
        Some(0x0au8)
    } else if b == 0x72 {
        Some(0x0du8)
    } else if b == 0x74 {
        Some(0x09u8)
    } else {
        None
    }
}

/// Whether `unit` is the first half of a surrogate pair.
pub open spec fn is_high_surrogate(unit: int) -> bool {
    0xd800 <= unit < 0xdc00
}

/// Whether `unit` is the second half of a surrogate pair.
pub open spec fn is_low_surrogate(unit: int) -> bool {
    0xdc00 <= unit < 0xe000
}

/// The code point that the surrogate pair `high`, `low` stands for.
pub open spec fn paired(high: int, low: int) -> int {
    0x10000 + (high - 0xd800) * 0x400 + (low - 0xdc00)
}

/// The escape sequence `\uXXXX` whose backslash stands at `pos`, or the pair
/// of two such that names one character beyond the basic plane: the bytes it
/// stands for and the position behind it. `None` where the digits are
/// malformed or a surrogate stands alone.
pub open spec fn unicode_escape(s: Seq<u8>, pos: int) -> Option<(Seq<u8>, int)> {
    match hex4(s, pos + 2) {
        None => None,
        Some(unit) => if is_high_surrogate(unit) {
            if at(s, pos + 6) == Some(0x5cu8) && at(s, pos + 7) == Some(0x75u8) {
                match hex4(s, pos + 8) {
                    Some(low) => if is_low_surrogate(low) {
                        Some((utf8(paired(unit, low)), pos + 12))
                    } else {
                        None
                    },
                    None => None,
                }
            } else {
                None
            }
        } else if is_low_surrogate(unit) {
            None
        } else {
            Some((utf8(unit), pos + 6))
        },
    }
}

/// The escape sequence whose backslash stands at `pos`: the bytes it stands
/// for and the position behind it, or `None` where it is malformed.
pub open spec fn unescape(s: Seq<u8>, pos: int) -> Option<(Seq<u8>, int)> {
    match at(s, pos + 1) {
        None => None,
        Some(letter) => if letter == 0x75 {
            unicode_escape(s, pos)
        } else {
            match short_escape(letter) {
                Some(b) => Some((seq![b], pos + 2)),
                None => None,
            }
        },
    }
}

/// Whether `b` can follow the first byte of a UTF-8 sequence.
pub open spec fn is_continuation(b: u8) -> bool {
    0x80 <= b <= 0xbf
}

/// Whether a byte that can follow the first of a UTF-8 sequence stands at
/// `pos`.
pub open spec fn continuation_at(s: Seq<u8>, pos: int) -> bool {
    0 <= pos < s.len() && is_continuation(s[pos])
}

/// Whether `second` can follow `first` in a UTF-8 sequence of three or four
/// bytes: a continuation byte, and one that makes the sequence neither longer
/// than its character needs, nor a surrogate, nor a character beyond the last.
pub open spec fn is_second(first: u8, second: u8) -> bool {
    if first == 0xe0 {
        0xa0 <= second <= 0xbf
    } else if first == 0xed {
        0x80 <= second <= 0x9f
    } else if first == 0xf0 {
        0x90 <= second <= 0xbf
    } else if first == 0xf4 {
        0x80 <= second <= 0x8f
    } else {
        is_continuation(second)
    }
}

/// The length of the UTF-8 sequence of two to four bytes that starts at
/// `pos`, or `None` where the bytes there are no such sequence.
pub open spec fn sequence_len(s: Seq<u8>, pos: int) -> Option<int> {
    if !(0 <= pos < s.len()) {
        None
    } else if 0xc2 <= s[pos] <= 0xdf {
        if continuation_at(s, pos + 1) {
            Some(2int)
        } else {
            None
        }
    } else if 0xe0 <= s[pos] <= 0xef {
        if pos + 1 < s.len() && is_second(s[pos], s[pos + 1]) && continuation_at(s, pos + 2) {
            Some(3int)
        } else {
            None
        }
    } else if 0xf0 <= s[pos] <= 0xf4 {
        if pos + 1 < s.len() && is_second(s[pos], s[pos + 1]) && continuation_at(s, pos + 2)
            && continuation_at(s, pos + 3) {
            Some(4int)
        } else {
            None
        }
    } else {
        None
    }
}

/// The outcome `tail` of reading the rest of a string, with `head` in front of
/// the text that was read.
pub open spec fn prepend(head: Seq<u8>, tail: Result<(Seq<u8>, int), ParseError>) -> Result<
    (Seq<u8>, int),
    ParseError,
> {
    match tail {
        Ok((text, end)) => Ok((head + text, end)),
        Err(e) => Err(e),
    }
}

/// What stands at a position inside a string.
pub enum Piece {
    /// The closing quote.
    Close,
    /// Some bytes of text, and the position behind what stands for them: one
    /// plain character, or an escape sequence.
    Text(Seq<u8>, int),
    /// Nothing that may stand inside a string.
    Bad(ParseErrorKind),
}

/// What stands at `pos`, which is inside the input, in a string.
#[verifier::opaque]
pub open spec fn piece_at(s: Seq<u8>, pos: int) -> Piece {
    if s[pos] == 0x22 {
        Piece::Close
    } else if s[pos] == 0x5c {
        match unescape(s, pos) {
            None => Piece::Bad(ParseErrorKind::InvalidEscape),
            Some((bytes, next)) => Piece::Text(bytes, next),
        }
    } else if s[pos] < 0x20 {
        Piece::Bad(ParseErrorKind::ControlCharacter)
    } else if s[pos] < 0x80 {
        Piece::Text(seq![s[pos]], pos + 1)
    } else {
        match sequence_len(s, pos) {
            None => Piece::Bad(ParseErrorKind::InvalidUtf8),
            Some(len) => Piece::Text(s.subrange(pos, pos + len), pos + len),
        }
    }
}

/// A piece of text ends behind the position where it starts, inside the
/// input.
pub proof fn lemma_piece_moves(s: Seq<u8>, pos: int)
    requires
        0 <= pos < s.len(),
    ensures
        piece_at(s, pos) matches Piece::Text(_, next) ==> pos < next <= s.len(),
{
    reveal(piece_at);
}

/// The rest of a string from `pos`, which is behind its opening quote: the
/// decoded text up to the closing quote, and the position behind that quote.
pub open spec fn string_from(s: Seq<u8>, pos: int) -> Result<(Seq<u8>, int), ParseError>
    decreases s.len() - pos,
    via string_from_ends
{
    if !(0 <= pos < s.len()) {
        Err(failure(ParseErrorKind::UnexpectedEnd, s.len() as int))
    } else {
        match piece_at(s, pos) {
            Piece::Close => Ok((Seq::empty(), pos + 1)),
            Piece::Text(bytes, next) => prepend(bytes, string_from(s, next)),
            Piece::Bad(kind) => Err(failure(kind, pos)),
        }
    }
}

#[via_fn]
proof fn string_from_ends(s: Seq<u8>, pos: int) {
    if 0 <= pos < s.len() {
        lemma_piece_moves(s, pos);
    }
}

fn hex_digit_value(b: u8) -> (v: Option<u32>)
    ensures
        match hex_value(b) {
            Some(value) => v == Some(value as u32) && value < 16,
            None => v is None,
        },
{
    if 0x30 <= b && b <= 0x39 {
        Some((b - 0x30) as u32)
    } else if 0x61 <= b && b <= 0x66 {
        Some((b - 0x61 + 10) as u32)
    } else if 0x41 <= b && b <= 0x46 {
        Some((b - 0x41 + 10) as u32)
    } else {
        None
    }
}

fn read_hex4(input: &[u8], pos: usize) -> (v: Option<u32>)
    ensures
        match hex4(input@, pos as int) {
            Some(value) => v == Some(value as u32) && 0 <= value < 0x10000,
            None => v is None,
        },
{
    if pos > input.len() || input.len() - pos < 4 {
        return None;
    }
    let a = hex_digit_value(input[pos]);
    let b = hex_digit_value(input[pos + 1]);
    let c = hex_digit_value(input[pos + 2]);
    let d = hex_digit_value(input[pos + 3]);
    match (a, b, c, d) {
        (Some(a), Some(b), Some(c), Some(d)) => Some(((a * 16 + b) * 16 + c) * 16 + d),
        _ => None,
    }
}

fn push_utf8(out: &mut Vec<u8>, cp: u32)
    requires
        cp < 0x110000,
    ensures
        final(out)@ == old(out)@ + utf8(cp as int),
{
    if cp < 0x80 {
        out.push(cp as u8);
    } else if cp < 0x800 {
        out.push((0xc0 + cp / 64) as u8);
        out.push((0x80 + cp % 64) as u8);
    } else if cp < 0x10000 {
        out.push((0xe0 + cp / 4096) as u8);
        out.push((0x80 + cp / 64 % 64) as u8);
        out.push((0x80 + cp % 64) as u8);
    } else {
        out.push((0xf0 + cp / 262144) as u8);
        out.push((0x80 + cp / 4096 % 64) as u8);
        out.push((0x80 + cp / 64 % 64) as u8);
        out.push((0x80 + cp % 64) as u8);
    }
    assert(out@ =~= old(out)@ + utf8(cp as int));
}

fn read_unicode_escape(input: &[u8], pos: usize, out: &mut Vec<u8>) -> (next: Option<usize>)
    requires
        pos + 2 <= input.len(),
    ensures
        match unicode_escape(input@, pos as int) {
            Some((bytes, end)) => next == Some(end as usize) && pos < end <= input.len()
                && final(out)@ == old(out)@ + bytes,
            None => next is None && final(out)@ == old(out)@,
        },
{
    let unit = match read_hex4(input, pos + 2) {
        Some(unit) => unit,
        None => {
            return None;
        },
    };
    if 0xd800 <= unit && unit < 0xdc00 {
        if byte_at(input, pos + 6) != Some(0x5c) || byte_at(input, pos + 7) != Some(0x75) {
            return None;
        }
        let low = match read_hex4(input, pos + 8) {
            Some(low) => low,
            None => {
                return None;
            },
        };
        if !(0xdc00 <= low && low < 0xe000) {
            return None;
        }
        push_utf8(out, 0x10000 + (unit - 0xd800) * 0x400 + (low - 0xdc00));
        Some(pos + 12)
    } else if 0xdc00 <= unit && unit < 0xe000 {
        None
    } else {
        push_utf8(out, unit);
        Some(pos + 6)
    }
}

fn short_escape_of(b: u8) -> (r: Option<u8>)
    ensures
        r == short_escape(b),
{
    if b == 0x22 || b == 0x5c || b == 0x2f {
        Some(b)
    } else if b == 0x62 {
        Some(0x08)
    } else if b == 0x66 {
        Some(0x0c)
    } else if b == 0x6e {
        Some(0x0a)
    } else if b == 0x72 {
        Some(0x0d)
    } else if b == 0x74 {
        Some(0x09)
    } else {
        None
    }
}

fn read_escape(input: &[u8], pos: usize, out: &mut Vec<u8>) -> (next: Option<usize>)
    requires
        pos < input.len(),
    ensures
        match unescape(input@, pos as int) {
            Some((bytes, end)) => next == Some(end as usize) && pos < end <= input.len()
                && final(out)@ == old(out)@ + bytes,
            None => next is None && final(out)@ == old(out)@,
        },
{
    match byte_at(input, pos + 1) {
        None => None,
        Some(letter) => {
            if letter == 0x75 {
                read_unicode_escape(input, pos, out)
            } else {
                match short_escape_of(letter) {
                    Some(b) => {
                        out.push(b);
                        assert(out@ =~= old(out)@ + seq![b]);
                        Some(pos + 2)
                    },
                    None => None,
                }
            }
        },
    }
}

fn has_continuation(input: &[u8], pos: usize) -> (b: bool)
    ensures
        b == continuation_at(input@, pos as int),
{
    pos < input.len() && 0x80 <= input[pos] && input[pos] <= 0xbf
}

fn has_second(input: &[u8], pos: usize, first: u8) -> (b: bool)
    ensures
        b == (pos < input.len() && is_second(first, input@[pos as int])),
{
    if pos >= input.len() {
        return false;
    }
    let second = input[pos];
    if first == 0xe0 {
        0xa0 <= second && second <= 0xbf
    } else if first == 0xed {
        0x80 <= second && second <= 0x9f
    } else if first == 0xf0 {
        0x90 <= second && second <= 0xbf
    } else if first == 0xf4 {
        0x80 <= second && second <= 0x8f
    } else {
        0x80 <= second && second <= 0xbf
    }
}

/// The length of the UTF-8 sequence of two to four bytes that starts at
/// `pos`, which is inside the input.
fn sequence_length(input: &[u8], pos: usize) -> (len: Option<usize>)
    requires
        pos < input.len(),
    ensures
        match sequence_len(input@, pos as int) {
            Some(n) => len == Some(n as usize) && 2 <= n <= 4 && pos + n <= input.len(),
            None => len is None,
        },
{
    let first = input[pos];
    if 0xc2 <= first && first <= 0xdf {
        if has_continuation(input, pos + 1) {
            Some(2)
        } else {
            None
        }
    } else if 0xe0 <= first && first <= 0xef {
        if has_second(input, pos + 1, first) && has_continuation(input, pos + 2) {
            Some(3)
        } else {
            None
        }
    } else if 0xf0 <= first && first <= 0xf4 {
        if has_second(input, pos + 1, first) && has_continuation(input, pos + 2)
            && has_continuation(input, pos + 3) {
            Some(4)
        } else {
            None
        }
    } else {
        None
    }
}

/// Reading the rest of a string gives the same whether a head that was read
/// already is put in front at once or piece by piece.
proof fn lemma_prepend_twice(
    first: Seq<u8>,
    second: Seq<u8>,
    tail: Result<(Seq<u8>, int), ParseError>,
)
    ensures
        prepend(first, prepend(second, tail)) == prepend(first + second, tail),
{
    match tail {
        Ok((text, end)) => {
            assert(first + (second + text) =~= (first + second) + text);
        },
        Err(e) => {},
    }
}

/// Reads the rest of a string from `pos`, which is behind its opening quote.
pub fn scan_string(input: &[u8], pos: usize) -> (r: Result<(Vec<u8>, usize), ParseError>)
    ensures
        match string_from(input@, pos as int) {
            Ok((text, end)) => r matches Ok((t, e)) && t@ == text && e == end
                && pos < end <= input.len(),
            Err(e) => r == Err::<(Vec<u8>, usize), ParseError>(e),
        },
{
    let mut text: Vec<u8> = Vec::new();
    let mut cur = pos;
    assert(string_from(input@, pos as int) == prepend(text@, string_from(input@, cur as int))) by {
        match string_from(input@, pos as int) {
            Ok((t, e)) => {
                assert(Seq::<u8>::empty() + t =~= t);
            },
            Err(e) => {},
        }
    }
    while cur < input.len()
        invariant
            pos <= cur,
            string_from(input@, pos as int) == prepend(text@, string_from(input@, cur as int)),
        decreases input.len() - cur,
    {
        let b = input[cur];
        let ghost before = text@;
        proof {
            reveal(piece_at);
        }
        if b == 0x22 {
            assert(before + Seq::<u8>::empty() =~= before);
            return Ok((text, cur + 1));
        } else if b == 0x5c {
            match read_escape(input, cur, &mut text) {
                None => {
                    return Err(ParseError { kind: ParseErrorKind::InvalidEscape, offset: cur });
                },
                Some(next) => {
                    proof {
                        let read = unescape(input@, cur as int).unwrap();
                        lemma_prepend_twice(before, read.0, string_from(input@, next as int));
                    }
                    cur = next;
                },
            }
        } else if b < 0x20 {
            return Err(ParseError { kind: ParseErrorKind::ControlCharacter, offset: cur });
        } else if b < 0x80 {
            text.push(b);
            proof {
                lemma_prepend_twice(before, seq![b], string_from(input@, cur + 1));
                assert(before + seq![b] =~= before.push(b));
            }
            cur += 1;
        } else {
            match sequence_length(input, cur) {
                None => {
                    return Err(ParseError { kind: ParseErrorKind::InvalidUtf8, offset: cur });
                },
                Some(len) => {
                    let end = cur + len;
                    let ghost from = cur;
                    while cur < end
                        invariant
                            from <= cur <= end <= input.len(),
                            text@ == before + input@.subrange(from as int, cur as int),
                        decreases end - cur,
                    {
                        text.push(input[cur]);
                        assert(input@.subrange(from as int, cur + 1) =~= input@.subrange(
                            from as int,
                            cur as int,
                        ).push(input@[cur as int]));
                        cur += 1;
                    }
                    proof {
                        lemma_prepend_twice(
                            before,
                            input@.subrange(from as int, end as int),
                            string_from(input@, end as int),
                        );
                    }
                },
            }
        }
    }
    Err(ParseError { kind: ParseErrorKind::UnexpectedEnd, offset: input.len() })
}

} // verus!
