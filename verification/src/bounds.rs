//! Where reading ends: every reader moves forward, and neither what it reads
//! nor the place where it fails lies beyond the end of the input.

use vstd::prelude::*;
use crate::grammar::{Frame, Kind, State};
use crate::parse::{child_at, inside_at, key_at, pulled, step, value_at, PullView};
use crate::scan::{
    at, digit_at, digits_end, exponent_digits, exponent_end, fraction_end, integer_end, is_ws,
    lemma_piece_moves, number_end, piece_at, skip_ws, string_from, Piece,
};

verus! {

/// Skipping whitespace moves forward, and not beyond the end of the input.
pub proof fn lemma_skip_ws_bounds(s: Seq<u8>, pos: int)
    requires
        0 <= pos,
    ensures
        pos <= skip_ws(s, pos),
        pos <= s.len() ==> skip_ws(s, pos) <= s.len(),
    decreases s.len() - pos,
{
    if pos < s.len() && is_ws(s[pos]) {
        lemma_skip_ws_bounds(s, pos + 1);
    }
}

/// A run of digits ends at or behind the position where it starts.
pub proof fn lemma_digits_end_bounds(s: Seq<u8>, pos: int)
    ensures
        pos <= digits_end(s, pos),
        digit_at(s, pos) ==> pos < digits_end(s, pos) <= s.len(),
    decreases s.len() - pos,
{
    if digit_at(s, pos) {
        lemma_digits_end_bounds(s, pos + 1);
    }
}

/// The parts of a number follow one another: where the number is read to its
/// end, the integer part ends in front of the fraction's end, and that in
/// front of the number's.
pub proof fn lemma_number_parts_bounds(s: Seq<u8>, pos: int)
    requires
        0 <= pos <= s.len(),
    ensures
        match number_end(s, pos) {
            Ok(end) => pos < end <= s.len(),
            Err(e) => s.len() <= usize::MAX ==> pos <= e.offset <= s.len(),
        },
        integer_end(
            s,
            if at(s, pos) == Some(0x2du8) {
                pos + 1
            } else {
                pos
            },
        ) matches Ok(integer) ==> {
            &&& pos < integer <= s.len()
            &&& fraction_end(s, integer) matches Ok(fraction) ==> {
                &&& integer <= fraction <= s.len()
                &&& exponent_end(s, fraction) matches Ok(end) ==> fraction <= end <= s.len()
            }
        },
{
    let first = if at(s, pos) == Some(0x2du8) {
        pos + 1
    } else {
        pos
    };
    lemma_digits_end_bounds(s, first);
    if integer_end(s, first) is Ok {
        let integer = integer_end(s, first).unwrap();
        lemma_digits_end_bounds(s, integer + 1);
        if fraction_end(s, integer) is Ok {
            let fraction = fraction_end(s, integer).unwrap();
            lemma_digits_end_bounds(s, exponent_digits(s, fraction));
        }
    }
}

/// Where a string ends, and where reading one fails: behind the position
/// where it starts, and inside the input.
pub proof fn lemma_string_bounds(s: Seq<u8>, pos: int)
    requires
        0 <= pos <= s.len(),
    ensures
        match string_from(s, pos) {
            Ok((_, end)) => pos < end <= s.len(),
            Err(e) => s.len() <= usize::MAX ==> pos <= e.offset <= s.len(),
        },
    decreases s.len() - pos,
{
    if pos < s.len() {
        lemma_piece_moves(s, pos);
        match piece_at(s, pos) {
            Piece::Text(_, next) => {
                lemma_string_bounds(s, next);
            },
            _ => {},
        }
    }
}

/// Where a value ends, and where reading one fails: behind the position
/// where it starts, and inside the input.
pub proof fn lemma_value_bounds(s: Seq<u8>, pos: int)
    requires
        0 <= pos <= s.len(),
    ensures
        match value_at(s, pos) {
            Ok((_, end)) => pos < end <= s.len(),
            Err(e) => s.len() <= usize::MAX ==> pos <= e.offset <= s.len(),
        },
{
    if pos < s.len() {
        lemma_string_bounds(s, pos + 1);
        lemma_number_parts_bounds(s, pos);
    }
}

/// Where a key ends, and where reading one fails: behind the position where
/// it starts, and inside the input.
pub proof fn lemma_key_bounds(s: Seq<u8>, pos: int)
    requires
        0 <= pos <= s.len(),
    ensures
        match key_at(s, pos) {
            Ok((_, end)) => pos < end <= s.len(),
            Err(e) => s.len() <= usize::MAX ==> pos <= e.offset <= s.len(),
        },
{
    if pos < s.len() {
        lemma_string_bounds(s, pos + 1);
        if string_from(s, pos + 1) is Ok {
            lemma_skip_ws_bounds(s, string_from(s, pos + 1).unwrap().1);
        }
    }
}

/// Where a child of a container ends, and where reading one fails: behind
/// the position where it starts, and inside the input.
pub proof fn lemma_child_bounds(s: Seq<u8>, pos: int, kind: Kind)
    requires
        0 <= pos <= s.len(),
    ensures
        match child_at(s, pos, kind) {
            Ok((_, end)) => pos < end <= s.len(),
            Err(e) => s.len() <= usize::MAX ==> pos <= e.offset <= s.len(),
        },
{
    lemma_value_bounds(s, pos);
    lemma_key_bounds(s, pos);
}

/// Where what comes next inside a container ends, and where reading it
/// fails: behind the position where it starts, and inside the input.
pub proof fn lemma_inside_bounds(s: Seq<u8>, pos: int, frame: Frame)
    requires
        0 <= pos <= s.len(),
    ensures
        match inside_at(s, pos, frame) {
            Ok((_, end)) => pos < end <= s.len(),
            Err(e) => s.len() <= usize::MAX ==> pos <= e.offset <= s.len(),
        },
{
    if pos < s.len() {
        lemma_skip_ws_bounds(s, pos + 1);
        lemma_child_bounds(s, pos, frame.kind);
        lemma_child_bounds(s, skip_ws(s, pos + 1), frame.kind);
    }
}

/// A step that yields an event moves on, inside the input; one that fails
/// finds the failure inside the input.
pub proof fn lemma_step_moves(s: Seq<u8>, pos: int, st: State)
    ensures
        step(s, pos, st) matches Ok(Some((_, next))) ==> pos < next <= s.len(),
        step(s, pos, st) matches Err(e) ==> 0 <= pos <= s.len() <= usize::MAX ==> pos <= e.offset
            <= s.len(),
{
    if !st.done && 0 <= pos <= s.len() {
        lemma_skip_ws_bounds(s, pos);
        let start = skip_ws(s, pos);
        lemma_value_bounds(s, start);
        if st.frames.len() > 0 {
            lemma_inside_bounds(s, start, st.frames.last());
        }
    }
}

/// A pull that yields an event moves on, inside the window; one that fails
/// finds the failure inside the window.
pub proof fn lemma_pull_moves(window: Seq<u8>, pos: int, st: State, at_end: bool)
    requires
        0 <= pos <= window.len(),
    ensures
        pulled(window, pos, st, at_end) matches Ok((PullView::Event(_), next)) ==> pos < next
            <= window.len(),
        pulled(window, pos, st, at_end) matches Err(e) ==> window.len() <= usize::MAX ==> pos
            <= e.offset <= window.len(),
{
    lemma_step_moves(window, pos, st);
}

} // verus!
