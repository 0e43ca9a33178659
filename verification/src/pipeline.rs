//! The transcode pipeline: pulls one event from the parser, pushes it into the
//! formatter, and keeps nothing of the document but the containers that are
//! open.

use vstd::prelude::*;
use crate::error::{AppError, ParseError};
use crate::event::EventView;
use crate::format::{rendered, text, Formatter};
use crate::grammar::{advance, initial, run, State};
use crate::parse::{events_from, lemma_events_unfold, parse, Parser};

verus! {

/// The pretty-printed form of the document `s`, indented by `size` spaces per
/// level and ended by one newline; the parse failure where `s` is no document.
pub open spec fn pretty(s: Seq<u8>, size: nat) -> Result<Seq<u8>, ParseError> {
    match parse(s) {
        Ok(events) => Ok(rendered(initial(), events, size) + seq![0x0au8]),
        Err(e) => Err(e),
    }
}

/// The outcome `tail` of reading the rest of a document, with the events
/// `head`, read already, in front.
pub open spec fn following(head: Seq<EventView>, tail: Result<Seq<EventView>, ParseError>) -> Result<
    Seq<EventView>,
    ParseError,
> {
    match tail {
        Ok(rest) => Ok(head + rest),
        Err(e) => Err(e),
    }
}

/// The state after one more event is the state after the events before it,
/// advanced by that event.
pub proof fn lemma_run_push(st: State, events: Seq<EventView>, ev: EventView)
    ensures
        run(st, events.push(ev)) == advance(run(st, events), ev),
    decreases events.len(),
{
    if events.len() == 0 {
        assert(events.push(ev).drop_first() =~= Seq::<EventView>::empty());
        assert(run(advance(st, ev), Seq::<EventView>::empty()) == advance(st, ev));
    } else {
        assert(events.push(ev).drop_first() =~= events.drop_first().push(ev));
        lemma_run_push(advance(st, events[0]), events.drop_first(), ev);
    }
}

/// The text of one more event is the text of the events before it, followed
/// by the text of that event in the state they lead to.
pub proof fn lemma_rendered_push(st: State, events: Seq<EventView>, ev: EventView, size: nat)
    ensures
        rendered(st, events.push(ev), size) == rendered(st, events, size) + text(
            run(st, events),
            ev,
            size,
        ),
    decreases events.len(),
{
    let more = events.push(ev);
    if events.len() == 0 {
        assert(more.drop_first() =~= Seq::<EventView>::empty());
        assert(rendered(advance(st, ev), Seq::<EventView>::empty(), size) =~= Seq::<u8>::empty());
        assert(rendered(st, more, size) =~= text(st, ev, size));
        assert(rendered(st, events, size) + text(st, ev, size) =~= text(st, ev, size));
    } else {
        assert(more.drop_first() =~= events.drop_first().push(ev));
        lemma_rendered_push(advance(st, events[0]), events.drop_first(), ev, size);
        let next = advance(st, events[0]);
        assert(rendered(st, more, size) =~= text(st, events[0], size) + (rendered(
            next,
            events.drop_first(),
            size,
        ) + text(run(next, events.drop_first()), ev, size)));
        assert(rendered(st, more, size) =~= rendered(st, events, size) + text(
            run(st, events),
            ev,
            size,
        ));
    }
}

/// Pretty-prints the document `input`, indenting by `indent_size` spaces per
/// level: the text of its events, one after the other, and a final newline.
/// Input that is no JSON document gives the parse failure.
pub fn transcode(input: &[u8], indent_size: usize) -> (r: Result<Vec<u8>, AppError>)
    ensures
        match pretty(input@, indent_size as nat) {
            Ok(text) => r matches Ok(out) && out@ == text,
            Err(e) => r matches Err(AppError::Parse(found)) && found == e,
        },
{
    let mut parser = Parser::new();
    let mut formatter = Formatter::new(indent_size);
    let mut out: Vec<u8> = Vec::new();
    let ghost mut seen: Seq<EventView> = Seq::empty();
    proof {
        match events_from(input@, 0, initial()) {
            Ok(rest) => {
                assert(seen + rest =~= rest);
            },
            Err(e) => {},
        }
    }
    loop
        invariant
            parser.pos <= input.len(),
            formatter.indent_size == indent_size,
            parser.nesting@ == run(initial(), seen),
            formatter.nesting@ == parser.nesting@,
            out@ == rendered(initial(), seen, indent_size as nat),
            parse(input@) == following(
                seen,
                events_from(input@, parser.pos as int, parser.nesting@),
            ),
        decreases input.len() - parser.pos,
    {
        proof {
            lemma_events_unfold(input@, parser.pos as int, parser.nesting@);
        }
        match parser.next_event(input) {
            Err(e) => {
                return Err(AppError::Parse(e));
            },
            Ok(None) => {
                proof {
                    assert(seen + Seq::<EventView>::empty() =~= seen);
                }
                out.push(0x0a);
                return Ok(out);
            },
            Ok(Some(ev)) => {
                formatter.write_event(&ev, &mut out);
                proof {
                    lemma_run_push(initial(), seen, ev@);
                    lemma_rendered_push(initial(), seen, ev@, indent_size as nat);
                    match events_from(input@, parser.pos as int, parser.nesting@) {
                        Ok(rest) => {
                            assert(seen + (seq![ev@] + rest) =~= seen.push(ev@) + rest);
                        },
                        Err(e) => {},
                    }
                    seen = seen.push(ev@);
                }
            },
        }
    }
}

} // verus!
