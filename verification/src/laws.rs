//! What holds of the pipeline as a whole: reading back what was written gives
//! the events that were written, so pretty-printing twice changes nothing.

use vstd::prelude::*;
use crate::event::EventView;
use crate::format::rendered;
use crate::grammar::{accepted, advance, allowed, initial, run, State};
use crate::parse::parse;
use crate::pipeline::pretty;
use crate::readback::{lemma_events_read_back, lemma_parsed_events, stands_at};

verus! {

/// Reading back the pretty-printed form of a document gives the events of the
/// document: the same keys and values in the same order, the same text in
/// every string and the same digits in every number, whatever the
/// indentation.
pub proof fn law_output_reads_back(s: Seq<u8>, size: nat)
    requires
        parse(s) is Ok,
    ensures
        pretty(s, size) is Ok,
        parse(pretty(s, size).unwrap()) == parse(s),
{
    let events = parse(s).unwrap();
    let doc = pretty(s, size).unwrap();
    lemma_parsed_events(s, 0, initial());
    assert(stands_at(doc, 0, rendered(initial(), events, size) + seq![0x0au8]));
    lemma_events_read_back(doc, 0, 0, initial(), events, size);
}

/// Pretty-printing the pretty-printed form of a document with another
/// indentation gives what pretty-printing the document itself with that
/// indentation gives.
pub proof fn law_reindent(s: Seq<u8>, first: nat, second: nat)
    requires
        parse(s) is Ok,
    ensures
        pretty(s, first) is Ok,
        pretty(pretty(s, first).unwrap(), second) == pretty(s, second),
{
    law_output_reads_back(s, first);
}

/// Pretty-printing is idempotent: the pretty-printed form of a document is
/// its own pretty-printed form, byte for byte, with the same indentation.
pub proof fn law_idempotent(s: Seq<u8>, size: nat)
    requires
        parse(s) is Ok,
    ensures
        pretty(s, size) is Ok,
        pretty(pretty(s, size).unwrap(), size) == pretty(s, size),
{
    law_reindent(s, size, size);
}

/// By how much `ev` changes the number of open containers.
pub open spec fn depth_change(ev: EventView) -> int {
    match ev {
        EventView::BeginObject | EventView::BeginArray => 1,
        EventView::EndObject | EventView::EndArray => -1,
        _ => 0,
    }
}

/// By how much the events of `events` together change the number of open
/// containers: those that they open, less those that they close.
pub open spec fn net_depth(events: Seq<EventView>) -> int
    decreases events.len(),
{
    if events.len() == 0 {
        0
    } else {
        depth_change(events[0]) + net_depth(events.drop_first())
    }
}

/// What is kept of a stream between two events grows with the nesting and
/// with nothing else: after any events, each allowed where it comes, there is
/// one frame for every container that was opened and not closed, however
/// many values and keys have gone by.
pub proof fn law_depth(st: State, events: Seq<EventView>)
    requires
        accepted(st, events),
    ensures
        run(st, events).frames.len() == st.frames.len() + net_depth(events),
    decreases events.len(),
{
    if events.len() > 0 {
        law_depth(advance(st, events[0]), events.drop_first());
    }
}

} // verus!
