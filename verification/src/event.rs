//! Structural events: the only data that crosses from the parser to the
//! formatter.

use vstd::prelude::*;

verus! {

/// One unit of JSON document structure. Text is held as UTF-8 bytes: keys and
/// strings decoded, numbers exactly as they were written.
#[derive(Clone, Debug, PartialEq, Eq)]
pub enum Event {
    BeginObject,
    Key(Vec<u8>),
    BeginArray,
    EndArray,
    EndObject,
    Null,
    Bool(bool),
    Number(Vec<u8>),
    String(Vec<u8>),
}

/// The mathematical value of an [`Event`].
pub enum EventView {
    BeginObject,
    Key(Seq<u8>),
    BeginArray,
    EndArray,
    EndObject,
    Null,
    Bool(bool),
    Number(Seq<u8>),
    String(Seq<u8>),
}

impl View for Event {
    type V = EventView;

    open spec fn view(&self) -> EventView {
        match *self {
            Event::BeginObject => EventView::BeginObject,
            Event::Key(text) => EventView::Key(text@),
            Event::BeginArray => EventView::BeginArray,
            Event::EndArray => EventView::EndArray,
            Event::EndObject => EventView::EndObject,
            Event::Null => EventView::Null,
            Event::Bool(b) => EventView::Bool(b),
            Event::Number(text) => EventView::Number(text@),
            Event::String(text) => EventView::String(text@),
        }
    }
}

/// The events of a sequence, each by its view.
pub open spec fn views(events: Seq<Event>) -> Seq<EventView> {
    events.map_values(|e: Event| e@)
}

} // verus!
