//! The nesting discipline of an event stream: which event may come next, and
//! what the open containers look like after it. Parser and formatter both
//! follow it, so the events that one yields are events the other accepts.

use vstd::prelude::*;
use crate::event::{Event, EventView};

verus! {

/// The two kinds of container.
#[derive(Clone, Copy, Debug, PartialEq, Eq, Structural)]
pub enum Kind {
    Array,
    Object,
}

/// One open container: its kind, and whether a child has been seen in it.
#[derive(Clone, Copy, Debug, PartialEq, Eq, Structural)]
pub struct Frame {
    pub kind: Kind,
    pub has_child: bool,
}

/// Where a stream stands: the open containers, outermost first; whether a key
/// awaits its value; whether the top-level value is complete.
pub struct State {
    pub frames: Seq<Frame>,
    pub after_key: bool,
    pub done: bool,
}

/// The state before any event.
pub open spec fn initial() -> State {
    State { frames: Seq::empty(), after_key: false, done: false }
}

/// Whether `ev` is a value or opens one: anything but a key or a closing event.
pub open spec fn starts_value(ev: EventView) -> bool {
    !(ev is Key) && !(ev is EndArray) && !(ev is EndObject)
}

/// Whether a value may start in state `st`.
pub open spec fn value_position(st: State) -> bool {
    !st.done && (st.after_key || st.frames.len() == 0 || st.frames.last().kind == Kind::Array)
}

/// Whether the innermost open container has kind `kind` and awaits no value.
pub open spec fn inside(st: State, kind: Kind) -> bool {
    !st.done && !st.after_key && st.frames.len() > 0 && st.frames.last().kind == kind
}

/// Whether `ev` may come next in state `st`.
pub open spec fn allowed(st: State, ev: EventView) -> bool {
    match ev {
        EventView::Key(_) => inside(st, Kind::Object),
        EventView::EndObject => inside(st, Kind::Object),
        EventView::EndArray => inside(st, Kind::Array),
        _ => value_position(st),
    }
}

/// The frames with a child recorded in the innermost one.
pub open spec fn with_child(frames: Seq<Frame>) -> Seq<Frame> {
    if frames.len() == 0 {
        frames
    } else {
        frames.update(
            frames.len() - 1,
            (Frame { kind: frames.last().kind, has_child: true }),
        )
    }
}

/// The state after a value has started in `st`, before any frame it opens is
/// pushed.
pub open spec fn value_started(st: State) -> State {
    if st.after_key {
        State { frames: st.frames, after_key: false, done: false }
    } else {
        State { frames: with_child(st.frames), after_key: false, done: false }
    }
}

/// The state with the top-level value marked complete when nothing is open.
pub open spec fn settled(st: State) -> State {
    State { frames: st.frames, after_key: st.after_key, done: st.frames.len() == 0 }
}

/// The state after `ev`, which is allowed in `st`.
pub open spec fn advance(st: State, ev: EventView) -> State {
    match ev {
        EventView::Key(_) => State {
            frames: with_child(st.frames),
            after_key: true,
            done: false,
        },
        EventView::EndObject | EventView::EndArray => settled(
            State { frames: st.frames.drop_last(), after_key: false, done: false },
        ),
        EventView::BeginObject => State {
            frames: value_started(st).frames.push(
                (Frame { kind: Kind::Object, has_child: false }),
            ),
            after_key: false,
            done: false,
        },
        EventView::BeginArray => State {
            frames: value_started(st).frames.push(
                (Frame { kind: Kind::Array, has_child: false }),
            ),
            after_key: false,
            done: false,
        },
        _ => settled(value_started(st)),
    }
}

/// Whether the events of `events`, in order, are each allowed where they come,
/// starting in state `st`.
pub open spec fn accepted(st: State, events: Seq<EventView>) -> bool
    decreases events.len(),
{
    if events.len() == 0 {
        true
    } else {
        allowed(st, events[0]) && accepted(advance(st, events[0]), events.drop_first())
    }
}

/// The state after the events of `events`, starting in state `st`.
pub open spec fn run(st: State, events: Seq<EventView>) -> State
    decreases events.len(),
{
    if events.len() == 0 {
        st
    } else {
        run(advance(st, events[0]), events.drop_first())
    }
}

/// Whether `events` is exactly one complete top-level value.
pub open spec fn complete(events: Seq<EventView>) -> bool {
    accepted(initial(), events) && run(initial(), events).done
}

/// The open containers of a stream, as the parser and the formatter keep them.
#[derive(Clone, Debug)]
pub struct Nesting {
    pub frames: Vec<Frame>,
    pub after_key: bool,
    pub done: bool,
}

impl View for Nesting {
    type V = State;

    open spec fn view(&self) -> State {
        State { frames: self.frames@, after_key: self.after_key, done: self.done }
    }
}

impl Nesting {
    /// Nothing open, nothing seen.
    pub fn new() -> (nesting: Self)
        ensures
            nesting@ == initial(),
    {
        Nesting { frames: Vec::new(), after_key: false, done: false }
    }

    /// The number of open containers.
    pub fn depth(&self) -> (d: usize)
        ensures
            d == self@.frames.len(),
    {
        self.frames.len()
    }

    /// Whether a child has been seen in the innermost open container; `false`
    /// when nothing is open.
    pub fn has_child(&self) -> (b: bool)
        ensures
            b == (self@.frames.len() > 0 && self@.frames.last().has_child),
    {
        let n = self.frames.len();
        n > 0 && self.frames[n - 1].has_child
    }

    /// Whether a value may start here.
    pub fn at_value(&self) -> (b: bool)
        ensures
            b == value_position(self@),
    {
        let n = self.frames.len();
        !self.done && (self.after_key || n == 0 || self.frames[n - 1].kind == Kind::Array)
    }

    /// Whether the innermost open container has kind `kind` and awaits no value.
    pub fn is_inside(&self, kind: Kind) -> (b: bool)
        ensures
            b == inside(self@, kind),
    {
        let n = self.frames.len();
        !self.done && !self.after_key && n > 0 && self.frames[n - 1].kind == kind
    }

    /// Whether `ev` may come next.
    pub fn accepts(&self, ev: &Event) -> (b: bool)
        ensures
            b == allowed(self@, ev@),
    {
        match ev {
            Event::Key(_) => self.is_inside(Kind::Object),
            Event::EndObject => self.is_inside(Kind::Object),
            Event::EndArray => self.is_inside(Kind::Array),
            _ => self.at_value(),
        }
    }

    fn mark_child(&mut self)
        ensures
            final(self)@ == (State {
                frames: with_child(old(self)@.frames),
                after_key: old(self)@.after_key,
                done: old(self)@.done,
            }),
    {
        let n = self.frames.len();
        if n > 0 {
            let kind = self.frames[n - 1].kind;
            self.frames.set(n - 1, Frame { kind, has_child: true });
        }
    }

    fn start_value(&mut self)
        ensures
            final(self)@ == value_started(old(self)@),
    {
        if !self.after_key {
            self.mark_child();
        }
        self.after_key = false;
        self.done = false;
    }

    /// Moves on past `ev`.
    pub fn advance(&mut self, ev: &Event)
        requires
            allowed(old(self)@, ev@),
        ensures
            final(self)@ == advance(old(self)@, ev@),
    {
        match ev {
            Event::Key(_) => {
                self.mark_child();
                self.after_key = true;
            },
            Event::EndObject | Event::EndArray => {
                self.frames.pop();
                self.done = self.frames.len() == 0;
            },
            Event::BeginObject => {
                self.start_value();
                self.frames.push(Frame { kind: Kind::Object, has_child: false });
            },
            Event::BeginArray => {
                self.start_value();
                self.frames.push(Frame { kind: Kind::Array, has_child: false });
            },
            _ => {
                self.start_value();
                self.done = self.frames.len() == 0;
            },
        }
    }
}

} // verus!
