//! Streaming JSON pretty-printer: a pull parser that yields structural events,
//! a formatter that turns events into indented text, and the pipeline that
//! connects the two one event at a time.
//!
//! The pieces, leaves first:
//!
//! - [`sink`]: the wrapper that remembers a closed receiver of the output;
//! - [`event`] and [`grammar`]: the events, and which of them may come next;
//! - [`format`]: the text of each event;
//! - [`scan`] and [`parse`]: tokens, and the step from one event to the next;
//! - [`pipeline`]: a whole document at once;
//! - [`stream`] and [`chunks`]: a document in pieces;
//! - [`error`] and [`outcome`]: failures, diagnostics and how a run ends;
//! - [`laws`], with [`readback`], [`window`] and [`bounds`]: what is proved of
//!   all of this.

pub mod bounds;
pub mod chunks;
pub mod error;
pub mod event;
pub mod format;
pub mod grammar;
pub mod laws;
pub mod outcome;
pub mod parse;
pub mod pipeline;
pub mod readback;
pub mod scan;
pub mod sink;
pub mod stream;
pub mod window;
