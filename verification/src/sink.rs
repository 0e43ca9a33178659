//! The output sink wrapper: remembers that the receiving end of the output has
//! gone away, so that the caller can treat this as a benign end of the run.

use vstd::prelude::*;

verus! {

/// Why an operation on the sink failed.
#[derive(Clone, Copy, Debug, PartialEq, Eq, Structural)]
pub enum SinkError {
    /// The consumer of the output stopped reading.
    ReceiverClosed,
    /// Any other failure of the sink.
    Failed,
}

/// A sink together with a sticky flag that records a closed receiver.
pub struct CatchBrokenPipe<W> {
    pub writer: W,
    pub broken_pipe: bool,
}

/// The flag after an operation that ended in `failure`, given the flag before.
pub open spec fn flag_after(before: bool, failure: Option<SinkError>) -> bool {
    before || failure == Some(SinkError::ReceiverClosed)
}

impl<W> CatchBrokenPipe<W> {
    /// Wraps `writer`; no closed receiver has been seen yet.
    pub fn new(writer: W) -> (sink: Self)
        ensures
            sink.writer == writer,
            !sink.broken_pipe,
    {
        CatchBrokenPipe { writer, broken_pipe: false }
    }

    /// Runs `f` on the wrapped sink and hands its result back unchanged. The
    /// flag is set when `f` fails because the receiver is closed, and is never
    /// cleared.
    pub fn catch_error<T, F>(&mut self, f: F) -> (r: Result<T, SinkError>)
        where F: FnOnce(&mut W) -> Result<T, SinkError>
        requires
            forall|w: &mut W| f.requires((w,)),
        ensures
            exists|w: &mut W|
                *w == old(self).writer && *final(w) == final(self).writer
                    && #[trigger] f.ensures((w,), r),
            final(self).broken_pipe == flag_after(old(self).broken_pipe, r.err()),
    {
        let r = f(&mut self.writer);
        if let Err(SinkError::ReceiverClosed) = r {
            self.broken_pipe = true;
        }
        r
    }
}

} // verus!
