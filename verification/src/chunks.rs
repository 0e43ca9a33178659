//! A document in pieces: however the input is cut, the pipeline gives what it
//! gives for the input in one piece.

use vstd::prelude::*;
use crate::bounds::lemma_pull_moves;
use crate::error::{AppError, ParseError};
use crate::event::EventView;
use crate::format::{rendered, text};
use crate::grammar::{advance, initial, run, State};
use crate::parse::{decided, events_from, lemma_events_unfold, parse, pulled, step, PullView};
use crate::pipeline::{following, pretty};
use crate::stream::{behind, drain, feeds, lemma_drain_unfolds, Drained, Ending, Pipeline};
use crate::window::{law_last_window, law_window_decides, moved};

verus! {

/// The bytes of the chunks of `chunks`, one chunk after the other.
pub open spec fn joined(chunks: Seq<Vec<u8>>) -> Seq<u8>
    decreases chunks.len(),
{
    if chunks.len() == 0 {
        Seq::empty()
    } else {
        joined(chunks.drop_last()) + chunks.last()@
    }
}

/// The first chunks of a list, joined, are the first bytes of the whole list,
/// joined.
pub proof fn lemma_joined_prefix(chunks: Seq<Vec<u8>>, count: int)
    requires
        0 <= count <= chunks.len(),
    ensures
        joined(chunks.subrange(0, count)).len() <= joined(chunks).len(),
        joined(chunks.subrange(0, count)) == joined(chunks).subrange(
            0,
            joined(chunks.subrange(0, count)).len() as int,
        ),
    decreases chunks.len(),
{
    if count == chunks.len() {
        assert(chunks.subrange(0, count) =~= chunks);
        assert(joined(chunks).subrange(0, joined(chunks).len() as int) =~= joined(chunks));
    } else {
        lemma_joined_prefix(chunks.drop_last(), count);
        assert(chunks.drop_last().subrange(0, count) =~= chunks.subrange(0, count));
        let first = joined(chunks.subrange(0, count));
        assert(first =~= joined(chunks).subrange(0, first.len() as int));
    }
}

/// What follows in the whole input `s` behind a reading of a window that
/// starts at `base`: the events from where the reading stopped, nothing once
/// the document is complete, or the failure at its offset in `s`.
pub open spec fn continued(read: Drained, s: Seq<u8>, base: int) -> Result<
    Seq<EventView>,
    ParseError,
> {
    match read.end {
        Ending::NeedMore => events_from(s, base + read.pos, read.st),
        Ending::Done => Ok(Seq::empty()),
        Ending::Failed(e) => Err(moved(e, base)),
    }
}

/// The newline that ends the text of a complete document.
pub open spec fn final_newline(end: Ending) -> Seq<u8> {
    if end is Done {
        seq![0x0au8]
    } else {
        Seq::empty()
    }
}

/// Putting events in front, twice, is putting all of them in front at once.
proof fn lemma_following_twice(
    first: Seq<EventView>,
    second: Seq<EventView>,
    tail: Result<Seq<EventView>, ParseError>,
)
    ensures
        following(first, following(second, tail)) == following(first + second, tail),
{
    match tail {
        Ok(rest) => {
            assert(first + (second + rest) =~= (first + second) + rest);
        },
        Err(e) => {},
    }
}

/// The text of two runs of events, one after the other, is the text of the
/// first followed by the text of the second in the state that the first
/// leads to; and the state after both is the state after the second, from
/// there.
pub proof fn lemma_rendered_append(
    st: State,
    first: Seq<EventView>,
    second: Seq<EventView>,
    size: nat,
)
    ensures
        rendered(st, first + second, size) == rendered(st, first, size) + rendered(
            run(st, first),
            second,
            size,
        ),
        run(st, first + second) == run(run(st, first), second),
    decreases first.len(),
{
    if first.len() == 0 {
        assert(first + second =~= second);
        assert(rendered(st, first, size) + rendered(st, second, size) =~= rendered(
            st,
            second,
            size,
        ));
    } else {
        let all = first + second;
        let next = advance(st, first[0]);
        assert(all[0] == first[0]);
        assert(all.drop_first() =~= first.drop_first() + second);
        lemma_rendered_append(next, first.drop_first(), second, size);
        assert(rendered(st, all, size) =~= text(st, first[0], size) + (rendered(
            next,
            first.drop_first(),
            size,
        ) + rendered(run(next, first.drop_first()), second, size)));
        assert(rendered(st, all, size) =~= rendered(st, first, size) + rendered(
            run(st, first),
            second,
            size,
        ));
    }
}

/// What a pull on a window says of the whole input: the event that it
/// yields, the end of the document and the failure that it finds are those
/// of the step at the same place in the whole input; and the last window
/// never asks for more.
pub proof fn lemma_pull_in_step(
    window: Seq<u8>,
    s: Seq<u8>,
    base: int,
    pos: int,
    st: State,
    at_end: bool,
)
    requires
        0 <= base,
        base + window.len() <= s.len() <= usize::MAX,
        window == s.subrange(base, base + window.len()),
        0 <= pos <= window.len(),
        at_end ==> base + window.len() == s.len(),
    ensures
        match pulled(window, pos, st, at_end) {
            Ok((PullView::Event(ev), next)) => step(s, base + pos, st) == Ok::<
                Option<(EventView, int)>,
                ParseError,
            >(Some((ev, next + base))),
            Ok((PullView::End, _)) => step(s, base + pos, st) == Ok::<
                Option<(EventView, int)>,
                ParseError,
            >(None),
            Ok((PullView::NeedMore, _)) => !at_end,
            Err(e) => step(s, base + pos, st) == Err::<Option<(EventView, int)>, ParseError>(
                moved(e, base),
            ),
        },
{
    if at_end {
        law_last_window(window, s, base, pos, st);
    } else if decided(window, step(window, pos, st)) {
        law_window_decides(window, s, base, pos, st);
    }
}

/// The text of an event followed by others is its own text followed by
/// theirs, and the state after them is the state after the others, from
/// behind it.
proof fn lemma_rendered_first(st: State, ev: EventView, rest: Seq<EventView>, size: nat)
    ensures
        rendered(st, seq![ev] + rest, size) == text(st, ev, size) + rendered(
            advance(st, ev),
            rest,
            size,
        ),
        run(st, seq![ev] + rest) == run(advance(st, ev), rest),
{
    let all = seq![ev] + rest;
    assert(all[0] == ev);
    assert(all.drop_first() =~= rest);
}

/// Reading a window is in step with reading the whole input: the events that
/// a part of the input decides are the next events of the whole input, their
/// text is the text that these events have, and what follows them in the
/// whole input is what reading on from there gives. The last window leaves
/// nothing undecided.
pub proof fn law_window_in_step(
    window: Seq<u8>,
    s: Seq<u8>,
    base: int,
    pos: int,
    st: State,
    at_end: bool,
    size: nat,
)
    requires
        0 <= base,
        base + window.len() <= s.len() <= usize::MAX,
        window == s.subrange(base, base + window.len()),
        0 <= pos <= window.len(),
        at_end ==> base + window.len() == s.len(),
    ensures
        ({
            let read = drain(window, pos, st, at_end, size);
            &&& events_from(s, base + pos, st) == following(read.events, continued(read, s, base))
            &&& read.text == rendered(st, read.events, size) + final_newline(read.end)
            &&& read.st == run(st, read.events)
            &&& pos <= read.pos <= window.len()
            &&& at_end ==> !(read.end is NeedMore)
            &&& read.end matches Ending::Failed(e) ==> e.offset <= window.len()
        }),
    decreases window.len() - pos,
{
    let read = drain(window, pos, st, at_end, size);
    lemma_drain_unfolds(window, pos, st, at_end, size);
    lemma_pull_moves(window, pos, st, at_end);
    lemma_pull_in_step(window, s, base, pos, st, at_end);
    lemma_events_unfold(s, base + pos, st);
    let none = Seq::<EventView>::empty();
    match pulled(window, pos, st, at_end) {
        Ok((PullView::Event(ev), next)) => {
            let after = advance(st, ev);
            let rest = drain(window, next, after, at_end, size);
            law_window_in_step(window, s, base, next, after, at_end, size);
            lemma_following_twice(seq![ev], rest.events, continued(rest, s, base));
            lemma_rendered_first(st, ev, rest.events, size);
            assert(read == behind(seq![ev], text(st, ev, size), rest));
            assert(continued(read, s, base) == continued(rest, s, base));
            assert(text(st, ev, size) + (rendered(after, rest.events, size) + final_newline(
                rest.end,
            )) =~= (text(st, ev, size) + rendered(after, rest.events, size)) + final_newline(
                rest.end,
            ));
        },
        Ok((PullView::End, _)) => {
            assert(read.events == none);
            assert(none + none =~= none);
            assert(rendered(st, none, size) + seq![0x0au8] =~= seq![0x0au8]);
        },
        Ok((PullView::NeedMore, _)) => {
            assert(read.events == none);
            match events_from(s, base + pos, st) {
                Ok(rest) => {
                    assert(none + rest =~= rest);
                },
                Err(e) => {},
            }
            assert(rendered(st, none, size) + Seq::<u8>::empty() =~= Seq::<u8>::empty());
        },
        Err(e) => {
            assert(read.events == none);
            assert(rendered(st, none, size) + Seq::<u8>::empty() =~= Seq::<u8>::empty());
        },
    }
}

/// Where a chunk of a list lies in the bytes of the whole list, joined:
/// behind the chunks in front of it.
pub proof fn lemma_chunk_place(chunks: Seq<Vec<u8>>, index: int)
    requires
        0 <= index < chunks.len(),
    ensures
        ({
            let from = joined(chunks.subrange(0, index)).len() as int;
            let to = joined(chunks.subrange(0, index + 1)).len() as int;
            &&& to == from + chunks[index]@.len()
            &&& to <= joined(chunks).len()
            &&& chunks[index]@ == joined(chunks).subrange(from, to)
        }),
{
    let first = chunks.subrange(0, index);
    let more = chunks.subrange(0, index + 1);
    assert(more.drop_last() =~= first);
    assert(more.last() == chunks[index]);
    lemma_joined_prefix(chunks, index);
    lemma_joined_prefix(chunks, index + 1);
    let from = joined(first).len() as int;
    let to = joined(more).len() as int;
    assert(joined(more) == joined(first) + chunks[index]@);
    assert(chunks[index]@ =~= joined(more).subrange(from, to));
    assert(joined(more).subrange(from, to) =~= joined(chunks).subrange(from, to));
}

/// Whether the pipeline `p` is in step with the input `s`, of which the first
/// `handed` bytes have been handed to it: it has read the events `seen` and
/// written their text, `out`; it holds the bytes between those that it has
/// read and those that are still to come; and what it will read from there
/// on is what follows `seen` in the document.
pub open spec fn in_step(
    p: Pipeline,
    s: Seq<u8>,
    handed: int,
    seen: Seq<EventView>,
    out: Seq<u8>,
) -> bool {
    &&& !p.finished
    &&& p.consumed + p.pending@.len() == handed
    &&& handed <= s.len() <= usize::MAX
    &&& p.pending@ == s.subrange(p.consumed as int, handed)
    &&& p.nesting@ == run(initial(), seen)
    &&& out == rendered(initial(), seen, p.indent_size as nat)
    &&& parse(s) == following(seen, events_from(s, p.consumed as int, p.nesting@))
}

/// The events that a call of `feed` reads, where the pipeline `before` takes
/// `chunk`.
pub open spec fn fed_events(before: Pipeline, chunk: Seq<u8>, at_end: bool) -> Seq<EventView> {
    drain(before.pending@ + chunk, 0, before.nesting@, at_end, before.indent_size as nat).events
}

/// What a reading of the bytes at hand adds to a pipeline that is in step
/// with the input: the events that it decides follow those that were seen,
/// and their text follows the text that was written.
proof fn lemma_reading_in_step(
    window: Seq<u8>,
    s: Seq<u8>,
    base: int,
    seen: Seq<EventView>,
    at_end: bool,
    size: nat,
)
    requires
        0 <= base,
        base + window.len() <= s.len() <= usize::MAX,
        window == s.subrange(base, base + window.len()),
        at_end ==> base + window.len() == s.len(),
        parse(s) == following(seen, events_from(s, base, run(initial(), seen))),
    ensures
        ({
            let read = drain(window, 0, run(initial(), seen), at_end, size);
            let all = seen + read.events;
            &&& parse(s) == following(all, continued(read, s, base))
            &&& rendered(initial(), seen, size) + read.text == rendered(initial(), all, size)
                + final_newline(read.end)
            &&& read.st == run(initial(), all)
            &&& 0 <= read.pos <= window.len()
            &&& at_end ==> !(read.end is NeedMore)
            &&& read.end matches Ending::Failed(e) ==> e.offset <= window.len()
        }),
{
    let st = run(initial(), seen);
    let read = drain(window, 0, st, at_end, size);
    law_window_in_step(window, s, base, 0, st, at_end, size);
    lemma_following_twice(seen, read.events, continued(read, s, base));
    lemma_rendered_append(initial(), seen, read.events, size);
    assert(rendered(initial(), seen, size) + (rendered(st, read.events, size) + final_newline(
        read.end,
    )) =~= (rendered(initial(), seen, size) + rendered(st, read.events, size)) + final_newline(
        read.end,
    ));
}

/// Feeding keeps the pipeline in step with the input: where the pipeline is
/// in step and takes the bytes that come next, it is in step afterwards, or
/// it has written the pretty-printed document, or it returns the failure of
/// the whole input. The last piece always ends the run.
pub proof fn law_feed_in_step(
    before: Pipeline,
    chunk: Seq<u8>,
    at_end: bool,
    out_before: Seq<u8>,
    after: Pipeline,
    out_after: Seq<u8>,
    r: Result<bool, AppError>,
    s: Seq<u8>,
    handed: int,
    seen: Seq<EventView>,
)
    requires
        in_step(before, s, handed, seen, out_before),
        handed + chunk.len() <= s.len(),
        chunk == s.subrange(handed, handed + chunk.len()),
        at_end ==> handed + chunk.len() == s.len(),
        feeds(before, chunk, at_end, out_before, after, out_after, r),
    ensures
        match r {
            Ok(false) => !at_end && in_step(
                after,
                s,
                handed + chunk.len(),
                seen + fed_events(before, chunk, at_end),
                out_after,
            ),
            Ok(true) => pretty(s, before.indent_size as nat) == Ok::<Seq<u8>, ParseError>(
                out_after,
            ),
            Err(e) => pretty(s, before.indent_size as nat) matches Err(found) && e
                == AppError::Parse(found),
        },
{
    let size = before.indent_size as nat;
    let base = before.consumed as int;
    let window = before.pending@ + chunk;
    let read = drain(window, 0, before.nesting@, at_end, size);
    let all = seen + read.events;
    assert(window =~= s.subrange(base, base + window.len()));
    lemma_reading_in_step(window, s, base, seen, at_end, size);
    match read.end {
        Ending::NeedMore => {
            assert(after.consumed == base + read.pos);
            assert(after.pending@ =~= s.subrange(base + read.pos, handed + chunk.len()));
            assert(rendered(initial(), all, size) + final_newline(read.end) =~= rendered(
                initial(),
                all,
                size,
            ));
        },
        Ending::Done => {
            assert(all + Seq::<EventView>::empty() =~= all);
        },
        Ending::Failed(e) => {},
    }
}

/// Pretty-prints the document that the chunks of `chunks` hold, one after the
/// other, indenting by `indent_size` spaces per level. The chunks are handed
/// to a pipeline one by one; the outcome is that of [`transcode`] on the
/// whole input, wherever the input is cut.
///
/// [`transcode`]: crate::pipeline::transcode
pub fn transcode_chunks(chunks: &Vec<Vec<u8>>, indent_size: usize) -> (r: Result<
    Vec<u8>,
    AppError,
>)
    requires
        joined(chunks@).len() <= usize::MAX,
    ensures
        match pretty(joined(chunks@), indent_size as nat) {
            Ok(text) => r matches Ok(out) && out@ == text,
            Err(e) => r matches Err(AppError::Parse(found)) && found == e,
        },
{
    let ghost s = joined(chunks@);
    let mut pipeline = Pipeline::new(indent_size);
    let mut out: Vec<u8> = Vec::new();
    let ghost mut seen: Seq<EventView> = Seq::empty();
    let ghost mut handed: int = 0;
    let mut i: usize = 0;
    proof {
        assert(chunks@.subrange(0, 0) =~= Seq::<Vec<u8>>::empty());
        assert(pipeline.pending@ =~= s.subrange(0, 0));
        match events_from(s, 0, initial()) {
            Ok(rest) => {
                assert(seen + rest =~= rest);
            },
            Err(e) => {},
        }
        assert(in_step(pipeline, s, handed, seen, out@));
    }
    while i < chunks.len()
        invariant
            i <= chunks.len(),
            s == joined(chunks@),
            pipeline.indent_size == indent_size,
            handed == joined(chunks@.subrange(0, i as int)).len(),
            in_step(pipeline, s, handed, seen, out@),
        decreases chunks.len() - i,
    {
        let ghost before = pipeline;
        let ghost out_before = out@;
        let fed = pipeline.feed(chunks[i].as_slice(), false, &mut out);
        proof {
            lemma_chunk_place(chunks@, i as int);
            law_feed_in_step(
                before,
                chunks@[i as int]@,
                false,
                out_before,
                pipeline,
                out@,
                fed,
                s,
                handed,
                seen,
            );
            seen = seen + fed_events(before, chunks@[i as int]@, false);
            handed = handed + chunks@[i as int]@.len();
        }
        match fed {
            Err(e) => {
                return Err(e);
            },
            Ok(complete) => {
                if complete {
                    return Ok(out);
                }
            },
        }
        i += 1;
    }
    let ghost before = pipeline;
    let ghost out_before = out@;
    let nothing: Vec<u8> = Vec::new();
    let fed = pipeline.feed(nothing.as_slice(), true, &mut out);
    proof {
        assert(chunks@.subrange(0, i as int) =~= chunks@);
        assert(nothing@ =~= s.subrange(handed, handed + 0));
        law_feed_in_step(before, nothing@, true, out_before, pipeline, out@, fed, s, handed, seen);
    }
    match fed {
        Err(e) => Err(e),
        Ok(_) => Ok(out),
    }
}

} // verus!
