use jsonpp::chunks::transcode_chunks;
use jsonpp::error::{AppError, ParseError, ParseErrorKind};
use jsonpp::event::Event;
use jsonpp::parse::{Parser, Pull, LOOKAHEAD};
use jsonpp::pipeline::transcode;
use jsonpp::stream::{add_clipped, Pipeline};

const SAMPLES: [&str; 12] = [
    "{\"a\":1,\"b\":[1,2,3]}",
    "[[[]],{\"x\":{\"y\":[null,true,false,\"s\\n\\u0000\\\"\"]}}, -0.0e+00]",
    "\"\\ud83d\\ude00 \\\" \\\\ \\/\"",
    "12345678901234567890.12345678901234567890E-123",
    "  [ 1 , [ 2 , [ 3 , { \"k\" : \"v\" , \"k\" : [ ] } ] ] ]  ",
    "1.50000",
    "{}",
    "[]",
    "true",
    "[1] trailing garbage",
    "{\"a\":}",
    "[1,2",
];

fn cut(input: &[u8], size: usize) -> Vec<Vec<u8>> {
    input.chunks(size).map(|c| c.to_vec()).collect()
}

fn feed_all(chunks: &[Vec<u8>], indent: usize) -> (Vec<u8>, Result<bool, AppError>) {
    let mut pipeline = Pipeline::new(indent);
    let mut out = Vec::new();
    for chunk in chunks {
        match pipeline.feed(chunk, false, &mut out) {
            Ok(false) => {}
            other => return (out, other),
        }
    }
    let last = pipeline.feed(&[], true, &mut out);
    (out, last)
}

#[test]
fn chunking_does_not_change_the_outcome() {
    for sample in SAMPLES {
        let whole = transcode(sample.as_bytes(), 2);
        for size in [1usize, 2, 3, 5, 7, 11, 13, 64, 1000] {
            let chunks = cut(sample.as_bytes(), size);
            assert_eq!(transcode_chunks(&chunks, 2), whole, "{:?} cut by {}", sample, size);
        }
    }
}

#[test]
fn no_chunks_at_all_is_an_empty_input() {
    assert_eq!(
        transcode_chunks(&Vec::new(), 2),
        Err(AppError::Parse(ParseError { kind: ParseErrorKind::UnexpectedEnd, offset: 0 }))
    );
    assert_eq!(transcode_chunks(&Vec::new(), 2), transcode(b"", 2));
}

#[test]
fn empty_chunks_change_nothing() {
    let chunks = vec![vec![], b"[1,".to_vec(), vec![], vec![], b"2]".to_vec(), vec![]];
    assert_eq!(transcode_chunks(&chunks, 2), transcode(b"[1,2]", 2));
}

#[test]
fn feeding_byte_by_byte_writes_the_same_text() {
    for sample in SAMPLES {
        let whole = transcode(sample.as_bytes(), 3);
        let (out, last) = feed_all(&cut(sample.as_bytes(), 1), 3);
        match whole {
            Ok(text) => {
                assert_eq!(last, Ok(true));
                assert_eq!(out, text);
            }
            Err(e) => assert_eq!(last, Err(e)),
        }
    }
}

#[test]
fn output_appears_as_soon_as_it_is_decided() {
    let mut pipeline = Pipeline::new(2);
    let mut out = Vec::new();
    assert_eq!(pipeline.feed(b"[1", false, &mut out), Ok(false));
    assert_eq!(out, b"[");
    assert_eq!(pipeline.pending, b"1");
    assert_eq!(pipeline.consumed, 1);
    assert_eq!(pipeline.feed(b"2", false, &mut out), Ok(false));
    assert_eq!(out, b"[");
    assert_eq!(pipeline.pending, b"12");
    assert_eq!(pipeline.feed(b", \"ab", false, &mut out), Ok(false));
    assert_eq!(out, b"[\n  12");
    assert_eq!(pipeline.pending, b", \"ab");
    assert_eq!(pipeline.consumed, 3);
    assert_eq!(pipeline.feed(b"c\"", false, &mut out), Ok(false));
    assert_eq!(out, b"[\n  12,\n  \"abc\"");
    assert_eq!(pipeline.pending, b"");
    assert_eq!(pipeline.consumed, 10);
    assert!(!pipeline.finished);
    assert_eq!(pipeline.feed(b"]", false, &mut out), Ok(true));
    assert_eq!(out, b"[\n  12,\n  \"abc\"\n]\n");
    assert!(pipeline.finished);
    assert_eq!(pipeline.consumed, 11);
}

#[test]
fn pipeline_keeps_only_what_is_undecided() {
    let mut pipeline = Pipeline::new(0);
    let mut out = Vec::new();
    let mut longest = 0;
    assert_eq!(pipeline.feed(b"[", false, &mut out), Ok(false));
    for i in 0..10000 {
        let element = format!("{},", i);
        assert_eq!(pipeline.feed(element.as_bytes(), false, &mut out), Ok(false));
        longest = longest.max(pipeline.pending.len());
        out.clear();
    }
    assert!(longest <= 1);
    assert_eq!(pipeline.nesting.depth(), 1);
    assert_eq!(pipeline.feed(b"0]", true, &mut out), Ok(true));
    assert_eq!(out, b",\n0\n]\n");
}

#[test]
fn finished_pipeline_reads_nothing_more() {
    let mut pipeline = Pipeline::new(2);
    let mut out = Vec::new();
    assert_eq!(pipeline.feed(b"{} ", false, &mut out), Ok(true));
    assert_eq!(out, b"{}\n");
    let pending = pipeline.pending.clone();
    let consumed = pipeline.consumed;
    assert_eq!(pipeline.feed(b"[1,2,3]", false, &mut out), Ok(true));
    assert_eq!(pipeline.feed(b"???", true, &mut out), Ok(true));
    assert_eq!(out, b"{}\n");
    assert_eq!(pipeline.pending, pending);
    assert_eq!(pipeline.consumed, consumed);
}

#[test]
fn failure_carries_its_offset_in_the_whole_input() {
    let mut pipeline = Pipeline::new(2);
    let mut out = Vec::new();
    assert_eq!(pipeline.feed(b"[1, 2, ", false, &mut out), Ok(false));
    assert_eq!(pipeline.consumed, 5);
    let padding = vec![b' '; LOOKAHEAD];
    let mut chunk = b"?".to_vec();
    chunk.extend_from_slice(&padding);
    assert_eq!(
        pipeline.feed(&chunk, false, &mut out),
        Err(AppError::Parse(ParseError { kind: ParseErrorKind::ExpectedValue, offset: 7 }))
    );
    assert_eq!(out, b"[\n  1,\n  2");
    assert_eq!(
        transcode(b"[1, 2, ?            ", 2),
        Err(AppError::Parse(ParseError { kind: ParseErrorKind::ExpectedValue, offset: 7 }))
    );
}

#[test]
fn failure_near_the_end_of_the_window_waits_for_more() {
    let mut pipeline = Pipeline::new(2);
    let mut out = Vec::new();
    assert_eq!(pipeline.feed(b"tru", false, &mut out), Ok(false));
    assert_eq!(pipeline.feed(b"e", false, &mut out), Ok(true));
    assert_eq!(out, b"true\n");

    let mut pipeline = Pipeline::new(2);
    let mut out = Vec::new();
    assert_eq!(pipeline.feed(b"tru", false, &mut out), Ok(false));
    assert_eq!(
        pipeline.feed(b"", true, &mut out),
        Err(AppError::Parse(ParseError { kind: ParseErrorKind::InvalidLiteral, offset: 0 }))
    );

    let mut pipeline = Pipeline::new(2);
    let mut out = Vec::new();
    assert_eq!(pipeline.feed(b"\"\\ud83d", false, &mut out), Ok(false));
    assert_eq!(pipeline.feed(b"\\ude00\"", false, &mut out), Ok(true));
    assert_eq!(out, "\"\u{1f600}\"\n".as_bytes());
}

#[test]
fn pull_asks_for_more_where_the_window_does_not_decide() {
    let mut parser = Parser::new();
    assert_eq!(parser.pull(b"", false), Ok(Pull::NeedMore));
    assert_eq!(parser.pull(b"  ", false), Ok(Pull::NeedMore));
    assert_eq!(parser.pull(b"12", false), Ok(Pull::NeedMore));
    assert_eq!(parser.pos, 0);
    assert_eq!(parser.pull(b"12 ", false), Ok(Pull::Event(Event::Number(b"12".to_vec()))));
    assert_eq!(parser.pos, 2);
    assert_eq!(parser.pull(b"12 ", false), Ok(Pull::End));
    assert_eq!(parser.pull(b"12 ", true), Ok(Pull::End));
}

#[test]
fn pull_at_the_end_of_the_input_decides_everything() {
    let mut parser = Parser::new();
    assert_eq!(parser.pull(b"12", true), Ok(Pull::Event(Event::Number(b"12".to_vec()))));
    let mut parser = Parser::new();
    assert_eq!(
        parser.pull(b"", true),
        Err(ParseError { kind: ParseErrorKind::UnexpectedEnd, offset: 0 })
    );
    let mut parser = Parser::new();
    assert_eq!(parser.pull(b"\"ab", false), Ok(Pull::NeedMore));
    assert_eq!(
        parser.pull(b"\"ab", true),
        Err(ParseError { kind: ParseErrorKind::UnexpectedEnd, offset: 3 })
    );
}

#[test]
fn pull_yields_what_is_not_a_number_without_a_byte_behind_it() {
    let mut parser = Parser::new();
    assert_eq!(parser.pull(b"[", false), Ok(Pull::Event(Event::BeginArray)));
    assert_eq!(parser.pull(b"[\"x\"", false), Ok(Pull::Event(Event::String(b"x".to_vec()))));
    assert_eq!(parser.pull(b"[\"x\",true", false), Ok(Pull::Event(Event::Bool(true))));
    assert_eq!(parser.pull(b"[\"x\",true]", false), Ok(Pull::Event(Event::EndArray)));
    assert_eq!(parser.pull(b"[\"x\",true]", false), Ok(Pull::End));
}

#[test]
fn pull_reports_a_failure_once_enough_bytes_follow_it() {
    let mut parser = Parser::new();
    assert_eq!(parser.pull(b"?", false), Ok(Pull::NeedMore));
    assert_eq!(parser.pull(b"?1234567890", false), Ok(Pull::NeedMore));
    assert_eq!(
        parser.pull(b"?12345678901", false),
        Err(ParseError { kind: ParseErrorKind::ExpectedValue, offset: 0 })
    );
    assert_eq!(LOOKAHEAD, 12);
}

#[test]
fn rebase_starts_again_at_the_front_of_what_is_left() {
    let input = b"[10, 20]";
    let mut parser = Parser::new();
    assert_eq!(parser.pull(input, true), Ok(Pull::Event(Event::BeginArray)));
    assert_eq!(parser.pull(input, true), Ok(Pull::Event(Event::Number(b"10".to_vec()))));
    let read = parser.rebase();
    assert_eq!(read, 3);
    assert_eq!(parser.pos, 0);
    assert_eq!(parser.nesting.depth(), 1);
    let rest = &input[read..];
    assert_eq!(parser.pull(rest, true), Ok(Pull::Event(Event::Number(b"20".to_vec()))));
    assert_eq!(parser.pull(rest, true), Ok(Pull::Event(Event::EndArray)));
    assert_eq!(parser.pull(rest, true), Ok(Pull::End));
}

#[test]
fn offsets_are_held_at_the_largest_that_fits() {
    assert_eq!(add_clipped(2, 3), 5);
    assert_eq!(add_clipped(usize::MAX, 0), usize::MAX);
    assert_eq!(add_clipped(usize::MAX - 1, 1), usize::MAX);
    assert_eq!(add_clipped(usize::MAX, 1), usize::MAX);
    assert_eq!(add_clipped(usize::MAX - 1, 5), usize::MAX);
}

#[test]
fn new_pipeline_is_at_the_start() {
    let pipeline = Pipeline::new(4);
    assert_eq!(pipeline.indent_size, 4);
    assert!(pipeline.pending.is_empty());
    assert_eq!(pipeline.consumed, 0);
    assert!(!pipeline.finished);
    assert_eq!(pipeline.nesting.depth(), 0);
}
