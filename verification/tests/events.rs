use jsonpp::error::{ParseError, ParseErrorKind};
use jsonpp::event::Event;
use jsonpp::format::{push_line_break, push_quoted, Formatter};
use jsonpp::grammar::{Frame, Kind, Nesting};
use jsonpp::parse::Parser;
use jsonpp::pipeline::transcode;

fn events(input: &[u8]) -> Result<Vec<Event>, ParseError> {
    let mut parser = Parser::new();
    let mut all = Vec::new();
    while let Some(ev) = parser.next_event(input)? {
        all.push(ev);
    }
    Ok(all)
}

fn text(bytes: &str) -> Vec<u8> {
    bytes.as_bytes().to_vec()
}

#[test]
fn parser_yields_events_in_document_order() {
    let got = events(b" {\"a\" : 1 , \"b\":[true,null,\"x\"]} ").unwrap();
    let expected = vec![
        Event::BeginObject,
        Event::Key(text("a")),
        Event::Number(text("1")),
        Event::Key(text("b")),
        Event::BeginArray,
        Event::Bool(true),
        Event::Null,
        Event::String(text("x")),
        Event::EndArray,
        Event::EndObject,
    ];
    assert_eq!(got, expected);
}

#[test]
fn parser_reads_no_further_than_the_event_needs() {
    let input = b"[10, 20]";
    let mut parser = Parser::new();
    assert_eq!(parser.pos, 0);
    assert_eq!(parser.next_event(input), Ok(Some(Event::BeginArray)));
    assert_eq!(parser.pos, 1);
    assert_eq!(parser.next_event(input), Ok(Some(Event::Number(text("10")))));
    assert_eq!(parser.pos, 3);
    assert_eq!(parser.next_event(input), Ok(Some(Event::Number(text("20")))));
    assert_eq!(parser.pos, 7);
    assert_eq!(parser.next_event(input), Ok(Some(Event::EndArray)));
    assert_eq!(parser.pos, 8);
    assert_eq!(parser.next_event(input), Ok(None));
    assert_eq!(parser.next_event(input), Ok(None));
    assert_eq!(parser.pos, 8);
}

#[test]
fn parser_key_event_takes_the_colon_with_it() {
    let input = b"{\"k\"  :  \"v\"}";
    let mut parser = Parser::new();
    assert_eq!(parser.next_event(input), Ok(Some(Event::BeginObject)));
    assert_eq!(parser.next_event(input), Ok(Some(Event::Key(text("k")))));
    assert_eq!(parser.pos, 7);
    assert_eq!(parser.next_event(input), Ok(Some(Event::String(text("v")))));
    assert_eq!(parser.next_event(input), Ok(Some(Event::EndObject)));
    assert_eq!(parser.next_event(input), Ok(None));
}

#[test]
fn parser_failure_leaves_the_parser_as_it_was() {
    let input = b"[1, ?]";
    let mut parser = Parser::new();
    parser.next_event(input).unwrap();
    parser.next_event(input).unwrap();
    let pos = parser.pos;
    let frames = parser.nesting.frames.clone();
    let e = parser.next_event(input).unwrap_err();
    assert_eq!(e, ParseError { kind: ParseErrorKind::ExpectedValue, offset: 4 });
    assert_eq!(parser.pos, pos);
    assert_eq!(parser.nesting.frames, frames);
    assert_eq!(parser.next_event(input), Err(e));
}

#[test]
fn parser_tracks_open_containers() {
    let input = b"{\"a\":[1]}";
    let mut parser = Parser::new();
    parser.next_event(input).unwrap();
    assert_eq!(parser.nesting.frames, vec![Frame { kind: Kind::Object, has_child: false }]);
    parser.next_event(input).unwrap();
    assert!(parser.nesting.after_key);
    assert_eq!(parser.nesting.frames, vec![Frame { kind: Kind::Object, has_child: true }]);
    parser.next_event(input).unwrap();
    assert!(!parser.nesting.after_key);
    assert_eq!(
        parser.nesting.frames,
        vec![
            Frame { kind: Kind::Object, has_child: true },
            Frame { kind: Kind::Array, has_child: false }
        ]
    );
    parser.next_event(input).unwrap();
    assert_eq!(parser.nesting.depth(), 2);
    assert!(parser.nesting.has_child());
    parser.next_event(input).unwrap();
    assert_eq!(parser.nesting.depth(), 1);
    assert!(!parser.nesting.done);
    parser.next_event(input).unwrap();
    assert_eq!(parser.nesting.depth(), 0);
    assert!(parser.nesting.done);
}

#[test]
fn number_text_is_the_source_text() {
    assert_eq!(events(b"1.50000").unwrap(), vec![Event::Number(text("1.50000"))]);
    assert_eq!(events(b"-0.0E-0 ").unwrap(), vec![Event::Number(text("-0.0E-0"))]);
    assert_eq!(events(b"0]").unwrap(), vec![Event::Number(text("0"))]);
}

#[test]
fn string_text_is_decoded() {
    assert_eq!(
        events(b"\"a\\n\\\"\\u0041\\u00e9\"").unwrap(),
        vec![Event::String(vec![b'a', b'\n', b'"', b'A', 0xc3, 0xa9])]
    );
    assert_eq!(
        events(b"\"\\ud834\\udd1e\"").unwrap(),
        vec![Event::String(vec![0xf0, 0x9d, 0x84, 0x9e])]
    );
    assert_eq!(events(b"\"\\u07ff\\u0800\\uffff\"").unwrap(), vec![Event::String(
        vec![0xdf, 0xbf, 0xe0, 0xa0, 0x80, 0xef, 0xbf, 0xbf]
    )]);
}

#[test]
fn formatter_writes_one_event_at_a_time() {
    let mut f = Formatter::new(2);
    let mut out = Vec::new();
    assert!(f.write_event(&Event::BeginObject, &mut out));
    assert_eq!(out, b"{");
    assert!(f.write_event(&Event::Key(text("a")), &mut out));
    assert_eq!(out, b"{\n  \"a\": ");
    assert!(f.write_event(&Event::BeginArray, &mut out));
    assert_eq!(out, b"{\n  \"a\": [");
    assert!(f.write_event(&Event::Number(text("1")), &mut out));
    assert_eq!(out, b"{\n  \"a\": [\n    1");
    assert!(f.write_event(&Event::String(text("s")), &mut out));
    assert_eq!(out, b"{\n  \"a\": [\n    1,\n    \"s\"");
    assert!(f.write_event(&Event::EndArray, &mut out));
    assert_eq!(out, b"{\n  \"a\": [\n    1,\n    \"s\"\n  ]");
    assert!(f.write_event(&Event::Key(text("b")), &mut out));
    assert!(f.write_event(&Event::Null, &mut out));
    assert!(f.write_event(&Event::EndObject, &mut out));
    assert_eq!(out, b"{\n  \"a\": [\n    1,\n    \"s\"\n  ],\n  \"b\": null\n}");
    assert!(f.nesting.done);
    assert_eq!(f.indent_size, 2);
}

#[test]
fn formatter_refuses_an_event_that_may_not_come_next() {
    let mut out = Vec::new();

    let mut f = Formatter::new(2);
    assert!(!f.write_event(&Event::EndArray, &mut out));
    assert!(!f.write_event(&Event::EndObject, &mut out));
    assert!(!f.write_event(&Event::Key(text("k")), &mut out));
    assert!(out.is_empty());

    assert!(f.write_event(&Event::BeginObject, &mut out));
    assert!(!f.write_event(&Event::Null, &mut out));
    assert!(!f.write_event(&Event::BeginArray, &mut out));
    assert!(!f.write_event(&Event::EndArray, &mut out));
    assert!(f.write_event(&Event::Key(text("k")), &mut out));
    assert!(!f.write_event(&Event::Key(text("k")), &mut out));
    assert!(!f.write_event(&Event::EndObject, &mut out));
    assert!(f.write_event(&Event::BeginArray, &mut out));
    assert!(!f.write_event(&Event::Key(text("k")), &mut out));
    assert!(!f.write_event(&Event::EndObject, &mut out));
    let before = out.clone();
    let depth = f.nesting.depth();
    assert!(!f.write_event(&Event::EndObject, &mut out));
    assert_eq!(out, before);
    assert_eq!(f.nesting.depth(), depth);
    assert!(f.write_event(&Event::EndArray, &mut out));
    assert!(f.write_event(&Event::EndObject, &mut out));
    assert_eq!(out, b"{\n  \"k\": []\n}");

    assert!(!f.write_event(&Event::Null, &mut out));
    assert!(!f.write_event(&Event::BeginArray, &mut out));
    assert_eq!(out, b"{\n  \"k\": []\n}");
}

#[test]
fn formatter_writes_number_text_verbatim() {
    let mut f = Formatter::new(2);
    let mut out = Vec::new();
    assert!(f.write_event(&Event::Number(text("1.50000")), &mut out));
    assert_eq!(out, b"1.50000");
}

#[test]
fn quoting_escapes_what_must_be_escaped() {
    let mut out = Vec::new();
    push_quoted(&mut out, &vec![b'a', b'"', b'\\', b'/', 0x08, 0x0c, b'\n', b'\r', b'\t', 0x00, 0x1f, 0x7f, 0xc3, 0xa9]);
    assert_eq!(out, b"\"a\\\"\\\\/\\b\\f\\n\\r\\t\\u0000\\u001f\x7f\xc3\xa9\"");
    let mut out = Vec::new();
    push_quoted(&mut out, &vec![0x0b, 0x0e, 0x10, 0x1a]);
    assert_eq!(out, b"\"\\u000b\\u000e\\u0010\\u001a\"");
}

#[test]
fn line_break_is_a_newline_and_depth_times_size_spaces() {
    let mut out = vec![b'x'];
    push_line_break(&mut out, 3, 2);
    assert_eq!(out, b"x\n      ");
    let mut out = Vec::new();
    push_line_break(&mut out, 0, 5);
    assert_eq!(out, b"\n");
    let mut out = Vec::new();
    push_line_break(&mut out, 4, 0);
    assert_eq!(out, b"\n");
}

#[test]
fn nesting_accepts_what_the_grammar_allows() {
    let mut n = Nesting::new();
    assert!(n.at_value());
    assert!(!n.is_inside(Kind::Array));
    assert!(n.accepts(&Event::Null));
    assert!(!n.accepts(&Event::EndArray));
    n.advance(&Event::BeginArray);
    assert!(n.is_inside(Kind::Array));
    assert!(!n.is_inside(Kind::Object));
    assert!(!n.has_child());
    n.advance(&Event::Bool(false));
    assert!(n.has_child());
    assert!(n.accepts(&Event::EndArray));
    assert!(!n.accepts(&Event::EndObject));
    n.advance(&Event::EndArray);
    assert!(n.done);
    assert!(!n.at_value());
    assert!(!n.accepts(&Event::Null));
}

#[test]
fn reparsing_the_output_gives_the_same_events() {
    let inputs: [&[u8]; 6] = [
        b"{\"a\":1,\"b\":[1,2,3]}",
        b"[[[]],{\"x\":{\"y\":[null,true,false,\"s\\n\\u0000\\\"\"]}}, -0.0e+00]",
        b"\"\\ud83d\\ude00\"",
        b"1.50000",
        b"  [ 1 , [ 2 , [ 3 , { \"k\" : \"v\" , \"k\" : [ ] } ] ] ]  ",
        b"{\"a\\\"b\":\"\\\\\",\"\\u001f\":\"\\u007f\"}",
    ];
    for input in inputs {
        let expected = events(input).unwrap();
        for indent in [0usize, 2, 5] {
            let out = transcode(input, indent).unwrap();
            assert_eq!(events(&out).unwrap(), expected);
        }
    }
}
