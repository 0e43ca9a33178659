use jsonpp::error::{push_decimal, ParseError, ParseErrorKind};
use jsonpp::event::Event;
use jsonpp::format::{push_all, push_text};
use jsonpp::grammar::Nesting;
use jsonpp::parse::{pull_event, read_event, Pull};
use jsonpp::scan::{byte_at, scan_number, scan_string, skip_whitespace};

#[test]
fn byte_at_is_none_beyond_the_end() {
    assert_eq!(byte_at(b"ab", 0), Some(b'a'));
    assert_eq!(byte_at(b"ab", 1), Some(b'b'));
    assert_eq!(byte_at(b"ab", 2), None);
    assert_eq!(byte_at(b"ab", usize::MAX), None);
    assert_eq!(byte_at(b"", 0), None);
}

#[test]
fn whitespace_is_space_tab_line_feed_and_carriage_return() {
    assert_eq!(skip_whitespace(b" \t\n\rx ", 0), 4);
    assert_eq!(skip_whitespace(b" \t\n\rx ", 4), 4);
    assert_eq!(skip_whitespace(b" \t\n\rx ", 5), 6);
    assert_eq!(skip_whitespace(b"   ", 0), 3);
    assert_eq!(skip_whitespace(b"   ", 7), 7);
    assert_eq!(skip_whitespace(b"\x0b\x0c\xa0", 0), 0);
    assert_eq!(skip_whitespace(b"", 0), 0);
}

#[test]
fn number_ends_where_its_grammar_ends() {
    assert_eq!(scan_number(b"0", 0), Ok(1));
    assert_eq!(scan_number(b"-0", 0), Ok(2));
    assert_eq!(scan_number(b"123,", 0), Ok(3));
    assert_eq!(scan_number(b"x-12.5e+3]", 1), Ok(9));
    assert_eq!(scan_number(b"1.5.", 0), Ok(3));
    assert_eq!(scan_number(b"1e5e", 0), Ok(3));
    assert_eq!(scan_number(b"0x10", 0), Ok(1));
    assert_eq!(scan_number(b"1E-0", 0), Ok(4));
    assert_eq!(scan_number(b"10.01", 0), Ok(5));
}

#[test]
fn malformed_number_names_the_byte_that_is_wrong() {
    let invalid = |offset| Err(ParseError { kind: ParseErrorKind::InvalidNumber, offset });
    assert_eq!(scan_number(b"", 0), invalid(0));
    assert_eq!(scan_number(b"12", 2), invalid(2));
    assert_eq!(scan_number(b"12", 9), invalid(9));
    assert_eq!(scan_number(b"-", 0), invalid(1));
    assert_eq!(scan_number(b"--1", 0), invalid(1));
    assert_eq!(scan_number(b"00", 0), invalid(1));
    assert_eq!(scan_number(b"-01", 0), invalid(2));
    assert_eq!(scan_number(b"2.", 0), invalid(2));
    assert_eq!(scan_number(b"2.e1", 0), invalid(2));
    assert_eq!(scan_number(b"2e", 0), invalid(2));
    assert_eq!(scan_number(b"2e-", 0), invalid(3));
    assert_eq!(scan_number(b"2E+x", 0), invalid(3));
    assert_eq!(scan_number(b".5", 0), invalid(0));
}

#[test]
fn string_is_read_from_behind_its_opening_quote() {
    assert_eq!(scan_string(b"\"abc\" ", 1), Ok((b"abc".to_vec(), 5)));
    assert_eq!(scan_string(b"\"\"", 1), Ok((Vec::new(), 2)));
    assert_eq!(scan_string(b"a\\tb\"", 0), Ok((b"a\tb".to_vec(), 5)));
    assert_eq!(scan_string(b"\\u0041\\u00e9\"x", 0), Ok((vec![b'A', 0xc3, 0xa9], 13)));
    assert_eq!(
        scan_string(b"abc", 0),
        Err(ParseError { kind: ParseErrorKind::UnexpectedEnd, offset: 3 })
    );
    assert_eq!(
        scan_string(b"abc", 5),
        Err(ParseError { kind: ParseErrorKind::UnexpectedEnd, offset: 3 })
    );
    assert_eq!(
        scan_string(b"a\\qb\"", 0),
        Err(ParseError { kind: ParseErrorKind::InvalidEscape, offset: 1 })
    );
    assert_eq!(
        scan_string(b"a\x01b\"", 0),
        Err(ParseError { kind: ParseErrorKind::ControlCharacter, offset: 1 })
    );
    assert_eq!(
        scan_string(b"a\x80b\"", 0),
        Err(ParseError { kind: ParseErrorKind::InvalidUtf8, offset: 1 })
    );
}

#[test]
fn every_short_escape_is_decoded() {
    assert_eq!(
        scan_string(b"\\\"\\\\\\/\\b\\f\\n\\r\\t\"", 0),
        Ok((vec![b'"', b'\\', b'/', 0x08, 0x0c, 0x0a, 0x0d, 0x09], 17))
    );
}

#[test]
fn hexadecimal_digits_are_read_in_either_case() {
    assert_eq!(scan_string(b"\\uabcd\"", 0), scan_string(b"\\uABCD\"", 0));
    assert_eq!(scan_string(b"\\uabcd\"", 0), Ok((vec![0xea, 0xaf, 0x8d], 7)));
    assert_eq!(scan_string(b"\\u0000\"", 0), Ok((vec![0x00], 7)));
    assert_eq!(scan_string(b"\\uD834\\uDD1E\"", 0), Ok((vec![0xf0, 0x9d, 0x84, 0x9e], 13)));
    assert_eq!(scan_string(b"\\udbff\\udfff\"", 0), Ok((vec![0xf4, 0x8f, 0xbf, 0xbf], 13)));
    assert_eq!(scan_string(b"\\ud800\\udc00\"", 0), Ok((vec![0xf0, 0x90, 0x80, 0x80], 13)));
}

#[test]
fn read_event_leaves_the_nesting_to_its_caller() {
    let nesting = Nesting::new();
    assert_eq!(read_event(b" [1]", 0, &nesting), Ok(Some((Event::BeginArray, 2))));
    assert_eq!(nesting.depth(), 0);
    let mut inside = Nesting::new();
    inside.advance(&Event::BeginArray);
    assert_eq!(read_event(b" [1]", 2, &inside), Ok(Some((Event::Number(b"1".to_vec()), 3))));
    inside.advance(&Event::Number(b"1".to_vec()));
    assert_eq!(read_event(b" [1]", 3, &inside), Ok(Some((Event::EndArray, 4))));
    inside.advance(&Event::EndArray);
    assert_eq!(read_event(b" [1]", 4, &inside), Ok(None));
    assert_eq!(read_event(b" [1]", 0, &inside), Ok(None));
}

#[test]
fn pull_event_gives_the_position_behind_what_it_read() {
    let nesting = Nesting::new();
    assert_eq!(pull_event(b" 12", 0, &nesting, false), Ok((Pull::NeedMore, 0)));
    assert_eq!(
        pull_event(b" 12", 0, &nesting, true),
        Ok((Pull::Event(Event::Number(b"12".to_vec())), 3))
    );
    assert_eq!(pull_event(b" {", 0, &nesting, false), Ok((Pull::Event(Event::BeginObject), 2)));
    assert_eq!(
        pull_event(b" }", 0, &nesting, true),
        Err(ParseError { kind: ParseErrorKind::ExpectedValue, offset: 1 })
    );
    let mut done = Nesting::new();
    done.advance(&Event::Null);
    assert_eq!(pull_event(b"null x", 4, &done, false), Ok((Pull::End, 4)));
}

#[test]
fn push_text_writes_what_comes_next_in_the_nesting() {
    let mut nesting = Nesting::new();
    let mut out = Vec::new();
    push_text(&mut out, &nesting, &Event::BeginArray, 3);
    nesting.advance(&Event::BeginArray);
    push_text(&mut out, &nesting, &Event::Null, 3);
    nesting.advance(&Event::Null);
    push_text(&mut out, &nesting, &Event::Bool(false), 3);
    nesting.advance(&Event::Bool(false));
    push_text(&mut out, &nesting, &Event::EndArray, 3);
    assert_eq!(out, b"[\n   null,\n   false\n]");
}

#[test]
fn push_all_appends() {
    let mut out = b"ab".to_vec();
    push_all(&mut out, b"cd");
    push_all(&mut out, b"");
    assert_eq!(out, b"abcd");
}

#[test]
fn push_decimal_appends_the_digits() {
    for n in [0usize, 7, 10, 99, 100, 12345, usize::MAX] {
        let mut out = b"n=".to_vec();
        push_decimal(&mut out, n);
        assert_eq!(String::from_utf8(out).unwrap(), format!("n={}", n));
    }
}
