use jsonpp::error::{AppError, ParseError, ParseErrorKind};
use jsonpp::outcome::{exit_code, outcome, report};
use jsonpp::sink::{CatchBrokenPipe, SinkError};

#[test]
fn new_sink_has_seen_no_closed_receiver() {
    let sink = CatchBrokenPipe::new(Vec::<u8>::new());
    assert!(!sink.broken_pipe);
    assert!(sink.writer.is_empty());
}

#[test]
fn success_is_handed_back_and_sets_no_flag() {
    let mut sink = CatchBrokenPipe::new(Vec::<u8>::new());
    let r = sink.catch_error(|w: &mut Vec<u8>| {
        w.extend_from_slice(b"abc");
        Ok(3usize)
    });
    assert_eq!(r, Ok(3));
    assert_eq!(sink.writer, b"abc");
    assert!(!sink.broken_pipe);
}

#[test]
fn other_failure_is_handed_back_and_sets_no_flag() {
    let mut sink = CatchBrokenPipe::new(0u32);
    let r: Result<(), SinkError> = sink.catch_error(|w: &mut u32| {
        *w += 1;
        Err(SinkError::Failed)
    });
    assert_eq!(r, Err(SinkError::Failed));
    assert_eq!(sink.writer, 1);
    assert!(!sink.broken_pipe);
}

#[test]
fn closed_receiver_is_handed_back_and_sets_the_flag() {
    let mut sink = CatchBrokenPipe::new(0u32);
    let r: Result<usize, SinkError> = sink.catch_error(|_w: &mut u32| Err(SinkError::ReceiverClosed));
    assert_eq!(r, Err(SinkError::ReceiverClosed));
    assert!(sink.broken_pipe);
}

#[test]
fn flag_is_sticky() {
    let mut sink = CatchBrokenPipe::new(0u32);
    let _: Result<(), SinkError> = sink.catch_error(|_w: &mut u32| Err(SinkError::ReceiverClosed));
    assert!(sink.broken_pipe);
    let r = sink.catch_error(|_w: &mut u32| Ok(1u8));
    assert_eq!(r, Ok(1));
    assert!(sink.broken_pipe);
    let r: Result<(), SinkError> = sink.catch_error(|_w: &mut u32| Err(SinkError::Failed));
    assert_eq!(r, Err(SinkError::Failed));
    assert!(sink.broken_pipe);
}

#[test]
fn consumer_closing_mid_write_ends_the_run_with_success() {
    let document = jsonpp::pipeline::transcode(b"[1,2,3,4,5,6,7,8]", 2).unwrap();
    let mut sink = CatchBrokenPipe::new(Vec::<u8>::new());
    let mut result = Ok(());
    for chunk in document.chunks(4) {
        let written = sink.catch_error(|w: &mut Vec<u8>| {
            if w.len() >= 8 {
                Err(SinkError::ReceiverClosed)
            } else {
                w.extend_from_slice(chunk);
                Ok(())
            }
        });
        if written.is_err() {
            result = Err(AppError::Io(b"broken pipe".to_vec()));
            break;
        }
    }
    assert!(result.is_err());
    assert!(sink.writer.len() < document.len());
    let reported = outcome(result, sink.broken_pipe);
    assert_eq!(reported, Ok(()));
    assert_eq!(exit_code(&reported), 0);
}

#[test]
fn other_write_failure_ends_the_run_with_failure() {
    let mut sink = CatchBrokenPipe::new(());
    let r: Result<(), SinkError> = sink.catch_error(|_w: &mut ()| Err(SinkError::Failed));
    assert!(r.is_err());
    let result = Err(AppError::Io(b"disk full".to_vec()));
    let reported = outcome(result.clone(), sink.broken_pipe);
    assert_eq!(reported, result);
    assert_eq!(exit_code(&reported), 1);
}

#[test]
fn outcome_for_each_case() {
    let parse = AppError::Parse(ParseError { kind: ParseErrorKind::ExpectedValue, offset: 5 });
    assert_eq!(outcome(Ok(()), false), Ok(()));
    assert_eq!(outcome(Ok(()), true), Ok(()));
    assert_eq!(outcome(Err(parse.clone()), false), Err(parse.clone()));
    assert_eq!(outcome(Err(parse), true), Ok(()));
}

#[test]
fn exit_code_is_zero_for_success_and_one_for_failure() {
    assert_eq!(exit_code(&Ok(())), 0);
    assert_eq!(exit_code(&Err(AppError::Io(Vec::new()))), 1);
    assert_eq!(
        exit_code(&Err(AppError::Parse(ParseError { kind: ParseErrorKind::UnexpectedEnd, offset: 0 }))),
        1
    );
}

#[test]
fn malformed_input_ends_the_run_with_failure_and_a_diagnostic() {
    let result = jsonpp::pipeline::transcode(b"{\"a\":}", 2).map(|_| ());
    let reported = outcome(result, false);
    assert_eq!(exit_code(&reported), 1);
    let e = reported.unwrap_err();
    let text = report(&vec![e.message()]);
    assert_eq!(
        String::from_utf8(text).unwrap(),
        "Error: Transcoding error: expected value at byte 5\n"
    );
}

#[test]
fn report_walks_the_chain_of_causes() {
    assert_eq!(report(&Vec::new()), b"");
    assert_eq!(report(&vec![b"top".to_vec()]), b"Error: top\n");
    assert_eq!(
        report(&vec![b"top".to_vec(), b"middle".to_vec(), b"root".to_vec()]),
        b"Error: top\nBecause: middle\nBecause: root\n"
    );
}

#[test]
fn messages_for_each_kind_of_parse_failure() {
    let cases = [
        (ParseErrorKind::UnexpectedEnd, "unexpected end of input at byte 0"),
        (ParseErrorKind::ExpectedValue, "expected value at byte 0"),
        (ParseErrorKind::ExpectedKey, "expected object key at byte 0"),
        (ParseErrorKind::ExpectedColon, "expected `:` at byte 0"),
        (ParseErrorKind::ExpectedCommaOrEnd, "expected `,` or closing bracket at byte 0"),
        (ParseErrorKind::InvalidLiteral, "invalid literal at byte 0"),
        (ParseErrorKind::InvalidNumber, "invalid number at byte 0"),
        (ParseErrorKind::InvalidEscape, "invalid escape at byte 0"),
        (ParseErrorKind::ControlCharacter, "control character in string at byte 0"),
        (ParseErrorKind::InvalidUtf8, "invalid UTF-8 in string at byte 0"),
    ];
    for (kind, expected) in cases {
        let e = ParseError { kind, offset: 0 };
        assert_eq!(String::from_utf8(e.message()).unwrap(), expected);
    }
}

#[test]
fn offsets_are_written_in_decimal() {
    for (offset, digits) in [(0usize, "0"), (9, "9"), (10, "10"), (1234567890, "1234567890")] {
        let e = ParseError { kind: ParseErrorKind::InvalidNumber, offset };
        assert_eq!(
            String::from_utf8(e.message()).unwrap(),
            format!("invalid number at byte {}", digits)
        );
    }
    let e = ParseError { kind: ParseErrorKind::InvalidNumber, offset: usize::MAX };
    assert_eq!(
        String::from_utf8(e.message()).unwrap(),
        format!("invalid number at byte {}", usize::MAX)
    );
}

#[test]
fn write_failure_message_carries_the_cause() {
    let e = AppError::Io(b"disk full".to_vec());
    assert_eq!(String::from_utf8(e.message()).unwrap(), "Transcoding error: disk full");
}
