//! What can go wrong.

use vstd::prelude::*;
use vstd::string::StringSliceAdditionalSpecFns;
use crate::format::push_all;

verus! {

/// The ways in which input can fail to be JSON.
#[derive(Clone, Copy, Debug, PartialEq, Eq, Structural)]
pub enum ParseErrorKind {
    /// The input ends before the document is complete.
    UnexpectedEnd,
    /// A value was expected, and what stands there starts none.
    ExpectedValue,
    /// An object key, a quoted string, was expected.
    ExpectedKey,
    /// The colon after an object key is missing.
    ExpectedColon,
    /// Between two children of a container neither a comma nor the closing
    /// bracket was found.
    ExpectedCommaOrEnd,
    /// A word that starts like `true`, `false` or `null` is none of them.
    InvalidLiteral,
    /// A number is malformed.
    InvalidNumber,
    /// A backslash in a string starts no escape sequence, or one that names no
    /// character.
    InvalidEscape,
    /// A raw control character stands inside a string.
    ControlCharacter,
    /// The bytes inside a string are no UTF-8 text.
    InvalidUtf8,
}

/// A parse failure: what is wrong, and the byte offset at which it was found.
#[derive(Clone, Copy, Debug, PartialEq, Eq, Structural)]
pub struct ParseError {
    pub kind: ParseErrorKind,
    pub offset: usize,
}

/// The failure of kind `kind` at byte offset `offset`.
pub open spec fn failure(kind: ParseErrorKind, offset: int) -> ParseError {
    ParseError { kind, offset: offset as usize }
}

/// The decimal digits of `n`.
pub open spec fn decimal(n: nat) -> Seq<u8>
    decreases n,
{
    if n < 10 {
        seq![(0x30 + n) as u8]
    } else {
        decimal(n / 10).push((0x30 + n % 10) as u8)
    }
}

/// Appends the decimal digits of `n`.
pub fn push_decimal(out: &mut Vec<u8>, n: usize)
    ensures
        final(out)@ == old(out)@ + decimal(n as nat),
    decreases n,
{
    if n >= 10 {
        push_decimal(out, n / 10);
    }
    out.push(0x30 + (n % 10) as u8);
    assert(out@ =~= old(out)@ + decimal(n as nat));
}

/// What a failure of kind `kind` is called in a diagnostic.
pub open spec fn kind_text(kind: ParseErrorKind) -> Seq<u8> {
    match kind {
        ParseErrorKind::UnexpectedEnd => "unexpected end of input".spec_bytes(),
        ParseErrorKind::ExpectedValue => "expected value".spec_bytes(),
        ParseErrorKind::ExpectedKey => "expected object key".spec_bytes(),
        ParseErrorKind::ExpectedColon => "expected `:`".spec_bytes(),
        ParseErrorKind::ExpectedCommaOrEnd => "expected `,` or closing bracket".spec_bytes(),
        ParseErrorKind::InvalidLiteral => "invalid literal".spec_bytes(),
        ParseErrorKind::InvalidNumber => "invalid number".spec_bytes(),
        ParseErrorKind::InvalidEscape => "invalid escape".spec_bytes(),
        ParseErrorKind::ControlCharacter => "control character in string".spec_bytes(),
        ParseErrorKind::InvalidUtf8 => "invalid UTF-8 in string".spec_bytes(),
    }
}

/// The diagnostic for the parse failure `e`: what is wrong, and where.
pub open spec fn parse_error_text(e: ParseError) -> Seq<u8> {
    kind_text(e.kind) + " at byte ".spec_bytes() + decimal(e.offset as nat)
}

impl ParseError {
    /// The diagnostic for this failure: what is wrong, and the byte offset.
    pub fn message(&self) -> (text: Vec<u8>)
        ensures
            text@ == parse_error_text(*self),
    {
        let mut text: Vec<u8> = Vec::new();
        let name = match self.kind {
            ParseErrorKind::UnexpectedEnd => "unexpected end of input",
            ParseErrorKind::ExpectedValue => "expected value",
            ParseErrorKind::ExpectedKey => "expected object key",
            ParseErrorKind::ExpectedColon => "expected `:`",
            ParseErrorKind::ExpectedCommaOrEnd => "expected `,` or closing bracket",
            ParseErrorKind::InvalidLiteral => "invalid literal",
            ParseErrorKind::InvalidNumber => "invalid number",
            ParseErrorKind::InvalidEscape => "invalid escape",
            ParseErrorKind::ControlCharacter => "control character in string",
            ParseErrorKind::InvalidUtf8 => "invalid UTF-8 in string",
        };
        push_all(&mut text, name.as_bytes());
        push_all(&mut text, " at byte ".as_bytes());
        push_decimal(&mut text, self.offset);
        assert(text@ =~= parse_error_text(*self));
        text
    }
}

/// Why a run failed.
#[derive(Clone, Debug, PartialEq, Eq)]
pub enum AppError {
    /// The input is no JSON document.
    Parse(ParseError),
    /// Reading the input or writing the output failed; the text says how.
    Io(Vec<u8>),
}

/// The cause of the failure `e`, in words.
pub open spec fn cause_text(e: AppError) -> Seq<u8> {
    match e {
        AppError::Parse(found) => parse_error_text(found),
        AppError::Io(text) => text@,
    }
}

/// The diagnostic for the failure `e`.
pub open spec fn app_error_text(e: AppError) -> Seq<u8> {
    "Transcoding error: ".spec_bytes() + cause_text(e)
}

impl AppError {
    /// The diagnostic for this failure.
    pub fn message(&self) -> (text: Vec<u8>)
        ensures
            text@ == app_error_text(*self),
    {
        let mut text: Vec<u8> = Vec::new();
        push_all(&mut text, "Transcoding error: ".as_bytes());
        match self {
            AppError::Parse(found) => {
                let cause = found.message();
                push_all(&mut text, cause.as_slice());
            },
            AppError::Io(cause) => {
                push_all(&mut text, cause.as_slice());
            },
        }
        assert(text@ =~= app_error_text(*self));
        text
    }
}

} // verus!
