//! How a run ends: what is reported, and with which exit code.

use vstd::prelude::*;
use vstd::string::StringSliceAdditionalSpecFns;
use crate::error::AppError;
use crate::format::push_all;

verus! {

/// What a run reports, given what the pipeline returned and whether the sink
/// has seen its receiver closed: a failure after the receiver has gone away
/// is no failure.
pub open spec fn settled_outcome(result: Result<(), AppError>, broken_pipe: bool) -> Result<
    (),
    AppError,
> {
    if result is Err && broken_pipe {
        Ok(())
    } else {
        result
    }
}

/// What a run reports, given what the pipeline returned and whether the sink
/// has seen its receiver closed.
pub fn outcome(result: Result<(), AppError>, broken_pipe: bool) -> (r: Result<(), AppError>)
    ensures
        r == settled_outcome(result, broken_pipe),
{
    if broken_pipe && result.is_err() {
        Ok(())
    } else {
        result
    }
}

/// The exit code of a run that reports `result`: 0 for success, 1 for failure.
pub fn exit_code(result: &Result<(), AppError>) -> (code: i32)
    ensures
        code == (if *result is Ok { 0i32 } else { 1i32 }),
{
    match result {
        Ok(_) => 0,
        Err(_) => 1,
    }
}

/// The line of a diagnostic that holds `message`: the top-level message is
/// introduced as the error, each one below it as a cause.
pub open spec fn report_line(index: int, message: Seq<u8>) -> Seq<u8> {
    (if index == 0 {
        "Error: ".spec_bytes()
    } else {
        "Because: ".spec_bytes()
    }) + message + seq![0x0au8]
}

/// The diagnostic for a chain of messages, the top-level one first: one line
/// for each.
pub open spec fn report_text(messages: Seq<Vec<u8>>) -> Seq<u8>
    decreases messages.len(),
{
    if messages.len() == 0 {
        Seq::empty()
    } else {
        report_text(messages.drop_last()) + report_line(
            messages.len() - 1,
            messages.last()@,
        )
    }
}

/// The diagnostic for a chain of messages, the top-level one first.
pub fn report(messages: &Vec<Vec<u8>>) -> (text: Vec<u8>)
    ensures
        text@ == report_text(messages@),
{
    let mut text: Vec<u8> = Vec::new();
    let mut i: usize = 0;
    while i < messages.len()
        invariant
            i <= messages.len(),
            text@ == report_text(messages@.subrange(0, i as int)),
        decreases messages.len() - i,
    {
        let ghost before = text@;
        if i == 0 {
            push_all(&mut text, "Error: ".as_bytes());
        } else {
            push_all(&mut text, "Because: ".as_bytes());
        }
        push_all(&mut text, messages[i].as_slice());
        text.push(0x0a);
        proof {
            let next = messages@.subrange(0, i + 1);
            assert(next.drop_last() =~= messages@.subrange(0, i as int));
            assert(next.last() == messages@[i as int]);
            assert(text@ =~= before + report_line(i as int, messages@[i as int]@));
        }
        i += 1;
    }
    assert(messages@.subrange(0, messages@.len() as int) =~= messages@);
    text
}

} // verus!
