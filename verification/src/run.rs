//! The whole pipeline: parse, execute on a fresh tape, render the output as text.

use crate::ast::tree_view;
use crate::error::{BrainfuckError, IoError, RuntimeError};
use crate::grammar::spec_parse;
use crate::interp::exec;
use crate::parser::parse;
use crate::semantics::{halts, lemma_outcome_keeps_wf, outcome, Machine};
use crate::stream::{InputStream, OutputStream, SinkState};
use crate::tape::{Tape, TapeState};
use vstd::prelude::*;
use vstd::string::*;
use vstd::utf8::{decode_utf8, valid_utf8};

verus! {

/// `String::from_utf8` succeeds exactly on valid UTF-8, and the string it
/// returns then holds the characters that the bytes encode. This is taken
/// from the documentation of the standard library, not proved here.
pub assume_specification[ std::string::String::from_utf8 ](vec: Vec<u8>) -> (r: Result<
    std::string::String,
    std::string::FromUtf8Error,
>)
    ensures
        valid_utf8(vec@) ==> r is Ok && r->Ok_0@ == decode_utf8(vec@),
        !valid_utf8(vec@) ==> r is Err,
;

/// The machine at the start of a whole-pipeline run: a blank tape, the given
/// input, and an empty output stream without a limit of its own.
pub open spec fn fresh_machine(input: Seq<u8>) -> Machine {
    Machine {
        tape: TapeState::blank(),
        input,
        output: SinkState { written: Seq::empty(), limit: usize::MAX as nat },
    }
}

/// What the pipeline returns once the run of `prog` has finished with `fault`
/// and `written`: the failure, or the text that the bytes encode, or a
/// decoding error where the bytes are not valid UTF-8.
pub open spec fn rendered(
    r: Result<String, BrainfuckError>,
    fault: Option<RuntimeError>,
    written: Seq<u8>,
) -> bool {
    match fault {
        Some(e) => r matches Err(BrainfuckError::Runtime(got)) && got == e,
        None => if valid_utf8(written) {
            r matches Ok(text) && text@ == decode_utf8(written)
        } else {
            r matches Err(BrainfuckError::String(_))
        },
    }
}

/// Runs a program and returns its output as text.
///
/// A malformed source fails with the parse error and reads no input.
/// Otherwise the program runs on a blank tape, reading from `input`, and
/// must end. A failure of the run is returned as it is. Output that is not
/// valid UTF-8 is a decoding error; otherwise the decoded text is returned.
pub fn run_to_string(source: &str, input: &mut InputStream) -> (r: Result<String, BrainfuckError>)
    requires
        spec_parse(source.spec_bytes()) matches Ok(prog) ==> halts(
            prog,
            fresh_machine(old(input)@),
        ),
    ensures
        match spec_parse(source.spec_bytes()) {
            Err(e) => {
                &&& r matches Err(BrainfuckError::Parse(got)) && got == e
                &&& final(input)@ == old(input)@
            },
            Ok(prog) => {
                let fin = outcome(prog, fresh_machine(old(input)@));
                &&& final(input)@ == fin.machine.input
                &&& rendered(r, fin.fault, fin.machine.output.written)
            },
        },
{
    let ast = match parse(source) {
        Ok(ast) => ast,
        Err(e) => {
            return Err(BrainfuckError::Parse(e));
        },
    };
    let mut state = Tape::new();
    let mut output = OutputStream::new();
    match exec(ast.as_slice(), &mut state, input, &mut output) {
        Ok(_) => {},
        Err(e) => {
            return Err(BrainfuckError::Runtime(e));
        },
    }
    match String::from_utf8(output.into_bytes()) {
        Ok(text) => Ok(text),
        Err(e) => Err(BrainfuckError::String(e)),
    }
}

/// The status of a run into a buffer whose source is malformed.
pub const STATUS_MALFORMED: i32 = -3;

/// The status of a run into a buffer that left the tape.
pub const STATUS_FAILED: i32 = -4;

/// The machine at the start of a run into a buffer of `capacity` bytes.
pub open spec fn buffer_machine(input: Seq<u8>, capacity: usize) -> Machine {
    Machine {
        tape: TapeState::blank(),
        input,
        output: SinkState { written: Seq::empty(), limit: capacity as nat },
    }
}

/// The status of a run that wrote `count` bytes and did not leave the tape:
/// the count, kept within the non-negative range of the status.
pub open spec fn status_written(count: nat) -> i32 {
    if count > i32::MAX {
        i32::MAX
    } else {
        count as i32
    }
}

/// Runs a program with its output confined to `capacity` bytes, and
/// returns a status and the bytes written.
///
/// The status is `STATUS_MALFORMED` where the source does not parse and
/// `STATUS_FAILED` where the run takes the pointer off the tape. Otherwise
/// it is the number of bytes written, which is never negative.
///
/// A program that produces more bytes than the buffer holds is no failure:
/// the run stops at the first byte that finds no room, and the status is the
/// number of bytes written until then, which is `capacity`. Nothing the
/// program would have done after that byte takes place.
///
/// In every case the bytes returned are those that the run wrote before it
/// ended, never more than `capacity`.
pub fn run_to_buffer(source: &str, input: Vec<u8>, capacity: usize) -> (r: (i32, Vec<u8>))
    requires
        spec_parse(source.spec_bytes()) matches Ok(prog) ==> halts(
            prog,
            buffer_machine(input@, capacity),
        ),
    ensures
        r.1@.len() <= capacity,
        match spec_parse(source.spec_bytes()) {
            Err(_) => r.0 == STATUS_MALFORMED && r.1@ == Seq::<u8>::empty(),
            Ok(prog) => {
                let fin = outcome(prog, buffer_machine(input@, capacity));
                &&& r.1@ == fin.machine.output.written
                &&& r.0 == if fin.fault == Some(RuntimeError::PointerOutOfBounds) {
                    STATUS_FAILED
                } else {
                    status_written(fin.machine.output.written.len())
                }
                &&& fin.fault == Some(RuntimeError::Io(IoError::WriteZero)) ==> r.1@.len()
                    == capacity
            },
        },
{
    let ast = match parse(source) {
        Ok(ast) => ast,
        Err(_) => {
            return (STATUS_MALFORMED, Vec::new());
        },
    };
    let mut state = Tape::new();
    let mut input = InputStream::new(input);
    let mut output = OutputStream::with_limit(capacity);
    proof {
        lemma_outcome_keeps_wf(tree_view(ast@), buffer_machine(input@, capacity));
    }
    let result = exec(ast.as_slice(), &mut state, &mut input, &mut output);
    let bytes = output.into_bytes();
    let status: i32 = match result {
        Err(RuntimeError::PointerOutOfBounds) => STATUS_FAILED,
        Err(RuntimeError::Io(_)) | Ok(_) => if bytes.len() > i32::MAX as usize {
            i32::MAX
        } else {
            bytes.len() as i32
        },
    };
    (status, bytes)
}

/// The text that stands for a run that gave no text.
pub open spec fn placeholder() -> Seq<char> {
    "<compile-time error>"@
}

/// Runs a program without input and returns its output as text, or the
/// placeholder text where any stage of the pipeline fails.
pub fn run_or_placeholder(source: &str) -> (text: String)
    requires
        spec_parse(source.spec_bytes()) matches Ok(prog) ==> halts(
            prog,
            fresh_machine(Seq::empty()),
        ),
    ensures
        text@ == match spec_parse(source.spec_bytes()) {
            Err(_) => placeholder(),
            Ok(prog) => {
                let fin = outcome(prog, fresh_machine(Seq::empty()));
                if fin.fault is None && valid_utf8(fin.machine.output.written) {
                    decode_utf8(fin.machine.output.written)
                } else {
                    placeholder()
                }
            },
        },
{
    let mut input = InputStream::new(Vec::new());
    match run_to_string(source, &mut input) {
        Ok(text) => text,
        Err(_) => "<compile-time error>".to_owned(),
    }
}

} // verus!
