//! The errors of parsing, of execution and of the whole pipeline.

use std::string::FromUtf8Error;
use vstd::prelude::*;
use vstd::std_specs::convert::FromSpecImpl;

verus! {

/// The error that `String::from_utf8` returns; it is carried through unread.
#[verifier::external_type_specification]
#[verifier::external_body]
pub struct ExFromUtf8Error(FromUtf8Error);

/// Why a byte stream refused a transfer.
#[derive(Debug, Clone, Copy, PartialEq, Eq)]
pub enum IoError {
    /// The output stream had no room left for the byte.
    WriteZero,
}

/// A failure during execution. It ends the run at once.
#[derive(Debug, Clone, Copy, PartialEq, Eq)]
pub enum RuntimeError {
    /// A move would have taken the data pointer off the tape.
    PointerOutOfBounds,
    /// A stream failed.
    Io(IoError),
}

/// A malformed program. Positions are byte offsets into the source.
#[derive(Debug, Clone, Copy, PartialEq, Eq)]
pub enum ParseError {
    /// A `]` at `pos` closes no bracket.
    UnmatchedClosingBracket { pos: usize },
    /// The `[` at `pos` is never closed.
    UnmatchedOpeningBracket { pos: usize },
}

/// A failure of any stage of the pipeline.
#[derive(Debug)]
pub enum BrainfuckError {
    /// The source is malformed.
    Parse(ParseError),
    /// Execution failed.
    Runtime(RuntimeError),
    /// The bytes written are not valid UTF-8.
    String(FromUtf8Error),
}

impl From<IoError> for RuntimeError {
    fn from(e: IoError) -> (r: Self) {
        RuntimeError::Io(e)
    }
}

impl FromSpecImpl<IoError> for RuntimeError {
    open spec fn obeys_from_spec() -> bool {
        true
    }

    open spec fn from_spec(e: IoError) -> Self {
        RuntimeError::Io(e)
    }
}

impl From<ParseError> for BrainfuckError {
    fn from(e: ParseError) -> (r: Self) {
        BrainfuckError::Parse(e)
    }
}

impl FromSpecImpl<ParseError> for BrainfuckError {
    open spec fn obeys_from_spec() -> bool {
        true
    }

    open spec fn from_spec(e: ParseError) -> Self {
        BrainfuckError::Parse(e)
    }
}

impl From<RuntimeError> for BrainfuckError {
    fn from(e: RuntimeError) -> (r: Self) {
        BrainfuckError::Runtime(e)
    }
}

impl FromSpecImpl<RuntimeError> for BrainfuckError {
    open spec fn obeys_from_spec() -> bool {
        true
    }

    open spec fn from_spec(e: RuntimeError) -> Self {
        BrainfuckError::Runtime(e)
    }
}

impl From<FromUtf8Error> for BrainfuckError {
    fn from(e: FromUtf8Error) -> (r: Self) {
        BrainfuckError::String(e)
    }
}

impl FromSpecImpl<FromUtf8Error> for BrainfuckError {
    open spec fn obeys_from_spec() -> bool {
        true
    }

    open spec fn from_spec(e: FromUtf8Error) -> Self {
        BrainfuckError::String(e)
    }
}

} // verus!
