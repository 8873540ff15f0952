//! An interpreter for Brainfuck: a language of eight one-character
//! operators that act on a tape of byte cells.
//!
//! Source text is parsed into an instruction tree, the tree is executed
//! against a tape of 30,000 cells and a pair of byte streams, and the bytes
//! written are rendered as text. The grammar and the meaning of execution
//! are given as mathematical definitions, and the executable code is proved
//! against them.
//!
//! - [`grammar`] defines what a source parses to, and [`parser`] computes it.
//! - [`semantics`] defines what a run of a program is, and [`interp`]
//!   executes a run that ends on streams held in memory.
//! - [`runner`] executes a run one step at a time, for a caller that owns
//!   the streams and the loop.
//! - [`run`] holds the whole pipeline from source text to output.
//! - [`laws`] states what follows from the definitions.

pub mod ast;
pub mod error;
pub mod grammar;
pub mod interp;
pub mod laws;
pub mod parser;
pub mod run;
pub mod runner;
pub mod semantics;
pub mod stream;
pub mod tape;

pub use crate::ast::{Instr, AST};
pub use crate::error::{BrainfuckError, IoError, ParseError, RuntimeError};
pub use crate::interp::exec;
pub use crate::parser::parse;
pub use crate::run::{run_or_placeholder, run_to_buffer, run_to_string};
pub use crate::runner::{Action, Event, Runner};
pub use crate::semantics::{Finish, Machine};
pub use crate::stream::{InputStream, OutputStream, SinkState};
pub use crate::tape::{Tape, TapeState, TAPE_SIZE};
