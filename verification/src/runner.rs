//! Execution one step at a time, for callers that own the streams.
//!
//! A `Runner` keeps the place of a run in the instruction tree on a stack of
//! its own. Each step executes one instruction and tells the caller what to
//! do next: go on, deliver a byte of input, or write a byte of output. The
//! caller owns the loop, so a program that runs forever never holds a step.

use crate::ast::{lemma_loop_view, tree_view, Instr, AST};
use crate::error::{IoError, RuntimeError};
use crate::semantics::{
    add_cell, apply, done, failed, halts, lemma_first_step, lemma_loop_skip, lemma_loop_unfold,
    lemma_outcome, outcome, run, same_outcome, Machine,
};
use crate::tape::{Tape, TapeState};
use vstd::prelude::*;

verus! {

/// What the caller hands to a step.
#[derive(Debug, Clone, Copy, PartialEq, Eq)]
pub enum Event {
    /// Nothing: the last action asked for nothing.
    Resume,
    /// The byte that was read after the last action asked for input.
    Byte(u8),
    /// The input was exhausted when the last action asked for input.
    EndOfInput,
}

/// What a step asks of the caller.
#[derive(Debug, Clone, Copy, PartialEq, Eq)]
pub enum Action {
    /// Step again.
    Continue,
    /// Read one byte of input and step again with it, or with `EndOfInput`.
    Read,
    /// Write this byte to the output, then step again. A failed write ends the run.
    Write(u8),
    /// The run is over.
    Halt,
    /// The run failed.
    Fail(RuntimeError),
}

/// One level of nesting of a run in progress: an instruction sequence and
/// the index of the instruction to execute next. In every level but the
/// innermost that instruction is the loop whose body is the next level.
pub struct Level {
    pub code: Seq<Instr>,
    pub at: int,
}

/// The instruction that a run in progress executes next, if its innermost
/// level has one left.
pub open spec fn next_instr(control: Seq<Level>) -> Option<Instr> {
    if control.len() > 0 && 0 <= control.last().at < control.last().code.len() {
        Some(control.last().code[control.last().at])
    } else {
        None
    }
}

/// The levels after the innermost has passed its next instruction.
pub open spec fn advanced(control: Seq<Level>) -> Seq<Level> {
    control.drop_last().push(Level { code: control.last().code, at: control.last().at + 1 })
}

/// The program that a run in progress has still to execute: what is left of
/// the innermost level, then what is left of each enclosing level from its
/// loop on.
pub open spec fn remaining(control: Seq<Level>) -> Seq<Instr>
    decreases control.len(),
{
    if control.len() == 0 {
        Seq::empty()
    } else {
        let top = control.last();
        let left = if 0 <= top.at < top.code.len() {
            top.code.skip(top.at)
        } else {
            Seq::empty()
        };
        left + remaining(control.drop_last())
    }
}

/// The result of a step.
pub struct Stepped {
    pub control: Seq<Level>,
    pub tape: TapeState,
    pub action: Action,
}

/// One step of a run in progress.
///
/// A level that has no instruction left is left; with the outermost level
/// the run halts. A move off the tape fails and changes nothing. An output
/// instruction is passed and its byte handed to the caller. An input
/// instruction waits, with `Read`, until the event brings a byte or the end
/// of the input, which stores zero. A loop whose cell is zero is passed;
/// otherwise its body becomes the innermost level and the loop stays next
/// in its own level, to be met again when the body is done.
pub open spec fn step_spec(control: Seq<Level>, tape: TapeState, event: Event) -> Stepped {
    match next_instr(control) {
        None => if control.len() <= 1 {
            Stepped { control: Seq::empty(), tape, action: Action::Halt }
        } else {
            Stepped { control: control.drop_last(), tape, action: Action::Continue }
        },
        Some(Instr::Move(delta)) => if tape.can_move(delta) {
            Stepped { control: advanced(control), tape: tape.moved(delta), action: Action::Continue }
        } else {
            Stepped { control, tape, action: Action::Fail(RuntimeError::PointerOutOfBounds) }
        },
        Some(Instr::Add(delta)) => Stepped {
            control: advanced(control),
            tape: tape.write(add_cell(tape.current(), delta)),
            action: Action::Continue,
        },
        Some(Instr::Output) => Stepped {
            control: advanced(control),
            tape,
            action: Action::Write(tape.current()),
        },
        Some(Instr::Input) => match event {
            Event::Resume => Stepped { control, tape, action: Action::Read },
            Event::Byte(byte) => Stepped {
                control: advanced(control),
                tape: tape.write(byte),
                action: Action::Continue,
            },
            Event::EndOfInput => Stepped {
                control: advanced(control),
                tape: tape.write(0),
                action: Action::Continue,
            },
        },
        Some(Instr::Loop(body)) => if tape.current() == 0 {
            Stepped { control: advanced(control), tape, action: Action::Continue }
        } else {
            Stepped {
                control: control.push(Level { code: body, at: 0 }),
                tape,
                action: Action::Continue,
            }
        },
    }
}

/// Whether `event` reports truly on `input`: a byte is the first byte of the
/// input, and the end of the input is reported of empty input.
pub open spec fn event_fits(event: Event, input: Seq<u8>) -> bool {
    match event {
        Event::Resume => true,
        Event::Byte(byte) => input.len() > 0 && input[0] == byte,
        Event::EndOfInput => input.len() == 0,
    }
}

/// The machine after a step on `m`, where the caller has taken the byte of
/// a `Byte` event off the input and has written the byte of a `Write`
/// action to the output.
pub open spec fn machine_after(control: Seq<Level>, m: Machine, event: Event) -> Machine {
    let stepped = step_spec(control, m.tape, event);
    Machine {
        tape: stepped.tape,
        input: if next_instr(control) == Some(Instr::Input) && event is Byte {
            m.input.drop_first()
        } else {
            m.input
        },
        output: match stepped.action {
            Action::Write(byte) => m.output.push(byte),
            _ => m.output,
        },
    }
}

/// Passing the next instruction takes the first instruction off what remains.
proof fn lemma_remaining_advanced(control: Seq<Level>)
    requires
        next_instr(control) is Some,
    ensures
        remaining(control).len() > 0,
        remaining(control)[0] == next_instr(control)->Some_0,
        remaining(advanced(control)) == remaining(control).drop_first(),
{
    let top = control.last();
    let next = advanced(control);
    assert(next.drop_last() =~= control.drop_last());
    assert(top.code.skip(top.at).drop_first() =~= top.code.skip(top.at + 1));
    assert(top.code.skip(top.code.len() as int) =~= Seq::<Instr>::empty());
    assert(remaining(next) =~= remaining(control).drop_first());
}

/// Every step keeps the outcome of the run.
///
/// Where the step goes on, what remains to execute after it ends exactly as
/// what remained before it did. A `Write` goes on like this where the output
/// stream has room, and is the run's failure where it has none. `Halt` is the
/// end of a run without failure, and `Fail` a run's failure, each on the
/// machine as it is. `Read` changes nothing.
pub proof fn lemma_step_keeps_outcome(control: Seq<Level>, m: Machine, event: Event)
    requires
        event_fits(event, m.input),
    ensures
        ({
            let stepped = step_spec(control, m.tape, event);
            let before = remaining(control);
            let after = remaining(stepped.control);
            let next = machine_after(control, m, event);
            match stepped.action {
                Action::Continue => same_outcome(before, m, after, next),
                Action::Read => stepped.control == control && stepped.tape == m.tape,
                Action::Write(byte) => if m.output.has_room() {
                    same_outcome(before, m, after, next)
                } else {
                    halts(before, m) && outcome(before, m) == failed(
                        m,
                        RuntimeError::Io(IoError::WriteZero),
                    )
                },
                Action::Halt => halts(before, m) && outcome(before, m) == done(m),
                Action::Fail(e) => halts(before, m) && outcome(before, m) == failed(m, e),
            }
        }),
{
    let stepped = step_spec(control, m.tape, event);
    let before = remaining(control);
    let next = machine_after(control, m, event);
    match next_instr(control) {
        None => {
            if control.len() <= 1 {
                if control.len() == 1 {
                    assert(remaining(control.drop_last()) =~= Seq::<Instr>::empty());
                }
                assert(before =~= Seq::<Instr>::empty());
                assert(run(before, m, 0) == Some(done(m)));
                lemma_outcome(before, m, 0);
            } else {
                assert(before =~= remaining(control.drop_last()));
                assert(next == m);
            }
        },
        Some(Instr::Loop(body)) => {
            lemma_remaining_advanced(control);
            assert(next == m);
            if m.tape.current() == 0 {
                lemma_loop_skip(before, m);
            } else {
                let inner = control.push(Level { code: body, at: 0 });
                assert(inner.drop_last() =~= control);
                assert(body.skip(0) =~= body);
                assert(remaining(inner) =~= body + before);
                lemma_loop_unfold(before, m);
            }
        },
        Some(instr) => {
            lemma_remaining_advanced(control);
            lemma_first_step(before, m);
            if instr == Instr::Input && event is Resume {
            } else if stepped.action is Fail {
            } else if stepped.action is Write && !m.output.has_room() {
            } else {
                assert(next == apply(instr, m).machine);
            }
        },
    }
}

/// The place of a run in an instruction tree.
#[derive(Debug)]
pub struct Runner<'a> {
    levels: Vec<(&'a [AST], usize)>,
}

impl<'a> View for Runner<'a> {
    type V = Seq<Level>;

    closed spec fn view(&self) -> Seq<Level> {
        Seq::new(
            self.levels@.len(),
            |k: int| Level { code: tree_view(self.levels@[k].0@), at: self.levels@[k].1 as int },
        )
    }
}

impl<'a> Runner<'a> {
    /// A run that is about to execute the first instruction of `program`.
    pub fn new(program: &'a [AST]) -> (runner: Self)
        ensures
            runner@ == seq![Level { code: tree_view(program@), at: 0 }],
    {
        let mut levels: Vec<(&'a [AST], usize)> = Vec::new();
        levels.push((program, 0));
        let runner = Runner { levels };
        assert(runner@ =~= seq![Level { code: tree_view(program@), at: 0 }]);
        runner
    }

    /// Executes one step on `tape`: the levels, the tape and the action are
    /// exactly those of `step_spec`.
    pub fn step(&mut self, tape: &mut Tape, event: Event) -> (action: Action)
        ensures
            final(self)@ == step_spec(old(self)@, old(tape)@, event).control,
            final(tape)@ == step_spec(old(self)@, old(tape)@, event).tape,
            action == step_spec(old(self)@, old(tape)@, event).action,
    {
        let ghost control = self@;
        match self.levels.pop() {
            None => {
                assert(self@ =~= Seq::<Level>::empty());
                Action::Halt
            },
            Some(level) => {
                let (code, at) = level;
                assert(self@ =~= control.drop_last());
                assert(control.last() == Level { code: tree_view(code@), at: at as int });
                if at >= code.len() {
                    if self.levels.len() == 0 {
                        Action::Halt
                    } else {
                        Action::Continue
                    }
                } else {
                    match &code[at] {
                        AST::Move(n) => {
                            match tape.move_pointer(*n) {
                                Ok(_) => {
                                    self.levels.push((code, at + 1));
                                    assert(self@ =~= advanced(control));
                                    Action::Continue
                                },
                                Err(e) => {
                                    self.levels.push((code, at));
                                    assert(self@ =~= control);
                                    Action::Fail(e)
                                },
                            }
                        },
                        AST::Add(n) => {
                            let value = tape.get();
                            assert(value.wrapping_add_signed(*n) == add_cell(value, *n as int));
                            tape.set(value.wrapping_add_signed(*n));
                            self.levels.push((code, at + 1));
                            assert(self@ =~= advanced(control));
                            Action::Continue
                        },
                        AST::Output => {
                            let value = tape.get();
                            self.levels.push((code, at + 1));
                            assert(self@ =~= advanced(control));
                            Action::Write(value)
                        },
                        AST::Input => {
                            match event {
                                Event::Resume => {
                                    self.levels.push((code, at));
                                    assert(self@ =~= control);
                                    Action::Read
                                },
                                Event::Byte(byte) => {
                                    tape.set(byte);
                                    self.levels.push((code, at + 1));
                                    assert(self@ =~= advanced(control));
                                    Action::Continue
                                },
                                Event::EndOfInput => {
                                    tape.set(0);
                                    self.levels.push((code, at + 1));
                                    assert(self@ =~= advanced(control));
                                    Action::Continue
                                },
                            }
                        },
                        AST::Loop(body) => {
                            proof {
                                lemma_loop_view(*body);
                            }
                            if tape.get() == 0 {
                                self.levels.push((code, at + 1));
                                assert(self@ =~= advanced(control));
                                Action::Continue
                            } else {
                                self.levels.push((code, at));
                                self.levels.push((body.as_slice(), 0));
                                assert(self@ =~= control.push(
                                    Level { code: tree_view(body@), at: 0 },
                                ));
                                Action::Continue
                            }
                        },
                    }
                }
            },
        }
    }
}

} // verus!
