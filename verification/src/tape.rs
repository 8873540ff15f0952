//! The tape: a fixed array of byte cells and a data pointer.

use crate::error::RuntimeError;
use vstd::prelude::*;

verus! {

/// The number of cells of every tape.
pub const TAPE_SIZE: usize = 30000;

/// What a tape holds, as a mathematical value.
pub struct TapeState {
    /// The cells, in order.
    pub cells: Seq<u8>,
    /// The index of the current cell.
    pub pointer: int,
}

impl TapeState {
    /// A tape has `TAPE_SIZE` cells and its pointer names one of them.
    pub open spec fn wf(self) -> bool {
        &&& self.cells.len() == TAPE_SIZE
        &&& 0 <= self.pointer < TAPE_SIZE
    }

    /// The tape of a fresh run: every cell zero, the pointer on the first cell.
    pub open spec fn blank() -> TapeState {
        TapeState { cells: Seq::new(TAPE_SIZE as nat, |i: int| 0u8), pointer: 0 }
    }

    /// The value of the current cell.
    pub open spec fn current(self) -> u8 {
        self.cells[self.pointer]
    }

    /// The tape with `value` stored in the current cell.
    pub open spec fn write(self, value: u8) -> TapeState {
        TapeState { cells: self.cells.update(self.pointer, value), pointer: self.pointer }
    }

    /// Whether displacing the pointer by `delta` keeps it on the tape.
    pub open spec fn can_move(self, delta: int) -> bool {
        0 <= self.pointer + delta < TAPE_SIZE
    }

    /// The tape with the pointer displaced by `delta`.
    pub open spec fn moved(self, delta: int) -> TapeState {
        TapeState { cells: self.cells, pointer: self.pointer + delta }
    }
}

/// The memory of one run.
#[derive(Debug)]
pub struct Tape {
    tape: [u8; TAPE_SIZE],
    dp: usize,
}

impl View for Tape {
    type V = TapeState;

    closed spec fn view(&self) -> TapeState {
        TapeState { cells: self.tape@, pointer: self.dp as int }
    }
}

impl Tape {
    #[verifier::type_invariant]
    spec fn pointer_on_tape(&self) -> bool {
        self.dp < TAPE_SIZE
    }

    /// A blank tape.
    pub fn new() -> (tape: Self)
        ensures
            tape@ == TapeState::blank(),
    {
        let tape = Tape { tape: [0u8; TAPE_SIZE], dp: 0 };
        assert(tape@.cells =~= TapeState::blank().cells);
        tape
    }

    /// The index of the current cell. Every tape is well formed.
    pub fn pointer(&self) -> (index: usize)
        ensures
            index == self@.pointer,
            self@.wf(),
    {
        proof {
            use_type_invariant(self);
        }
        self.dp
    }

    /// The value of the current cell.
    pub fn get(&self) -> (value: u8)
        ensures
            value == self@.current(),
            self@.wf(),
    {
        proof {
            use_type_invariant(self);
        }
        self.tape[self.dp]
    }

    /// Stores `value` in the current cell.
    pub fn set(&mut self, value: u8)
        ensures
            final(self)@ == old(self)@.write(value),
            final(self)@.wf(),
    {
        proof {
            use_type_invariant(&*self);
        }
        self.tape[self.dp] = value;
    }

    /// Displaces the pointer by `delta`, or fails and leaves the tape as it
    /// was where that would take the pointer off the tape.
    pub fn move_pointer(&mut self, delta: isize) -> (r: Result<(), RuntimeError>)
        ensures
            old(self)@.wf(),
            old(self)@.can_move(delta as int) ==> r == Ok::<(), RuntimeError>(()) && final(self)@
                == old(self)@.moved(delta as int),
            !old(self)@.can_move(delta as int) ==> r == Err::<(), RuntimeError>(
                RuntimeError::PointerOutOfBounds,
            ) && final(self)@ == old(self)@,
            final(self)@.wf(),
    {
        proof {
            use_type_invariant(&*self);
        }
        let here: isize = self.dp as isize;
        let size: isize = TAPE_SIZE as isize;
        if delta < -here || delta >= size - here {
            Err(RuntimeError::PointerOutOfBounds)
        } else {
            self.dp = (here + delta) as usize;
            Ok(())
        }
    }
}

impl Clone for Tape {
    /// A copy with the same cells and the same pointer.
    fn clone(&self) -> (tape: Self)
        ensures
            tape@ == self@,
    {
        proof {
            use_type_invariant(self);
        }
        Tape { tape: self.tape, dp: self.dp }
    }
}

impl Default for Tape {
    /// A blank tape.
    fn default() -> (tape: Self)
        ensures
            tape@ == TapeState::blank(),
    {
        Tape::new()
    }
}

} // verus!
