//! The executor: a walk over the instruction tree that recurses into loop bodies.

use crate::ast::{lemma_loop_view, tree_view, Instr, AST};
use crate::error::RuntimeError;
use crate::semantics::{add_cell, halts, outcome, run, Machine};
use crate::stream::{InputStream, OutputStream};
use crate::tape::Tape;
use vstd::prelude::*;

verus! {

/// What the executor returns for a finish.
pub open spec fn result_of(fault: Option<RuntimeError>) -> Result<(), RuntimeError> {
    match fault {
        None => Ok(()),
        Some(e) => Err(e),
    }
}

/// Executes `instrs`, whose run ends within `fuel` steps.
fn exec_within(
    instrs: &[AST],
    state: &mut Tape,
    input: &mut InputStream,
    output: &mut OutputStream,
    Ghost(fuel): Ghost<nat>,
) -> (r: Result<(), RuntimeError>)
    requires
        run(
            tree_view(instrs@),
            Machine { tape: old(state)@, input: old(input)@, output: old(output)@ },
            fuel,
        ) is Some,
    ensures
        ({
            let fin = run(
                tree_view(instrs@),
                Machine { tape: old(state)@, input: old(input)@, output: old(output)@ },
                fuel,
            )->Some_0;
            &&& fin.machine == (Machine {
                tape: final(state)@,
                input: final(input)@,
                output: final(output)@,
            })
            &&& r == result_of(fin.fault)
        }),
    decreases fuel,
{
    let ghost prog = tree_view(instrs@);
    let ghost target = run(
        prog,
        Machine { tape: state@, input: input@, output: output@ },
        fuel,
    );
    let ghost mut left: nat = fuel;
    let mut i: usize = 0;
    assert(prog.skip(0) =~= prog);
    while i < instrs.len()
        invariant
            i <= instrs.len(),
            prog == tree_view(instrs@),
            left <= fuel,
            target is Some,
            target == run(
                tree_view(instrs@),
                Machine { tape: old(state)@, input: old(input)@, output: old(output)@ },
                fuel,
            ),
            run(
                prog.skip(i as int),
                Machine { tape: state@, input: input@, output: output@ },
                left,
            ) == target,
        decreases instrs.len() - i,
    {
        let ghost rest = prog.skip(i as int);
        assert(rest.len() > 0 && rest[0] == instrs@[i as int]@);
        assert(rest.drop_first() =~= prog.skip(i + 1));
        match &instrs[i] {
            AST::Move(n) => {
                match state.move_pointer(*n) {
                    Err(e) => {
                        return Err(e);
                    },
                    Ok(_) => {},
                }
            },
            AST::Add(n) => {
                let value = state.get();
                assert(value.wrapping_add_signed(*n) == add_cell(value, *n as int));
                state.set(value.wrapping_add_signed(*n));
            },
            AST::Output => {
                let value = state.get();
                match output.write_byte(value) {
                    Err(e) => {
                        return Err(RuntimeError::Io(e));
                    },
                    Ok(_) => {},
                }
            },
            AST::Input => {
                let value = match input.read_byte() {
                    Some(byte) => byte,
                    None => 0,
                };
                state.set(value);
            },
            AST::Loop(body) => {
                proof {
                    lemma_loop_view(*body);
                }
                while state.get() != 0
                    invariant
                        rest.len() > 0,
                        rest[0] == Instr::Loop(tree_view(body@)),
                        0 < left <= fuel,
                        target is Some,
                        target == run(
                            tree_view(instrs@),
                            Machine { tape: old(state)@, input: old(input)@, output: old(output)@ },
                            fuel,
                        ),
                        run(rest, Machine { tape: state@, input: input@, output: output@ }, left)
                            == target,
                    decreases left,
                {
                    match exec_within(
                        body.as_slice(),
                        state,
                        input,
                        output,
                        Ghost((left - 1) as nat),
                    ) {
                        Err(e) => {
                            return Err(e);
                        },
                        Ok(_) => {},
                    }
                    proof {
                        left = (left - 1) as nat;
                    }
                }
            },
        }
        proof {
            left = (left - 1) as nat;
        }
        i = i + 1;
    }
    Ok(())
}

/// Executes an instruction tree on a tape and a pair of streams.
///
/// The run must end: a program that loops forever keeps this function from
/// returning. On return the tape and the streams are as the run left them,
/// and the result is `Ok` or the failure that stopped the run.
pub fn exec(
    instrs: &[AST],
    state: &mut Tape,
    input: &mut InputStream,
    output: &mut OutputStream,
) -> (r: Result<(), RuntimeError>)
    requires
        halts(
            tree_view(instrs@),
            Machine { tape: old(state)@, input: old(input)@, output: old(output)@ },
        ),
    ensures
        ({
            let fin = outcome(
                tree_view(instrs@),
                Machine { tape: old(state)@, input: old(input)@, output: old(output)@ },
            );
            &&& fin.machine == (Machine {
                tape: final(state)@,
                input: final(input)@,
                output: final(output)@,
            })
            &&& r == result_of(fin.fault)
        }),
{
    let ghost fuel = choose|fuel: nat|
        (#[trigger] run(
            tree_view(instrs@),
            Machine { tape: state@, input: input@, output: output@ },
            fuel,
        )) is Some;
    exec_within(instrs, state, input, output, Ghost(fuel))
}

} // verus!
