//! What executing a program means, as a mathematical definition.
//!
//! A machine is a tape, the input not read yet and the output stream. A
//! program may run forever, so its run is defined with an allowance of
//! fuel: a run that ends within the allowance has a finish, and a larger
//! allowance gives the same finish. A run ends if some allowance suffices.

use crate::ast::Instr;
use crate::error::{IoError, RuntimeError};
use crate::stream::SinkState;
use crate::tape::TapeState;
use vstd::prelude::*;

verus! {

/// Everything that a run reads and changes.
pub struct Machine {
    /// The tape.
    pub tape: TapeState,
    /// The input bytes not read yet.
    pub input: Seq<u8>,
    /// The output stream.
    pub output: SinkState,
}

impl Machine {
    /// The tape is well formed and the output stream holds no more than its limit.
    pub open spec fn wf(self) -> bool {
        &&& self.tape.wf()
        &&& self.output.written.len() <= self.output.limit
    }
}

/// How a run ended: the machine as the last completed instruction left it,
/// and the failure that stopped the run, if one did.
pub struct Finish {
    pub machine: Machine,
    pub fault: Option<RuntimeError>,
}

/// A byte plus a signed amount, modulo 256.
pub open spec fn add_cell(value: u8, delta: int) -> u8 {
    ((value + delta) % 256) as u8
}

/// A finish without failure.
pub open spec fn done(machine: Machine) -> Finish {
    Finish { machine, fault: None }
}

/// A finish with a failure; the machine is as it was before the failing instruction.
pub open spec fn failed(machine: Machine, fault: RuntimeError) -> Finish {
    Finish { machine, fault: Some(fault) }
}

/// The effect of one instruction other than a loop.
///
/// A move off the tape fails and changes nothing. A write to a full output
/// stream fails and changes nothing. A read from exhausted input stores zero.
pub open spec fn apply(instr: Instr, m: Machine) -> Finish {
    match instr {
        Instr::Move(delta) => if m.tape.can_move(delta) {
            done(Machine { tape: m.tape.moved(delta), input: m.input, output: m.output })
        } else {
            failed(m, RuntimeError::PointerOutOfBounds)
        },
        Instr::Add(delta) => done(
            Machine {
                tape: m.tape.write(add_cell(m.tape.current(), delta)),
                input: m.input,
                output: m.output,
            },
        ),
        Instr::Output => if m.output.has_room() {
            done(
                Machine { tape: m.tape, input: m.input, output: m.output.push(m.tape.current()) },
            )
        } else {
            failed(m, RuntimeError::Io(IoError::WriteZero))
        },
        Instr::Input => if m.input.len() > 0 {
            done(
                Machine {
                    tape: m.tape.write(m.input[0]),
                    input: m.input.drop_first(),
                    output: m.output,
                },
            )
        } else {
            done(Machine { tape: m.tape.write(0), input: m.input, output: m.output })
        },
        Instr::Loop(_) => done(m),
    }
}

/// The finish of running `prog` on `m`, or `None` where `fuel` does not
/// suffice.
///
/// Instructions run in order. A loop whose cell is zero is passed over;
/// otherwise its body runs in full and the loop is met again. A failure ends
/// the whole run at once.
///
/// The fuel bounds how deep the definition unfolds, not how long the run
/// is: an instruction hands one unit less to what follows it, and a loop
/// hands one unit less to its body and to what follows the body alike.
pub open spec fn run(prog: Seq<Instr>, m: Machine, fuel: nat) -> Option<Finish>
    decreases fuel,
{
    if prog.len() == 0 {
        Some(done(m))
    } else if fuel == 0 {
        None
    } else {
        match prog[0] {
            Instr::Loop(body) => if m.tape.current() == 0 {
                run(prog.drop_first(), m, (fuel - 1) as nat)
            } else {
                match run(body, m, (fuel - 1) as nat) {
                    None => None,
                    Some(round) => if round.fault is Some {
                        Some(round)
                    } else {
                        run(prog, round.machine, (fuel - 1) as nat)
                    },
                }
            },
            instr => {
                let step = apply(instr, m);
                if step.fault is Some {
                    Some(step)
                } else {
                    run(prog.drop_first(), step.machine, (fuel - 1) as nat)
                }
            },
        }
    }
}

/// Whether the run of `prog` on `m` ends.
pub open spec fn halts(prog: Seq<Instr>, m: Machine) -> bool {
    exists|fuel: nat| (#[trigger] run(prog, m, fuel)) is Some
}

/// The finish of the run of `prog` on `m`, where the run ends.
pub open spec fn outcome(prog: Seq<Instr>, m: Machine) -> Finish {
    run(prog, m, choose|fuel: nat| (#[trigger] run(prog, m, fuel)) is Some)->Some_0
}

/// A run that ends within an allowance ends the same way within any larger one.
pub proof fn lemma_run_more_fuel(prog: Seq<Instr>, m: Machine, fuel: nat, more: nat)
    requires
        run(prog, m, fuel) is Some,
        fuel <= more,
    ensures
        run(prog, m, more) == run(prog, m, fuel),
    decreases fuel,
{
    if prog.len() > 0 {
        let f = (fuel - 1) as nat;
        let g = (more - 1) as nat;
        match prog[0] {
            Instr::Loop(body) => {
                if m.tape.current() == 0 {
                    lemma_run_more_fuel(prog.drop_first(), m, f, g);
                } else {
                    lemma_run_more_fuel(body, m, f, g);
                    let round = run(body, m, f)->Some_0;
                    if round.fault is None {
                        lemma_run_more_fuel(prog, round.machine, f, g);
                    }
                }
            },
            instr => {
                let step = apply(instr, m);
                if step.fault is None {
                    lemma_run_more_fuel(prog.drop_first(), step.machine, f, g);
                }
            },
        }
    }
}

/// A run that ends within some allowance halts, and its finish is the outcome.
pub proof fn lemma_outcome(prog: Seq<Instr>, m: Machine, fuel: nat)
    requires
        run(prog, m, fuel) is Some,
    ensures
        halts(prog, m),
        outcome(prog, m) == run(prog, m, fuel)->Some_0,
{
    let chosen = choose|f: nat| (#[trigger] run(prog, m, f)) is Some;
    if chosen <= fuel {
        lemma_run_more_fuel(prog, m, chosen, fuel);
    } else {
        lemma_run_more_fuel(prog, m, fuel, chosen);
    }
}

/// A run keeps the machine well formed and the output stream's limit as it
/// was: in particular the output never grows beyond the limit. A run that
/// ends in a failed write leaves the output stream full.
pub proof fn lemma_run_keeps_wf(prog: Seq<Instr>, m: Machine, fuel: nat)
    requires
        m.wf(),
        run(prog, m, fuel) is Some,
    ensures
        run(prog, m, fuel)->Some_0.machine.wf(),
        run(prog, m, fuel)->Some_0.machine.output.limit == m.output.limit,
        run(prog, m, fuel)->Some_0.fault == Some(RuntimeError::Io(IoError::WriteZero)) ==> !run(
            prog,
            m,
            fuel,
        )->Some_0.machine.output.has_room(),
    decreases fuel,
{
    if prog.len() > 0 {
        let f = (fuel - 1) as nat;
        match prog[0] {
            Instr::Loop(body) => {
                if m.tape.current() == 0 {
                    lemma_run_keeps_wf(prog.drop_first(), m, f);
                } else {
                    lemma_run_keeps_wf(body, m, f);
                    let round = run(body, m, f)->Some_0;
                    if round.fault is None {
                        lemma_run_keeps_wf(prog, round.machine, f);
                    }
                }
            },
            instr => {
                let step = apply(instr, m);
                if step.fault is None {
                    lemma_run_keeps_wf(prog.drop_first(), step.machine, f);
                }
            },
        }
    }
}

/// The outcome of a run that ends is well formed where the start was, with
/// the same output limit, and with the output stream full where the run
/// ended in a failed write.
pub proof fn lemma_outcome_keeps_wf(prog: Seq<Instr>, m: Machine)
    requires
        m.wf(),
        halts(prog, m),
    ensures
        outcome(prog, m).machine.wf(),
        outcome(prog, m).machine.output.limit == m.output.limit,
        outcome(prog, m).fault == Some(RuntimeError::Io(IoError::WriteZero)) ==> !outcome(
            prog,
            m,
        ).machine.output.has_room(),
{
    let chosen = choose|f: nat| (#[trigger] run(prog, m, f)) is Some;
    lemma_run_keeps_wf(prog, m, chosen);
}

/// Two runs end alike: both end or neither does, and where they end they
/// have the same finish.
pub open spec fn same_outcome(p: Seq<Instr>, m: Machine, q: Seq<Instr>, n: Machine) -> bool {
    &&& halts(p, m) <==> halts(q, n)
    &&& halts(p, m) ==> outcome(p, m) == outcome(q, n)
}

/// Where `a` ends without failure, `a + b` goes on as `b` does from there.
proof fn lemma_run_then(a: Seq<Instr>, b: Seq<Instr>, m: Machine, f1: nat, f2: nat)
    requires
        run(a, m, f1) is Some,
        run(a, m, f1)->Some_0.fault is None,
        run(b, run(a, m, f1)->Some_0.machine, f2) is Some,
    ensures
        run(a + b, m, f1 + f2) == run(b, run(a, m, f1)->Some_0.machine, f2),
    decreases f1,
{
    let p = a + b;
    if a.len() == 0 {
        assert(p =~= b);
        lemma_run_more_fuel(b, m, f2, f1 + f2);
    } else {
        let f = (f1 - 1) as nat;
        let g = (f1 + f2 - 1) as nat;
        assert(p[0] == a[0]);
        assert(p.drop_first() =~= a.drop_first() + b);
        match a[0] {
            Instr::Loop(body) => {
                if m.tape.current() == 0 {
                    lemma_run_then(a.drop_first(), b, m, f, f2);
                } else {
                    let round = run(body, m, f)->Some_0;
                    lemma_run_more_fuel(body, m, f, g);
                    lemma_run_then(a, b, round.machine, f, f2);
                }
            },
            instr => {
                lemma_run_then(a.drop_first(), b, apply(instr, m).machine, f, f2);
            },
        }
    }
}

/// Where `a` fails, `a + b` fails the same way.
proof fn lemma_run_stops(a: Seq<Instr>, b: Seq<Instr>, m: Machine, f1: nat)
    requires
        run(a, m, f1) is Some,
        run(a, m, f1)->Some_0.fault is Some,
    ensures
        run(a + b, m, f1) == run(a, m, f1),
    decreases f1,
{
    let p = a + b;
    if a.len() > 0 {
        let f = (f1 - 1) as nat;
        assert(p[0] == a[0]);
        assert(p.drop_first() =~= a.drop_first() + b);
        match a[0] {
            Instr::Loop(body) => {
                if m.tape.current() == 0 {
                    lemma_run_stops(a.drop_first(), b, m, f);
                } else {
                    let round = run(body, m, f)->Some_0;
                    if round.fault is None {
                        lemma_run_stops(a, b, round.machine, f);
                    }
                }
            },
            instr => {
                let step = apply(instr, m);
                if step.fault is None {
                    lemma_run_stops(a.drop_first(), b, step.machine, f);
                }
            },
        }
    }
}

/// Where `a + b` ends, `a` ends, and `a + b` ends as `a` does where `a`
/// fails, and as `b` does from where `a` ends otherwise.
proof fn lemma_run_split(a: Seq<Instr>, b: Seq<Instr>, m: Machine, f1: nat)
    requires
        run(a + b, m, f1) is Some,
    ensures
        run(a, m, f1) is Some,
        run(a, m, f1)->Some_0.fault is Some ==> run(a + b, m, f1) == run(a, m, f1),
        run(a, m, f1)->Some_0.fault is None ==> run(b, run(a, m, f1)->Some_0.machine, f1) == run(
            a + b,
            m,
            f1,
        ),
    decreases f1,
{
    let p = a + b;
    if a.len() == 0 {
        assert(p =~= b);
    } else {
        let f = (f1 - 1) as nat;
        assert(p[0] == a[0]);
        assert(p.drop_first() =~= a.drop_first() + b);
        match a[0] {
            Instr::Loop(body) => {
                if m.tape.current() == 0 {
                    lemma_run_split(a.drop_first(), b, m, f);
                    lemma_run_more_fuel(a, m, f1, f1);
                    if run(a, m, f1)->Some_0.fault is None {
                        lemma_run_more_fuel(b, run(a, m, f1)->Some_0.machine, f, f1);
                    }
                } else {
                    let round = run(body, m, f)->Some_0;
                    if round.fault is None {
                        lemma_run_split(a, b, round.machine, f);
                        if run(a, m, f1)->Some_0.fault is None {
                            lemma_run_more_fuel(b, run(a, m, f1)->Some_0.machine, f, f1);
                        }
                    }
                }
            },
            instr => {
                let step = apply(instr, m);
                if step.fault is None {
                    lemma_run_split(a.drop_first(), b, step.machine, f);
                    if run(a, m, f1)->Some_0.fault is None {
                        lemma_run_more_fuel(b, run(a, m, f1)->Some_0.machine, f, f1);
                    }
                }
            },
        }
    }
}

/// Running one program after another: the whole ends exactly where the
/// first part ends and either fails or lets the second part end, and the
/// finish of the whole is the failure of the first part or the finish of
/// the second.
pub proof fn lemma_sequence(a: Seq<Instr>, b: Seq<Instr>, m: Machine)
    ensures
        halts(a + b, m) <==> halts(a, m) && (outcome(a, m).fault is Some || halts(
            b,
            outcome(a, m).machine,
        )),
        halts(a + b, m) ==> outcome(a + b, m) == if outcome(a, m).fault is Some {
            outcome(a, m)
        } else {
            outcome(b, outcome(a, m).machine)
        },
{
    if halts(a + b, m) {
        let f = choose|f: nat| (#[trigger] run(a + b, m, f)) is Some;
        lemma_run_split(a, b, m, f);
        lemma_outcome(a + b, m, f);
        lemma_outcome(a, m, f);
        if outcome(a, m).fault is None {
            lemma_outcome(b, outcome(a, m).machine, f);
        }
    }
    if halts(a, m) && (outcome(a, m).fault is Some || halts(b, outcome(a, m).machine)) {
        let f1 = choose|f: nat| (#[trigger] run(a, m, f)) is Some;
        lemma_outcome(a, m, f1);
        if outcome(a, m).fault is Some {
            lemma_run_stops(a, b, m, f1);
            lemma_outcome(a + b, m, f1);
        } else {
            let f2 = choose|f: nat| (#[trigger] run(b, outcome(a, m).machine, f)) is Some;
            lemma_outcome(b, outcome(a, m).machine, f2);
            lemma_run_then(a, b, m, f1, f2);
            lemma_outcome(a + b, m, f1 + f2);
        }
    }
}

/// A program that begins with an instruction other than a loop fails as
/// that instruction does, or ends as the rest of the program does after it.
pub proof fn lemma_first_step(p: Seq<Instr>, m: Machine)
    requires
        p.len() > 0,
        !(p[0] is Loop),
    ensures
        apply(p[0], m).fault is Some ==> halts(p, m) && outcome(p, m) == apply(p[0], m),
        apply(p[0], m).fault is None ==> same_outcome(
            p,
            m,
            p.drop_first(),
            apply(p[0], m).machine,
        ),
{
    let step = apply(p[0], m);
    let q = p.drop_first();
    if step.fault is Some {
        assert(run(p, m, 1) == Some(step));
        lemma_outcome(p, m, 1);
    } else {
        if halts(p, m) {
            let f = choose|f: nat| (#[trigger] run(p, m, f)) is Some;
            assert(run(p, m, f) == run(q, step.machine, (f - 1) as nat));
            lemma_outcome(p, m, f);
            lemma_outcome(q, step.machine, (f - 1) as nat);
        }
        if halts(q, step.machine) {
            let g = choose|f: nat| (#[trigger] run(q, step.machine, f)) is Some;
            assert(run(p, m, g + 1) == run(q, step.machine, g));
            lemma_outcome(p, m, g + 1);
            lemma_outcome(q, step.machine, g);
        }
    }
}

/// A program that begins with a loop, on a machine whose current cell is
/// zero, ends as the rest of the program does.
pub proof fn lemma_loop_skip(p: Seq<Instr>, m: Machine)
    requires
        p.len() > 0,
        p[0] is Loop,
        m.tape.current() == 0,
    ensures
        same_outcome(p, m, p.drop_first(), m),
{
    let q = p.drop_first();
    if halts(p, m) {
        let f = choose|f: nat| (#[trigger] run(p, m, f)) is Some;
        assert(run(p, m, f) == run(q, m, (f - 1) as nat));
        lemma_outcome(p, m, f);
        lemma_outcome(q, m, (f - 1) as nat);
    }
    if halts(q, m) {
        let g = choose|f: nat| (#[trigger] run(q, m, f)) is Some;
        assert(run(p, m, g + 1) == run(q, m, g));
        lemma_outcome(p, m, g + 1);
        lemma_outcome(q, m, g);
    }
}

/// A program that begins with a loop, on a machine whose current cell is
/// not zero, ends as the loop's body followed by the whole program does.
pub proof fn lemma_loop_unfold(p: Seq<Instr>, m: Machine)
    requires
        p.len() > 0,
        p[0] is Loop,
        m.tape.current() != 0,
    ensures
        same_outcome(p, m, p[0]->Loop_0 + p, m),
{
    let body = p[0]->Loop_0;
    let q = body + p;
    if halts(p, m) {
        let f = choose|f: nat| (#[trigger] run(p, m, f)) is Some;
        let g = (f - 1) as nat;
        let round = run(body, m, g)->Some_0;
        lemma_outcome(p, m, f);
        if round.fault is Some {
            lemma_run_stops(body, p, m, g);
            lemma_outcome(q, m, g);
        } else {
            lemma_run_then(body, p, m, g, g);
            lemma_outcome(q, m, g + g);
        }
    }
    if halts(q, m) {
        let g = choose|f: nat| (#[trigger] run(q, m, f)) is Some;
        lemma_run_split(body, p, m, g);
        assert(run(p, m, g + 1) == run(q, m, g));
        lemma_outcome(p, m, g + 1);
        lemma_outcome(q, m, g);
    }
}

} // verus!
