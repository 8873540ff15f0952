//! Laws of the grammar and of execution, proved from their definitions.

use crate::ast::{tree_view, Instr, AST};
use crate::error::ParseError;
use crate::grammar::{
    block, clamp_isize, closer, first_unclosed, is_add, is_move, is_plain, item_at,
    lemma_plain_span, lemma_run_end, net, run_end, same_run, spec_parse, starts_run, unit,
    wrap_i8, CLOSE, DOT, OPEN, PLUS, RIGHT,
};
use crate::parser::parsed_view;
use crate::semantics::{add_cell, apply, done, halts, lemma_outcome, outcome, run, Machine};
use vstd::prelude::*;

verus! {

/// A source without brackets always parses, to the block of all its bytes.
pub proof fn lemma_no_brackets_parse(s: Seq<u8>)
    requires
        forall|i: int| 0 <= i < s.len() ==> is_plain(#[trigger] s[i]),
    ensures
        spec_parse(s) == Ok::<Seq<Instr>, ParseError>(block(s, 0, s.len() as int)),
{
    lemma_plain_span(s, 0, s.len() as int, 0);
}

/// The bytes of a run behind its first begin no instruction: a block that
/// starts inside a run is the block that starts behind those bytes.
pub proof fn lemma_block_run_tail(s: Seq<u8>, lo: int, mid: int, hi: int)
    requires
        1 <= lo <= mid <= hi <= s.len(),
        forall|k: int| lo <= k < mid ==> same_run(s[k - 1], #[trigger] s[k]),
    ensures
        block(s, lo, hi) == block(s, mid, hi),
    decreases mid - lo,
{
    if lo < mid {
        assert(same_run(s[lo - 1], s[lo]));
        assert(item_at(s, lo) =~= Seq::empty());
        lemma_block_run_tail(s, lo + 1, mid, hi);
        assert(block(s, lo, hi) =~= block(s, lo + 1, hi));
    }
}

/// The net effect of a stretch of one and the same run byte is its length,
/// with the sign of the byte.
pub proof fn lemma_net_uniform(s: Seq<u8>, lo: int, hi: int, b: u8)
    requires
        0 <= lo <= hi <= s.len(),
        forall|k: int| lo <= k < hi ==> #[trigger] s[k] == b,
    ensures
        net(s, lo, hi) == if unit(b) == 1 {
            hi - lo
        } else {
            lo - hi
        },
    decreases hi - lo,
{
    if lo < hi {
        lemma_net_uniform(s, lo, hi - 1, b);
    }
}

/// The run of the byte at `i` reaches from `i` to `run_end`: each byte in
/// it behind `i` continues the byte before, and the byte behind the run, if
/// there is one, does not continue it.
pub proof fn lemma_run_end_spans(s: Seq<u8>, i: int)
    requires
        0 <= i < s.len(),
    ensures
        i < run_end(s, i) <= s.len(),
        forall|k: int| i < k < run_end(s, i) ==> same_run(s[k - 1], #[trigger] s[k]),
        run_end(s, i) == s.len() || !same_run(s[run_end(s, i) - 1], s[run_end(s, i)]),
    decreases s.len() - i,
{
    if i + 1 < s.len() && same_run(s[i], s[i + 1]) {
        lemma_run_end_spans(s, i + 1);
    }
}

/// A whole run is exactly one node: the block that begins at the first byte
/// of a run is the run's one instruction, then the block behind the run.
pub proof fn lemma_run_is_one_node(s: Seq<u8>, lo: int, hi: int)
    requires
        0 <= lo < hi <= s.len(),
        is_move(s[lo]) || is_add(s[lo]),
        starts_run(s, lo),
        run_end(s, lo) <= hi,
    ensures
        item_at(s, lo).len() == 1,
        block(s, lo, hi) == item_at(s, lo) + block(s, run_end(s, lo), hi),
{
    lemma_run_end_spans(s, lo);
    lemma_block_run_tail(s, lo + 1, run_end(s, lo), hi);
    assert(block(s, lo, hi) =~= item_at(s, lo) + block(s, lo + 1, hi));
}

/// A source made of pointer-move operators alone parses to exactly one
/// move, by the net displacement of the whole run: moves to the right less
/// moves to the left.
pub proof fn lemma_moves_merge(s: Seq<u8>)
    requires
        s.len() >= 1,
        forall|i: int| 0 <= i < s.len() ==> is_move(#[trigger] s[i]),
    ensures
        spec_parse(s) == Ok::<Seq<Instr>, ParseError>(
            seq![Instr::Move(clamp_isize(net(s, 0, s.len() as int)))],
        ),
{
    let n = s.len() as int;
    lemma_no_brackets_parse(s);
    assert forall|k: int| 0 < k < n implies same_run(s[k - 1], #[trigger] s[k]) by {
        assert(is_move(s[k - 1]));
    }
    lemma_run_end(s, 0, n);
    lemma_block_run_tail(s, 1, n, n);
    assert(block(s, n, n) =~= Seq::empty());
    assert(block(s, 0, n) =~= item_at(s, 0) + block(s, 1, n));
    assert(block(s, 0, n) =~= seq![Instr::Move(clamp_isize(net(s, 0, n)))]);
}

/// A source that is one run of a single pointer-move operator parses to
/// exactly one move, by the length of the run in the operator's direction.
/// (A run longer than a machine word can count is left out.)
pub proof fn lemma_move_run(s: Seq<u8>, dir: u8)
    requires
        1 <= s.len() <= isize::MAX,
        is_move(dir),
        forall|i: int| 0 <= i < s.len() ==> #[trigger] s[i] == dir,
    ensures
        spec_parse(s) == Ok::<Seq<Instr>, ParseError>(
            seq![Instr::Move(if dir == RIGHT {
                s.len() as int
            } else {
                -(s.len() as int)
            })],
        ),
{
    lemma_moves_merge(s);
    lemma_net_uniform(s, 0, s.len() as int, dir);
}

/// The tree that `parse` returns for a source that is one run of a single
/// pointer-move operator has exactly one node, and the node is the move by
/// the length of the run in the operator's direction. (A run longer than a
/// machine word can count is left out.)
pub proof fn lemma_move_run_tree(s: Seq<u8>, dir: u8, r: Result<Vec<AST>, ParseError>)
    requires
        1 <= s.len() <= isize::MAX,
        is_move(dir),
        forall|i: int| 0 <= i < s.len() ==> #[trigger] s[i] == dir,
        parsed_view(r) == spec_parse(s),
    ensures
        r is Ok,
        r->Ok_0@.len() == 1,
        r->Ok_0@[0] == AST::Move(
            if dir == RIGHT {
                s.len() as isize
            } else {
                (-(s.len() as int)) as isize
            },
        ),
{
    lemma_move_run(s, dir);
    let tree = r->Ok_0@;
    let model = tree_view(tree);
    assert(model.len() == 1);
    assert(model[0] == tree[0]@);
}

/// Adding twice to a cell is adding the sum once.
pub proof fn lemma_add_cell_twice(value: u8, first: int, second: int)
    ensures
        add_cell(add_cell(value, first), second) == add_cell(value, first + second),
{
}

/// Narrowing an amount to a signed byte does not change what adding it does.
pub proof fn lemma_add_cell_narrowed(value: u8, delta: int)
    ensures
        -128 <= wrap_i8(delta) <= 127,
        add_cell(value, wrap_i8(delta)) == add_cell(value, delta),
{
}

/// The program that adds each of `deltas` in turn.
pub open spec fn adds(deltas: Seq<int>) -> Seq<Instr> {
    Seq::new(deltas.len(), |i: int| Instr::Add(deltas[i]))
}

/// The sum of `deltas`.
pub open spec fn total(deltas: Seq<int>) -> int
    decreases deltas.len(),
{
    if deltas.len() == 0 {
        0
    } else {
        deltas[0] + total(deltas.drop_first())
    }
}

/// Executing additions one after another is one wrapping addition of their
/// sum: the run ends, fails nowhere, and changes the current cell alone.
pub proof fn lemma_adds_merge(deltas: Seq<int>, m: Machine)
    requires
        m.tape.wf(),
    ensures
        halts(adds(deltas), m),
        outcome(adds(deltas), m) == done(
            Machine {
                tape: m.tape.write(add_cell(m.tape.current(), total(deltas))),
                input: m.input,
                output: m.output,
            },
        ),
{
    lemma_adds_run(deltas, m);
    lemma_outcome(adds(deltas), m, deltas.len());
}

/// The run of a sequence of additions, with one step for each.
proof fn lemma_adds_run(deltas: Seq<int>, m: Machine)
    requires
        m.tape.wf(),
    ensures
        run(adds(deltas), m, deltas.len()) == Some(
            done(
                Machine {
                    tape: m.tape.write(add_cell(m.tape.current(), total(deltas))),
                    input: m.input,
                    output: m.output,
                },
            ),
        ),
    decreases deltas.len(),
{
    if deltas.len() == 0 {
        assert(m.tape.write(add_cell(m.tape.current(), 0)).cells =~= m.tape.cells);
    } else {
        let rest = deltas.drop_first();
        let next = apply(Instr::Add(deltas[0]), m).machine;
        assert(adds(deltas).drop_first() =~= adds(rest));
        lemma_adds_run(rest, next);
        lemma_add_cell_twice(m.tape.current(), deltas[0], total(rest));
        assert(next.tape.write(add_cell(next.tape.current(), total(rest))).cells
            =~= m.tape.write(add_cell(m.tape.current(), total(deltas))).cells);
    }
}

/// A source of `n` increments and one output operator, run on a machine
/// whose current cell is zero and whose output stream has room, ends without
/// failure and writes the single byte `n` modulo 256.
pub proof fn lemma_increments_then_output(s: Seq<u8>, n: nat, m: Machine)
    requires
        s.len() == n + 1,
        forall|i: int| 0 <= i < n ==> #[trigger] s[i] == PLUS,
        s[n as int] == DOT,
        m.tape.wf(),
        m.tape.current() == 0,
        m.output.has_room(),
    ensures
        spec_parse(s) is Ok,
        halts(spec_parse(s)->Ok_0, m),
        outcome(spec_parse(s)->Ok_0, m).fault is None,
        outcome(spec_parse(s)->Ok_0, m).machine.output.written == m.output.written.push(
            (n % 256) as u8,
        ),
{
    let len = n as int + 1;
    lemma_no_brackets_parse(s);
    let prog = block(s, 0, len);
    assert(block(s, len, len) =~= Seq::empty());
    assert(block(s, n as int, len) =~= seq![Instr::Output]);
    if n == 0 {
        reveal_with_fuel(run, 2);
        assert(prog.drop_first() =~= Seq::empty());
        assert(run(prog, m, 1) is Some);
        lemma_outcome(prog, m, 1);
    } else {
        assert forall|k: int| 0 < k < n implies same_run(s[k - 1], #[trigger] s[k]) by {}
        lemma_run_end(s, 0, n as int);
        lemma_net_uniform(s, 0, n as int, PLUS);
        lemma_block_run_tail(s, 1, n as int, len);
        assert(block(s, 0, len) =~= item_at(s, 0) + block(s, 1, len));
        assert(prog =~= seq![Instr::Add(wrap_i8(n as int)), Instr::Output]);
        lemma_add_cell_narrowed(0, n as int);
        reveal_with_fuel(run, 3);
        assert(prog.drop_first() =~= seq![Instr::Output]);
        assert(prog.drop_first().drop_first() =~= Seq::empty());
        assert(run(prog, m, 2) is Some);
        lemma_outcome(prog, m, 2);
    }
}

/// Parsing is a function of the source: two results of `parse` for the same
/// bytes are both the same error, or trees with the same model.
pub proof fn lemma_parse_deterministic(
    s: Seq<u8>,
    first: Result<Vec<AST>, ParseError>,
    second: Result<Vec<AST>, ParseError>,
)
    requires
        parsed_view(first) == spec_parse(s),
        parsed_view(second) == spec_parse(s),
    ensures
        parsed_view(first) == parsed_view(second),
        first is Ok <==> second is Ok,
        first is Err ==> first->Err_0 == second->Err_0,
        first is Ok ==> tree_view(first->Ok_0@) == tree_view(second->Ok_0@),
{
}

/// The nesting depth behind the first `i` bytes: the brackets opened less
/// the brackets closed.
pub open spec fn depth(s: Seq<u8>, i: int) -> int
    decreases i,
{
    if i <= 0 {
        0
    } else if s[i - 1] == OPEN {
        depth(s, i - 1) + 1
    } else if s[i - 1] == CLOSE {
        depth(s, i - 1) - 1
    } else {
        depth(s, i - 1)
    }
}

/// Whether the brackets of `s` are balanced: no prefix closes more brackets
/// than it opens, and the whole source closes all that it opens.
pub open spec fn balanced(s: Seq<u8>) -> bool {
    &&& forall|i: int| 0 <= i <= s.len() ==> #[trigger] depth(s, i) >= 0
    &&& depth(s, s.len() as int) == 0
}

/// What `closer` finds, in terms of depth: up to the index it returns the
/// depth never falls below the depth at `i` less `d`, and the bracket it
/// returns stands exactly at that depth.
proof fn lemma_closer_depth(s: Seq<u8>, i: int, d: nat)
    requires
        0 <= i <= s.len(),
    ensures
        i <= closer(s, i, d) <= s.len(),
        forall|p: int| i <= p <= closer(s, i, d) ==> #[trigger] depth(s, p) >= depth(s, i) - d,
        closer(s, i, d) < s.len() ==> s[closer(s, i, d)] == CLOSE && depth(s, closer(s, i, d))
            == depth(s, i) - d,
    decreases s.len() - i,
{
    if i < s.len() {
        assert(depth(s, i + 1) == depth(s, i) + if s[i] == OPEN {
            1int
        } else if s[i] == CLOSE {
            -1
        } else {
            0
        });
        if s[i] == CLOSE {
            if d > 0 {
                lemma_closer_depth(s, i + 1, (d - 1) as nat);
            }
        } else if s[i] == OPEN {
            lemma_closer_depth(s, i + 1, d + 1);
        } else {
            lemma_closer_depth(s, i + 1, d);
        }
    }
}

/// Scanning one level deeper finds the bracket behind the one found first.
proof fn lemma_closer_deeper(s: Seq<u8>, i: int, d: nat)
    requires
        0 <= i <= s.len(),
        closer(s, i, d) < s.len(),
    ensures
        closer(s, i, d + 1) == closer(s, closer(s, i, d) + 1, 0),
    decreases s.len() - i,
{
    if i < s.len() {
        if s[i] == CLOSE {
            if d > 0 {
                lemma_closer_deeper(s, i + 1, (d - 1) as nat);
            }
        } else if s[i] == OPEN {
            lemma_closer_deeper(s, i + 1, d + 1);
        } else {
            lemma_closer_deeper(s, i + 1, d);
        }
    }
}

/// What `first_unclosed` finds, in terms of depth, where no bracket from `i`
/// on closes below the depth at `i`: nothing exactly where the source ends
/// at that depth, and otherwise a `[` at that depth behind which the depth
/// stays above it to the end.
proof fn lemma_first_unclosed_depth(s: Seq<u8>, i: int)
    requires
        0 <= i <= s.len(),
        closer(s, i, 0) == s.len(),
    ensures
        match first_unclosed(s, i) {
            None => depth(s, s.len() as int) == depth(s, i),
            Some(open) => {
                &&& i <= open < s.len()
                &&& s[open] == OPEN
                &&& depth(s, open) == depth(s, i)
                &&& forall|j: int| open < j <= s.len() ==> #[trigger] depth(s, j) > depth(s, open)
            },
        },
    decreases s.len() - i,
{
    if i < s.len() {
        assert(depth(s, i + 1) == depth(s, i) + if s[i] == OPEN {
            1int
        } else if s[i] == CLOSE {
            -1
        } else {
            0
        });
        if s[i] == OPEN {
            let close = closer(s, i + 1, 0);
            lemma_closer_depth(s, i + 1, 0);
            if close < s.len() {
                lemma_closer_deeper(s, i + 1, 0);
                assert(depth(s, close + 1) == depth(s, close) - 1);
                lemma_first_unclosed_depth(s, close + 1);
            }
        } else {
            lemma_first_unclosed_depth(s, i + 1);
        }
    }
}

/// A source parses exactly where its brackets are balanced.
pub proof fn lemma_parse_ok_iff_balanced(s: Seq<u8>)
    ensures
        spec_parse(s) is Ok <==> balanced(s),
{
    lemma_closer_depth(s, 0, 0);
    let stray = closer(s, 0, 0);
    if stray < s.len() {
        assert(depth(s, stray + 1) == depth(s, stray) - 1);
    } else {
        lemma_first_unclosed_depth(s, 0);
    }
}

/// The closing bracket that fails a parse is the first at which a prefix of
/// the source closes more brackets than it opens; and a source with such a
/// prefix fails with that error. The source is one whose length a machine
/// word holds, as the length of every string is.
pub proof fn lemma_unmatched_closing(s: Seq<u8>)
    requires
        s.len() <= usize::MAX,
    ensures
        spec_parse(s) matches Err(ParseError::UnmatchedClosingBracket { pos }) ==> {
            &&& pos < s.len()
            &&& s[pos as int] == CLOSE
            &&& depth(s, pos as int) == 0
            &&& forall|i: int| 0 <= i <= pos ==> #[trigger] depth(s, i) >= 0
        },
        (exists|i: int| 0 <= i <= s.len() && #[trigger] depth(s, i) < 0) <==> spec_parse(s) matches Err(
            ParseError::UnmatchedClosingBracket { .. },
        ),
{
    lemma_closer_depth(s, 0, 0);
    let stray = closer(s, 0, 0);
    if stray < s.len() {
        assert(depth(s, stray + 1) == depth(s, stray) - 1);
        assert(depth(s, stray + 1) < 0);
    }
}

/// The opening bracket that fails a parse stands outside every loop, and
/// behind it the depth never comes back to zero: it is the outermost
/// bracket that is never closed. The source is one whose length a machine
/// word holds, as the length of every string is.
pub proof fn lemma_unmatched_opening(s: Seq<u8>)
    requires
        s.len() <= usize::MAX,
    ensures
        spec_parse(s) matches Err(ParseError::UnmatchedOpeningBracket { pos }) ==> {
            &&& pos < s.len()
            &&& s[pos as int] == OPEN
            &&& depth(s, pos as int) == 0
            &&& forall|i: int| 0 <= i <= s.len() ==> #[trigger] depth(s, i) >= 0
            &&& forall|j: int| pos < j <= s.len() ==> #[trigger] depth(s, j) > 0
        },
{
    lemma_closer_depth(s, 0, 0);
    if closer(s, 0, 0) >= s.len() {
        lemma_first_unclosed_depth(s, 0);
    }
}

} // verus!
