//! The grammar of programs, as a mathematical definition over source bytes.
//!
//! Eight bytes are operators; every other byte is a comment. A maximal run of
//! adjacent `>` and `<` bytes is one move, a maximal run of adjacent `+` and
//! `-` bytes is one addition, and a bracket pair encloses the body of a loop.

use crate::ast::Instr;
use crate::error::ParseError;
use vstd::prelude::*;

verus! {

/// `>`: the operator that moves the pointer one cell to the right.
pub const RIGHT: u8 = 0x3e;

/// `<`: the operator that moves the pointer one cell to the left.
pub const LEFT: u8 = 0x3c;

/// `+`: the operator that increments the current cell.
pub const PLUS: u8 = 0x2b;

/// `-`: the operator that decrements the current cell.
pub const MINUS: u8 = 0x2d;

/// `.`: the operator that writes the current cell.
pub const DOT: u8 = 0x2e;

/// `,`: the operator that reads into the current cell.
pub const COMMA: u8 = 0x2c;

/// `[`: the operator that opens a loop.
pub const OPEN: u8 = 0x5b;

/// `]`: the operator that closes a loop.
pub const CLOSE: u8 = 0x5d;

/// Whether `b` is a pointer-move operator.
pub open spec fn is_move(b: u8) -> bool {
    b == RIGHT || b == LEFT
}

/// Whether `b` is a cell-mutation operator.
pub open spec fn is_add(b: u8) -> bool {
    b == PLUS || b == MINUS
}

/// Whether two adjacent bytes `a`, `b` belong to one run.
pub open spec fn same_run(a: u8, b: u8) -> bool {
    (is_move(a) && is_move(b)) || (is_add(a) && is_add(b))
}

/// What one byte of a run contributes to the run's net effect.
pub open spec fn unit(b: u8) -> int {
    if b == RIGHT || b == PLUS {
        1
    } else {
        -1
    }
}

/// Whether a run, if any, begins at `i`: the byte before `i` does not continue into it.
pub open spec fn starts_run(s: Seq<u8>, i: int) -> bool {
    i == 0 || !same_run(s[i - 1], s[i])
}

/// The index just behind the run that the byte at `i` belongs to.
pub open spec fn run_end(s: Seq<u8>, i: int) -> int
    decreases s.len() - i,
{
    if 0 <= i && i + 1 < s.len() && same_run(s[i], s[i + 1]) {
        run_end(s, i + 1)
    } else {
        i + 1
    }
}

/// The net effect of the run bytes at `lo..hi`: increments minus decrements.
pub open spec fn net(s: Seq<u8>, lo: int, hi: int) -> int
    decreases hi - lo,
{
    if lo >= hi {
        0
    } else {
        net(s, lo, hi - 1) + unit(s[hi - 1])
    }
}

/// `n` brought into the range of a machine word: a displacement beyond it
/// is kept at the nearest bound.
pub open spec fn clamp_isize(n: int) -> int {
    if n > isize::MAX {
        isize::MAX as int
    } else if n < isize::MIN {
        isize::MIN as int
    } else {
        n
    }
}

/// `n` modulo 256, as a signed byte.
pub open spec fn wrap_i8(n: int) -> int {
    (n + 128) % 256 - 128
}

/// The instruction that begins at the non-bracket byte at `i`, if one does:
/// a run's instruction begins at the run's first byte.
pub open spec fn item_at(s: Seq<u8>, i: int) -> Seq<Instr> {
    let b = s[i];
    if is_move(b) {
        if starts_run(s, i) {
            seq![Instr::Move(clamp_isize(net(s, i, run_end(s, i))))]
        } else {
            Seq::empty()
        }
    } else if is_add(b) {
        if starts_run(s, i) {
            seq![Instr::Add(wrap_i8(net(s, i, run_end(s, i))))]
        } else {
            Seq::empty()
        }
    } else if b == DOT {
        seq![Instr::Output]
    } else if b == COMMA {
        seq![Instr::Input]
    } else {
        Seq::empty()
    }
}

/// Scanning from `i` at nesting depth `depth`, the index of the first `]`
/// met at depth zero, or the length of `s` if there is none.
pub open spec fn closer(s: Seq<u8>, i: int, depth: nat) -> int
    decreases s.len() - i,
{
    if i < 0 || i >= s.len() {
        s.len() as int
    } else if s[i] == CLOSE {
        if depth == 0 {
            i
        } else {
            closer(s, i + 1, (depth - 1) as nat)
        }
    } else if s[i] == OPEN {
        closer(s, i + 1, depth + 1)
    } else {
        closer(s, i + 1, depth)
    }
}

/// The instructions of the bytes at `lo..hi`, where every bracket opened in
/// that range is closed in it.
pub open spec fn block(s: Seq<u8>, lo: int, hi: int) -> Seq<Instr>
    decreases hi - lo,
{
    if lo < 0 || lo >= hi || hi > s.len() {
        Seq::empty()
    } else if s[lo] == OPEN {
        let close = closer(s, lo + 1, 0);
        if lo < close < hi {
            seq![Instr::Loop(block(s, lo + 1, close))] + block(s, close + 1, hi)
        } else {
            Seq::empty()
        }
    } else {
        item_at(s, lo) + block(s, lo + 1, hi)
    }
}

/// Walking from `i` over whole bracket pairs, the index of the first `[`
/// that is never closed, if there is one.
pub open spec fn first_unclosed(s: Seq<u8>, i: int) -> Option<int>
    decreases s.len() - i,
{
    if i < 0 || i >= s.len() {
        None
    } else if s[i] == OPEN {
        let close = closer(s, i + 1, 0);
        if close >= s.len() {
            Some(i)
        } else if close > i {
            first_unclosed(s, close + 1)
        } else {
            None
        }
    } else {
        first_unclosed(s, i + 1)
    }
}

/// What parsing the source bytes `s` yields.
///
/// A `]` that closes nothing fails the parse at its position. Otherwise a `[`
/// that is never closed fails it, at the position of the outermost such
/// bracket. Otherwise the result is the instruction tree of the whole source.
pub open spec fn spec_parse(s: Seq<u8>) -> Result<Seq<Instr>, ParseError> {
    let stray = closer(s, 0, 0);
    if stray < s.len() {
        Err(ParseError::UnmatchedClosingBracket { pos: stray as usize })
    } else {
        match first_unclosed(s, 0) {
            Some(open) => Err(ParseError::UnmatchedOpeningBracket { pos: open as usize }),
            None => Ok(block(s, 0, s.len() as int)),
        }
    }
}

/// Whether `b` is neither `[` nor `]`.
pub open spec fn is_plain(b: u8) -> bool {
    b != OPEN && b != CLOSE
}

/// `closer` returns an index from `i` up to the length of `s`.
pub proof fn lemma_closer_bounds(s: Seq<u8>, i: int, depth: nat)
    requires
        0 <= i <= s.len(),
    ensures
        i <= closer(s, i, depth) <= s.len(),
        closer(s, i, depth) < s.len() ==> s[closer(s, i, depth)] == CLOSE,
    decreases s.len() - i,
{
    if i < s.len() {
        if s[i] == CLOSE {
            if depth > 0 {
                lemma_closer_bounds(s, i + 1, (depth - 1) as nat);
            }
        } else if s[i] == OPEN {
            lemma_closer_bounds(s, i + 1, depth + 1);
        } else {
            lemma_closer_bounds(s, i + 1, depth);
        }
    }
}

/// A stretch without brackets changes neither what `closer` finds nor what
/// `first_unclosed` finds.
pub proof fn lemma_plain_span(s: Seq<u8>, i: int, j: int, depth: nat)
    requires
        0 <= i <= j <= s.len(),
        forall|k: int| i <= k < j ==> is_plain(#[trigger] s[k]),
    ensures
        closer(s, i, depth) == closer(s, j, depth),
        first_unclosed(s, i) == first_unclosed(s, j),
    decreases j - i,
{
    if i < j {
        assert(is_plain(s[i]));
        lemma_plain_span(s, i + 1, j, depth);
    }
}

/// The run that begins at `i` ends at `e` where the bytes at `i..e` continue
/// one another and the byte at `e`, if any, does not continue the last.
pub proof fn lemma_run_end(s: Seq<u8>, i: int, e: int)
    requires
        0 <= i < e <= s.len(),
        forall|k: int| i < k < e ==> same_run(s[k - 1], #[trigger] s[k]),
        e == s.len() || !same_run(s[e - 1], s[e]),
    ensures
        run_end(s, i) == e,
    decreases e - i,
{
    if i + 1 < e {
        assert(same_run(s[i + 1 - 1], s[i + 1]));
        lemma_run_end(s, i + 1, e);
    }
}

} // verus!
