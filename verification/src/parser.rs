//! The parser: one pass over the source bytes with a stack of open loops.

use crate::ast::{lemma_loop_view, lemma_tree_view_push, tree_view, Instr, AST};
use crate::error::ParseError;
use crate::grammar::{
    block, clamp_isize, closer, first_unclosed, is_add, is_move, is_plain, item_at,
    lemma_closer_bounds, lemma_plain_span, lemma_run_end, net, run_end, same_run, spec_parse,
    starts_run, wrap_i8, CLOSE, COMMA, DOT, LEFT, MINUS, OPEN, PLUS, RIGHT,
};
use vstd::prelude::*;
use vstd::string::*;

verus! {

/// The model of a parse result: the model of the tree, or the error.
pub open spec fn parsed_view(r: Result<Vec<AST>, ParseError>) -> Result<Seq<Instr>, ParseError> {
    match r {
        Ok(tree) => Ok(tree_view(tree@)),
        Err(e) => Err(e),
    }
}

/// An instruction sequence under construction: the instructions gathered so
/// far and the position of the bracket that opened the sequence.
struct Frame {
    nodes: Seq<Instr>,
    opened: int,
}

/// Whether walking from `lo` over plain bytes and whole bracket pairs arrives
/// exactly at `hi`.
spec fn reaches(s: Seq<u8>, lo: int, hi: int) -> bool
    decreases hi - lo,
{
    if lo >= hi {
        lo == hi
    } else if lo < 0 || hi > s.len() {
        false
    } else if s[lo] == OPEN {
        let close = closer(s, lo + 1, 0);
        lo < close < hi && reaches(s, close + 1, hi)
    } else {
        reaches(s, lo + 1, hi)
    }
}

/// The index behind the byte at `i`, or behind the bracket pair that opens at `i`.
spec fn step_over(s: Seq<u8>, i: int) -> int {
    if s[i] == OPEN {
        closer(s, i + 1, 0) + 1
    } else {
        i + 1
    }
}

/// A walk that arrives at `mid` goes on over the byte or bracket pair at
/// `mid`, and the block grows by what stands there.
proof fn lemma_extend(s: Seq<u8>, lo: int, mid: int)
    requires
        0 <= lo <= mid < s.len(),
        reaches(s, lo, mid),
        s[mid] == OPEN ==> closer(s, mid + 1, 0) < s.len(),
    ensures
        mid < step_over(s, mid) <= s.len(),
        reaches(s, lo, step_over(s, mid)),
        block(s, lo, step_over(s, mid)) == block(s, lo, mid) + block(s, mid, step_over(s, mid)),
    decreases mid - lo,
{
    let nx = step_over(s, mid);
    lemma_closer_bounds(s, mid + 1, 0);
    if lo == mid {
        assert(reaches(s, nx, nx));
        assert(reaches(s, mid, nx));
        assert(block(s, mid, mid) =~= Seq::empty());
        assert(block(s, lo, nx) =~= block(s, lo, mid) + block(s, mid, nx));
    } else if s[lo] == OPEN {
        let close = closer(s, lo + 1, 0);
        lemma_extend(s, close + 1, mid);
        assert(block(s, lo, nx) =~= block(s, lo, mid) + block(s, mid, nx));
    } else {
        lemma_extend(s, lo + 1, mid);
        assert(block(s, lo, nx) =~= block(s, lo, mid) + block(s, mid, nx));
    }
}

/// A walk that arrives at the first byte of a run, or at a lone plain byte,
/// goes on to the end `e` of the run, and the block grows by the one
/// instruction that begins there.
proof fn lemma_run(s: Seq<u8>, lo: int, pos: int, e: int)
    requires
        0 <= lo <= pos < e <= s.len(),
        reaches(s, lo, pos),
        is_plain(s[pos]),
        forall|k: int| pos < k < e ==> same_run(s[k - 1], #[trigger] s[k]),
    ensures
        reaches(s, lo, e),
        block(s, lo, e) == block(s, lo, pos) + item_at(s, pos),
    decreases e - pos,
{
    if e == pos + 1 {
        lemma_extend(s, lo, pos);
        assert(block(s, pos + 1, pos + 1) =~= Seq::empty());
        assert(block(s, pos, pos + 1) =~= item_at(s, pos));
    } else {
        lemma_run(s, lo, pos, e - 1);
        assert(same_run(s[e - 1 - 1], s[e - 1]));
        lemma_extend(s, lo, e - 1);
        assert(block(s, e, e) =~= Seq::empty());
        assert(item_at(s, e - 1) =~= Seq::empty());
        assert(block(s, e - 1, e) =~= Seq::empty());
        assert(block(s, lo, e) =~= block(s, lo, pos) + item_at(s, pos));
    }
}

/// Where the sequence of frame `k` begins in the source.
spec fn frame_lo(frames: Seq<Frame>, k: int) -> int {
    if k == 0 {
        0
    } else {
        frames[k].opened + 1
    }
}

/// Where the part of frame `k` that has been scanned ends.
spec fn frame_hi(frames: Seq<Frame>, pos: int, k: int) -> int {
    if k + 1 < frames.len() {
        frames[k + 1].opened
    } else {
        pos
    }
}

/// Frame `k` holds the block between its bracket and the next frame's
/// bracket (the scan position, for the last frame), and its closing bracket
/// has not been passed.
spec fn frame_ok(s: Seq<u8>, frames: Seq<Frame>, pos: int, k: int) -> bool {
    let lo = frame_lo(frames, k);
    let hi = frame_hi(frames, pos, k);
    &&& 0 <= lo <= hi <= pos
    &&& k >= 1 ==> s[frames[k].opened] == OPEN
    &&& k + 1 < frames.len() ==> hi < pos
    &&& reaches(s, lo, hi)
    &&& frames[k].nodes == block(s, lo, hi)
    &&& closer(s, lo, 0) == closer(s, pos, (frames.len() - 1 - k) as nat)
}

/// The scan position does not split a run.
spec fn between_runs(s: Seq<u8>, pos: int) -> bool {
    pos <= 0 || pos >= s.len() || !same_run(s[pos - 1], s[pos])
}

/// What holds of the stack of frames when the scan stands at `pos`.
spec fn scan_ok(s: Seq<u8>, frames: Seq<Frame>, pos: int) -> bool {
    &&& frames.len() >= 1
    &&& 0 <= pos <= s.len()
    &&& between_runs(s, pos)
    &&& forall|k: int| 0 <= k < frames.len() ==> #[trigger] frame_ok(s, frames, pos, k)
    &&& first_unclosed(s, 0) == first_unclosed(
        s,
        if frames.len() == 1 {
            pos
        } else {
            frames[1].opened
        },
    )
}

/// The last frame with `item` appended to its instructions.
spec fn with_item(frames: Seq<Frame>, item: Seq<Instr>) -> Seq<Frame> {
    frames.update(
        frames.len() - 1,
        Frame { nodes: frames.last().nodes + item, opened: frames.last().opened },
    )
}

/// The frames after a `[` at `pos`.
spec fn with_open(frames: Seq<Frame>, pos: int) -> Seq<Frame> {
    frames.push(Frame { nodes: Seq::empty(), opened: pos })
}

/// The frames after a `]`: the last frame becomes a loop in the frame below.
spec fn with_close(frames: Seq<Frame>) -> Seq<Frame> {
    let parent = frames[frames.len() - 2];
    frames.take(frames.len() - 2).push(
        Frame { nodes: parent.nodes.push(Instr::Loop(frames.last().nodes)), opened: parent.opened },
    )
}

/// The scan passes a lone plain byte, or a whole run, at `pos..e`.
proof fn lemma_scan_item(s: Seq<u8>, frames: Seq<Frame>, pos: int, e: int)
    requires
        scan_ok(s, frames, pos),
        pos < e <= s.len(),
        is_plain(s[pos]),
        forall|k: int| pos < k < e ==> same_run(s[k - 1], #[trigger] s[k]),
        e == s.len() || !same_run(s[e - 1], s[e]),
    ensures
        run_end(s, pos) == e,
        scan_ok(s, with_item(frames, item_at(s, pos)), e),
{
    let d = frames.len() - 1;
    let lo = frame_lo(frames, d);
    let frames2 = with_item(frames, item_at(s, pos));
    assert(frame_ok(s, frames, pos, d));
    lemma_run_end(s, pos, e);
    lemma_run(s, lo, pos, e);
    assert forall|k: int| pos <= k < e implies is_plain(#[trigger] s[k]) by {
        if k > pos {
            assert(same_run(s[k - 1], s[k]));
        }
    }
    assert forall|k: int| 0 <= k < frames2.len() implies #[trigger] frame_ok(s, frames2, e, k) by {
        assert(frame_ok(s, frames, pos, k));
        lemma_plain_span(s, pos, e, (d - k) as nat);
    }
    lemma_plain_span(s, pos, e, 0);
}

/// The scan passes a `[` at `pos`.
proof fn lemma_scan_open(s: Seq<u8>, frames: Seq<Frame>, pos: int)
    requires
        scan_ok(s, frames, pos),
        pos < s.len(),
        s[pos] == OPEN,
    ensures
        scan_ok(s, with_open(frames, pos), pos + 1),
{
    let d = frames.len() - 1;
    let frames2 = with_open(frames, pos);
    assert forall|k: int| 0 <= k < frames2.len() implies #[trigger] frame_ok(
        s,
        frames2,
        pos + 1,
        k,
    ) by {
        if k <= d {
            assert(frame_ok(s, frames, pos, k));
        } else {
            assert(reaches(s, pos + 1, pos + 1));
            assert(block(s, pos + 1, pos + 1) =~= Seq::empty());
        }
    }
}

/// The scan passes a `]` at `pos` that closes the last frame.
proof fn lemma_scan_close(s: Seq<u8>, frames: Seq<Frame>, pos: int)
    requires
        scan_ok(s, frames, pos),
        pos < s.len(),
        s[pos] == CLOSE,
        frames.len() >= 2,
    ensures
        scan_ok(s, with_close(frames), pos + 1),
{
    let d = frames.len() - 1;
    let top = frames[d];
    let parent = frames[d - 1];
    let frames2 = with_close(frames);
    let lo = frame_lo(frames, d - 1);
    assert(frame_ok(s, frames, pos, d));
    assert(frame_ok(s, frames, pos, d - 1));
    assert(closer(s, top.opened + 1, 0) == pos);
    lemma_extend(s, lo, top.opened);
    assert(block(s, pos + 1, pos + 1) =~= Seq::empty());
    assert(block(s, top.opened, pos + 1) =~= seq![Instr::Loop(top.nodes)]);
    assert(frames2[d - 1].nodes =~= block(s, lo, pos + 1));
    assert forall|k: int| 0 <= k < frames2.len() implies #[trigger] frame_ok(
        s,
        frames2,
        pos + 1,
        k,
    ) by {
        assert(frame_ok(s, frames, pos, k));
    }
    if d == 1 {
        assert(first_unclosed(s, top.opened) == first_unclosed(s, pos + 1));
    }
}

/// A `]` met while no loop is open is the first that closes nothing.
proof fn lemma_scan_stray(s: Seq<u8>, frames: Seq<Frame>, pos: int)
    requires
        scan_ok(s, frames, pos),
        pos < s.len(),
        s[pos] == CLOSE,
        frames.len() == 1,
    ensures
        spec_parse(s) == Err::<Seq<Instr>, ParseError>(
            ParseError::UnmatchedClosingBracket { pos: pos as usize },
        ),
{
    assert(frame_ok(s, frames, pos, 0));
}

/// At the end of the source the frames decide the result.
proof fn lemma_scan_end(s: Seq<u8>, frames: Seq<Frame>)
    requires
        scan_ok(s, frames, s.len() as int),
    ensures
        frames.len() == 1 ==> spec_parse(s) == Ok::<Seq<Instr>, ParseError>(frames[0].nodes),
        frames.len() >= 2 ==> 0 <= frames[1].opened < s.len() && spec_parse(s) == Err::<
            Seq<Instr>,
            ParseError,
        >(ParseError::UnmatchedOpeningBracket { pos: frames[1].opened as usize }),
{
    assert(frame_ok(s, frames, s.len() as int, 0));
    if frames.len() >= 2 {
        assert(frame_ok(s, frames, s.len() as int, 1));
    }
}

/// The frames that the parser's variables stand for: the enclosing
/// sequences from the outermost on, then the sequence being filled.
spec fn frames_of(enclosing: Seq<(Vec<AST>, usize)>, current: Seq<AST>, opened: usize) -> Seq<
    Frame,
> {
    Seq::new(
        enclosing.len() + 1,
        |k: int|
            if k < enclosing.len() {
                Frame { nodes: tree_view(enclosing[k].0@), opened: enclosing[k].1 as int }
            } else {
                Frame { nodes: tree_view(current), opened: opened as int }
            },
    )
}

/// Merges the run of `>` and `<` that begins at `pos`: returns the index
/// behind the run and the run's net displacement.
fn merge_moves(bytes: &[u8], pos: usize) -> (r: (usize, isize))
    requires
        pos < bytes@.len(),
        is_move(bytes@[pos as int]),
    ensures
        pos < r.0 <= bytes@.len(),
        forall|k: int| pos <= k < r.0 ==> is_move(#[trigger] bytes@[k]),
        r.0 == bytes@.len() || !is_move(bytes@[r.0 as int]),
        r.1 == clamp_isize(net(bytes@, pos as int, r.0 as int)),
{
    let mut n: i128 = 0;
    let mut j: usize = pos;
    while j < bytes.len() && (bytes[j] == RIGHT || bytes[j] == LEFT)
        invariant
            pos <= j <= bytes@.len(),
            is_move(bytes@[pos as int]),
            forall|k: int| pos <= k < j ==> is_move(#[trigger] bytes@[k]),
            n == net(bytes@, pos as int, j as int),
            -(j - pos) <= n <= j - pos,
        decreases bytes@.len() - j,
    {
        if bytes[j] == RIGHT {
            n = n + 1;
        } else {
            n = n - 1;
        }
        j = j + 1;
    }
    let delta: isize = if n > isize::MAX as i128 {
        isize::MAX
    } else if n < isize::MIN as i128 {
        isize::MIN
    } else {
        n as isize
    };
    (j, delta)
}

/// Merges the run of `+` and `-` that begins at `pos`: returns the index
/// behind the run and the run's net increment modulo 256.
fn merge_adds(bytes: &[u8], pos: usize) -> (r: (usize, i8))
    requires
        pos < bytes@.len(),
        is_add(bytes@[pos as int]),
    ensures
        pos < r.0 <= bytes@.len(),
        forall|k: int| pos <= k < r.0 ==> is_add(#[trigger] bytes@[k]),
        r.0 == bytes@.len() || !is_add(bytes@[r.0 as int]),
        r.1 == wrap_i8(net(bytes@, pos as int, r.0 as int)),
{
    let mut n: i8 = 0;
    let mut j: usize = pos;
    while j < bytes.len() && (bytes[j] == PLUS || bytes[j] == MINUS)
        invariant
            pos <= j <= bytes@.len(),
            is_add(bytes@[pos as int]),
            forall|k: int| pos <= k < j ==> is_add(#[trigger] bytes@[k]),
            n == wrap_i8(net(bytes@, pos as int, j as int)),
        decreases bytes@.len() - j,
    {
        if bytes[j] == PLUS {
            n = n.wrapping_add(1);
        } else {
            n = n.wrapping_sub(1);
        }
        j = j + 1;
    }
    (j, n)
}

/// Reads the instruction, if any, that begins at the plain byte at `pos`,
/// where no run continues into `pos`: returns the index behind the byte,
/// or behind the whole run that begins there, and the node.
fn read_item(bytes: &[u8], pos: usize) -> (r: (usize, Option<AST>))
    requires
        pos < bytes@.len(),
        is_plain(bytes@[pos as int]),
        starts_run(bytes@, pos as int),
    ensures
        pos < r.0 <= bytes@.len(),
        forall|k: int| pos < k < r.0 ==> same_run(bytes@[k - 1], #[trigger] bytes@[k]),
        r.0 == bytes@.len() || !same_run(bytes@[r.0 - 1], bytes@[r.0 as int]),
        item_at(bytes@, pos as int) == match r.1 {
            Some(node) => seq![node@],
            None => Seq::empty(),
        },
{
    let c = bytes[pos];
    if c == RIGHT || c == LEFT {
        let (e, n) = merge_moves(bytes, pos);
        proof {
            assert forall|k: int| pos < k < e implies same_run(
                bytes@[k - 1],
                #[trigger] bytes@[k],
            ) by {
                assert(is_move(bytes@[k - 1]));
            }
            lemma_run_end(bytes@, pos as int, e as int);
        }
        (e, Some(AST::Move(n)))
    } else if c == PLUS || c == MINUS {
        let (e, n) = merge_adds(bytes, pos);
        proof {
            assert forall|k: int| pos < k < e implies same_run(
                bytes@[k - 1],
                #[trigger] bytes@[k],
            ) by {
                assert(is_add(bytes@[k - 1]));
            }
            lemma_run_end(bytes@, pos as int, e as int);
        }
        (e, Some(AST::Add(n)))
    } else if c == DOT {
        (pos + 1, Some(AST::Output))
    } else if c == COMMA {
        (pos + 1, Some(AST::Input))
    } else {
        (pos + 1, None)
    }
}

/// Parses source text into an instruction tree.
///
/// The result is exactly what the grammar assigns to the bytes of the
/// source, its UTF-8 encoding: the tree, or the error with the byte offset
/// of the offending bracket. Every operator is one byte, and no byte of a
/// longer character equals one, so characters that are no operators are
/// skipped whole.
pub fn parse(source: &str) -> (r: Result<Vec<AST>, ParseError>)
    ensures
        parsed_view(r) == spec_parse(source.spec_bytes()),
{
    let bytes = source.as_bytes();
    let ghost s = bytes@;
    let len = bytes.len();
    let mut enclosing: Vec<(Vec<AST>, usize)> = Vec::new();
    let mut current: Vec<AST> = Vec::new();
    let mut opened: usize = 0;
    let mut pos: usize = 0;
    proof {
        assert(reaches(s, 0, 0));
        assert(block(s, 0, 0) =~= Seq::empty());
        assert(tree_view(current@) =~= Seq::empty());
        assert(frame_ok(s, frames_of(enclosing@, current@, opened), 0, 0));
    }
    while pos < len
        invariant
            bytes@ == s,
            s == source.spec_bytes(),
            len == s.len(),
            scan_ok(s, frames_of(enclosing@, current@, opened), pos as int),
        decreases len - pos,
    {
        let ghost frames = frames_of(enclosing@, current@, opened);
        let ghost before = current@;
        let c = bytes[pos];
        if c == OPEN {
            proof {
                lemma_scan_open(s, frames, pos as int);
            }
            enclosing.push((current, opened));
            current = Vec::new();
            opened = pos;
            pos = pos + 1;
            proof {
                assert(tree_view(current@) =~= Seq::empty());
                assert(frames_of(enclosing@, current@, opened) =~= with_open(frames, opened as int));
            }
        } else if c == CLOSE {
            match enclosing.pop() {
                None => {
                    proof {
                        lemma_scan_stray(s, frames, pos as int);
                    }
                    return Err(ParseError::UnmatchedClosingBracket { pos });
                },
                Some(outer) => {
                    let (mut parent, parent_opened) = outer;
                    proof {
                        lemma_scan_close(s, frames, pos as int);
                        lemma_loop_view(current);
                        lemma_tree_view_push(parent@, AST::Loop(current));
                    }
                    parent.push(AST::Loop(current));
                    current = parent;
                    opened = parent_opened;
                    pos = pos + 1;
                    proof {
                        assert(frames_of(enclosing@, current@, opened) =~= with_close(frames));
                    }
                },
            }
        } else {
            let (end, item) = read_item(bytes, pos);
            proof {
                lemma_scan_item(s, frames, pos as int, end as int);
            }
            match item {
                Some(node) => {
                    proof {
                        lemma_tree_view_push(before, node);
                    }
                    current.push(node);
                },
                None => {},
            }
            proof {
                assert(tree_view(current@) =~= tree_view(before) + item_at(s, pos as int));
                assert(frames_of(enclosing@, current@, opened) =~= with_item(
                    frames,
                    item_at(s, pos as int),
                ));
            }
            pos = end;
        }
    }
    proof {
        lemma_scan_end(s, frames_of(enclosing@, current@, opened));
    }
    if enclosing.len() > 0 {
        let at = if enclosing.len() > 1 {
            enclosing[1].1
        } else {
            opened
        };
        return Err(ParseError::UnmatchedOpeningBracket { pos: at });
    }
    Ok(current)
}

} // verus!
