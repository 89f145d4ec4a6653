//! Agreement of the interpreters: the interpreter of the compact
//! bytecode writes what the direct interpreter writes.

use crate::agree::{byte_op, shifted, source_ops};
use crate::compiler::{CLOSE, COMMA, DOT, LEFT, MINUS, OPEN, PLUS, RIGHT};
use crate::machine::{basic_effect, is_basic, move_ok, sound, AOp};
use crate::simulate::{
    lemma_clearing_implements, lemma_nops_then_op, lemma_repeat_implements, lemma_repeated_add,
    lemma_repeated_left, lemma_repeated_right, lemma_repeated_sub, refines, repeated, segment_ok,
};
use crate::state::Machine;
use crate::agree::{
    as_drun, comment_bounds, lemma_direct_is_abstract, lemma_text_refines_stream, stream_ops,
};
use crate::compiler::source_stream;
use crate::brackets::{balanced, close_of, lemma_balanced_partners, open_of, Bracket};
use crate::direct::{dfinished, dhalts, doutcome, dsteps, DRun};
use crate::interpreter::Run;
use crate::machine::{
    aeffect, afinished, ahalts, akind, akinds, astep, asteps, lemma_aoutcome, lemma_asteps_add,
    lemma_asteps_one,
};
use crate::minibit::{
    beffect, bfinished, bhalts, boutcome, bstep, bsteps, btape, byte_bracket, chunked, is_many,
    lemma_tape_brackets_len, link_byte, partner, run_bytes, run_instr, tape_brackets, tape_linked,
    tape_linked_upto, Instr,
};
use crate::simulate::{
    lemma_partners_lift, lemma_refinement, nest_segment, nesting_cut, other_at, same_end,
};
use crate::source::{
    byte_run, clearing_loop, is_program, is_run_byte, lemma_byte_run_bounds, program_bytes,
};
use vstd::bytes::{spec_u64_from_le_bytes, spec_u64_to_le_bytes};
use vstd::prelude::*;

verus! {

/// Whether a run of `n` bytes `b` is written as one long head move.
pub open spec fn long_move(b: u8, n: nat) -> bool {
    n >= 32 && (b == RIGHT || b == LEFT)
}

/// How many bytes at the front of a comment-free text become the first
/// instruction of its tape: a clearing loop, a long head move, up to 32
/// bytes of any other run, or one byte.
pub open spec fn first_len(p: Seq<u8>) -> int {
    if p[0] == OPEN {
        if clearing_loop(p) {
            3
        } else {
            1
        }
    } else if is_run_byte(p[0]) {
        if long_move(p[0], byte_run(p)) || byte_run(p) <= 32 {
            byte_run(p) as int
        } else {
            32
        }
    } else {
        1
    }
}

/// The abstract instruction for `n` program bytes `b` of a run.
pub open spec fn run_op(b: u8, n: int) -> AOp {
    if b == PLUS {
        AOp::Add(n)
    } else if b == MINUS {
        AOp::Sub(n)
    } else if b == RIGHT {
        AOp::Right(n)
    } else {
        AOp::Left(n)
    }
}

/// The abstract instruction that the first instruction of the tape of a
/// comment-free text stands for.
pub open spec fn first_op(p: Seq<u8>) -> AOp {
    if p[0] == OPEN {
        if clearing_loop(p) {
            AOp::Zero
        } else {
            AOp::Open
        }
    } else if is_run_byte(p[0]) {
        run_op(p[0], first_len(p))
    } else {
        byte_op(p[0])
    }
}

/// The bytes of the first instruction of the tape of a comment-free
/// text.
pub open spec fn first_bytes(p: Seq<u8>) -> Seq<u8> {
    if p[0] == DOT {
        seq![Instr::Wild.spec_with(1)]
    } else if p[0] == COMMA {
        seq![Instr::Wild.spec_with(0)]
    } else if p[0] == OPEN {
        if clearing_loop(p) {
            seq![Instr::Zero.spec_with(0)]
        } else {
            seq![Instr::LStart.spec_with(0)]
        }
    } else if p[0] == CLOSE {
        seq![Instr::LEnd.spec_with(0)]
    } else if long_move(p[0], byte_run(p)) {
        run_bytes(p[0], byte_run(p))
    } else {
        seq![run_instr(p[0]).spec_with((first_len(p) - 1) as u8)]
    }
}

/// Whether a text holds program bytes only.
pub open spec fn comment_free(p: Seq<u8>) -> bool {
    forall|i: int| 0 <= i < p.len() ==> is_program(#[trigger] p[i])
}

/// What is left of a run behind its first bytes is a run of the rest.
pub proof fn lemma_byte_run_skip(p: Seq<u8>, c: int)
    requires
        0 <= c < byte_run(p),
    ensures
        c < p.len(),
        p.skip(c).len() > 0,
        p.skip(c)[0] == p[0],
        byte_run(p.skip(c)) == byte_run(p) - c,
    decreases c,
{
    lemma_byte_run_bounds(p);
    if c > 0 {
        assert(p.len() > 1 && p[1] == p[0]);
        lemma_byte_run_skip(p.skip(1), c - 1);
        assert(p.skip(1).skip(c - 1) =~= p.skip(c));
    } else {
        assert(p.skip(0) =~= p);
    }
}

/// The short form of a run of more than 32 is one full byte and the short
/// form of the rest.
pub proof fn lemma_chunked_front(instr: Instr, n: nat)
    requires
        n > 32,
    ensures
        chunked(instr, n) == seq![instr.spec_with(31)] + chunked(instr, (n - 32) as nat),
{
    assert(n / 32 == (n - 32) / 32 + 1);
    assert(n % 32 == (n - 32) % 32);
    assert(chunked(instr, n) =~= seq![instr.spec_with(31)] + chunked(instr, (n - 32) as nat));
}

/// The short form of a run of up to 32 is one byte.
pub proof fn lemma_chunked_one(instr: Instr, n: nat)
    requires
        1 <= n <= 32,
    ensures
        chunked(instr, n) == seq![instr.spec_with((n - 1) as u8)],
{
    if n == 32 {
        assert(n / 32 == 1 && n % 32 == 0);
    } else {
        assert(n / 32 == 0 && n % 32 == n);
    }
    assert(chunked(instr, n) =~= seq![instr.spec_with((n - 1) as u8)]);
}

/// A tape is the bytes of its first instruction and the tape of the rest
/// of the text.
pub proof fn lemma_btape_front(p: Seq<u8>)
    requires
        p.len() > 0,
        comment_free(p),
    ensures
        1 <= first_len(p) <= p.len(),
        btape(p) == first_bytes(p) + btape(p.skip(first_len(p))),
        comment_free(p.skip(first_len(p))),
{
    lemma_byte_run_bounds(p);
    assert(is_program(p[0]));
    let rest = p.skip(first_len(p));
    assert forall|i: int| 0 <= i < rest.len() implies is_program(#[trigger] rest[i]) by {
        assert(rest[i] == p[i + first_len(p)]);
    }
    if is_run_byte(p[0]) {
        let n = byte_run(p);
        let instr = run_instr(p[0]);
        if long_move(p[0], n) {
        } else if n <= 32 {
            lemma_chunked_one(instr, n);
        } else {
            // a cell run of more than 32: the tape goes on with the rest
            // of the run
            lemma_chunked_front(instr, n);
            lemma_byte_run_skip(p, 32);
            let tail = p.skip(32);
            lemma_byte_run_bounds(tail);
            assert(tail.skip((n - 32) as int) =~= p.skip(n as int));
            assert(!long_move(tail[0], byte_run(tail)));
            assert(btape(tail) == chunked(instr, (n - 32) as nat) + btape(p.skip(n as int)));
            assert(btape(p) =~= seq![instr.spec_with(31)] + btape(tail));
        }
    }
}

/// Whether the front of a text can be taken off as one instruction.
pub open spec fn has_front(p: Seq<u8>) -> bool {
    p.len() > 0 && comment_free(p) && 1 <= first_len(p) <= p.len()
}

/// The abstract instructions that the instructions of the tape of a
/// comment-free text stand for, one for each.
pub open spec fn chunk_ops(p: Seq<u8>) -> Seq<AOp>
    decreases p.len(),
{
    if !has_front(p) {
        Seq::empty()
    } else {
        seq![first_op(p)] + chunk_ops(p.skip(first_len(p)))
    }
}

/// Where in the text the segments end that become one instruction of the
/// tape each.
pub open spec fn chunk_bounds(p: Seq<u8>) -> Seq<int>
    decreases p.len(),
{
    if !has_front(p) {
        seq![0int]
    } else {
        seq![0int] + shifted(chunk_bounds(p.skip(first_len(p))), first_len(p))
    }
}

/// Where on the tape the instructions end.
pub open spec fn tape_bounds(p: Seq<u8>) -> Seq<int>
    decreases p.len(),
{
    if !has_front(p) {
        seq![0int]
    } else {
        seq![0int] + shifted(
            tape_bounds(p.skip(first_len(p))),
            first_bytes(p).len() as int,
        )
    }
}

/// Whether instruction `j` is in order: the text from the bound `f[j]`
/// on has it as its first instruction, which ends at the bound
/// `f[j + 1]`, and the tape holds its bytes from `g[j]` to `g[j + 1]`.
pub open spec fn cut_ok(p: Seq<u8>, f: Seq<int>, g: Seq<int>, j: int) -> bool {
    let q = p.skip(f[j]);
    &&& 0 <= f[j] < f[j + 1] <= p.len()
    &&& 0 <= g[j] < g[j + 1] <= btape(p).len()
    &&& has_front(q)
    &&& f[j + 1] == f[j] + first_len(q)
    &&& g[j + 1] == g[j] + first_bytes(q).len()
    &&& chunk_ops(p)[j] == first_op(q)
    &&& btape(p).subrange(g[j], g[j + 1]) == first_bytes(q)
}

/// Whether the text and its tape are cut into instructions: one segment
/// of each for each instruction, and nothing behind the last.
pub open spec fn cuts_ok(p: Seq<u8>) -> bool {
    let c = chunk_ops(p);
    let f = chunk_bounds(p);
    let g = tape_bounds(p);
    &&& f.len() == c.len() + 1
    &&& g.len() == c.len() + 1
    &&& f[0] == 0
    &&& g[0] == 0
    &&& f[c.len() as int] == p.len()
    &&& g[c.len() as int] == btape(p).len()
    &&& forall|j: int| 0 <= j < c.len() ==> #[trigger] cut_ok(p, f, g, j)
}

/// The first instruction of a tape takes at least one byte.
pub proof fn lemma_first_bytes(p: Seq<u8>)
    requires
        has_front(p),
    ensures
        first_bytes(p).len() == 1 || (first_bytes(p).len() == 9 && long_move(p[0], byte_run(p))),
{
    if long_move(p[0], byte_run(p)) && !(p[0] == DOT || p[0] == COMMA || p[0] == OPEN || p[0]
        == CLOSE) {
        vstd::bytes::lemma_auto_spec_u64_to_from_le_bytes();
        assert(spec_u64_to_le_bytes(byte_run(p) as u64).len() == 8);
    }
}

/// A comment-free text and its tape are cut into instructions.
pub proof fn lemma_cuts(p: Seq<u8>)
    requires
        comment_free(p),
    ensures
        cuts_ok(p),
    decreases p.len(),
{
    let c = chunk_ops(p);
    let f = chunk_bounds(p);
    let g = tape_bounds(p);
    if p.len() > 0 {
        lemma_btape_front(p);
        lemma_first_bytes(p);
        let n = first_len(p);
        let w = first_bytes(p).len() as int;
        let tail = p.skip(n);
        lemma_cuts(tail);
        let ct = chunk_ops(tail);
        let ft = chunk_bounds(tail);
        let gt = tape_bounds(tail);
        assert(c == seq![first_op(p)] + ct);
        assert(f == seq![0int] + shifted(ft, n));
        assert(g == seq![0int] + shifted(gt, w));
        assert forall|j: int| 0 <= j <= ct.len() implies f[j + 1] == #[trigger] ft[j] + n by {}
        assert forall|j: int| 0 <= j <= ct.len() implies g[j + 1] == #[trigger] gt[j] + w by {}
        assert forall|j: int| 0 <= j < c.len() implies #[trigger] cut_ok(p, f, g, j) by {
            if j == 0 {
                assert(f[1] == ft[0] + n);
                assert(g[1] == gt[0] + w);
                assert(p.skip(0) =~= p);
                assert(btape(p).subrange(0, w) =~= first_bytes(p));
            } else {
                assert(cut_ok(tail, ft, gt, j - 1));
                assert(f[j] == ft[j - 1] + n);
                assert(f[j + 1] == ft[j] + n);
                assert(g[j] == gt[j - 1] + w);
                assert(g[j + 1] == gt[j] + w);
                assert(tail.skip(ft[j - 1]) =~= p.skip(f[j]));
                assert(c[j] == ct[j - 1]);
                assert(btape(p).subrange(g[j], g[j + 1]) =~= btape(tail).subrange(
                    gt[j - 1],
                    gt[j],
                ));
            }
        }
    } else {
        assert(btape(p) =~= Seq::<u8>::empty());
    }
}

/// A segment of a comment-free text stands for its instruction.
proof fn lemma_chunk_segment(p: Seq<u8>, j: int, md: int)
    requires
        0 <= j < chunk_ops(p).len(),
        cut_ok(p, chunk_bounds(p), tape_bounds(p), j),
        md >= 0x100,
    ensures
        segment_ok(
            source_ops(p),
            chunk_ops(p)[j],
            chunk_bounds(p)[j],
            chunk_bounds(p)[j + 1],
            md,
        ),
        move_ok(chunk_ops(p)[j]),
{
    let a = source_ops(p);
    let f = chunk_bounds(p);
    let lo = f[j];
    let hi = f[j + 1];
    let q = p.skip(lo);
    let op = chunk_ops(p)[j];
    let n = first_len(q);
    assert(is_program(q[0]));
    assert(q[0] == p[lo]);
    assert(a[lo] == byte_op(p[lo]));
    if q[0] == OPEN && clearing_loop(q) {
        assert(q[1] == p[lo + 1]);
        assert(q[2] == p[lo + 2]);
        assert(a[lo + 1] == byte_op(p[lo + 1]));
        assert(a[lo + 2] == byte_op(p[lo + 2]));
        lemma_clearing_implements(a, lo, md);
    } else if is_run_byte(q[0]) && n > 1 {
        let u = byte_op(q[0]);
        lemma_byte_run_bounds(q);
        assert forall|x: int| lo <= x < hi implies #[trigger] a[x] == u by {
            lemma_byte_run_skip(q, x - lo);
            assert(q.skip(x - lo)[0] == q[x - lo]);
            assert(q[x - lo] == p[x]);
            assert(a[x] == byte_op(p[x]));
        }
        assert forall|m: Machine| #[trigger] sound(m, md) implies repeated(u, m, n as nat).fault
            == basic_effect(op, m).fault && repeated(u, m, n as nat).machine.output
            == basic_effect(op, m).machine.output && (basic_effect(op, m).fault is None
            ==> repeated(u, m, n as nat).machine == basic_effect(op, m).machine) by {
            if q[0] == PLUS {
                lemma_repeated_add(m, n as nat);
            } else if q[0] == MINUS {
                lemma_repeated_sub(m, n as nat);
            } else if q[0] == RIGHT {
                lemma_repeated_right(m, n as nat);
            } else {
                lemma_repeated_left(m, n as nat);
            }
        }
        lemma_repeat_implements(a, lo, hi, u, op, md);
    } else {
        assert(hi == lo + 1);
        assert(a[hi - 1] == op);
        if is_basic(op) {
            lemma_nops_then_op(a, lo, hi, md);
        }
    }
}

/// A comment-free text refines the instructions of its tape: a chunk of
/// a run does what its bytes do one after the other, and `Zero` does
/// what a clearing loop does.
pub proof fn lemma_text_refines_chunks(p: Seq<u8>, md: int)
    requires
        comment_free(p),
        md >= 0x100,
    ensures
        refines(source_ops(p), chunk_ops(p), chunk_bounds(p), md),
{
    let a = source_ops(p);
    let b = chunk_ops(p);
    let f = chunk_bounds(p);
    lemma_cuts(p);
    assert forall|j: int| 0 <= j < b.len() implies segment_ok(
        a,
        #[trigger] b[j],
        f[j],
        f[j + 1],
        md,
    ) by {
        assert(cut_ok(p, f, tape_bounds(p), j));
        lemma_chunk_segment(p, j, md);
    }
    assert forall|j: int| 0 <= j < b.len() implies #[trigger] f[j] < f[j + 1] by {
        assert(cut_ok(p, f, tape_bounds(p), j));
    }
    assert forall|i: int| 0 <= i < b.len() implies move_ok(#[trigger] b[i]) by {
        assert(cut_ok(p, f, tape_bounds(p), i));
        lemma_chunk_segment(p, i, md);
    }
}

/// A byte made of an instruction and an operand is taken apart into the
/// two.
pub proof fn lemma_decode_with(instr: Instr, operand: u8)
    ensures
        Instr::spec_decode(instr.spec_with(operand)) == (instr, (operand % 32) as u8),
{
    let code = instr.code() as int;
    let low = (operand % 32) as int;
    assert(0 <= code <= 7);
    assert((code * 32 + low) / 32 == code);
    assert((code * 32 + low) % 32 == low);
}

/// The first byte of the tape of a comment-free text.
pub open spec fn first_byte(q: Seq<u8>) -> u8 {
    first_bytes(q)[0]
}

/// What the first byte of a tape is: a long head move exactly when nine
/// bytes belong to it, and for loop nesting what its instruction is.
pub proof fn lemma_first_byte(q: Seq<u8>)
    requires
        has_front(q),
    ensures
        first_bytes(q).len() == 9 <==> is_many(first_byte(q)),
        first_bytes(q).len() == 9 || first_bytes(q).len() == 1,
        !is_many(first_byte(q)) ==> byte_bracket(first_byte(q)) == akind(first_op(q)),
        is_basic(first_op(q)) <==> !(first_op(q) is Open || first_op(q) is Close),
        is_many(first_byte(q)) ==> is_basic(first_op(q)),
{
    lemma_first_bytes(q);
    lemma_byte_run_bounds(q);
    assert(is_program(q[0]));
    lemma_decode_with(Instr::Wild, 0);
    lemma_decode_with(Instr::Wild, 1);
    lemma_decode_with(Instr::Wild, 2);
    lemma_decode_with(Instr::Wild, 3);
    lemma_decode_with(Instr::Zero, 0);
    lemma_decode_with(Instr::LStart, 0);
    lemma_decode_with(Instr::LEnd, 0);
    assert(Instr::Wild.spec_with(0) == 224);
    assert(Instr::Wild.spec_with(1) == 225);
    assert(Instr::Wild.spec_with(2) == 226);
    assert(Instr::Wild.spec_with(3) == 227);
    assert(Instr::Zero.spec_with(0) == 192);
    assert(Instr::LStart.spec_with(0) == 128);
    assert(Instr::LEnd.spec_with(0) == 160);
    let fb = first_byte(q);
    if q[0] == DOT {
        assert(fb == 225);
    } else if q[0] == COMMA {
        assert(fb == 224);
    } else if q[0] == OPEN {
        assert(fb == 192 || fb == 128);
    } else if q[0] == CLOSE {
        assert(fb == 160);
    } else if long_move(q[0], byte_run(q)) {
        let le = spec_u64_to_le_bytes(byte_run(q) as u64);
        vstd::bytes::lemma_auto_spec_u64_to_from_le_bytes();
        assert(le.len() == 8);
        assert((seq![Instr::Wild.spec_with(2)] + le)[0] == 226);
        assert((seq![Instr::Wild.spec_with(3)] + le)[0] == 227);
        assert(fb == 226 || fb == 227);
        assert(first_bytes(q).len() == 9);
    } else {
        assert(is_run_byte(q[0]));
        let operand = (first_len(q) - 1) as u8;
        lemma_decode_with(run_instr(q[0]), operand);
        assert(run_instr(q[0]).code() <= 3);
        assert(fb == run_instr(q[0]).spec_with(operand));
        assert(fb < 128);
    }
}

/// The nesting of a tape from an instruction on is the nesting of that
/// instruction and the nesting from the next instruction on.
pub proof fn lemma_tape_walk(p: Seq<u8>, j: int)
    requires
        cuts_ok(p),
        0 <= j <= chunk_ops(p).len(),
    ensures
        0 <= tape_bounds(p)[j] <= btape(p).len(),
        tape_brackets(btape(p), 0).skip(tape_bounds(p)[j]) == tape_brackets(
            btape(p),
            tape_bounds(p)[j],
        ),
        tape_brackets(btape(p), 0).len() == btape(p).len(),
    decreases j,
{
    let raw = btape(p);
    let g = tape_bounds(p);
    let f = chunk_bounds(p);
    let k = tape_brackets(raw, 0);
    lemma_tape_brackets_len(raw, 0);
    if j == 0 {
        assert(k.skip(0) =~= k);
    } else {
        lemma_tape_walk(p, j - 1);
        assert(cut_ok(p, f, g, j - 1));
        let lo = g[j - 1];
        let hi = g[j];
        let q = p.skip(f[j - 1]);
        lemma_first_byte(q);
        assert(raw.subrange(lo, hi)[0] == raw[lo]);
        assert(raw[lo] == first_byte(q));
        lemma_tape_brackets_len(raw, lo);
        lemma_tape_brackets_len(raw, hi);
        let from_lo = tape_brackets(raw, lo);
        assert(k.skip(hi) =~= from_lo.skip(hi - lo));
        if is_many(raw[lo]) {
            if raw.len() - lo <= 9 {
                assert(hi == raw.len());
                assert(from_lo.skip(hi - lo) =~= Seq::<Bracket>::empty());
                assert(tape_brackets(raw, hi) =~= Seq::<Bracket>::empty());
            } else {
                assert(from_lo.skip(9) =~= tape_brackets(raw, lo + 9));
            }
        } else {
            assert(from_lo.skip(1) =~= tape_brackets(raw, lo + 1));
        }
    }
}

/// The nesting of a tape is the nesting of its instructions, with the
/// bytes behind long head moves in between.
pub proof fn lemma_tape_nesting(p: Seq<u8>)
    requires
        comment_free(p),
    ensures
        nesting_cut(tape_brackets(btape(p), 0), akinds(chunk_ops(p)), tape_bounds(p)),
{
    let raw = btape(p);
    let g = tape_bounds(p);
    let f = chunk_bounds(p);
    let c = chunk_ops(p);
    let k = tape_brackets(raw, 0);
    let kc = akinds(c);
    lemma_cuts(p);
    lemma_tape_walk(p, 0);
    assert forall|j: int| 0 <= j < kc.len() implies #[trigger] nest_segment(k, kc, g, j) by {
        assert(cut_ok(p, f, g, j));
        lemma_tape_walk(p, j);
        let lo = g[j];
        let hi = g[j + 1];
        let q = p.skip(f[j]);
        lemma_first_byte(q);
        assert(raw.subrange(lo, hi)[0] == raw[lo]);
        let from_lo = tape_brackets(raw, lo);
        lemma_tape_brackets_len(raw, lo);
        assert forall|x: int| lo <= x < hi implies k[x] == from_lo[x - lo] by {
            assert(k.skip(lo)[x - lo] == k[x]);
        }
        if is_many(raw[lo]) {
            assert forall|x: int| lo <= x < hi implies #[trigger] other_at(k, x) by {
                assert(k[x] == from_lo[x - lo]);
            }
            assert(other_at(k, hi - 1));
        } else {
            assert(hi == lo + 1);
            assert(k[lo] == from_lo[0]);
        }
    }
}

/// Whether `tape` and `map` are the compiled form of the comment-free
/// text `p`: its tape with all jumps resolved.
pub open spec fn compiled(p: Seq<u8>, tape: Seq<u8>, map: Map<usize, usize>) -> bool {
    &&& comment_free(p)
    &&& p.len() <= usize::MAX
    &&& btape(p).len() <= usize::MAX
    &&& balanced(tape_brackets(btape(p), 0))
    &&& tape_linked(btape(p), tape, map)
}

/// Whether the run `rb` of the tape is where the run `ra` of its
/// instructions is: at the byte of the same instruction, on the same
/// machine, stopped by the same error if by any.
pub open spec fn same_place(p: Seq<u8>, rb: Run, ra: DRun) -> bool {
    &&& as_drun(rb).fault == ra.fault
    &&& rb.machine == ra.machine
    &&& 0 <= ra.idx <= chunk_ops(p).len()
    &&& rb.idx == tape_bounds(p)[ra.idx]
}

/// What the compiled tape holds where instruction `j` stands: the byte
/// of a loop boundary with the distance to its partner, or the bytes the
/// tape had before its jumps were resolved.
proof fn lemma_compiled_bytes(p: Seq<u8>, tape: Seq<u8>, map: Map<usize, usize>, j: int)
    requires
        compiled(p, tape, map),
        0 <= j < chunk_ops(p).len(),
    ensures
        cuts_ok(p),
        cut_ok(p, chunk_bounds(p), tape_bounds(p), j),
        tape.len() == btape(p).len(),
        nesting_cut(tape_brackets(btape(p), 0), akinds(chunk_ops(p)), tape_bounds(p)),
        is_basic(chunk_ops(p)[j]) ==> forall|x: int|
            tape_bounds(p)[j] <= x < tape_bounds(p)[j + 1] ==> #[trigger] tape[x] == btape(p)[x],
        chunk_ops(p)[j] is Open ==> {
            let at = tape_bounds(p)[j];
            let to = close_of(tape_brackets(btape(p), 0), at);
            &&& at < to < tape.len()
            &&& tape[at] == link_byte(Instr::LStart, to - at)
            &&& to - at > 31 ==> map.contains_key(at as usize) && map[at as usize] == to
        },
        chunk_ops(p)[j] is Close ==> {
            let at = tape_bounds(p)[j];
            let to = open_of(tape_brackets(btape(p), 0), at);
            &&& 0 <= to < at
            &&& tape[at] == link_byte(Instr::LEnd, at - to)
            &&& at - to > 31 ==> map.contains_key(at as usize) && map[at as usize] == to
        },
{
    let raw = btape(p);
    let k = tape_brackets(raw, 0);
    let c = chunk_ops(p);
    let g = tape_bounds(p);
    let f = chunk_bounds(p);
    lemma_cuts(p);
    lemma_tape_nesting(p);
    lemma_balanced_partners(k);
    lemma_tape_brackets_len(raw, 0);
    assert(cut_ok(p, f, g, j));
    assert(nest_segment(k, akinds(c), g, j));
    let lo = g[j];
    let hi = g[j + 1];
    let q = p.skip(f[j]);
    lemma_first_byte(q);
    if is_basic(c[j]) {
        assert forall|x: int| lo <= x < hi implies #[trigger] tape[x] == raw[x] by {
            if x < hi - 1 {
                assert(other_at(k, x));
            }
            assert(k[x] == Bracket::Other);
            assert(tape[x] == tape[x]);
        }
    } else {
        assert(!is_many(first_byte(q)));
        assert(hi == lo + 1);
        assert(k[lo] == akind(c[j]));
        assert(akinds(c)[j] == akind(c[j]));
        let key = lo as usize;
        assert(key as int == lo);
        assert(tape_linked_upto(raw, tape, map, raw.len() as int));
        assert(tape[lo] == match k[lo] {
            Bracket::Open => if close_of(k, lo) < raw.len() {
                link_byte(Instr::LStart, close_of(k, lo) - lo)
            } else {
                raw[lo]
            },
            Bracket::Close => if lo < raw.len() {
                link_byte(Instr::LEnd, lo - open_of(k, lo))
            } else {
                raw[lo]
            },
            Bracket::Other => raw[lo],
        });
        if c[j] is Open {
            assert(k[lo] == Bracket::Open);
            let to = close_of(k, lo);
            assert(lo < to < raw.len());
            if to - lo > 31 {
                assert(map.contains_key(key));
                assert(map[key] as int == to);
            }
        } else {
            assert(c[j] is Close);
            assert(k[lo] == Bracket::Close);
            let to = open_of(k, lo);
            assert(0 <= to < lo);
            if lo - to > 31 {
                assert(map.contains_key(key));
                assert(map[key] as int == to);
            }
        }
    }
}

/// One step of the tape is one step of its instructions, for an
/// instruction that is no loop boundary and no long head move.
proof fn lemma_tape_step_short(
    p: Seq<u8>,
    tape: Seq<u8>,
    map: Map<usize, usize>,
    m: Machine,
    j: int,
)
    requires
        compiled(p, tape, map),
        0 <= j < chunk_ops(p).len(),
        is_basic(chunk_ops(p)[j]),
        tape_bounds(p)[j + 1] == tape_bounds(p)[j] + 1,
    ensures
        same_place(
            p,
            bstep(tape, map, Run::at(m, tape_bounds(p)[j])),
            astep(chunk_ops(p), DRun::at(m, j)),
        ),
{
    let raw = btape(p);
    let c = chunk_ops(p);
    let g = tape_bounds(p);
    let f = chunk_bounds(p);
    lemma_compiled_bytes(p, tape, map, j);
    let lo = g[j];
    let q = p.skip(f[j]);
    lemma_first_byte(q);
    lemma_byte_run_bounds(q);
    assert(is_program(q[0]));
    assert(raw.subrange(lo, lo + 1)[0] == raw[lo]);
    assert(tape[lo] == first_byte(q));
    lemma_decode_with(Instr::Wild, 0);
    lemma_decode_with(Instr::Wild, 1);
    lemma_decode_with(Instr::Zero, 0);
    if is_run_byte(q[0]) {
        assert(!long_move(q[0], byte_run(q)));
        let operand = (first_len(q) - 1) as u8;
        lemma_decode_with(run_instr(q[0]), operand);
    }
    assert(bstep(tape, map, Run::at(m, lo)) == beffect(tape, map, m, lo));
    assert(astep(c, DRun::at(m, j)) == aeffect(c, m, j));
}

/// One step of the tape is one step of its instructions, for a long head
/// move.
proof fn lemma_tape_step_long(
    p: Seq<u8>,
    tape: Seq<u8>,
    map: Map<usize, usize>,
    m: Machine,
    j: int,
)
    requires
        compiled(p, tape, map),
        0 <= j < chunk_ops(p).len(),
        tape_bounds(p)[j + 1] == tape_bounds(p)[j] + 9,
    ensures
        same_place(
            p,
            bstep(tape, map, Run::at(m, tape_bounds(p)[j])),
            astep(chunk_ops(p), DRun::at(m, j)),
        ),
{
    let raw = btape(p);
    let c = chunk_ops(p);
    let g = tape_bounds(p);
    let f = chunk_bounds(p);
    let q = p.skip(f[j]);
    lemma_cuts(p);
    assert(cut_ok(p, f, g, j));
    lemma_first_byte(q);
    lemma_compiled_bytes(p, tape, map, j);
    let lo = g[j];
    lemma_byte_run_bounds(q);
    assert(long_move(q[0], byte_run(q)));
    let n = byte_run(q);
    let le = spec_u64_to_le_bytes(n as u64);
    vstd::bytes::lemma_auto_spec_u64_to_from_le_bytes();
    assert(first_bytes(q) == run_bytes(q[0], n));
    assert(raw.subrange(lo, lo + 9)[0] == raw[lo]);
    assert(tape.subrange(lo + 1, lo + 9) =~= raw.subrange(lo, lo + 9).subrange(1, 9));
    assert(first_bytes(q).subrange(1, 9) =~= le);
    assert(n <= q.len() <= p.len());
    assert(spec_u64_from_le_bytes(tape.subrange(lo + 1, lo + 9)) == n as u64);
    assert(n as u64 as int == n);
    assert(is_basic(c[j]));
    assert(c[j] == run_op(q[0], n as int));
    lemma_decode_with(Instr::Wild, 2);
    lemma_decode_with(Instr::Wild, 3);
    assert(tape[lo] == first_byte(q));
    assert(bstep(tape, map, Run::at(m, lo)) == beffect(tape, map, m, lo));
    assert(astep(c, DRun::at(m, j)) == aeffect(c, m, j));
}

/// One step of the tape is one step of its instructions, for a loop
/// boundary: the distance on the tape, or the entry of the map, leads to
/// the partner.
proof fn lemma_tape_step_jump(
    p: Seq<u8>,
    tape: Seq<u8>,
    map: Map<usize, usize>,
    m: Machine,
    j: int,
)
    requires
        compiled(p, tape, map),
        0 <= j < chunk_ops(p).len(),
        !is_basic(chunk_ops(p)[j]),
    ensures
        same_place(
            p,
            bstep(tape, map, Run::at(m, tape_bounds(p)[j])),
            astep(chunk_ops(p), DRun::at(m, j)),
        ),
{
    let raw = btape(p);
    let k = tape_brackets(raw, 0);
    let c = chunk_ops(p);
    let kc = akinds(c);
    let g = tape_bounds(p);
    let f = chunk_bounds(p);
    lemma_compiled_bytes(p, tape, map, j);
    assert(cut_ok(p, f, g, j));
    assert(nest_segment(k, kc, g, j));
    let q = p.skip(f[j]);
    lemma_first_byte(q);
    let lo = g[j];
    assert(g[j + 1] == lo + 1);
    lemma_partners_lift(k, kc, g, j);
    assert(kc[j] == akind(c[j]));
    assert(bstep(tape, map, Run::at(m, lo)) == beffect(tape, map, m, lo));
    assert(astep(c, DRun::at(m, j)) == aeffect(c, m, j));
    if c[j] is Open {
        let to = close_of(k, lo);
        let d = to - lo;
        let by: u8 = if d <= 31 {
            d as u8
        } else {
            0
        };
        lemma_decode_with(Instr::LStart, by);
        let ct = close_of(kc, j);
        crate::brackets::lemma_scan_close_range(kc, j + 1, 1);
        assert(ct < kc.len());
        assert(nest_segment(k, kc, g, ct));
        assert(partner(map, lo, by, true, tape.len() as int) == to);
    } else {
        let to = open_of(k, lo);
        let d = lo - to;
        let by: u8 = if d <= 31 {
            d as u8
        } else {
            0
        };
        lemma_decode_with(Instr::LEnd, by);
        let ot = open_of(kc, j);
        crate::brackets::lemma_scan_open_range(kc, j - 1, 1);
        assert(0 <= ot);
        assert(nest_segment(k, kc, g, ot));
        assert(partner(map, lo, by, false, tape.len() as int) == to);
    }
}

/// The tape runs as its instructions run, step by step.
pub proof fn lemma_tape_is_abstract(
    p: Seq<u8>,
    tape: Seq<u8>,
    map: Map<usize, usize>,
    m: Machine,
    n: nat,
)
    requires
        compiled(p, tape, map),
    ensures
        same_place(
            p,
            bsteps(tape, map, Run::at(m, 0), n),
            asteps(chunk_ops(p), DRun::at(m, 0), n),
        ),
        bfinished(tape, bsteps(tape, map, Run::at(m, 0), n)) <==> afinished(
            chunk_ops(p),
            asteps(chunk_ops(p), DRun::at(m, 0), n),
        ),
    decreases n,
{
    let c = chunk_ops(p);
    let g = tape_bounds(p);
    let f = chunk_bounds(p);
    lemma_cuts(p);
    lemma_tape_brackets_len(btape(p), 0);
    if n > 0 {
        lemma_tape_is_abstract(p, tape, map, m, (n - 1) as nat);
        let rb = bsteps(tape, map, Run::at(m, 0), (n - 1) as nat);
        let ra = asteps(c, DRun::at(m, 0), (n - 1) as nat);
        crate::minibit::lemma_bsteps_add(tape, map, Run::at(m, 0), (n - 1) as nat, 1);
        lemma_asteps_add(c, DRun::at(m, 0), (n - 1) as nat, 1);
        assert(bsteps(tape, map, rb, 1) == bsteps(tape, map, bstep(tape, map, rb), 0));
        lemma_asteps_one(c, ra);
        if !afinished(c, ra) {
            let j = ra.idx;
            assert(cut_ok(p, f, g, j));
            assert(rb == Run::at(ra.machine, g[j]));
            assert(ra == DRun::at(ra.machine, j));
            lemma_first_byte(p.skip(f[j]));
            if !is_basic(c[j]) {
                lemma_tape_step_jump(p, tape, map, ra.machine, j);
            } else if g[j + 1] == g[j] + 9 {
                lemma_tape_step_long(p, tape, map, ra.machine, j);
            } else {
                lemma_tape_step_short(p, tape, map, ra.machine, j);
            }
        }
    }
    let rb = bsteps(tape, map, Run::at(m, 0), n);
    let ra = asteps(c, DRun::at(m, 0), n);
    if ra.fault is None && ra.idx < c.len() {
        assert(cut_ok(p, f, g, ra.idx));
    }
}

/// The program bytes of a text are program bytes, no more than the text
/// has bytes, and the instructions they stand for are those of the
/// stream of the text.
pub proof fn lemma_program_bytes(text: Seq<u8>)
    ensures
        comment_free(program_bytes(text)),
        program_bytes(text).len() <= text.len(),
        stream_ops(source_stream::<u8>(text)) == source_ops(program_bytes(text)),
    decreases text.len(),
{
    let p = program_bytes(text);
    let r = source_stream::<u8>(text);
    if text.len() > 0 {
        lemma_program_bytes(text.drop_last());
        let pf = program_bytes(text.drop_last());
        let rf = source_stream::<u8>(text.drop_last());
        assert(stream_ops(rf).len() == source_ops(pf).len());
        if is_program(text.last()) {
            assert(p == pf.push(text.last()));
            assert forall|i: int| 0 <= i < p.len() implies is_program(#[trigger] p[i]) by {
                if i < pf.len() {
                    assert(p[i] == pf[i]);
                }
            }
            assert forall|i: int| 0 <= i < p.len() implies stream_ops(r)[i] == source_ops(
                p,
            )[i] by {
                if i < pf.len() {
                    assert(stream_ops(rf)[i] == source_ops(pf)[i]);
                    assert(r[i] == rf[i]);
                    assert(p[i] == pf[i]);
                }
            }
        }
        assert(stream_ops(r) =~= source_ops(p));
    } else {
        assert(stream_ops(r) =~= source_ops(p));
    }
}

/// The interpreters agree. Let a program text compile to a tape of
/// compact bytecode with its map. Then on every machine the direct
/// interpreter on the text and the interpreter of the tape either both
/// run for ever or both come to an end; and when they end, they end with
/// the same error or with none, they have written the same bytes in the
/// same order, and without an error they leave the same machine behind.
pub proof fn lemma_bytecode_agrees(
    text: Seq<u8>,
    tape: Seq<u8>,
    map: Map<usize, usize>,
    m: Machine,
)
    requires
        text.len() <= usize::MAX,
        tape.len() <= usize::MAX,
        balanced(tape_brackets(btape(program_bytes(text)), 0)),
        tape_linked(btape(program_bytes(text)), tape, map),
        m.wf(),
        m.modulus >= 0x100,
    ensures
        bhalts(tape, map, Run::at(m, 0)) <==> dhalts(text, DRun::at(m, 0)),
        bhalts(tape, map, Run::at(m, 0)) ==> same_end(
            doutcome(text, DRun::at(m, 0)),
            as_drun(boutcome(tape, map, Run::at(m, 0))),
        ),
{
    let md = m.modulus;
    let p = program_bytes(text);
    let c = chunk_ops(p);
    let a0 = source_ops(text);
    let a1 = source_ops(p);
    let start = DRun::at(m, 0);
    let first = Run::at(m, 0);
    lemma_program_bytes(text);
    assert(compiled(p, tape, map));
    lemma_text_refines_stream::<u8>(text, md);
    lemma_text_refines_chunks(p, md);
    lemma_refinement(a0, a1, comment_bounds(text), md, m);
    lemma_refinement(a1, c, chunk_bounds(p), md, m);
    assert(dhalts(text, start) <==> ahalts(a0, start)) by {
        if dhalts(text, start) {
            let n = choose|n: nat| dfinished(text, #[trigger] dsteps(text, start, n));
            lemma_direct_is_abstract(text, start, n);
            assert(afinished(a0, asteps(a0, start, n)));
        }
        if ahalts(a0, start) {
            let n = choose|n: nat| afinished(a0, #[trigger] asteps(a0, start, n));
            lemma_direct_is_abstract(text, start, n);
            assert(dfinished(text, dsteps(text, start, n)));
        }
    }
    assert(bhalts(tape, map, first) <==> ahalts(c, start)) by {
        if bhalts(tape, map, first) {
            let n = choose|n: nat| bfinished(tape, #[trigger] bsteps(tape, map, first, n));
            lemma_tape_is_abstract(p, tape, map, m, n);
            assert(afinished(c, asteps(c, start, n)));
        }
        if ahalts(c, start) {
            let n = choose|n: nat| afinished(c, #[trigger] asteps(c, start, n));
            lemma_tape_is_abstract(p, tape, map, m, n);
            assert(bfinished(tape, bsteps(tape, map, first, n)));
        }
    }
    if bhalts(tape, map, first) {
        let n = choose|n: nat| bfinished(tape, #[trigger] bsteps(tape, map, first, n));
        lemma_tape_is_abstract(p, tape, map, m, n);
        crate::minibit::lemma_boutcome(tape, map, first, n);
        lemma_aoutcome(c, start, n);
        let k = choose|k: nat| dfinished(text, #[trigger] dsteps(text, start, k));
        lemma_direct_is_abstract(text, start, k);
        crate::direct::lemma_doutcome(text, start, k);
        lemma_aoutcome(a0, start, k);
    }
}

} // verus!
