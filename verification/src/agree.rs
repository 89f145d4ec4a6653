//! Agreement of the interpreters: the direct interpreter on a program
//! text and the interpreter of the direct stream on the compiled text
//! write the same bytes.

use crate::brackets::{balanced, lemma_balanced_partners, Bracket};
use crate::cell::BfOptimizable;
use crate::compiler::{
    clears_at, grouped, head_run, lemma_head_run_bounds, linked, source_stream, stream_brackets,
    zero_folded, BfInstruc, BfInstructionStream, CLOSE, COMMA, DOT, LEFT, MINUS, OPEN, PLUS, RIGHT,
    STREAM_LIMIT,
};
use crate::direct::{dfinished, dhalts, doutcome, dstep, dsteps, source_brackets, DRun};
use crate::interpreter::{finished, halts, outcome, step, steps, Run};
use crate::machine::{
    afinished, ahalts, akinds, astep, asteps, is_basic, lemma_aoutcome, move_ok, moves_ok, AOp,
};
use crate::machine::{basic_effect, sound};
use crate::simulate::{
    lemma_clearing_implements, lemma_nops_then_op, lemma_refinement, same_end, lemma_repeat_implements, lemma_repeated_add, lemma_repeated_left,
    lemma_repeated_right, lemma_repeated_sub, refines, repeated, segment_ok,
};
use crate::source::is_program;
use crate::state::Machine;
use either::Either;
use vstd::prelude::*;

verus! {

/// The abstract instruction a byte of a program text stands for.
pub open spec fn byte_op(b: u8) -> AOp {
    if b == PLUS {
        AOp::Add(1)
    } else if b == MINUS {
        AOp::Sub(1)
    } else if b == RIGHT {
        AOp::Right(1)
    } else if b == LEFT {
        AOp::Left(1)
    } else if b == OPEN {
        AOp::Open
    } else if b == CLOSE {
        AOp::Close
    } else if b == COMMA {
        AOp::Read
    } else if b == DOT {
        AOp::Write
    } else {
        AOp::Nop
    }
}

/// A program text as a program of the abstract machine.
pub open spec fn source_ops(src: Seq<u8>) -> Seq<AOp> {
    Seq::new(src.len(), |i: int| byte_op(src[i]))
}

/// The direct interpreter runs the abstract machine.
pub proof fn lemma_direct_is_abstract(src: Seq<u8>, r: DRun, n: nat)
    ensures
        dsteps(src, r, n) == asteps(source_ops(src), r, n),
    decreases n,
{
    let ops = source_ops(src);
    if n > 0 {
        assert(dstep(src, r) == astep(ops, r)) by {
            if !dfinished(src, r) {
                assert(akinds(ops) =~= source_brackets(src));
                assert(ops[r.idx] == byte_op(src[r.idx]));
            }
        }
        lemma_direct_is_abstract(src, dstep(src, r), (n - 1) as nat);
    }
}

/// The abstract instruction an instruction of the direct stream stands
/// for.
pub open spec fn instr_op<T: BfOptimizable>(i: BfInstruc<T>) -> AOp {
    match i {
        BfInstruc::Zero => AOp::Zero,
        BfInstruc::Inc => AOp::Add(1),
        BfInstruc::Dec => AOp::Sub(1),
        BfInstruc::IncPtr => AOp::Right(1),
        BfInstruc::DecPtr => AOp::Left(1),
        BfInstruc::Write => AOp::Write,
        BfInstruc::Read => AOp::Read,
        BfInstruc::LStart(_) => AOp::Open,
        BfInstruc::LEnd(_) => AOp::Close,
        BfInstruc::IncBy(v) => AOp::Add(v.val()),
        BfInstruc::DecBy(v) => AOp::Sub(v.val()),
        BfInstruc::IncPtrBy(v) => AOp::Right(v as int),
        BfInstruc::DecPtrBy(v) => AOp::Left(v as int),
    }
}

/// A direct stream as a program of the abstract machine.
pub open spec fn stream_ops<T: BfOptimizable>(s: Seq<BfInstruc<T>>) -> Seq<AOp> {
    Seq::new(s.len(), |i: int| instr_op(s[i]))
}

/// A run of the direct stream as a run of the abstract machine.
pub open spec fn as_drun(r: Run) -> DRun {
    DRun {
        machine: r.machine,
        idx: r.idx,
        fault: match r.fault {
            Some(e) => Some(Either::Left(e)),
            None => None,
        },
    }
}

/// The interpreter of the direct stream runs the abstract machine: on a
/// stream whose jumps are resolved, jumping to the operand is jumping
/// behind the partner.
pub proof fn lemma_stream_is_abstract<T: BfOptimizable>(
    z: Seq<BfInstruc<T>>,
    l: Seq<BfInstruc<T>>,
    r: Run,
    n: nat,
)
    requires
        linked(z, l),
        balanced(stream_brackets(z)),
        z.len() <= u32::MAX,
    ensures
        as_drun(steps(l, r, n)) == asteps(stream_ops(z), as_drun(r), n),
    decreases n,
{
    let ops = stream_ops(z);
    let k = stream_brackets(z);
    if n > 0 {
        assert(as_drun(step(l, r)) == astep(ops, as_drun(r))) by {
            if !finished(l, r) {
                assert(akinds(ops) =~= k);
                lemma_balanced_partners(k);
                let j = r.idx;
                assert(ops[j] == instr_op(z[j]));
                assert(l[j] == l[j]);
                match z[j] {
                    BfInstruc::LStart(_) => {
                        assert(k[j] == Bracket::Open);
                    },
                    BfInstruc::LEnd(_) => {
                        assert(k[j] == Bracket::Close);
                    },
                    _ => {},
                }
            }
        }
        lemma_stream_is_abstract(z, l, step(l, r), (n - 1) as nat);
    }
}

/// Where the segments of a program text end: behind each program byte.
/// A segment is a program byte with the comments in front of it.
pub open spec fn comment_bounds(src: Seq<u8>) -> Seq<int>
    decreases src.len(),
{
    if src.len() == 0 {
        seq![0int]
    } else if is_program(src.last()) {
        comment_bounds(src.drop_last()).push(src.len() as int)
    } else {
        comment_bounds(src.drop_last())
    }
}

/// Whether the byte at `x` of a program text is a comment.
pub open spec fn comment_at(src: Seq<u8>, x: int) -> bool {
    byte_op(src[x]) == AOp::Nop
}

/// Whether segment `j` of a program text is in order: it ends in the
/// byte of instruction `j` of the stream and holds only comments in front
/// of it.
pub open spec fn comment_segment<T: BfOptimizable>(src: Seq<u8>, f: Seq<int>, j: int) -> bool {
    &&& 0 <= f[j] < f[j + 1] <= src.len()
    &&& instr_op(source_stream::<T>(src)[j]) == byte_op(src[f[j + 1] - 1])
    &&& forall|x: int| f[j] <= x < f[j + 1] - 1 ==> #[trigger] comment_at(src, x)
}

/// What the segments of a program text are: one for each instruction of
/// its stream; behind the last there are only comments.
pub open spec fn comments_cut<T: BfOptimizable>(src: Seq<u8>, f: Seq<int>) -> bool {
    let r = source_stream::<T>(src);
    &&& f.len() == r.len() + 1
    &&& f[0] == 0
    &&& 0 <= f[r.len() as int] <= src.len()
    &&& forall|j: int| 0 <= j < r.len() ==> #[trigger] comment_segment::<T>(src, f, j)
    &&& forall|x: int| f[r.len() as int] <= x < src.len() ==> #[trigger] comment_at(src, x)
}

/// The bounds behind the program bytes cut a text into such segments.
pub proof fn lemma_comment_bounds<T: BfOptimizable>(src: Seq<u8>)
    ensures
        comments_cut::<T>(src, comment_bounds(src)),
    decreases src.len(),
{
    let f = comment_bounds(src);
    let r = source_stream::<T>(src);
    if src.len() > 0 {
        let front = src.drop_last();
        lemma_comment_bounds::<T>(front);
        let ff = comment_bounds(front);
        let rf = source_stream::<T>(front);
        let last = front.len() as int;
        assert forall|x: int| 0 <= x < last implies comment_at(front, x) == comment_at(
            src,
            x,
        ) by {
            assert(front[x] == src[x]);
        }
        if is_program(src.last()) {
            assert(r == rf.push(BfInstruc::<T>::spec_from_byte(src.last()).unwrap()));
            assert(f == ff.push(src.len() as int));
            assert forall|j: int| 0 <= j < r.len() implies #[trigger] comment_segment::<T>(
                src,
                f,
                j,
            ) by {
                if j < rf.len() {
                    assert(comment_segment::<T>(front, ff, j));
                    assert(f[j] == ff[j]);
                    assert(f[j + 1] == ff[j + 1]);
                    assert(r[j] == rf[j]);
                    assert(front[ff[j + 1] - 1] == src[ff[j + 1] - 1]);
                    assert forall|x: int| f[j] <= x < f[j + 1] - 1 implies #[trigger] comment_at(
                        src,
                        x,
                    ) by {
                        assert(comment_at(front, x));
                    }
                } else {
                    assert(f[j] == ff[rf.len() as int]);
                    assert(f[j + 1] == src.len());
                    assert forall|x: int| f[j] <= x < f[j + 1] - 1 implies #[trigger] comment_at(
                        src,
                        x,
                    ) by {
                        assert(comment_at(front, x));
                    }
                }
            }
        } else {
            assert(r == rf);
            assert(f == ff);
            assert forall|j: int| 0 <= j < r.len() implies #[trigger] comment_segment::<T>(
                src,
                f,
                j,
            ) by {
                assert(comment_segment::<T>(front, ff, j));
                assert(front[ff[j + 1] - 1] == src[ff[j + 1] - 1]);
                assert forall|x: int| f[j] <= x < f[j + 1] - 1 implies #[trigger] comment_at(
                    src,
                    x,
                ) by {
                    assert(comment_at(front, x));
                }
            }
            assert forall|x: int| f[r.len() as int] <= x < src.len() implies #[trigger] comment_at(
                src,
                x,
            ) by {
                if x < last {
                    assert(comment_at(front, x));
                }
            }
        }
    }
}

/// A head move of a stream is by no negative amount.
pub proof fn lemma_stream_moves_ok<T: BfOptimizable>(s: Seq<BfInstruc<T>>)
    ensures
        moves_ok(stream_ops(s)),
{
    assert forall|i: int| 0 <= i < stream_ops(s).len() implies move_ok(
        #[trigger] stream_ops(s)[i],
    ) by {
        assert(stream_ops(s)[i] == instr_op(s[i]));
    }
}

/// A program text refines its stream: the comments do nothing.
pub proof fn lemma_text_refines_stream<T: BfOptimizable>(src: Seq<u8>, md: int)
    ensures
        refines(
            source_ops(src),
            stream_ops(source_stream::<T>(src)),
            comment_bounds(src),
            md,
        ),
{
    let a = source_ops(src);
    let r = source_stream::<T>(src);
    let b = stream_ops(r);
    let f = comment_bounds(src);
    lemma_comment_bounds::<T>(src);
    lemma_stream_moves_ok(r);
    assert forall|j: int| 0 <= j < b.len() implies segment_ok(
        a,
        #[trigger] b[j],
        f[j],
        f[j + 1],
        md,
    ) by {
        lemma_comment_segment::<T>(src, j, md);
    }
    assert forall|j: int| 0 <= j < b.len() implies #[trigger] f[j] < f[j + 1] by {
        assert(comment_segment::<T>(src, f, j));
    }
    assert forall|i: int| f[b.len() as int] <= i < a.len() implies #[trigger] a[i]
        == AOp::Nop by {
        assert(comment_at(src, i));
    }
}

/// A segment of a program text stands for its instruction.
proof fn lemma_comment_segment<T: BfOptimizable>(src: Seq<u8>, j: int, md: int)
    requires
        0 <= j < source_stream::<T>(src).len(),
        comment_segment::<T>(src, comment_bounds(src), j),
    ensures
        segment_ok(
            source_ops(src),
            stream_ops(source_stream::<T>(src))[j],
            comment_bounds(src)[j],
            comment_bounds(src)[j + 1],
            md,
        ),
{
    let a = source_ops(src);
    let r = source_stream::<T>(src);
    let b = stream_ops(r);
    let f = comment_bounds(src);
    let lo = f[j];
    let hi = f[j + 1];
    assert(b[j] == instr_op(r[j]));
    assert(a[hi - 1] == byte_op(src[hi - 1]));
    assert forall|x: int| lo <= x < hi - 1 implies #[trigger] a[x] == AOp::Nop by {
        assert(comment_at(src, x));
    }
    if is_basic(b[j]) {
        lemma_nops_then_op(a, lo, hi, md);
    }
}

/// Each of the bounds moved on by `n`.
pub open spec fn shifted(f: Seq<int>, n: int) -> Seq<int> {
    Seq::new(f.len(), |i: int| f[i] + n)
}

/// How many instructions at the front of a stream fold into one.
pub open spec fn front_len<T: BfOptimizable>(s: Seq<BfInstruc<T>>) -> int {
    if s[0].spec_is_multi() && head_run(s) > 1 {
        head_run(s) as int
    } else {
        1
    }
}

/// Where the segments of a stream end that fold into one instruction
/// each: a segment is a run of equal cell or head instructions, or one
/// instruction.
pub open spec fn group_bounds<T: BfOptimizable>(s: Seq<BfInstruc<T>>) -> Seq<int>
    decreases s.len(),
{
    if s.len() == 0 {
        seq![0int]
    } else {
        proof {
            lemma_head_run_bounds(s);
        }
        seq![0int] + shifted(group_bounds(s.skip(front_len(s))), front_len(s))
    }
}

/// Whether the instruction at `x` is the one at `lo`.
pub open spec fn same_at<T: BfOptimizable>(s: Seq<BfInstruc<T>>, x: int, lo: int) -> bool {
    s[x] == s[lo]
}

/// Whether segment `j` of a stream is in order: its instructions are
/// equal, and instruction `j` of the grouped stream is their fold, or,
/// for a segment of one, that one.
pub open spec fn group_segment<T: BfOptimizable>(
    s: Seq<BfInstruc<T>>,
    f: Seq<int>,
    j: int,
) -> bool {
    let lo = f[j];
    let hi = f[j + 1];
    &&& 0 <= lo < hi <= s.len()
    &&& forall|x: int| lo <= x < hi ==> #[trigger] same_at(s, x, lo)
    &&& hi - lo > 1 ==> s[lo].spec_is_multi() && s[lo].spec_as_multi((hi - lo) as u32) == Some(
        grouped(s)[j],
    )
    &&& hi - lo == 1 ==> grouped(s)[j] == s[lo]
}

/// What the segments of a stream are: one for each instruction of the
/// grouped stream, and nothing behind the last.
pub open spec fn groups_cut<T: BfOptimizable>(s: Seq<BfInstruc<T>>, f: Seq<int>) -> bool {
    &&& f.len() == grouped(s).len() + 1
    &&& f[0] == 0
    &&& f[grouped(s).len() as int] == s.len()
    &&& forall|j: int| 0 <= j < grouped(s).len() ==> #[trigger] group_segment(s, f, j)
}

/// The instructions of a run at the front are equal.
pub proof fn lemma_head_run_same<T: BfOptimizable>(s: Seq<BfInstruc<T>>, x: int)
    requires
        0 <= x < head_run(s),
    ensures
        x < s.len(),
        s[x] == s[0],
    decreases s.len(),
{
    lemma_head_run_bounds(s);
    if x > 0 {
        lemma_head_run_same(s.skip(1), x - 1);
    }
}

/// The bounds of the runs cut a stream into such segments.
pub proof fn lemma_group_bounds<T: BfOptimizable>(s: Seq<BfInstruc<T>>)
    requires
        s.len() <= u32::MAX,
    ensures
        groups_cut(s, group_bounds(s)),
    decreases s.len(),
{
    if s.len() > 0 {
        lemma_head_run_bounds(s);
        let n = front_len(s);
        let tail = s.skip(n);
        lemma_group_bounds(tail);
        let ft = group_bounds(tail);
        let f = group_bounds(s);
        let g = grouped(s);
        let gt = grouped(tail);
        assert(f == seq![0int] + shifted(ft, n));
        if n > 1 {
            assert(g == seq![s[0].spec_as_multi(n as u32).unwrap()] + gt);
        } else {
            assert(s.skip(1) == tail);
            if s[0].spec_is_multi() && head_run(s) > 1 {
            } else {
                assert(g == seq![s[0]] + gt);
            }
        }
        assert(g.len() == gt.len() + 1);
        assert(f[0] == 0);
        assert forall|j: int| 0 <= j <= gt.len() implies f[j + 1] == #[trigger] ft[j] + n by {}
        assert forall|j: int| 0 <= j < g.len() implies #[trigger] group_segment(s, f, j) by {
            if j == 0 {
                assert(f[1] == ft[0] + n);
                assert(ft[0] == 0);
                assert(g[0] == (seq![g[0]] + gt)[0]);
                assert forall|x: int| 0 <= x < n implies #[trigger] same_at(s, x, 0) by {
                    if n > 1 {
                        lemma_head_run_same(s, x);
                    }
                }
            } else {
                assert(group_segment(tail, ft, j - 1));
                assert(f[j] == ft[j - 1] + n);
                assert(f[j + 1] == ft[j] + n);
                let lo = ft[j - 1];
                let hi = ft[j];
                assert(g[j] == gt[j - 1]);
                assert(tail[lo] == s[lo + n]);
                assert forall|x: int| lo + n <= x < hi + n implies #[trigger] same_at(
                    s,
                    x,
                    lo + n,
                ) by {
                    assert(same_at(tail, x - n, lo));
                    assert(tail[x - n] == s[x]);
                }
            }
        }
    } else {
        assert(grouped(s) =~= Seq::<BfInstruc<T>>::empty());
    }
}

/// A segment of a stream stands for its instruction of the grouped
/// stream.
proof fn lemma_group_segment<T: BfOptimizable>(s: Seq<BfInstruc<T>>, j: int, md: int)
    requires
        0 <= j < grouped(s).len(),
        group_segment(s, group_bounds(s), j),
        md == T::modulus(),
        s.len() <= u32::MAX,
    ensures
        segment_ok(
            stream_ops(s),
            stream_ops(grouped(s))[j],
            group_bounds(s)[j],
            group_bounds(s)[j + 1],
            md,
        ),
{
    let a = stream_ops(s);
    let g = grouped(s);
    let b = stream_ops(g);
    let f = group_bounds(s);
    let lo = f[j];
    let hi = f[j + 1];
    let n = (hi - lo) as nat;
    T::lemma_modulus();
    assert(b[j] == instr_op(g[j]));
    assert forall|x: int| lo <= x < hi implies #[trigger] a[x] == instr_op(s[lo]) by {
        assert(same_at(s, x, lo));
    }
    if hi - lo == 1 {
        assert(a[hi - 1] == b[j]);
        if is_basic(b[j]) {
            lemma_nops_then_op(a, lo, hi, md);
        }
    } else {
        let u = instr_op(s[lo]);
        let op = b[j];
        T::lemma_of(n as int);
        assert forall|m: Machine| #[trigger] sound(m, md) implies repeated(u, m, n).fault
            == basic_effect(op, m).fault && repeated(u, m, n).machine.output == basic_effect(
            op,
            m,
        ).machine.output && (basic_effect(op, m).fault is None ==> repeated(u, m, n).machine
            == basic_effect(op, m).machine) by {
            let h = m.head();
            match s[lo] {
                BfInstruc::Inc => {
                    lemma_repeated_add(m, n);
                    vstd::arithmetic::div_mod::lemma_add_mod_noop_right(h, n as int, md);
                },
                BfInstruc::Dec => {
                    lemma_repeated_sub(m, n);
                    vstd::arithmetic::div_mod::lemma_sub_mod_noop_right(h, n as int, md);
                },
                BfInstruc::IncPtr => {
                    lemma_repeated_right(m, n);
                },
                BfInstruc::DecPtr => {
                    lemma_repeated_left(m, n);
                },
                _ => {},
            }
        }
        lemma_repeat_implements(a, lo, hi, u, op, md);
    }
}

/// A stream refines its grouped stream: a folded run does what its
/// instructions do one after the other.
pub proof fn lemma_stream_refines_grouped<T: BfOptimizable>(s: Seq<BfInstruc<T>>, md: int)
    requires
        md == T::modulus(),
        s.len() <= u32::MAX,
    ensures
        refines(stream_ops(s), stream_ops(grouped(s)), group_bounds(s), md),
        grouped(s).len() <= s.len(),
{
    let a = stream_ops(s);
    let g = grouped(s);
    let b = stream_ops(g);
    let f = group_bounds(s);
    lemma_group_bounds(s);
    lemma_stream_moves_ok(g);
    assert forall|j: int| 0 <= j < b.len() implies segment_ok(
        a,
        #[trigger] b[j],
        f[j],
        f[j + 1],
        md,
    ) by {
        lemma_group_segment(s, j, md);
    }
    assert forall|j: int| 0 <= j < b.len() implies #[trigger] f[j] < f[j + 1] by {
        assert(group_segment(s, f, j));
    }
    lemma_cut_is_shorter(f, g.len() as int);
}

/// Bounds that rise from zero by at least one each end no lower than
/// their number.
pub proof fn lemma_cut_is_shorter(f: Seq<int>, n: int)
    requires
        0 <= n < f.len(),
        f[0] == 0,
        forall|j: int| 0 <= j < f.len() - 1 ==> #[trigger] f[j] < f[j + 1],
    ensures
        n <= f[n],
    decreases n,
{
    if n > 0 {
        lemma_cut_is_shorter(f, n - 1);
        assert(f[n - 1] < f[n - 1 + 1]);
    }
}

/// How many instructions at the front of a stream become one when
/// clearing loops are replaced.
pub open spec fn clear_len<T: BfOptimizable>(s: Seq<BfInstruc<T>>) -> int {
    if clears_at(s, 0) {
        3
    } else {
        1
    }
}

/// Where the segments of a stream end that become one instruction each
/// when clearing loops are replaced: a segment is a clearing loop, or one
/// instruction.
pub open spec fn clear_bounds<T: BfOptimizable>(s: Seq<BfInstruc<T>>) -> Seq<int>
    decreases s.len(),
{
    if s.len() == 0 {
        seq![0int]
    } else {
        seq![0int] + shifted(clear_bounds(s.skip(clear_len(s))), clear_len(s))
    }
}

/// Whether segment `j` of a stream is in order: it is a clearing loop
/// and instruction `j` of the folded stream is `Zero`, or it is that
/// instruction itself.
pub open spec fn clear_segment<T: BfOptimizable>(
    s: Seq<BfInstruc<T>>,
    f: Seq<int>,
    j: int,
) -> bool {
    let lo = f[j];
    let hi = f[j + 1];
    &&& 0 <= lo < hi <= s.len()
    &&& hi - lo == 3 || hi - lo == 1
    &&& hi - lo == 3 ==> s[lo] is LStart && (s[lo + 1] is Dec || s[lo + 1] is Inc) && s[lo
        + 2] is LEnd && zero_folded(s)[j] is Zero
    &&& hi - lo == 1 ==> zero_folded(s)[j] == s[lo]
}

/// What the segments of a stream are: one for each instruction of the
/// folded stream, and nothing behind the last.
pub open spec fn clears_cut<T: BfOptimizable>(s: Seq<BfInstruc<T>>, f: Seq<int>) -> bool {
    &&& f.len() == zero_folded(s).len() + 1
    &&& f[0] == 0
    &&& f[zero_folded(s).len() as int] == s.len()
    &&& forall|j: int| 0 <= j < zero_folded(s).len() ==> #[trigger] clear_segment(s, f, j)
}

/// The bounds of the clearing loops cut a stream into such segments.
pub proof fn lemma_clear_bounds<T: BfOptimizable>(s: Seq<BfInstruc<T>>)
    ensures
        clears_cut(s, clear_bounds(s)),
    decreases s.len(),
{
    if s.len() > 0 {
        let n = clear_len(s);
        let tail = s.skip(n);
        lemma_clear_bounds(tail);
        let ft = clear_bounds(tail);
        let f = clear_bounds(s);
        let z = zero_folded(s);
        let zt = zero_folded(tail);
        assert(f == seq![0int] + shifted(ft, n));
        assert(z.len() == zt.len() + 1);
        assert forall|j: int| 0 <= j <= zt.len() implies f[j + 1] == #[trigger] ft[j] + n by {}
        assert forall|j: int| 0 <= j < z.len() implies #[trigger] clear_segment(s, f, j) by {
            if j == 0 {
                assert(f[1] == ft[0] + n);
            } else {
                assert(clear_segment(tail, ft, j - 1));
                assert(f[j] == ft[j - 1] + n);
                assert(f[j + 1] == ft[j] + n);
                let lo = ft[j - 1];
                assert(z[j] == zt[j - 1]);
                assert(tail[lo] == s[lo + n]);
                if ft[j] - lo == 3 {
                    assert(tail[lo + 1] == s[lo + 1 + n]);
                    assert(tail[lo + 2] == s[lo + 2 + n]);
                }
            }
        }
    } else {
        assert(zero_folded(s) =~= Seq::<BfInstruc<T>>::empty());
    }
}

/// A segment of a stream stands for its instruction of the folded
/// stream.
proof fn lemma_clear_segment<T: BfOptimizable>(s: Seq<BfInstruc<T>>, j: int, md: int)
    requires
        0 <= j < zero_folded(s).len(),
        clear_segment(s, clear_bounds(s), j),
    ensures
        segment_ok(
            stream_ops(s),
            stream_ops(zero_folded(s))[j],
            clear_bounds(s)[j],
            clear_bounds(s)[j + 1],
            md,
        ),
{
    let a = stream_ops(s);
    let z = zero_folded(s);
    let b = stream_ops(z);
    let f = clear_bounds(s);
    let lo = f[j];
    let hi = f[j + 1];
    assert(b[j] == instr_op(z[j]));
    assert(a[lo] == instr_op(s[lo]));
    if hi - lo == 1 {
        assert(a[hi - 1] == b[j]);
        if is_basic(b[j]) {
            lemma_nops_then_op(a, lo, hi, md);
        }
    } else {
        assert(a[lo + 1] == instr_op(s[lo + 1]));
        assert(a[lo + 2] == instr_op(s[lo + 2]));
        lemma_clearing_implements(a, lo, md);
    }
}

/// A stream refines its folded stream: `Zero` does what a clearing loop
/// does.
pub proof fn lemma_stream_refines_folded<T: BfOptimizable>(s: Seq<BfInstruc<T>>, md: int)
    ensures
        refines(stream_ops(s), stream_ops(zero_folded(s)), clear_bounds(s), md),
        zero_folded(s).len() <= s.len(),
{
    let a = stream_ops(s);
    let z = zero_folded(s);
    let b = stream_ops(z);
    let f = clear_bounds(s);
    lemma_clear_bounds(s);
    lemma_stream_moves_ok(z);
    assert forall|j: int| 0 <= j < b.len() implies segment_ok(
        a,
        #[trigger] b[j],
        f[j],
        f[j + 1],
        md,
    ) by {
        lemma_clear_segment(s, j, md);
    }
    assert forall|j: int| 0 <= j < b.len() implies #[trigger] f[j] < f[j + 1] by {
        assert(clear_segment(s, f, j));
    }
    lemma_cut_is_shorter(f, z.len() as int);
}

/// The interpreters agree. Let a program text that holds no more
/// instructions than a stream may hold compile to a direct stream. Then
/// on every machine the direct interpreter on the text and
/// the interpreter of the stream either both run for ever or both come
/// to an end; and when they end, they end with the same error or with
/// none, they have written the same bytes in the same order, and without
/// an error they leave the same machine behind.
pub proof fn lemma_interpreters_agree<T: BfOptimizable>(
    text: Seq<u8>,
    stream: Seq<BfInstruc<T>>,
    m: Machine,
)
    requires
        source_stream::<T>(text).len() <= STREAM_LIMIT,
        balanced(stream_brackets(BfInstructionStream::<T>::folded(text))),
        linked(BfInstructionStream::<T>::folded(text), stream),
        m.wf(),
        m.modulus == T::modulus(),
    ensures
        halts(stream, Run::at(m, 0)) <==> dhalts(text, DRun::at(m, 0)),
        halts(stream, Run::at(m, 0)) ==> same_end(
            doutcome(text, DRun::at(m, 0)),
            as_drun(outcome(stream, Run::at(m, 0))),
        ),
{
    let md = T::modulus();
    T::lemma_modulus();
    let raw = source_stream::<T>(text);
    let g = grouped(raw);
    let z = zero_folded(g);
    let a0 = source_ops(text);
    let a1 = stream_ops(raw);
    let a2 = stream_ops(g);
    let a3 = stream_ops(z);
    let start = DRun::at(m, 0);
    // the three refinements
    lemma_text_refines_stream::<T>(text, md);
    lemma_comment_bounds::<T>(text);
    lemma_cut_of_text::<T>(text);
    lemma_stream_refines_grouped(raw, md);
    lemma_stream_refines_folded(g, md);
    lemma_refinement(a0, a1, comment_bounds(text), md, m);
    lemma_refinement(a1, a2, group_bounds(raw), md, m);
    lemma_refinement(a2, a3, clear_bounds(g), md, m);
    // the direct interpreter runs the text
    assert(dhalts(text, start) <==> ahalts(a0, start)) by {
        if dhalts(text, start) {
            let n = choose|n: nat| dfinished(text, #[trigger] dsteps(text, start, n));
            lemma_direct_is_abstract(text, start, n);
            assert(afinished(a0, asteps(a0, start, n)));
        }
        if ahalts(a0, start) {
            let n = choose|n: nat| afinished(a0, #[trigger] asteps(a0, start, n));
            lemma_direct_is_abstract(text, start, n);
            assert(dfinished(text, dsteps(text, start, n)));
        }
    }
    // the interpreter of the stream runs the folded stream
    let first = Run::at(m, 0);
    assert(as_drun(first) == start);
    assert(halts(stream, first) <==> ahalts(a3, start)) by {
        if halts(stream, first) {
            let n = choose|n: nat| finished(stream, #[trigger] steps(stream, first, n));
            lemma_stream_is_abstract(z, stream, first, n);
            assert(afinished(a3, asteps(a3, start, n)));
        }
        if ahalts(a3, start) {
            let n = choose|n: nat| afinished(a3, #[trigger] asteps(a3, start, n));
            lemma_stream_is_abstract(z, stream, first, n);
            assert(finished(stream, steps(stream, first, n)));
        }
    }
    if halts(stream, first) {
        let n = choose|n: nat| finished(stream, #[trigger] steps(stream, first, n));
        lemma_stream_is_abstract(z, stream, first, n);
        crate::interpreter::lemma_outcome(stream, first, n);
        lemma_aoutcome(a3, start, n);
        let k = choose|k: nat| dfinished(text, #[trigger] dsteps(text, start, k));
        lemma_direct_is_abstract(text, start, k);
        crate::direct::lemma_doutcome(text, start, k);
        lemma_aoutcome(a0, start, k);
    }
}

/// A text holds no more instructions than bytes.
pub proof fn lemma_cut_of_text<T: BfOptimizable>(text: Seq<u8>)
    requires
        comments_cut::<T>(text, comment_bounds(text)),
    ensures
        source_stream::<T>(text).len() <= text.len(),
{
    let f = comment_bounds(text);
    let r = source_stream::<T>(text);
    assert forall|j: int| 0 <= j < f.len() - 1 implies #[trigger] f[j] < f[j + 1] by {
        assert(comment_segment::<T>(text, f, j));
    }
    lemma_cut_is_shorter(f, r.len() as int);
}

} // verus!
