//! Tokens and plain loop trees as programs of the abstract machine: a
//! plain tree does what its tokens do, and the tokens of a program text
//! do what the text does.

use crate::agree::{byte_op, shifted, source_ops};
use crate::agree_bytecode::{comment_free, lemma_byte_run_skip};
use crate::brackets::{close_of, open_of, scan_close, scan_open, Bracket};
use crate::compiler::{CLOSE, COMMA, DOT, MINUS, OPEN, PLUS, RIGHT};
use crate::direct::DRun;
use crate::ir::{flatten, plain, run_token, tokens, Node, Token};
use crate::machine::{
    aeffect, akinds, astep, asteps, basic_effect, is_basic, lemma_asteps_add, lemma_asteps_one,
    move_ok, sound, AOp,
};
use crate::simulate::{
    lemma_clearing_implements, lemma_nops_then_op, lemma_plain_is_neutral,
    lemma_repeat_implements, lemma_repeated_add, lemma_repeated_left, lemma_repeated_right,
    lemma_repeated_sub, neutral, refines, repeated, segment_ok,
};
use crate::source::{byte_run, clearing_loop, is_program, is_run_byte, lemma_byte_run_bounds};
use crate::state::Machine;
use crate::tree_sem::{rounds, tnode, tseq, TOut, TState};
use vstd::prelude::*;

verus! {

/// The abstract instruction a token stands for, on cells with the modulus
/// `md`.
pub open spec fn tok_op(t: Token, md: int) -> AOp {
    match t {
        Token::Zero => AOp::Zero,
        Token::Inc(by) => AOp::Add(by as int % md),
        Token::Dec(by) => AOp::Sub(by as int % md),
        Token::IncPtr(by) => AOp::Right(by as int),
        Token::DecPtr(by) => AOp::Left(by as int),
        Token::Read => AOp::Read,
        Token::Write => AOp::Write,
        Token::LStart => AOp::Open,
        Token::LEnd => AOp::Close,
    }
}

/// A token sequence as a program of the abstract machine.
pub open spec fn token_ops(ts: Seq<Token>, md: int) -> Seq<AOp> {
    Seq::new(ts.len(), |i: int| tok_op(ts[i], md))
}

/// The instruction `i` places behind `base`.
pub open spec fn op_at(a: Seq<AOp>, base: int, i: int) -> AOp {
    a[base + i]
}

/// Whether the program `a` holds, from `base` on, the instructions of the
/// tokens of the tree `s`.
pub open spec fn flat_at(a: Seq<AOp>, base: int, s: Seq<Node>, md: int) -> bool {
    &&& 0 <= base
    &&& base + flatten(s).len() <= a.len()
    &&& forall|i: int|
        0 <= i < flatten(s).len() ==> #[trigger] op_at(a, base, i) == tok_op(flatten(s)[i], md)
}

/// The tokens of a node.
pub open spec fn node_tokens(n: Node) -> Seq<Token> {
    flatten(seq![n])
}

/// The tokens of a sequence are the tokens of its front and of its last
/// node.
pub proof fn lemma_flatten_last(s: Seq<Node>)
    requires
        s.len() > 0,
    ensures
        flatten(s) == flatten(s.drop_last()) + node_tokens(s.last()),
        plain(s) ==> plain(s.drop_last()) && plain(seq![s.last()]),
{
    let one = seq![s.last()];
    assert(one.drop_last() =~= Seq::<Node>::empty());
    assert(one.last() == s.last());
    assert(flatten(one.drop_last()) =~= Seq::<Token>::empty());
    assert(plain(one.drop_last()));
    assert(flatten(one) =~= flatten(s).skip(flatten(s.drop_last()).len() as int));
    assert(flatten(s) =~= flatten(s.drop_last()) + flatten(one));
}

/// What holds the tokens of a sequence holds those of its front and,
/// behind them, those of its last node.
pub proof fn lemma_flat_at_split(a: Seq<AOp>, base: int, s: Seq<Node>, md: int)
    requires
        s.len() > 0,
        flat_at(a, base, s, md),
    ensures
        flat_at(a, base, s.drop_last(), md),
        flat_at(a, base + flatten(s.drop_last()).len(), seq![s.last()], md),
{
    lemma_flatten_last(s);
    let front = flatten(s.drop_last());
    let one = node_tokens(s.last());
    assert forall|i: int| 0 <= i < front.len() implies #[trigger] op_at(a, base, i) == tok_op(
        front[i],
        md,
    ) by {
        assert(flatten(s)[i] == front[i]);
    }
    assert forall|i: int| 0 <= i < one.len() implies #[trigger] op_at(
        a,
        base + front.len(),
        i,
    ) == tok_op(one[i], md) by {
        assert(op_at(a, base, front.len() + i) == tok_op(flatten(s)[front.len() + i], md));
        assert(flatten(s)[front.len() + i] == one[i]);
    }
}

/// What holds the tokens of a loop holds a loop start, the tokens of the
/// body, and a loop end.
pub proof fn lemma_flat_at_loop(a: Seq<AOp>, base: int, body: Seq<Node>, md: int)
    requires
        flat_at(a, base, seq![Node::Loop(body)], md),
    ensures
        node_tokens(Node::Loop(body)).len() == flatten(body).len() + 2,
        a[base] == AOp::Open,
        a[base + 1 + flatten(body).len()] == AOp::Close,
        flat_at(a, base + 1, body, md),
{
    let one = seq![Node::Loop(body)];
    assert(one.drop_last() =~= Seq::<Node>::empty());
    assert(one.last() == Node::Loop(body));
    assert(flatten(one.drop_last()) =~= Seq::<Token>::empty());
    let inner = flatten(body);
    let toks = flatten(one);
    assert(toks =~= seq![Token::LStart] + inner + seq![Token::LEnd]);
    assert(op_at(a, base, 0) == tok_op(toks[0], md));
    let last = 1 + inner.len() as int;
    assert(op_at(a, base, last) == tok_op(toks[last], md));
    assert forall|i: int| 0 <= i < inner.len() implies #[trigger] op_at(a, base + 1, i) == tok_op(
        inner[i],
        md,
    ) by {
        assert(op_at(a, base, 1 + i) == tok_op(toks[1 + i], md));
        assert(toks[1 + i] == inner[i]);
    }
}

/// Two neutral segments, one behind the other, are one.
pub proof fn lemma_neutral_join(a: Seq<AOp>, lo: int, mid: int, hi: int)
    requires
        neutral(a, lo, mid),
        neutral(a, mid, hi),
    ensures
        neutral(a, lo, hi),
{
    let k = akinds(a);
    assert forall|d: int| d >= 1 implies #[trigger] scan_close(k, lo, d) == scan_close(
        k,
        hi,
        d,
    ) by {
        assert(scan_close(k, lo, d) == scan_close(k, mid, d));
        assert(scan_close(k, mid, d) == scan_close(k, hi, d));
    }
    assert forall|d: int| d >= 1 implies #[trigger] scan_open(k, hi - 1, d) == scan_open(
        k,
        lo - 1,
        d,
    ) by {
        assert(scan_open(k, hi - 1, d) == scan_open(k, mid - 1, d));
        assert(scan_open(k, mid - 1, d) == scan_open(k, lo - 1, d));
    }
}

/// The tokens of a plain tree are a neutral segment: every loop start in
/// them has its loop end in them.
pub proof fn lemma_flat_neutral(a: Seq<AOp>, base: int, s: Seq<Node>, md: int)
    requires
        plain(s),
        flat_at(a, base, s, md),
    ensures
        neutral(a, base, base + flatten(s).len()),
    decreases s, 1int,
{
    if s.len() == 0 {
        assert(flatten(s) =~= Seq::<Token>::empty());
        lemma_plain_is_neutral(a, base, base);
    } else {
        lemma_flatten_last(s);
        lemma_flat_at_split(a, base, s, md);
        let mid = base + flatten(s.drop_last()).len();
        lemma_flat_neutral(a, base, s.drop_last(), md);
        lemma_flat_node_neutral(a, mid, s.last(), md);
        lemma_neutral_join(a, base, mid, base + flatten(s).len());
    }
}

/// The tokens of a plain node are a neutral segment.
pub proof fn lemma_flat_node_neutral(a: Seq<AOp>, base: int, n: Node, md: int)
    requires
        plain(seq![n]),
        flat_at(a, base, seq![n], md),
    ensures
        neutral(a, base, base + node_tokens(n).len()),
    decreases n, 0int,
{
    let one = seq![n];
    assert(one.drop_last() =~= Seq::<Node>::empty());
    assert(one.last() == n);
    assert(flatten(one.drop_last()) =~= Seq::<Token>::empty());
    let k = akinds(a);
    match n {
        Node::Loop(body) => {
            lemma_flat_at_loop(a, base, body, md);
            lemma_flat_neutral(a, base + 1, body, md);
            let e = base + 1 + flatten(body).len();
            assert(k[base] == Bracket::Open);
            assert(k[e] == Bracket::Close);
            assert forall|d: int| d >= 1 implies #[trigger] scan_close(k, base, d) == scan_close(
                k,
                e + 1,
                d,
            ) by {
                assert(scan_close(k, base, d) == scan_close(k, base + 1, d + 1));
                assert(scan_close(k, base + 1, d + 1) == scan_close(k, e, d + 1));
                assert(scan_close(k, e, d + 1) == scan_close(k, e + 1, d));
            }
            assert forall|d: int| d >= 1 implies #[trigger] scan_open(k, e + 1 - 1, d)
                == scan_open(k, base - 1, d) by {
                assert(scan_open(k, e, d) == scan_open(k, e - 1, d + 1));
                assert(scan_open(k, e - 1, d + 1) == scan_open(k, base, d + 1));
                assert(scan_open(k, base, d + 1) == scan_open(k, base - 1, d));
            }
        },
        _ => {
            assert(flatten(one).len() == 1);
            assert(op_at(a, base, 0) == tok_op(flatten(one)[0], md));
            assert(is_basic(a[base]));
            lemma_plain_is_neutral(a, base, base + 1);
        },
    }
}

/// Whether nothing is gathered and no write loop is gathering.
pub open spec fn quiet(st: TState) -> bool {
    st.pending.len() == 0 && !st.batching
}

/// Whether the run `r` of a program of `len` instructions has come to
/// what a tree came to: behind the tokens of the tree, at `end`, on the
/// machine the tree ended on; to the error the tree stopped with, on the
/// machine it stopped on; or, when the fuel of the tree ran out, at
/// least as far as `spent` says, which is no less than the fuel, without
/// an end.
pub open spec fn run_matches(
    r: DRun,
    out: TOut,
    end: int,
    md: int,
    len: int,
    fuel: nat,
    spent: nat,
) -> bool {
    match out {
        TOut::Done(after) => r == DRun::at(after.machine, end) && quiet(after)
            && after.machine.modulus == md,
        TOut::Fault(e, after, _) => r.fault == Some(
            either::Either::<crate::error::BfExecErrorTy, crate::error::BfCompError>::Left(e),
        ) && r.machine == after.machine,
        TOut::Timeout => spent >= fuel && r.fault is None && 0 <= r.idx < len,
    }
}

/// The tokens of a plain tree do what the tree does. When a plain tree
/// comes to an end or to an error, the run of its tokens comes from
/// their start to behind them, on the machine the tree ends on, or to
/// the same error; and as long as the tree goes on, so do its tokens.
pub proof fn lemma_flat_run(
    a: Seq<AOp>,
    base: int,
    s: Seq<Node>,
    st: TState,
    fuel: nat,
    md: int,
) -> (n: nat)
    requires
        plain(s),
        flat_at(a, base, s, md),
        quiet(st),
        st.machine.modulus == md,
    ensures
        run_matches(
            asteps(a, DRun::at(st.machine, base), n),
            tseq(s, st, fuel),
            base + flatten(s).len(),
            md,
            a.len() as int,
            fuel,
            n,
        ),
    decreases fuel, s, 2int,
{
    if s.len() == 0 {
        assert(flatten(s) =~= Seq::<Token>::empty());
        0
    } else {
        lemma_flatten_last(s);
        lemma_flat_at_split(a, base, s, md);
        let mid_at = base + flatten(s.drop_last()).len();
        match tseq(s.drop_last(), st, fuel) {
            TOut::Done(mid) => {
                let n1 = lemma_flat_run(a, base, s.drop_last(), st, fuel, md);
                let n2 = lemma_flat_node_run(a, mid_at, s.last(), mid, fuel, md);
                lemma_asteps_add(a, DRun::at(st.machine, base), n1, n2);
                (n1 + n2) as nat
            },
            _ => lemma_flat_run(a, base, s.drop_last(), st, fuel, md),
        }
    }
}

/// The tokens of a plain node do what the node does.
pub proof fn lemma_flat_node_run(
    a: Seq<AOp>,
    base: int,
    n: Node,
    st: TState,
    fuel: nat,
    md: int,
) -> (k: nat)
    requires
        plain(seq![n]),
        flat_at(a, base, seq![n], md),
        quiet(st),
        st.machine.modulus == md,
    ensures
        run_matches(
            asteps(a, DRun::at(st.machine, base), k),
            tnode(n, st, fuel),
            base + node_tokens(n).len(),
            md,
            a.len() as int,
            fuel,
            k,
        ),
    decreases fuel, n, 0int,
{
    let one = seq![n];
    assert(one.drop_last() =~= Seq::<Node>::empty());
    assert(one.last() == n);
    assert(flatten(one.drop_last()) =~= Seq::<Token>::empty());
    let start = DRun::at(st.machine, base);
    let m = st.machine;
    match n {
        Node::Loop(body) => {
            lemma_flat_at_loop(a, base, body, md);
            let e = base + 1 + flatten(body).len();
            lemma_loop_partners(a, base, body, md);
            let stepped = astep(a, start);
            lemma_asteps_one(a, start);
            assert(stepped == aeffect(a, m, base));
            if m.head() == 0 {
                1
            } else {
                let n2 = lemma_flat_rounds(a, base, body, st, fuel, md);
                lemma_asteps_add(a, start, 1, n2);
                (1 + n2) as nat
            }
        },
        _ => {
            assert(flatten(one).len() == 1);
            assert(op_at(a, base, 0) == tok_op(flatten(one)[0], md));
            let stepped = astep(a, start);
            lemma_asteps_one(a, start);
            assert(stepped == aeffect(a, m, base));
            1
        },
    }
}

/// In the tokens of a plain loop, the loop start and the loop end are
/// partners.
pub proof fn lemma_loop_partners(a: Seq<AOp>, base: int, body: Seq<Node>, md: int)
    requires
        plain(seq![Node::Loop(body)]),
        flat_at(a, base, seq![Node::Loop(body)], md),
    ensures
        close_of(akinds(a), base) == base + 1 + flatten(body).len(),
        open_of(akinds(a), base + 1 + flatten(body).len()) == base,
        plain(body),
{
    let one = seq![Node::Loop(body)];
    assert(one.drop_last() =~= Seq::<Node>::empty());
    assert(one.last() == Node::Loop(body));
    lemma_flat_at_loop(a, base, body, md);
    lemma_flat_neutral(a, base + 1, body, md);
    let k = akinds(a);
    let e = base + 1 + flatten(body).len();
    assert(k[base] == Bracket::Open);
    assert(k[e] == Bracket::Close);
    assert(scan_close(k, base, 0) == scan_close(k, base + 1, 1));
    assert(scan_close(k, base + 1, 1) == scan_close(k, e, 1));
    assert(scan_open(k, e, 0) == scan_open(k, e - 1, 1));
    assert(scan_open(k, e - 1, 1) == scan_open(k, base, 1));
}

/// The tokens of a plain loop do what the rounds of the loop do.
pub proof fn lemma_flat_rounds(
    a: Seq<AOp>,
    base: int,
    body: Seq<Node>,
    st: TState,
    fuel: nat,
    md: int,
) -> (n: nat)
    requires
        plain(seq![Node::Loop(body)]),
        flat_at(a, base, seq![Node::Loop(body)], md),
        quiet(st),
        st.machine.modulus == md,
    ensures
        run_matches(
            asteps(a, DRun::at(st.machine, base + 1), n),
            rounds(body, st, fuel, false),
            base + 2 + flatten(body).len(),
            md,
            a.len() as int,
            fuel,
            n + 1,
        ),
    decreases fuel, body, 1int,
{
    lemma_flat_at_loop(a, base, body, md);
    lemma_loop_partners(a, base, body, md);
    let e = base + 1 + flatten(body).len();
    let start = DRun::at(st.machine, base + 1);
    if fuel == 0 {
        return 0;
    }
    match tseq(body, st, (fuel - 1) as nat) {
        TOut::Done(after) => {
            let n1 = lemma_flat_run(a, base + 1, body, st, (fuel - 1) as nat, md);
            let at_end = DRun::at(after.machine, e);
            let stepped = astep(a, at_end);
            lemma_asteps_one(a, at_end);
            lemma_asteps_add(a, start, n1, 1);
            assert(stepped == aeffect(a, after.machine, e));
            if after.machine.head() != 0 {
                let n2 = lemma_flat_rounds(a, base, body, after, (fuel - 1) as nat, md);
                lemma_asteps_add(a, start, n1 + 1, n2);
                (n1 + 1 + n2) as nat
            } else {
                (n1 + 1) as nat
            }
        },
        _ => lemma_flat_run(a, base + 1, body, st, (fuel - 1) as nat, md),
    }
}

/// How many bytes at the front of a comment-free text become its first
/// token: a clearing loop, a whole run, or one byte.
pub open spec fn first_tok_len(p: Seq<u8>) -> int {
    if p[0] == OPEN && clearing_loop(p) {
        3
    } else if is_run_byte(p[0]) {
        byte_run(p) as int
    } else {
        1
    }
}

/// The first token of a comment-free text.
pub open spec fn first_token(p: Seq<u8>) -> Token {
    if p[0] == DOT {
        Token::Write
    } else if p[0] == COMMA {
        Token::Read
    } else if p[0] == OPEN {
        if clearing_loop(p) {
            Token::Zero
        } else {
            Token::LStart
        }
    } else if p[0] == CLOSE {
        Token::LEnd
    } else {
        run_token(p[0], byte_run(p))
    }
}

/// Whether the front of a text can be taken off as one token.
pub open spec fn has_token(p: Seq<u8>) -> bool {
    p.len() > 0 && comment_free(p) && 1 <= first_tok_len(p) <= p.len()
}

/// Where in the text the segments end that become one token each.
pub open spec fn token_bounds(p: Seq<u8>) -> Seq<int>
    decreases p.len(),
{
    if !has_token(p) {
        seq![0int]
    } else {
        seq![0int] + shifted(token_bounds(p.skip(first_tok_len(p))), first_tok_len(p))
    }
}

/// The tokens of a text are its first token and the tokens of the rest.
pub proof fn lemma_tokens_front(p: Seq<u8>)
    requires
        p.len() > 0,
        comment_free(p),
    ensures
        has_token(p),
        tokens(p) == seq![first_token(p)] + tokens(p.skip(first_tok_len(p))),
        comment_free(p.skip(first_tok_len(p))),
{
    lemma_byte_run_bounds(p);
    assert(is_program(p[0]));
    let rest = p.skip(first_tok_len(p));
    assert forall|i: int| 0 <= i < rest.len() implies is_program(#[trigger] rest[i]) by {
        assert(rest[i] == p[i + first_tok_len(p)]);
    }
}

/// Whether token `j` is in order: the text from the bound `f[j]` on has
/// it as its first token, which ends at the bound `f[j + 1]`.
pub open spec fn token_cut(p: Seq<u8>, f: Seq<int>, j: int) -> bool {
    let q = p.skip(f[j]);
    &&& 0 <= f[j] < f[j + 1] <= p.len()
    &&& has_token(q)
    &&& f[j + 1] == f[j] + first_tok_len(q)
    &&& tokens(p)[j] == first_token(q)
}

/// Whether the text is cut into tokens: one segment for each, and
/// nothing behind the last.
pub open spec fn tokens_cut(p: Seq<u8>) -> bool {
    let f = token_bounds(p);
    &&& f.len() == tokens(p).len() + 1
    &&& f[0] == 0
    &&& f[tokens(p).len() as int] == p.len()
    &&& forall|j: int| 0 <= j < tokens(p).len() ==> #[trigger] token_cut(p, f, j)
}

/// A comment-free text is cut into its tokens.
pub proof fn lemma_token_cuts(p: Seq<u8>)
    requires
        comment_free(p),
    ensures
        tokens_cut(p),
    decreases p.len(),
{
    let f = token_bounds(p);
    let t = tokens(p);
    if p.len() > 0 {
        lemma_tokens_front(p);
        let n = first_tok_len(p);
        let tail = p.skip(n);
        lemma_token_cuts(tail);
        let ft = token_bounds(tail);
        let tt = tokens(tail);
        assert(t == seq![first_token(p)] + tt);
        assert(f == seq![0int] + shifted(ft, n));
        assert forall|j: int| 0 <= j <= tt.len() implies f[j + 1] == #[trigger] ft[j] + n by {}
        assert forall|j: int| 0 <= j < t.len() implies #[trigger] token_cut(p, f, j) by {
            if j == 0 {
                assert(f[1] == ft[0] + n);
                assert(p.skip(0) =~= p);
            } else {
                assert(token_cut(tail, ft, j - 1));
                assert(f[j] == ft[j - 1] + n);
                assert(f[j + 1] == ft[j] + n);
                assert(tail.skip(ft[j - 1]) =~= p.skip(f[j]));
                assert(t[j] == tt[j - 1]);
            }
        }
    } else {
        assert(tokens(p) =~= Seq::<Token>::empty());
    }
}

/// A segment of a comment-free text stands for its token.
proof fn lemma_token_segment(p: Seq<u8>, j: int, md: int)
    requires
        0 <= j < tokens(p).len(),
        token_cut(p, token_bounds(p), j),
        p.len() <= u32::MAX,
        md == 0x100 || md == 0x1_0000 || md == 0x1_0000_0000,
    ensures
        segment_ok(
            source_ops(p),
            token_ops(tokens(p), md)[j],
            token_bounds(p)[j],
            token_bounds(p)[j + 1],
            md,
        ),
        move_ok(token_ops(tokens(p), md)[j]),
{
    let a = source_ops(p);
    let f = token_bounds(p);
    let lo = f[j];
    let hi = f[j + 1];
    let q = p.skip(lo);
    let op = token_ops(tokens(p), md)[j];
    let n = first_tok_len(q);
    assert(op == tok_op(first_token(q), md));
    assert(is_program(q[0]));
    assert(q[0] == p[lo]);
    assert(a[lo] == byte_op(p[lo]));
    lemma_byte_run_bounds(q);
    if q[0] == OPEN && clearing_loop(q) {
        assert(q[1] == p[lo + 1]);
        assert(q[2] == p[lo + 2]);
        assert(a[lo + 1] == byte_op(p[lo + 1]));
        assert(a[lo + 2] == byte_op(p[lo + 2]));
        lemma_clearing_implements(a, lo, md);
    } else if is_run_byte(q[0]) {
        let u = byte_op(q[0]);
        assert(n <= q.len() <= p.len());
        assert((n as nat % 0x1_0000_0000) as int == n);
        assert forall|x: int| lo <= x < hi implies #[trigger] a[x] == u by {
            lemma_byte_run_skip(q, x - lo);
            assert(q.skip(x - lo)[0] == q[x - lo]);
            assert(q[x - lo] == p[x]);
            assert(a[x] == byte_op(p[x]));
        }
        assert forall|m: Machine| #[trigger] sound(m, md) implies repeated(u, m, n as nat).fault
            == basic_effect(op, m).fault && repeated(u, m, n as nat).machine.output
            == basic_effect(op, m).machine.output && (basic_effect(op, m).fault is None
            ==> repeated(u, m, n as nat).machine == basic_effect(op, m).machine) by {
            let h = m.head();
            if q[0] == PLUS {
                lemma_repeated_add(m, n as nat);
                vstd::arithmetic::div_mod::lemma_add_mod_noop_right(h, n, md);
            } else if q[0] == MINUS {
                lemma_repeated_sub(m, n as nat);
                vstd::arithmetic::div_mod::lemma_sub_mod_noop_right(h, n, md);
            } else if q[0] == RIGHT {
                lemma_repeated_right(m, n as nat);
            } else {
                lemma_repeated_left(m, n as nat);
            }
        }
        lemma_repeat_implements(a, lo, hi, u, op, md);
    } else {
        assert(hi == lo + 1);
        assert(a[hi - 1] == op);
        if is_basic(op) {
            lemma_nops_then_op(a, lo, hi, md);
        }
    }
}

/// A comment-free text refines its tokens: a token for a run does what
/// the bytes of the run do one after the other, and `Zero` does what a
/// clearing loop does.
pub proof fn lemma_text_refines_tokens(p: Seq<u8>, md: int)
    requires
        comment_free(p),
        p.len() <= u32::MAX,
        md == 0x100 || md == 0x1_0000 || md == 0x1_0000_0000,
    ensures
        refines(source_ops(p), token_ops(tokens(p), md), token_bounds(p), md),
{
    let a = source_ops(p);
    let b = token_ops(tokens(p), md);
    let f = token_bounds(p);
    lemma_token_cuts(p);
    assert forall|j: int| 0 <= j < b.len() implies segment_ok(
        a,
        #[trigger] b[j],
        f[j],
        f[j + 1],
        md,
    ) by {
        assert(token_cut(p, f, j));
        lemma_token_segment(p, j, md);
    }
    assert forall|j: int| 0 <= j < b.len() implies #[trigger] f[j] < f[j + 1] by {
        assert(token_cut(p, f, j));
    }
    assert forall|i: int| 0 <= i < b.len() implies move_ok(#[trigger] b[i]) by {
        assert(token_cut(p, f, i));
        lemma_token_segment(p, i, md);
    }
}

/// The tokens of a text are no more than its bytes, and none moves the
/// head by more than the text is long.
pub proof fn lemma_tokens_small(p: Seq<u8>)
    requires
        comment_free(p),
        p.len() <= u32::MAX,
    ensures
        tokens(p).len() <= p.len(),
        forall|i: int|
            0 <= i < tokens(p).len() ==> crate::agree_tree::token_within(
                #[trigger] tokens(p)[i],
                u32::MAX as int,
            ),
{
    let f = token_bounds(p);
    lemma_token_cuts(p);
    assert forall|j: int| 0 <= j < f.len() - 1 implies #[trigger] f[j] < f[j + 1] by {
        assert(token_cut(p, f, j));
    }
    crate::agree::lemma_cut_is_shorter(f, tokens(p).len() as int);
    assert forall|i: int| 0 <= i < tokens(p).len() implies crate::agree_tree::token_within(
        #[trigger] tokens(p)[i],
        u32::MAX as int,
    ) by {
        assert(token_cut(p, f, i));
        let q = p.skip(f[i]);
        lemma_byte_run_bounds(q);
        assert(byte_run(q) <= q.len() <= p.len());
    }
}

} // verus!
