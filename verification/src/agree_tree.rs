//! Agreement of the interpreters: when the executable stream compiled
//! from a program text runs to its end, or to an error that no fused
//! loop raised, the direct interpreter on the text ends there too, with
//! the same error or none and with the same output; and when the direct
//! interpreter ends, the stream ends.
//!
//! The way leads from the stream to the text and back: the stream does
//! what the rewritten tree means; batching changes nothing but when
//! bytes are handed on; a loop that was replaced did what its
//! replacement does; a plain tree does what its tokens do; and the
//! tokens do what the text does.

use crate::agree::{
    comment_bounds, lemma_direct_is_abstract, lemma_interpreters_agree, lemma_text_refines_stream,
    source_ops,
};
use crate::agree_bytecode::lemma_program_bytes;
use crate::agree_tokens::{
    flat_at, lemma_flat_run, lemma_text_refines_tokens, lemma_tokens_small, op_at, tok_op,
    token_bounds, token_ops,
};
use crate::brackets::balanced;
use crate::cell::BfOptimizable;
use crate::compiler::{
    linked, source_stream, stream_brackets, BfInstruc, BfInstructionStream, STREAM_LIMIT,
};
use crate::direct::{dfinished, dhalts, doutcome, dsteps, DRun};
use crate::error::{BfCompError, BfExecErrorTy};
use crate::interpreter::{halts, outcome, Run};
use crate::ir::{
    flatten, if_node, if_rewritten, is_writeloop, lemma_if_rewritten, lemma_mul_rewritten,
    lemma_wl_rewritten, lemma_zero_rewritten, mul_node, mul_rewritten, multiply_of, plain, tokens,
    wl_node, wl_rewritten, zero_in_loop, zero_node, zero_rewritten, MulArg, Node, Token,
};
use crate::lower::{lemma_lower_table, lower, lower_node, Executable, Lowered, Recipe};
use crate::machine::{afinished, asteps, lemma_aoutcome, lemma_asteps_later, sound};
use crate::multiply::{lemma_lowered_clearing, lemma_lowered_loop, lemma_multiply_loop};
use crate::simulate::lemma_refinement;
use crate::source::program_bytes;
use crate::state::{lemma_set_wf, Machine};
use crate::stream::{
    emit, lemma_clearing_loop, lemma_xoutcome, settled, xeffect, xfinished, xhalts, xoutcome,
    xsteps, XRun,
};
use crate::tree_sem::{
    fits, leaf, lemma_realize_seq, lemma_rounds_more_fuel, lemma_stream_end_is_tree_end,
    lemma_tnode_more_fuel, lemma_tseq_more_fuel, on, placed, rounds, run_in, small, small_node,
    state_of, stopped_by_fused, tnode, tseq, TOut, TState,
};
use either::Either;
use vstd::prelude::*;

verus! {

/// Whether the node `n` can have come from the node `o` by the rewrites
/// that replace loops: a clearing loop by `Zero`, a loop with a fused
/// form by that form, a loop whose body ends in `Zero` by an `If`; or by
/// such rewrites in the body of a loop. Any other node is itself.
pub open spec fn covers_node(o: Node, n: Node) -> bool
    decreases o, 0int,
{
    match o {
        Node::Loop(c) => {
            ||| n == Node::Zero && zero_in_loop(c)
            ||| c.len() + 2 <= u32::MAX && multiply_of(c) is Some && n == Node::Mul(
                multiply_of(c).unwrap().0,
                multiply_of(c).unwrap().1,
                multiply_of(c).unwrap().2,
            )
            ||| n is Loop && covers(c, n->Loop_0)
            ||| n is If && covers(c, n->If_0) && n->If_0.len() > 0 && n->If_0.last() is Zero
        },
        _ => n == o,
    }
}

/// Whether the nodes `ns` can have come from the nodes `os`, one from
/// one.
pub open spec fn covers(os: Seq<Node>, ns: Seq<Node>) -> bool
    decreases os, 1int,
{
    os.len() == ns.len() && (os.len() == 0 || (covers(os.drop_last(), ns.drop_last())
        && covers_node(os.last(), ns.last())))
}

/// Whether every loop body in the tree is short enough for its loop to
/// be lowered on its own.
pub open spec fn bodies_fit(s: Seq<Node>) -> bool
    decreases s, 1int,
{
    s.len() == 0 || (bodies_fit(s.drop_last()) && body_fits(s.last()))
}

/// Whether every loop body in the node, or below it, is short enough for
/// its loop to be lowered on its own.
pub open spec fn body_fits(n: Node) -> bool
    decreases n, 0int,
{
    match n {
        Node::Loop(c) => c.len() + 2 <= u32::MAX && bodies_fit(c),
        Node::If(c) => bodies_fit(c),
        Node::WriteLoop(c) => bodies_fit(c),
        _ => true,
    }
}

/// The tree with clearing loops replaced comes from the tree.
pub proof fn lemma_zero_covers(s: Seq<Node>)
    ensures
        covers(s, zero_rewritten(s)),
    decreases s, 1int,
{
    if s.len() > 0 {
        lemma_zero_covers(s.drop_last());
        let r = zero_rewritten(s);
        lemma_zero_rewritten(s);
        assert(r == zero_rewritten(s.drop_last()).push(zero_node(s.last())));
        assert(r.drop_last() =~= zero_rewritten(s.drop_last()));
        assert(r.last() == zero_node(s.last()));
        assert(r.len() == s.len());
        match s.last() {
            Node::Loop(c) => {
                if !zero_in_loop(c) {
                    lemma_zero_covers(c);
                }
            },
            _ => {},
        }
        assert(covers_node(s.last(), zero_node(s.last())));
        assert(covers(s.drop_last(), r.drop_last()));
    } else {
        lemma_zero_rewritten(s);
    }
}

/// The tree with multiply loops fused comes from the tree.
pub proof fn lemma_mul_covers(s: Seq<Node>)
    requires
        bodies_fit(s),
    ensures
        covers(s, mul_rewritten(s)),
    decreases s, 1int,
{
    if s.len() > 0 {
        lemma_mul_covers(s.drop_last());
        let r = mul_rewritten(s);
        lemma_mul_rewritten(s);
        assert(r == mul_rewritten(s.drop_last()).push(mul_node(s.last())));
        assert(r.drop_last() =~= mul_rewritten(s.drop_last()));
        assert(r.last() == mul_node(s.last()));
        assert(r.len() == s.len());
        assert(body_fits(s.last()));
        match s.last() {
            Node::Loop(c) => {
                if multiply_of(c) is None {
                    lemma_mul_covers(c);
                }
            },
            _ => {},
        }
        assert(covers_node(s.last(), mul_node(s.last())));
        assert(covers(s.drop_last(), r.drop_last()));
    } else {
        lemma_mul_rewritten(s);
    }
}

/// The tree with the loops that run at most once marked comes from the
/// tree.
pub proof fn lemma_if_covers(s: Seq<Node>)
    ensures
        covers(s, if_rewritten(s)),
    decreases s, 1int,
{
    if s.len() > 0 {
        lemma_if_covers(s.drop_last());
        let r = if_rewritten(s);
        lemma_if_rewritten(s);
        assert(r == if_rewritten(s.drop_last()).push(if_node(s.last())));
        assert(r.drop_last() =~= if_rewritten(s.drop_last()));
        assert(r.last() == if_node(s.last()));
        assert(r.len() == s.len());
        match s.last() {
            Node::Loop(c) => {
                lemma_if_covers(c);
            },
            _ => {},
        }
        assert(covers_node(s.last(), if_node(s.last())));
        assert(covers(s.drop_last(), r.drop_last()));
    } else {
        lemma_if_rewritten(s);
    }
}

/// Adding multiples to a tape in order keeps it in order.
pub proof fn lemma_mul_cells_wf(m: Machine, v: int, args: Seq<MulArg>)
    requires
        m.wf(),
        forall|k: int| 0 <= k < args.len() ==> 0 <= m.ptr + (#[trigger] args[k]).offset
            < m.cells.len(),
    ensures
        m.mul_cells(v, args).len() == m.cells.len(),
        forall|i: int|
            0 <= i < m.cells.len() ==> 0 <= #[trigger] m.mul_cells(v, args)[i] < m.modulus,
    decreases args.len(),
{
    if args.len() > 0 {
        assert forall|k: int| 0 <= k < args.drop_last().len() implies 0 <= m.ptr + (
        #[trigger] args.drop_last()[k]).offset < m.cells.len() by {
            assert(args.drop_last()[k] == args[k]);
        }
        lemma_mul_cells_wf(m, v, args.drop_last());
        let a = args.last();
        assert(a == args[args.len() - 1]);
        let before = m.mul_cells(v, args.drop_last());
        let at = m.ptr + a.offset;
        let after = m.mul_cells(v, args);
        assert forall|i: int| 0 <= i < m.cells.len() implies 0 <= #[trigger] after[i]
            < m.modulus by {
            if i == at {
                vstd::arithmetic::div_mod::lemma_mod_bound(before[at] + v * a.change, m.modulus);
            } else {
                assert(after[i] == before[i]);
            }
        }
    }
}

/// A node that is no loop keeps the machine in order.
pub proof fn lemma_leaf_sound(n: Node, st: TState, md: int)
    requires
        sound(st.machine, md),
        small_node(n),
    ensures
        leaf(n, st) matches TOut::Done(after) ==> sound(after.machine, md),
{
    let m = st.machine;
    match n {
        Node::Zero => {
            lemma_set_wf(m, 0);
        },
        Node::Inc(by) => {
            vstd::arithmetic::div_mod::lemma_mod_bound(m.head() + by as int % md, md);
            lemma_set_wf(m, (m.head() + by as int % md) % md);
        },
        Node::Dec(by) => {
            vstd::arithmetic::div_mod::lemma_mod_bound(m.head() - by as int % md, md);
            lemma_set_wf(m, (m.head() - by as int % md) % md);
        },
        Node::Read => {
            let fl = m.flush();
            if m.input.len() > 0 {
                lemma_set_wf(fl, m.input[0] as int);
            } else if !m.starved {
                lemma_set_wf(fl, 0);
            }
        },
        Node::Mul(lo, hi, args) => {
            if m.mul_fault(lo, hi) is None {
                lemma_set_wf(m, 0);
                assert forall|k: int| 0 <= k < args.len() implies 0 <= m.ptr + (
                #[trigger] args[k]).offset < m.cells.len() by {
                    assert(lo <= args[k].offset <= hi);
                }
                lemma_mul_cells_wf(m.zero(), m.head(), args);
            }
        },
        _ => {},
    }
}

/// A sequence of nodes keeps the machine in order.
pub proof fn lemma_tseq_sound(s: Seq<Node>, st: TState, fuel: nat, md: int)
    requires
        sound(st.machine, md),
        small(s),
    ensures
        tseq(s, st, fuel) matches TOut::Done(after) ==> sound(after.machine, md),
    decreases fuel, s, 2int,
{
    if s.len() > 0 {
        lemma_tseq_sound(s.drop_last(), st, fuel, md);
        match tseq(s.drop_last(), st, fuel) {
            TOut::Done(mid) => {
                lemma_tnode_sound(s.last(), mid, fuel, md);
            },
            _ => {},
        }
    }
}

/// A node keeps the machine in order.
pub proof fn lemma_tnode_sound(n: Node, st: TState, fuel: nat, md: int)
    requires
        sound(st.machine, md),
        small_node(n),
    ensures
        tnode(n, st, fuel) matches TOut::Done(after) ==> sound(after.machine, md),
    decreases fuel, n, 0int,
{
    match n {
        Node::Loop(body) => {
            if st.machine.head() != 0 {
                lemma_rounds_sound(body, st, fuel, false, md);
            }
        },
        Node::WriteLoop(body) => {
            if st.machine.head() != 0 {
                lemma_rounds_sound(body, TState { batching: true, ..st }, fuel, true, md);
            }
        },
        Node::If(body) => {
            if st.machine.head() != 0 {
                lemma_rounds_sound(body, st, fuel, false, md);
            }
        },
        _ => {
            lemma_leaf_sound(n, st, md);
        },
    }
}

/// The rounds of a loop keep the machine in order.
pub proof fn lemma_rounds_sound(body: Seq<Node>, st: TState, fuel: nat, gathering: bool, md: int)
    requires
        sound(st.machine, md),
        small(body),
    ensures
        rounds(body, st, fuel, gathering) matches TOut::Done(after) ==> sound(after.machine, md),
    decreases fuel, body, 1int,
{
    if fuel > 0 {
        lemma_tseq_sound(body, st, (fuel - 1) as nat, md);
        match tseq(body, st, (fuel - 1) as nat) {
            TOut::Done(after) => {
                if after.machine.head() != 0 {
                    lemma_rounds_sound(body, after, (fuel - 1) as nat, gathering, md);
                }
            },
            _ => {},
        }
    }
}

/// The stream and the table with nothing in them.
pub open spec fn nothing() -> Lowered {
    Lowered { stream: Seq::empty(), table: Seq::empty() }
}

/// A sequence of one node is that node.
pub proof fn lemma_single(l: Lowered, n: Node, st: TState, fuel: nat)
    ensures
        lower(l, seq![n]) == lower_node(l, n),
        small(seq![n]) == small_node(n),
        tseq(seq![n], st, fuel) == tnode(n, st, fuel),
{
    let whole = seq![n];
    assert(whole.drop_last() =~= Seq::<Node>::empty());
    assert(whole.last() == n);
    assert(lower(l, whole.drop_last()) == l);
    assert(small(whole.drop_last()));
    assert(tseq(whole.drop_last(), st, fuel) == TOut::Done(st));
}

/// A clearing loop clears, in the tree as in the stream.
pub proof fn lemma_clearing_tree(c: Seq<Node>, st: TState) -> (fuel: nat)
    requires
        zero_in_loop(c),
        st.machine.wf(),
    ensures
        tnode(Node::Loop(c), st, fuel) == TOut::Done(on(st, st.machine.zero())),
{
    let up = c[0] == Node::Inc(1);
    let node = if up {
        Node::Inc(1)
    } else {
        Node::Dec(1)
    };
    assert(c =~= seq![node]);
    let whole = seq![Node::Loop(c)];
    let l = nothing();
    let out = lower_node(l, Node::Loop(c));
    lemma_lowered_clearing(l, up);
    let x = out.stream;
    let tab = out.table;
    let r = run_in(st, 0);
    lemma_clearing_loop(x, tab, r, 0);
    let n = choose|n: nat| #[trigger]
        xsteps(x, tab, r, n) == (XRun {
            idx: 3,
            ..xeffect(Executable::Zero, r, x.len() as int, tab)
        });
    lemma_single(l, Node::Loop(c), st, 0);
    lemma_single(l, node, st, 0);
    assert(small(c));
    let fuel = lemma_stream_end_is_tree_end(x, tab, whole, st, n);
    lemma_single(l, Node::Loop(c), st, fuel);
    fuel
}

/// A loop with a fused form does what the fused form does, in the tree
/// as in the stream.
pub proof fn lemma_multiply_tree(c: Seq<Node>, st: TState) -> (fuel: nat)
    requires
        multiply_of(c) is Some,
        c.len() + 2 <= u32::MAX,
        small(c),
        st.machine.wf(),
        st.machine.mul_fault(multiply_of(c).unwrap().0, multiply_of(c).unwrap().1) is None,
    ensures
        tnode(Node::Loop(c), st, fuel) == TOut::Done(
            on(st, st.machine.mul(multiply_of(c).unwrap().2)),
        ),
{
    let whole = seq![Node::Loop(c)];
    let l = nothing();
    let out = lower_node(l, Node::Loop(c));
    lemma_lowered_loop(l, c);
    let x = out.stream;
    let tab = out.table;
    let r = run_in(st, 0);
    lemma_multiply_loop(x, tab, r, 0, c);
    let n = choose|n: nat| #[trigger]
        xsteps(x, tab, r, n) == r.go(
            r.machine.mul(multiply_of(c).unwrap().2),
            0int + 2 + c.len(),
        );
    lemma_single(l, Node::Loop(c), st, 0);
    let fuel = lemma_stream_end_is_tree_end(x, tab, whole, st, n);
    lemma_single(l, Node::Loop(c), st, fuel);
    fuel
}

/// The greater of two numbers.
pub open spec fn larger(a: nat, b: nat) -> nat {
    if a >= b {
        a
    } else {
        b
    }
}

/// The tree does what the rewritten tree does. When a sequence of nodes
/// that came from another by replacing loops comes to an end, or to an
/// error that no fused loop raised, the nodes it came from come, with
/// fuel enough, to the same.
pub proof fn lemma_covered_seq(os: Seq<Node>, ns: Seq<Node>, st: TState, fuel: nat, md: int) -> (f2:
    nat)
    requires
        covers(os, ns),
        small(os),
        small(ns),
        sound(st.machine, md),
        tseq(ns, st, fuel).settles(),
    ensures
        tseq(os, st, f2) == tseq(ns, st, fuel),
    decreases fuel, os, 2int,
{
    if os.len() == 0 {
        assert(ns.len() == 0);
        0
    } else {
        let of = os.drop_last();
        let nf = ns.drop_last();
        match tseq(nf, st, fuel) {
            TOut::Done(mid) => {
                let fa = lemma_covered_seq(of, nf, st, fuel, md);
                lemma_tseq_sound(nf, st, fuel, md);
                let fb = lemma_covered_node(os.last(), ns.last(), mid, fuel, md);
                let f = larger(fa, fb);
                lemma_tseq_more_fuel(of, st, fa, f);
                lemma_tnode_more_fuel(os.last(), mid, fb, f);
                f
            },
            _ => lemma_covered_seq(of, nf, st, fuel, md),
        }
    }
}

/// The node does what the node that came from it does.
pub proof fn lemma_covered_node(o: Node, n: Node, st: TState, fuel: nat, md: int) -> (f2: nat)
    requires
        covers_node(o, n),
        small_node(o),
        small_node(n),
        sound(st.machine, md),
        tnode(n, st, fuel).settles(),
    ensures
        tnode(o, st, f2) == tnode(n, st, fuel),
    decreases fuel, o, 0int,
{
    match o {
        Node::Loop(c) => {
            if n == Node::Zero && zero_in_loop(c) {
                lemma_clearing_tree(c, st)
            } else if c.len() + 2 <= u32::MAX && multiply_of(c) is Some && n == Node::Mul(
                multiply_of(c).unwrap().0,
                multiply_of(c).unwrap().1,
                multiply_of(c).unwrap().2,
            ) {
                lemma_multiply_tree(c, st)
            } else if n is Loop && covers(c, n->Loop_0) {
                if st.machine.head() == 0 {
                    0
                } else {
                    lemma_covered_rounds(c, n->Loop_0, st, fuel, md)
                }
            } else {
                if st.machine.head() == 0 {
                    0
                } else {
                    lemma_covered_rounds(c, n->If_0, st, fuel, md)
                }
            }
        },
        _ => fuel,
    }
}

/// The rounds of a loop do what the rounds of the loop that came from it
/// do.
pub proof fn lemma_covered_rounds(
    c: Seq<Node>,
    c2: Seq<Node>,
    st: TState,
    fuel: nat,
    md: int,
) -> (f2: nat)
    requires
        covers(c, c2),
        small(c),
        small(c2),
        sound(st.machine, md),
        rounds(c2, st, fuel, false).settles(),
    ensures
        rounds(c, st, f2, false) == rounds(c2, st, fuel, false),
    decreases fuel, c, 1int,
{
    assert(fuel > 0);
    match tseq(c2, st, (fuel - 1) as nat) {
        TOut::Done(after) => {
            let fb = lemma_covered_seq(c, c2, st, (fuel - 1) as nat, md);
            lemma_tseq_sound(c2, st, (fuel - 1) as nat, md);
            if after.machine.head() != 0 {
                let fr = lemma_covered_rounds(c, c2, after, (fuel - 1) as nat, md);
                let f = larger(fb, fr);
                lemma_tseq_more_fuel(c, st, fb, f);
                lemma_rounds_more_fuel(c, after, fr, f, false);
                (f + 1) as nat
            } else {
                (fb + 1) as nat
            }
        },
        _ => {
            let fb = lemma_covered_seq(c, c2, st, (fuel - 1) as nat, md);
            (fb + 1) as nat
        },
    }
}

/// Whether a rewritten tree came to what the tree came to, or was
/// stopped before by a fused loop whose range leaves the tape.
pub open spec fn same_or_fused(new: TOut, old: TOut) -> bool {
    new == old || (new matches TOut::Fault(_, _, fused) && fused)
}

/// The rewritten tree does what the tree does. When a sequence of nodes
/// comes to an end or to an error, the nodes that came from it by
/// replacing loops come, with fuel enough, to the same, unless a fused
/// loop stops them before.
pub proof fn lemma_covering_seq(os: Seq<Node>, ns: Seq<Node>, st: TState, fuel: nat, md: int) -> (f2:
    nat)
    requires
        covers(os, ns),
        small(os),
        small(ns),
        sound(st.machine, md),
        !(tseq(os, st, fuel) is Timeout),
    ensures
        same_or_fused(tseq(ns, st, f2), tseq(os, st, fuel)),
    decreases fuel, os, 2int,
{
    if os.len() == 0 {
        assert(ns.len() == 0);
        0
    } else {
        let of = os.drop_last();
        let nf = ns.drop_last();
        let fa = lemma_covering_seq(of, nf, st, fuel, md);
        match tseq(nf, st, fa) {
            TOut::Done(mid) => {
                lemma_tseq_sound(nf, st, fa, md);
                let fb = lemma_covering_node(os.last(), ns.last(), mid, fuel, md);
                let f = larger(fa, fb);
                lemma_tseq_more_fuel(nf, st, fa, f);
                lemma_tnode_more_fuel(ns.last(), mid, fb, f);
                f
            },
            _ => fa,
        }
    }
}

/// The node that came from a node does what the node does, unless a
/// fused loop stops it before.
pub proof fn lemma_covering_node(o: Node, n: Node, st: TState, fuel: nat, md: int) -> (f2: nat)
    requires
        covers_node(o, n),
        small_node(o),
        small_node(n),
        sound(st.machine, md),
        !(tnode(o, st, fuel) is Timeout),
    ensures
        same_or_fused(tnode(n, st, f2), tnode(o, st, fuel)),
    decreases fuel, o, 0int,
{
    match o {
        Node::Loop(c) => {
            if n == Node::Zero && zero_in_loop(c) {
                let f = lemma_clearing_tree(c, st);
                let g = larger(f, fuel);
                lemma_tnode_more_fuel(o, st, f, g);
                lemma_tnode_more_fuel(o, st, fuel, g);
                0
            } else if c.len() + 2 <= u32::MAX && multiply_of(c) is Some && n == Node::Mul(
                multiply_of(c).unwrap().0,
                multiply_of(c).unwrap().1,
                multiply_of(c).unwrap().2,
            ) {
                if st.machine.mul_fault(multiply_of(c).unwrap().0, multiply_of(c).unwrap().1)
                    is None {
                    let f = lemma_multiply_tree(c, st);
                    let g = larger(f, fuel);
                    lemma_tnode_more_fuel(o, st, f, g);
                    lemma_tnode_more_fuel(o, st, fuel, g);
                }
                0
            } else if n is Loop && covers(c, n->Loop_0) {
                if st.machine.head() == 0 {
                    0
                } else {
                    lemma_covering_rounds(c, n->Loop_0, st, fuel, md)
                }
            } else {
                if st.machine.head() == 0 {
                    0
                } else {
                    lemma_covering_rounds(c, n->If_0, st, fuel, md)
                }
            }
        },
        _ => fuel,
    }
}

/// The rounds of the loop that came from a loop do what the rounds of
/// the loop do, unless a fused loop stops them before.
pub proof fn lemma_covering_rounds(
    c: Seq<Node>,
    c2: Seq<Node>,
    st: TState,
    fuel: nat,
    md: int,
) -> (f2: nat)
    requires
        covers(c, c2),
        small(c),
        small(c2),
        sound(st.machine, md),
        !(rounds(c, st, fuel, false) is Timeout),
    ensures
        same_or_fused(rounds(c2, st, f2, false), rounds(c, st, fuel, false)),
    decreases fuel, c, 1int,
{
    assert(fuel > 0);
    let fb = lemma_covering_seq(c, c2, st, (fuel - 1) as nat, md);
    match tseq(c2, st, fb) {
        TOut::Done(after) => {
            lemma_tseq_sound(c2, st, fb, md);
            if after.machine.head() != 0 {
                let fr = lemma_covering_rounds(c, c2, after, (fuel - 1) as nat, md);
                let f = larger(fb, fr);
                lemma_tseq_more_fuel(c2, st, fb, f);
                lemma_rounds_more_fuel(c2, after, fr, f, false);
                (f + 1) as nat
            } else {
                (fb + 1) as nat
            }
        },
        _ => (fb + 1) as nat,
    }
}

/// Whether the node `n` is the node `o` with some of its loops, at any
/// depth, turned into write loops. The node `o` holds no write loop.
pub open spec fn batched_node(o: Node, n: Node) -> bool
    decreases o, 0int,
{
    match o {
        Node::Loop(c) => (n is Loop && batched(c, n->Loop_0)) || (n is WriteLoop && batched(
            c,
            n->WriteLoop_0,
        )),
        Node::If(c) => n is If && batched(c, n->If_0),
        Node::WriteLoop(_) => false,
        _ => n == o,
    }
}

/// Whether the nodes `ns` are the nodes `os` with some of their loops
/// turned into write loops.
pub open spec fn batched(os: Seq<Node>, ns: Seq<Node>) -> bool
    decreases os, 1int,
{
    os.len() == ns.len() && (os.len() == 0 || (batched(os.drop_last(), ns.drop_last())
        && batched_node(os.last(), ns.last())))
}

/// Whether the tree holds no write loop.
pub open spec fn no_wl(s: Seq<Node>) -> bool
    decreases s, 1int,
{
    s.len() == 0 || (no_wl(s.drop_last()) && no_wl_node(s.last()))
}

/// Whether the node holds no write loop and is none.
pub open spec fn no_wl_node(n: Node) -> bool
    decreases n, 0int,
{
    match n {
        Node::Loop(c) => no_wl(c),
        Node::If(c) => no_wl(c),
        Node::WriteLoop(_) => false,
        _ => true,
    }
}

/// A tree without write loops is itself with none of its loops turned.
pub proof fn lemma_batched_self(s: Seq<Node>)
    requires
        no_wl(s),
    ensures
        batched(s, s),
    decreases s, 1int,
{
    if s.len() > 0 {
        lemma_batched_self(s.drop_last());
        lemma_batched_node_self(s.last());
    }
}

/// A node without write loops is itself with none of its loops turned.
pub proof fn lemma_batched_node_self(n: Node)
    requires
        no_wl_node(n),
    ensures
        batched_node(n, n),
    decreases n, 0int,
{
    match n {
        Node::Loop(c) => {
            lemma_batched_self(c);
        },
        Node::If(c) => {
            lemma_batched_self(c);
        },
        _ => {},
    }
}

/// The tree with write loops marked is the tree with some of its loops
/// turned into write loops.
pub proof fn lemma_wl_batched(s: Seq<Node>)
    requires
        no_wl(s),
    ensures
        batched(s, wl_rewritten(s)),
    decreases s, 1int,
{
    if s.len() > 0 {
        lemma_wl_batched(s.drop_last());
        let r = wl_rewritten(s);
        lemma_wl_rewritten(s);
        assert(r == wl_rewritten(s.drop_last()).push(wl_node(s.last())));
        assert(r.drop_last() =~= wl_rewritten(s.drop_last()));
        assert(r.last() == wl_node(s.last()));
        assert(no_wl_node(s.last()));
        match s.last() {
            Node::Loop(c) => {
                if is_writeloop(c) {
                    lemma_batched_self(c);
                } else {
                    lemma_wl_batched(c);
                }
            },
            Node::If(c) => {
                lemma_batched_self(c);
            },
            _ => {},
        }
        assert(batched_node(s.last(), wl_node(s.last())));
        assert(batched(s.drop_last(), r.drop_last()));
    } else {
        lemma_wl_rewritten(s);
    }
}

/// Whether the state `a` of a tree with write loops and the state `b` of
/// the tree without are alike: the same tape, head and input, and the
/// same bytes written in the same order, be they handed to the writer or
/// still gathered. How much has been flushed is left open.
pub open spec fn alike(a: TState, b: TState) -> bool {
    &&& a.machine.modulus == b.machine.modulus
    &&& a.machine.cells == b.machine.cells
    &&& a.machine.ptr == b.machine.ptr
    &&& a.machine.input == b.machine.input
    &&& a.machine.starved == b.machine.starved
    &&& a.machine.output + a.pending == b.machine.output
    &&& b.pending.len() == 0
    &&& !b.batching
    &&& a.batching || a.pending.len() == 0
}

/// Whether two trees came to the same: to states that are alike, to the
/// same error on states that are alike, or to no end.
pub open spec fn outs_alike(a: TOut, b: TOut) -> bool {
    match a {
        TOut::Done(sa) => b is Done && alike(sa, b->Done_0),
        TOut::Fault(e, sa, fused) => b is Fault && b->Fault_0 == e && alike(sa, b->Fault_1)
            && b->Fault_2 == fused,
        TOut::Timeout => b is Timeout,
    }
}

/// A node that is no loop does the same with batching as without.
pub proof fn lemma_leaf_alike(n: Node, a: TState, b: TState)
    requires
        alike(a, b),
    ensures
        outs_alike(leaf(n, a), leaf(n, b)),
{
    let ma = a.machine;
    let mb = b.machine;
    match n {
        Node::Write => {
            let byte = (ma.head() % 0x100) as u8;
            assert(leaf(n, b) == TOut::Done(on(b, mb.write())));
            if a.batching {
                if a.pending.len() == crate::stream::BATCH {
                    assert((ma.output + a.pending) + seq![byte] =~= (ma.output + a.pending).push(
                        byte,
                    ));
                } else {
                    assert(ma.output + a.pending.push(byte) =~= (ma.output + a.pending).push(
                        byte,
                    ));
                }
            } else {
                assert(a.pending =~= Seq::<u8>::empty());
                assert(ma.output.push(byte) + a.pending =~= (ma.output + a.pending).push(byte));
            }
        },
        Node::Mul(lo, hi, args) => {
            if ma.mul_fault(lo, hi) is None {
                crate::stream::lemma_mul_cells_same(ma.zero(), mb.zero(), ma.head(), args);
            }
        },
        _ => {},
    }
}

/// Batching changes nothing but when bytes are handed on: a tree with
/// some of its loops turned into write loops does what the tree does.
pub proof fn lemma_batched_seq(os: Seq<Node>, ns: Seq<Node>, a: TState, b: TState, fuel: nat)
    requires
        batched(os, ns),
        alike(a, b),
    ensures
        outs_alike(tseq(ns, a, fuel), tseq(os, b, fuel)),
    decreases fuel, os, 2int,
{
    if os.len() > 0 {
        lemma_batched_seq(os.drop_last(), ns.drop_last(), a, b, fuel);
        match tseq(ns.drop_last(), a, fuel) {
            TOut::Done(ma) => {
                let mb = tseq(os.drop_last(), b, fuel)->Done_0;
                lemma_batched_node(os.last(), ns.last(), ma, mb, fuel);
            },
            _ => {},
        }
    }
}

/// A node with some of its loops turned into write loops does what the
/// node does.
pub proof fn lemma_batched_node(o: Node, n: Node, a: TState, b: TState, fuel: nat)
    requires
        batched_node(o, n),
        alike(a, b),
    ensures
        outs_alike(tnode(n, a, fuel), tnode(o, b, fuel)),
    decreases fuel, o, 0int,
{
    match o {
        Node::Loop(c) => {
            if a.machine.head() != 0 {
                if n is Loop {
                    lemma_batched_rounds(c, n->Loop_0, a, b, fuel, false);
                } else {
                    lemma_batched_rounds(
                        c,
                        n->WriteLoop_0,
                        TState { batching: true, ..a },
                        b,
                        fuel,
                        true,
                    );
                }
            }
        },
        Node::If(c) => {
            if a.machine.head() != 0 {
                lemma_batched_rounds(c, n->If_0, a, b, fuel, false);
            }
        },
        _ => {
            lemma_leaf_alike(o, a, b);
        },
    }
}

/// The rounds of a loop turned into a write loop, or not, do what the
/// rounds of the loop do.
pub proof fn lemma_batched_rounds(
    c: Seq<Node>,
    c2: Seq<Node>,
    a: TState,
    b: TState,
    fuel: nat,
    gathering: bool,
)
    requires
        batched(c, c2),
        alike(a, b),
    ensures
        outs_alike(rounds(c2, a, fuel, gathering), rounds(c, b, fuel, false)),
    decreases fuel, c, 1int,
{
    if fuel > 0 {
        lemma_batched_seq(c, c2, a, b, (fuel - 1) as nat);
        match tseq(c2, a, (fuel - 1) as nat) {
            TOut::Done(na) => {
                let nb = tseq(c, b, (fuel - 1) as nat)->Done_0;
                if na.machine.head() != 0 {
                    lemma_batched_rounds(c, c2, na, nb, (fuel - 1) as nat, gathering);
                } else if gathering {
                    assert(emit(na.machine, na.pending).output + Seq::<u8>::empty()
                        =~= na.machine.output + na.pending);
                }
            },
            _ => {},
        }
    }
}

/// Outside a write loop nothing is gathering: a tree entered with no
/// write loop gathering is left with none gathering.
pub proof fn lemma_tseq_not_gathering(s: Seq<Node>, st: TState, fuel: nat)
    requires
        !st.batching,
    ensures
        tseq(s, st, fuel) matches TOut::Done(after) ==> !after.batching,
    decreases fuel, s, 2int,
{
    if s.len() > 0 {
        lemma_tseq_not_gathering(s.drop_last(), st, fuel);
        match tseq(s.drop_last(), st, fuel) {
            TOut::Done(mid) => {
                lemma_tnode_not_gathering(s.last(), mid, fuel);
            },
            _ => {},
        }
    }
}

/// A node entered with no write loop gathering is left with none
/// gathering.
pub proof fn lemma_tnode_not_gathering(n: Node, st: TState, fuel: nat)
    requires
        !st.batching,
    ensures
        tnode(n, st, fuel) matches TOut::Done(after) ==> !after.batching,
    decreases fuel, n, 0int,
{
    match n {
        Node::Loop(body) => {
            if st.machine.head() != 0 {
                lemma_rounds_not_gathering(body, st, fuel);
            }
        },
        Node::WriteLoop(body) => {
            if st.machine.head() != 0 {
                lemma_rounds_hand_on(body, TState { batching: true, ..st }, fuel);
            }
        },
        Node::If(body) => {
            if st.machine.head() != 0 {
                lemma_rounds_not_gathering(body, st, fuel);
            }
        },
        _ => {},
    }
}

/// The rounds of a loop entered with no write loop gathering are left
/// with none gathering.
pub proof fn lemma_rounds_not_gathering(body: Seq<Node>, st: TState, fuel: nat)
    requires
        !st.batching,
    ensures
        rounds(body, st, fuel, false) matches TOut::Done(after) ==> !after.batching,
    decreases fuel, body, 1int,
{
    if fuel > 0 {
        lemma_tseq_not_gathering(body, st, (fuel - 1) as nat);
        match tseq(body, st, (fuel - 1) as nat) {
            TOut::Done(after) => {
                if after.machine.head() != 0 {
                    lemma_rounds_not_gathering(body, after, (fuel - 1) as nat);
                }
            },
            _ => {},
        }
    }
}

/// A write loop that is left has handed on what it gathered.
pub proof fn lemma_rounds_hand_on(body: Seq<Node>, st: TState, fuel: nat)
    ensures
        rounds(body, st, fuel, true) matches TOut::Done(after) ==> !after.batching,
    decreases fuel,
{
    if fuel > 0 {
        match tseq(body, st, (fuel - 1) as nat) {
            TOut::Done(after) => {
                if after.machine.head() != 0 {
                    lemma_rounds_hand_on(body, after, (fuel - 1) as nat);
                }
            },
            _ => {},
        }
    }
}


/// Replacing clearing loops keeps the tree in order.
pub proof fn lemma_zero_small(s: Seq<Node>)
    requires
        small(s),
    ensures
        small(zero_rewritten(s)),
    decreases s, 1int,
{
    if s.len() > 0 {
        lemma_zero_small(s.drop_last());
        let r = zero_rewritten(s);
        lemma_zero_rewritten(s);
        assert(r == zero_rewritten(s.drop_last()).push(zero_node(s.last())));
        assert(r.drop_last() =~= zero_rewritten(s.drop_last()));
        assert(r.last() == zero_node(s.last()));
        assert(small_node(s.last()));
        match s.last() {
            Node::Loop(c) => {
                if !zero_in_loop(c) {
                    lemma_zero_small(c);
                }
            },
            _ => {},
        }
        assert(small_node(zero_node(s.last())));
    } else {
        lemma_zero_rewritten(s);
    }
}

/// Fusing multiply loops keeps the tree in order: the terms of a fused
/// loop lie within the offsets its body reaches.
pub proof fn lemma_mul_small(s: Seq<Node>)
    requires
        small(s),
    ensures
        small(mul_rewritten(s)),
    decreases s, 1int,
{
    if s.len() > 0 {
        lemma_mul_small(s.drop_last());
        let r = mul_rewritten(s);
        lemma_mul_rewritten(s);
        assert(r == mul_rewritten(s.drop_last()).push(mul_node(s.last())));
        assert(r.drop_last() =~= mul_rewritten(s.drop_last()));
        assert(r.last() == mul_node(s.last()));
        assert(small_node(s.last()));
        match s.last() {
            Node::Loop(c) => {
                if multiply_of(c) is None {
                    lemma_mul_small(c);
                } else {
                    crate::ir::lemma_sim_ok(c);
                    crate::ir::lemma_sim_args_within(crate::ir::sim(c).unwrap(), 64);
                }
            },
            _ => {},
        }
        assert(small_node(mul_node(s.last())));
    } else {
        lemma_mul_rewritten(s);
    }
}

/// Marking the loops that run at most once keeps the tree in order.
pub proof fn lemma_if_small(s: Seq<Node>)
    requires
        small(s),
    ensures
        small(if_rewritten(s)),
    decreases s, 1int,
{
    if s.len() > 0 {
        lemma_if_small(s.drop_last());
        let r = if_rewritten(s);
        lemma_if_rewritten(s);
        assert(r == if_rewritten(s.drop_last()).push(if_node(s.last())));
        assert(r.drop_last() =~= if_rewritten(s.drop_last()));
        assert(r.last() == if_node(s.last()));
        assert(small_node(s.last()));
        match s.last() {
            Node::Loop(c) => {
                lemma_if_small(c);
            },
            _ => {},
        }
        assert(small_node(if_node(s.last())));
    } else {
        lemma_if_rewritten(s);
    }
}

/// Marking the write loops keeps the tree in order.
pub proof fn lemma_wl_small(s: Seq<Node>)
    requires
        small(s),
    ensures
        small(wl_rewritten(s)),
    decreases s, 1int,
{
    if s.len() > 0 {
        lemma_wl_small(s.drop_last());
        let r = wl_rewritten(s);
        lemma_wl_rewritten(s);
        assert(r == wl_rewritten(s.drop_last()).push(wl_node(s.last())));
        assert(r.drop_last() =~= wl_rewritten(s.drop_last()));
        assert(r.last() == wl_node(s.last()));
        assert(small_node(s.last()));
        match s.last() {
            Node::Loop(c) => {
                if !is_writeloop(c) {
                    lemma_wl_small(c);
                }
            },
            _ => {},
        }
        assert(small_node(wl_node(s.last())));
    } else {
        lemma_wl_rewritten(s);
    }
}

/// Replacing clearing loops brings in no write loop.
pub proof fn lemma_zero_no_wl(s: Seq<Node>)
    requires
        no_wl(s),
    ensures
        no_wl(zero_rewritten(s)),
    decreases s, 1int,
{
    if s.len() > 0 {
        lemma_zero_no_wl(s.drop_last());
        let r = zero_rewritten(s);
        lemma_zero_rewritten(s);
        assert(r == zero_rewritten(s.drop_last()).push(zero_node(s.last())));
        assert(r.drop_last() =~= zero_rewritten(s.drop_last()));
        assert(r.last() == zero_node(s.last()));
        assert(no_wl_node(s.last()));
        match s.last() {
            Node::Loop(c) => {
                if !zero_in_loop(c) {
                    lemma_zero_no_wl(c);
                }
            },
            _ => {},
        }
        assert(no_wl_node(zero_node(s.last())));
    } else {
        lemma_zero_rewritten(s);
    }
}

/// Fusing multiply loops brings in no write loop.
pub proof fn lemma_mul_no_wl(s: Seq<Node>)
    requires
        no_wl(s),
    ensures
        no_wl(mul_rewritten(s)),
    decreases s, 1int,
{
    if s.len() > 0 {
        lemma_mul_no_wl(s.drop_last());
        let r = mul_rewritten(s);
        lemma_mul_rewritten(s);
        assert(r == mul_rewritten(s.drop_last()).push(mul_node(s.last())));
        assert(r.drop_last() =~= mul_rewritten(s.drop_last()));
        assert(r.last() == mul_node(s.last()));
        assert(no_wl_node(s.last()));
        match s.last() {
            Node::Loop(c) => {
                if multiply_of(c) is None {
                    lemma_mul_no_wl(c);
                }
            },
            _ => {},
        }
        assert(no_wl_node(mul_node(s.last())));
    } else {
        lemma_mul_rewritten(s);
    }
}

/// Marking the loops that run at most once brings in no write loop.
pub proof fn lemma_if_no_wl(s: Seq<Node>)
    requires
        no_wl(s),
    ensures
        no_wl(if_rewritten(s)),
    decreases s, 1int,
{
    if s.len() > 0 {
        lemma_if_no_wl(s.drop_last());
        let r = if_rewritten(s);
        lemma_if_rewritten(s);
        assert(r == if_rewritten(s.drop_last()).push(if_node(s.last())));
        assert(r.drop_last() =~= if_rewritten(s.drop_last()));
        assert(r.last() == if_node(s.last()));
        assert(no_wl_node(s.last()));
        match s.last() {
            Node::Loop(c) => {
                lemma_if_no_wl(c);
            },
            _ => {},
        }
        assert(no_wl_node(if_node(s.last())));
    } else {
        lemma_if_rewritten(s);
    }
}

/// Replacing clearing loops keeps the loop bodies as short as they were.
pub proof fn lemma_zero_bodies_fit(s: Seq<Node>)
    requires
        bodies_fit(s),
    ensures
        bodies_fit(zero_rewritten(s)),
    decreases s, 1int,
{
    if s.len() > 0 {
        lemma_zero_bodies_fit(s.drop_last());
        let r = zero_rewritten(s);
        lemma_zero_rewritten(s);
        assert(r == zero_rewritten(s.drop_last()).push(zero_node(s.last())));
        assert(r.drop_last() =~= zero_rewritten(s.drop_last()));
        assert(r.last() == zero_node(s.last()));
        assert(body_fits(s.last()));
        match s.last() {
            Node::Loop(c) => {
                if !zero_in_loop(c) {
                    lemma_zero_bodies_fit(c);
                    lemma_zero_rewritten(c);
                }
            },
            _ => {},
        }
        assert(body_fits(zero_node(s.last())));
    } else {
        lemma_zero_rewritten(s);
    }
}

/// A plain tree holds no write loop.
pub proof fn lemma_plain_no_wl(s: Seq<Node>)
    requires
        plain(s),
    ensures
        no_wl(s),
    decreases s, 1int,
{
    if s.len() > 0 {
        lemma_plain_no_wl(s.drop_last());
        assert(plain(s.drop_last()));
        match s.last() {
            Node::Loop(c) => {
                assert(plain(c));
                lemma_plain_no_wl(c);
            },
            _ => {},
        }
        assert(no_wl_node(s.last()));
    }
}

/// Whether a token moves the head by no more than `bound`.
pub open spec fn token_within(t: Token, bound: int) -> bool {
    match t {
        Token::IncPtr(by) => by <= bound,
        Token::DecPtr(by) => by <= bound,
        _ => true,
    }
}

/// A plain tree whose tokens are few and move the head by little is in
/// order, and so are its loop bodies.
pub proof fn lemma_plain_small(s: Seq<Node>)
    requires
        plain(s),
        flatten(s).len() <= u32::MAX,
        forall|i: int| 0 <= i < flatten(s).len() ==> token_within(#[trigger] flatten(s)[i], u32::MAX as int),
    ensures
        small(s),
        bodies_fit(s),
        s.len() <= flatten(s).len(),
    decreases s, 1int,
{
    if s.len() > 0 {
        let front = flatten(s.drop_last());
        let all = flatten(s);
        assert forall|i: int| 0 <= i < front.len() implies token_within(
            #[trigger] front[i],
            u32::MAX as int,
        ) by {
            assert(all[i] == front[i]);
        }
        assert(plain(s.drop_last()));
        lemma_plain_small(s.drop_last());
        match s.last() {
            Node::Loop(c) => {
                assert(plain(c));
                let inner = flatten(c);
                assert(all =~= front + (seq![Token::LStart] + inner + seq![Token::LEnd]));
                assert forall|i: int| 0 <= i < inner.len() implies token_within(
                    #[trigger] inner[i],
                    u32::MAX as int,
                ) by {
                    assert(all[front.len() + 1 + i] == inner[i]);
                }
                lemma_plain_small(c);
            },
            Node::IncPtr(by) => {
                assert(all[front.len() as int] == Token::IncPtr(by));
                assert(token_within(all[front.len() as int], u32::MAX as int));
            },
            Node::DecPtr(by) => {
                assert(all[front.len() as int] == Token::DecPtr(by));
                assert(token_within(all[front.len() as int], u32::MAX as int));
            },
            _ => {},
        }
        assert(small_node(s.last()));
        assert(body_fits(s.last()));
    }
}

/// Whether two machines are the same but for how much of the output has
/// been flushed.
pub open spec fn same_but_flushed(a: Machine, b: Machine) -> bool {
    &&& a.modulus == b.modulus
    &&& a.cells == b.cells
    &&& a.ptr == b.ptr
    &&& a.input == b.input
    &&& a.starved == b.starved
    &&& a.output == b.output
}

/// The tree of a program text after the four rewrite passes, in their
/// order.
pub open spec fn rewritten(tree: Seq<Node>) -> Seq<Node> {
    wl_rewritten(if_rewritten(mul_rewritten(zero_rewritten(tree))))
}

/// The interpreters agree. Let a program text of no more program bytes
/// than 32 bits can count be tokenized, built into a tree, rewritten by
/// the four passes and lowered to an executable stream that is not too
/// long. If the stream runs to its end, or to an error that no fused
/// loop raised, then the direct interpreter on the text comes to its end
/// too, with the same error or with none, and has then written the same
/// bytes in the same order; without an error it has left the same tape,
/// head and input behind.
///
/// A fused loop checks the whole range of its body before it runs, also
/// when the head cell is zero and the loop it replaced would not run; an
/// error that it raises is one the direct interpreter may not meet.
pub proof fn lemma_executable_agrees(
    text: Seq<u8>,
    tree: Seq<Node>,
    x: Seq<Executable>,
    tab: Seq<Recipe>,
    m: Machine,
)
    requires
        program_bytes(text).len() <= u32::MAX,
        plain(tree),
        flatten(tree) == tokens(program_bytes(text)),
        (Lowered { stream: x, table: tab }) == lower(nothing(), rewritten(tree)),
        x.len() <= STREAM_LIMIT,
        m.wf(),
        m.modulus == 0x100 || m.modulus == 0x1_0000 || m.modulus == 0x1_0000_0000,
        xhalts(x, tab, XRun::at(m, 0)),
        !stopped_by_fused(x, xoutcome(x, tab, XRun::at(m, 0))),
    ensures
        dhalts(text, DRun::at(m, 0)),
        doutcome(text, DRun::at(m, 0)).fault == match xoutcome(x, tab, XRun::at(m, 0)).fault {
            Some(e) => Some(Either::<BfExecErrorTy, BfCompError>::Left(e)),
            None => None,
        },
        doutcome(text, DRun::at(m, 0)).machine.output == settled(
            xoutcome(x, tab, XRun::at(m, 0)),
        ).output,
        xoutcome(x, tab, XRun::at(m, 0)).fault is None ==> same_but_flushed(
            doutcome(text, DRun::at(m, 0)).machine,
            settled(xoutcome(x, tab, XRun::at(m, 0))),
        ),
{
    lemma_lower_table(nothing(), rewritten(tree));
    assert(fits(x, tab));
    let md = m.modulus;
    let p = program_bytes(text);
    let toks = tokens(p);
    let t0 = tree;
    let t1 = zero_rewritten(t0);
    let t2 = mul_rewritten(t1);
    let t3 = if_rewritten(t2);
    let t4 = wl_rewritten(t3);
    let st0 = TState { machine: m, pending: Seq::empty(), batching: false };
    let first = XRun::at(m, 0);
    assert(first == run_in(st0, 0));
    // the trees are as they have to be
    lemma_program_bytes(text);
    lemma_tokens_small(p);
    lemma_plain_small(t0);
    lemma_zero_small(t0);
    lemma_mul_small(t1);
    lemma_if_small(t2);
    lemma_wl_small(t3);
    lemma_zero_bodies_fit(t0);
    lemma_plain_no_wl(t0);
    lemma_zero_no_wl(t0);
    lemma_mul_no_wl(t1);
    lemma_if_no_wl(t2);
    // the stream comes to what the rewritten tree comes to
    let n = choose|n: nat| xfinished(x, #[trigger] xsteps(x, tab, first, n));
    lemma_xoutcome(x, tab, first, n);
    let end = xsteps(x, tab, first, n);
    let f4 = lemma_stream_end_is_tree_end(x, tab, t4, st0, n);
    let o4 = tseq(t4, st0, f4);
    let s4 = state_of(end);
    assert(o4.settles());
    // batching changes nothing
    lemma_wl_batched(t3);
    assert(alike(st0, st0)) by {
        assert(m.output + Seq::<u8>::empty() =~= m.output);
    }
    lemma_batched_seq(t3, t4, st0, st0, f4);
    let o3 = tseq(t3, st0, f4);
    let s3 = match o3 {
        TOut::Done(s) => s,
        TOut::Fault(_, s, _) => s,
        TOut::Timeout => st0,
    };
    assert(o3.settles());
    assert(alike(s4, s3));
    assert(settled(end).output == s3.machine.output);
    if end.fault is None {
        lemma_tseq_not_gathering(t4, st0, f4);
        assert(s4.pending =~= Seq::<u8>::empty());
        assert(s4.machine.output + s4.pending =~= s4.machine.output);
    }
    // the loops that were replaced did the same
    lemma_if_covers(t2);
    let f3 = lemma_covered_seq(t2, t3, st0, f4, md);
    lemma_mul_covers(t1);
    let f2 = lemma_covered_seq(t1, t2, st0, f3, md);
    lemma_zero_covers(t0);
    let f1 = lemma_covered_seq(t0, t1, st0, f2, md);
    assert(tseq(t0, st0, f1) == o3);
    // the tokens do what the plain tree does
    let a = token_ops(toks, md);
    assert(flat_at(a, 0, t0, md)) by {
        assert forall|i: int| 0 <= i < flatten(t0).len() implies #[trigger] op_at(a, 0, i)
            == tok_op(flatten(t0)[i], md) by {}
    }
    let k = lemma_flat_run(a, 0, t0, st0, f1, md);
    let start = DRun::at(m, 0);
    assert(afinished(a, asteps(a, start, k)));
    lemma_aoutcome(a, start, k);
    // the text does what its tokens do
    let a0 = source_ops(text);
    let a1 = source_ops(p);
    lemma_text_refines_stream::<u8>(text, md);
    lemma_text_refines_tokens(p, md);
    lemma_refinement(a0, a1, comment_bounds(text), md, m);
    lemma_refinement(a1, a, token_bounds(p), md, m);
    let j = choose|j: nat| afinished(a0, #[trigger] asteps(a0, start, j));
    lemma_aoutcome(a0, start, j);
    lemma_direct_is_abstract(text, start, j);
    assert(dfinished(text, dsteps(text, start, j)));
    crate::direct::lemma_doutcome(text, start, j);
}

/// The executable stream ends when the direct interpreter ends. Let a
/// program text of no more program bytes than 32 bits can count be
/// tokenized, built into a tree, rewritten by the four passes and
/// lowered to an executable stream that is not too long. If the direct
/// interpreter on the text comes to an end on a machine, with an error
/// or without, then so does the stream: it runs to its end or to an
/// error, be it one that a fused loop raised.
pub proof fn lemma_executable_halts(
    text: Seq<u8>,
    tree: Seq<Node>,
    x: Seq<Executable>,
    tab: Seq<Recipe>,
    m: Machine,
)
    requires
        program_bytes(text).len() <= u32::MAX,
        plain(tree),
        flatten(tree) == tokens(program_bytes(text)),
        (Lowered { stream: x, table: tab }) == lower(nothing(), rewritten(tree)),
        x.len() <= STREAM_LIMIT,
        m.wf(),
        m.modulus == 0x100 || m.modulus == 0x1_0000 || m.modulus == 0x1_0000_0000,
        dhalts(text, DRun::at(m, 0)),
    ensures
        xhalts(x, tab, XRun::at(m, 0)),
{
    lemma_lower_table(nothing(), rewritten(tree));
    assert(fits(x, tab));
    let md = m.modulus;
    let p = program_bytes(text);
    let toks = tokens(p);
    let t0 = tree;
    let t1 = zero_rewritten(t0);
    let t2 = mul_rewritten(t1);
    let t3 = if_rewritten(t2);
    let t4 = wl_rewritten(t3);
    let st0 = TState { machine: m, pending: Seq::empty(), batching: false };
    let first = XRun::at(m, 0);
    let start = DRun::at(m, 0);
    assert(first == run_in(st0, 0));
    lemma_program_bytes(text);
    lemma_tokens_small(p);
    lemma_plain_small(t0);
    lemma_zero_small(t0);
    lemma_mul_small(t1);
    lemma_if_small(t2);
    lemma_wl_small(t3);
    lemma_zero_bodies_fit(t0);
    lemma_plain_no_wl(t0);
    lemma_zero_no_wl(t0);
    lemma_mul_no_wl(t1);
    lemma_if_no_wl(t2);
    // the tokens end as the text ends
    let a = token_ops(toks, md);
    let a0 = source_ops(text);
    let a1 = source_ops(p);
    let j = choose|j: nat| dfinished(text, #[trigger] dsteps(text, start, j));
    lemma_direct_is_abstract(text, start, j);
    assert(afinished(a0, asteps(a0, start, j)));
    lemma_text_refines_stream::<u8>(text, md);
    lemma_text_refines_tokens(p, md);
    lemma_refinement(a0, a1, comment_bounds(text), md, m);
    lemma_refinement(a1, a, token_bounds(p), md, m);
    let k = choose|k: nat| afinished(a, #[trigger] asteps(a, start, k));
    // the plain tree ends as its tokens end
    let f0 = (k + 1) as nat;
    assert(flat_at(a, 0, t0, md)) by {
        assert forall|i: int| 0 <= i < flatten(t0).len() implies #[trigger] op_at(a, 0, i)
            == tok_op(flatten(t0)[i], md) by {}
    }
    let n0 = lemma_flat_run(a, 0, t0, st0, f0, md);
    if tseq(t0, st0, f0) is Timeout {
        lemma_asteps_later(a, start, k, n0);
        assert(false);
    }
    // the rewritten trees end as the plain tree ends
    lemma_zero_covers(t0);
    let f1 = lemma_covering_seq(t0, t1, st0, f0, md);
    lemma_mul_covers(t1);
    let f2 = lemma_covering_seq(t1, t2, st0, f1, md);
    lemma_if_covers(t2);
    let f3 = lemma_covering_seq(t2, t3, st0, f2, md);
    lemma_wl_batched(t3);
    assert(alike(st0, st0)) by {
        assert(m.output + Seq::<u8>::empty() =~= m.output);
    }
    lemma_batched_seq(t3, t4, st0, st0, f3);
    assert(!(tseq(t4, st0, f3) is Timeout));
    // the stream ends as the rewritten tree ends
    assert(placed(x, tab, nothing(), lower(nothing(), t4)));
    let n4 = lemma_realize_seq(x, tab, nothing(), t4, st0, f3);
    assert(xfinished(x, xsteps(x, tab, first, n4)));
    lemma_xoutcome(x, tab, first, n4);
}

/// A text has as many instructions as program bytes.
pub proof fn lemma_source_len<T: BfOptimizable>(text: Seq<u8>)
    ensures
        source_stream::<T>(text).len() == program_bytes(text).len(),
    decreases text.len(),
{
    if text.len() > 0 {
        lemma_source_len::<T>(text.drop_last());
    }
}

/// The two compiled tiers agree. Let a program text compile to a direct
/// stream, and, by way of its tokens, its tree and the four passes, to
/// an executable stream. If the executable stream runs to its end, or
/// to an error that no fused loop raised, then the direct stream comes
/// to its end too, with the same error or with none, and has then
/// written the same bytes in the same order; without an error it has
/// left the same tape, head and input behind.
pub proof fn lemma_compiled_tiers_agree<T: BfOptimizable>(
    text: Seq<u8>,
    stream: Seq<BfInstruc<T>>,
    tree: Seq<Node>,
    x: Seq<Executable>,
    tab: Seq<Recipe>,
    m: Machine,
)
    requires
        source_stream::<T>(text).len() <= STREAM_LIMIT,
        balanced(stream_brackets(BfInstructionStream::<T>::folded(text))),
        linked(BfInstructionStream::<T>::folded(text), stream),
        plain(tree),
        flatten(tree) == tokens(program_bytes(text)),
        (Lowered { stream: x, table: tab }) == lower(nothing(), rewritten(tree)),
        x.len() <= STREAM_LIMIT,
        m.wf(),
        m.modulus == T::modulus(),
        xhalts(x, tab, XRun::at(m, 0)),
        !stopped_by_fused(x, xoutcome(x, tab, XRun::at(m, 0))),
    ensures
        halts(stream, Run::at(m, 0)),
        outcome(stream, Run::at(m, 0)).fault == xoutcome(x, tab, XRun::at(m, 0)).fault,
        outcome(stream, Run::at(m, 0)).machine.output == settled(
            xoutcome(x, tab, XRun::at(m, 0)),
        ).output,
        xoutcome(x, tab, XRun::at(m, 0)).fault is None ==> same_but_flushed(
            outcome(stream, Run::at(m, 0)).machine,
            settled(xoutcome(x, tab, XRun::at(m, 0))),
        ),
{
    T::lemma_modulus();
    lemma_source_len::<T>(text);
    lemma_executable_agrees(text, tree, x, tab, m);
    lemma_interpreters_agree::<T>(text, stream, m);
}

} // verus!
