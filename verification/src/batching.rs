//! Write loops keep the output: the stream lowered from a tree with some
//! of its loops turned into write loops is, but for batching, the stream
//! lowered from the tree itself, and so writes what that stream writes.

use crate::agree_tree::{batched, batched_node, lemma_wl_batched, no_wl, no_wl_node, nothing};
use crate::ir::{wl_rewritten, Node};
use crate::lower::{lemma_lower_grows, lower, lower_node, Executable, Lowered};
use crate::state::Machine;
use crate::stream::{
    lemma_batching_keeps_output, settled, unbatched, unbatched_op, xsteps, XRun,
};
use vstd::prelude::*;

verus! {

/// Taking batching away from a stream with one instruction more.
pub proof fn lemma_unbatched_push(a: Seq<Executable>, x: Executable)
    ensures
        unbatched(a.push(x)) == unbatched(a).push(unbatched_op(x)),
{
    assert(unbatched(a.push(x)) =~= unbatched(a).push(unbatched_op(x)));
}

/// Taking batching away from a stream with one instruction replaced.
pub proof fn lemma_unbatched_update(a: Seq<Executable>, i: int, x: Executable)
    requires
        0 <= i < a.len(),
    ensures
        unbatched(a.update(i, x)) == unbatched(a).update(i, unbatched_op(x)),
{
    assert(unbatched(a.update(i, x)) =~= unbatched(a).update(i, unbatched_op(x)));
}

/// Taking batching away from a stream with its last instruction dropped.
pub proof fn lemma_unbatched_drop_last(a: Seq<Executable>)
    requires
        a.len() > 0,
    ensures
        unbatched(a.drop_last()) == unbatched(a).drop_last(),
{
    assert(unbatched(a.drop_last()) =~= unbatched(a).drop_last());
}

/// Whether two streams under construction differ in batching alone: they
/// have the same table, and with every write loop turned into a loop
/// they are the same stream.
pub open spec fn same_unbatched(b: Lowered, u: Lowered) -> bool {
    b.table == u.table && unbatched(b.stream) == unbatched(u.stream)
}

/// A loop closed behind two bodies that differ in batching alone gives
/// streams that differ in batching alone.
proof fn lemma_closed(
    b: Lowered,
    u: Lowered,
    s: int,
    start_b: Executable,
    end_b: Executable,
    start_u: Executable,
    end_u: Executable,
)
    requires
        same_unbatched(b, u),
        0 <= s < u.stream.len(),
        unbatched_op(start_b) == unbatched_op(start_u),
        unbatched_op(end_b) == unbatched_op(end_u),
    ensures
        unbatched(b.stream.push(end_b).update(s, start_b)) == unbatched(
            u.stream.push(end_u).update(s, start_u),
        ),
        b.stream.len() == u.stream.len(),
{
    assert(unbatched(b.stream).len() == unbatched(u.stream).len());
    lemma_unbatched_push(b.stream, end_b);
    lemma_unbatched_push(u.stream, end_u);
    lemma_unbatched_update(b.stream.push(end_b), s, start_b);
    lemma_unbatched_update(u.stream.push(end_u), s, start_u);
}

/// Lowering does not look at batching: trees that differ in batching
/// alone, lowered behind streams that differ in batching alone, give
/// streams that differ in batching alone.
pub proof fn lemma_batched_lowering(b: Lowered, u: Lowered, os: Seq<Node>, ns: Seq<Node>)
    requires
        batched(os, ns),
        same_unbatched(b, u),
    ensures
        same_unbatched(lower(b, ns), lower(u, os)),
    decreases os, 1int,
{
    if os.len() > 0 {
        lemma_batched_lowering(b, u, os.drop_last(), ns.drop_last());
        lemma_batched_node_lowering(
            lower(b, ns.drop_last()),
            lower(u, os.drop_last()),
            os.last(),
            ns.last(),
        );
    } else {
        assert(ns.len() == 0);
    }
}

/// Lowering a node does not look at batching.
pub proof fn lemma_batched_node_lowering(b: Lowered, u: Lowered, o: Node, n: Node)
    requires
        batched_node(o, n),
        same_unbatched(b, u),
    ensures
        same_unbatched(lower_node(b, n), lower_node(u, o)),
    decreases o, 0int,
{
    assert(b.stream.len() == u.stream.len()) by {
        assert(unbatched(b.stream).len() == unbatched(u.stream).len());
    }
    let s = u.stream.len() as int;
    match o {
        Node::Loop(c) => {
            let ou = Lowered { stream: u.stream.push(Executable::LStart(0)), ..u };
            lemma_unbatched_push(u.stream, Executable::LStart(0));
            lemma_lower_grows(ou, c);
            let bu = lower(ou, c);
            if n is Loop {
                let ob = Lowered { stream: b.stream.push(Executable::LStart(0)), ..b };
                lemma_unbatched_push(b.stream, Executable::LStart(0));
                lemma_batched_lowering(ob, ou, c, n->Loop_0);
                let bb = lower(ob, n->Loop_0);
                assert(bb.stream.len() == bu.stream.len()) by {
                    assert(unbatched(bb.stream).len() == unbatched(bu.stream).len());
                }
                lemma_closed(
                    bb,
                    bu,
                    s,
                    Executable::LStart(crate::lower::low32(bb.stream.len() as int)),
                    Executable::LEnd(crate::lower::low32(s)),
                    Executable::LStart(crate::lower::low32(bu.stream.len() as int)),
                    Executable::LEnd(crate::lower::low32(s)),
                );
            } else {
                let ob = Lowered { stream: b.stream.push(Executable::WLStart(0)), ..b };
                lemma_unbatched_push(b.stream, Executable::WLStart(0));
                lemma_batched_lowering(ob, ou, c, n->WriteLoop_0);
                let bb = lower(ob, n->WriteLoop_0);
                assert(bb.stream.len() == bu.stream.len()) by {
                    assert(unbatched(bb.stream).len() == unbatched(bu.stream).len());
                }
                lemma_closed(
                    bb,
                    bu,
                    s,
                    Executable::WLStart(crate::lower::low32(bb.stream.len() as int)),
                    Executable::WLEnd(crate::lower::low32(s)),
                    Executable::LStart(crate::lower::low32(bu.stream.len() as int)),
                    Executable::LEnd(crate::lower::low32(s)),
                );
            }
        },
        Node::If(c) => {
            let ou = Lowered { stream: u.stream.push(Executable::LStart(0)), ..u };
            let ob = Lowered { stream: b.stream.push(Executable::LStart(0)), ..b };
            lemma_unbatched_push(u.stream, Executable::LStart(0));
            lemma_unbatched_push(b.stream, Executable::LStart(0));
            lemma_lower_grows(ou, c);
            lemma_batched_lowering(ob, ou, c, n->If_0);
            let bu = lower(ou, c);
            let bb = lower(ob, n->If_0);
            assert(bb.stream.len() == bu.stream.len()) by {
                assert(unbatched(bb.stream).len() == unbatched(bu.stream).len());
            }
            if bu.stream.len() - 1 == s {
                lemma_unbatched_drop_last(bb.stream);
                lemma_unbatched_drop_last(bu.stream);
            } else {
                lemma_closed(
                    bb,
                    bu,
                    s,
                    Executable::LStart(crate::lower::low32(bb.stream.len() as int)),
                    Executable::LEnd(crate::lower::low32(s)),
                    Executable::LStart(crate::lower::low32(bu.stream.len() as int)),
                    Executable::LEnd(crate::lower::low32(s)),
                );
            }
        },
        Node::WriteLoop(_) => {},
        Node::Zero => {
            lemma_unbatched_push(b.stream, Executable::Zero);
            lemma_unbatched_push(u.stream, Executable::Zero);
        },
        Node::Inc(by) => {
            lemma_unbatched_push(b.stream, Executable::Inc(by));
            lemma_unbatched_push(u.stream, Executable::Inc(by));
        },
        Node::Dec(by) => {
            lemma_unbatched_push(b.stream, Executable::Dec(by));
            lemma_unbatched_push(u.stream, Executable::Dec(by));
        },
        Node::IncPtr(by) => {
            let op = Executable::IncPtr(crate::lower::low32(by as int));
            lemma_unbatched_push(b.stream, op);
            lemma_unbatched_push(u.stream, op);
        },
        Node::DecPtr(by) => {
            let op = Executable::DecPtr(crate::lower::low32(by as int));
            lemma_unbatched_push(b.stream, op);
            lemma_unbatched_push(u.stream, op);
        },
        Node::Read => {
            lemma_unbatched_push(b.stream, Executable::Read);
            lemma_unbatched_push(u.stream, Executable::Read);
        },
        Node::Write => {
            lemma_unbatched_push(b.stream, Executable::Write);
            lemma_unbatched_push(u.stream, Executable::Write);
        },
        Node::Mul(lo, hi, args) => {
            let r = crate::lower::Recipe { lo, hi, args };
            let op = Executable::Multiply(crate::lower::low32(crate::lower::index_of(u.table, r)));
            lemma_unbatched_push(b.stream, op);
            lemma_unbatched_push(u.stream, op);
        },
    }
}

/// The stream lowered from a tree without write loops holds none: taking
/// batching away changes nothing.
pub proof fn lemma_plain_lowering(l: Lowered, s: Seq<Node>)
    requires
        no_wl(s),
        unbatched(l.stream) == l.stream,
    ensures
        unbatched(lower(l, s).stream) == lower(l, s).stream,
    decreases s, 1int,
{
    if s.len() > 0 {
        lemma_plain_lowering(l, s.drop_last());
        lemma_plain_node_lowering(lower(l, s.drop_last()), s.last());
    }
}

/// The stream behind which a node without write loops was lowered holds
/// no write loop, if it held none before.
pub proof fn lemma_plain_node_lowering(l: Lowered, n: Node)
    requires
        no_wl_node(n),
        unbatched(l.stream) == l.stream,
    ensures
        unbatched(lower_node(l, n).stream) == lower_node(l, n).stream,
    decreases n, 0int,
{
    let s = l.stream.len() as int;
    match n {
        Node::Loop(c) => {
            let o = Lowered { stream: l.stream.push(Executable::LStart(0)), ..l };
            lemma_unbatched_push(l.stream, Executable::LStart(0));
            lemma_plain_lowering(o, c);
            lemma_lower_grows(o, c);
            let body = lower(o, c);
            let end = Executable::LEnd(crate::lower::low32(s));
            let start = Executable::LStart(crate::lower::low32(body.stream.len() as int));
            lemma_unbatched_push(body.stream, end);
            lemma_unbatched_update(body.stream.push(end), s, start);
        },
        Node::If(c) => {
            let o = Lowered { stream: l.stream.push(Executable::LStart(0)), ..l };
            lemma_unbatched_push(l.stream, Executable::LStart(0));
            lemma_plain_lowering(o, c);
            lemma_lower_grows(o, c);
            let body = lower(o, c);
            if body.stream.len() - 1 == s {
                lemma_unbatched_drop_last(body.stream);
            } else {
                let end = Executable::LEnd(crate::lower::low32(s));
                let start = Executable::LStart(crate::lower::low32(body.stream.len() as int));
                lemma_unbatched_push(body.stream, end);
                lemma_unbatched_update(body.stream.push(end), s, start);
            }
        },
        _ => {
            assert(unbatched(lower_node(l, n).stream) =~= lower_node(l, n).stream);
        },
    }
}

/// Turning loops into write loops keeps the output. Let a tree without
/// write loops be lowered as it is, and again with its write loops
/// marked. Then on every machine, however far the two streams are run,
/// they are at the same instruction, with the same error or none, the
/// same tape, head and input, and have written the same bytes in the
/// same order: with what the write loops have gathered handed on, as it
/// is when a run is over, the writer holds the same bytes.
pub proof fn lemma_write_loops_keep_output(tree: Seq<Node>, m: Machine, n: nat)
    requires
        no_wl(tree),
    ensures
        ({
            let b = lower(nothing(), wl_rewritten(tree));
            let u = lower(nothing(), tree);
            let rb = xsteps(b.stream, b.table, XRun::at(m, 0), n);
            let ru = xsteps(u.stream, u.table, XRun::at(m, 0), n);
            &&& b.table == u.table
            &&& b.stream.len() == u.stream.len()
            &&& rb.idx == ru.idx
            &&& rb.fault == ru.fault
            &&& rb.machine.cells == ru.machine.cells
            &&& rb.machine.ptr == ru.machine.ptr
            &&& rb.machine.input == ru.machine.input
            &&& settled(rb).output == ru.machine.output
        }),
{
    let b = lower(nothing(), wl_rewritten(tree));
    let u = lower(nothing(), tree);
    assert(unbatched(nothing().stream) =~= nothing().stream);
    lemma_wl_batched(tree);
    lemma_batched_lowering(nothing(), nothing(), tree, wl_rewritten(tree));
    lemma_plain_lowering(nothing(), tree);
    assert(unbatched(b.stream) == u.stream);
    assert(b.stream.len() == u.stream.len()) by {
        assert(unbatched(b.stream).len() == b.stream.len());
    }
    let start = XRun::at(m, 0);
    assert(m.output + Seq::<u8>::empty() =~= m.output);
    lemma_batching_keeps_output(b.stream, b.table, start, start, n);
}

} // verus!
