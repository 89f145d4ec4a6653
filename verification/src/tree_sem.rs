//! What a loop tree means: its nodes run one after the other, a loop as
//! long as the head cell is not zero. The executable stream lowered from a
//! tree does what the tree means.

use crate::error::BfExecErrorTy;
use crate::interpreter::behind;
use crate::ir::Node;
use crate::lower::{
    index_of, lemma_index_of, lemma_lower_grows, low32, lower, lower_node, Executable, Lowered,
    Recipe,
};
use crate::state::Machine;
use crate::stream::{
    emit, lemma_xfinished_stays, lemma_xsteps_add, xeffect, xfinished, xstep, xsteps, XRun, BATCH,
};
use vstd::prelude::*;

verus! {

/// The state a tree works on: the machine, the bytes gathered and not
/// yet handed to the writer, and whether a write loop is gathering.
pub struct TState {
    pub machine: Machine,
    pub pending: Seq<u8>,
    pub batching: bool,
}

/// What running a tree with some fuel comes to: it ends on a state; it
/// stops with an error on a state, raised by a fused loop whose range
/// leaves the tape or by another node; or the fuel runs out.
pub enum TOut {
    Done(TState),
    Fault(BfExecErrorTy, TState, bool),
    Timeout,
}

impl TOut {
    /// Whether the tree came to an end, or to an error that no fused loop
    /// raised.
    pub open spec fn settles(self) -> bool {
        match self {
            TOut::Done(_) => true,
            TOut::Fault(_, _, fused) => !fused,
            TOut::Timeout => false,
        }
    }
}

/// The state of a run of the executable stream.
pub open spec fn state_of(r: XRun) -> TState {
    TState { machine: r.machine, pending: r.pending, batching: r.batching }
}

/// The run that is at `idx` in the state `st`, with no error.
pub open spec fn run_in(st: TState, idx: int) -> XRun {
    XRun { machine: st.machine, idx, fault: None, pending: st.pending, batching: st.batching }
}

/// The state with another machine.
pub open spec fn on(st: TState, m: Machine) -> TState {
    TState { machine: m, ..st }
}

/// What a node that is no loop does.
pub open spec fn leaf(n: Node, st: TState) -> TOut {
    let m = st.machine;
    match n {
        Node::Zero => TOut::Done(on(st, m.zero())),
        Node::Inc(by) => TOut::Done(on(st, m.inc(by as int % m.modulus))),
        Node::Dec(by) => TOut::Done(on(st, m.dec(by as int % m.modulus))),
        Node::IncPtr(by) => if m.can_inc_ptr(by as int) {
            TOut::Done(on(st, m.inc_ptr(by as int)))
        } else {
            TOut::Fault(BfExecErrorTy::Overflow, st, false)
        },
        Node::DecPtr(by) => if m.can_dec_ptr(by as int) {
            TOut::Done(on(st, m.dec_ptr(by as int)))
        } else {
            TOut::Fault(BfExecErrorTy::Underflow, st, false)
        },
        Node::Read => if st.batching {
            let handed = TState { machine: emit(m, st.pending).read(), pending: Seq::empty(), ..st };
            if m.can_read() {
                TOut::Done(handed)
            } else {
                TOut::Fault(BfExecErrorTy::IOError, handed, false)
            }
        } else if m.can_read() {
            TOut::Done(on(st, m.read()))
        } else {
            TOut::Fault(BfExecErrorTy::IOError, on(st, m.read()), false)
        },
        Node::Write => if st.batching {
            let byte = (m.head() % 0x100) as u8;
            if st.pending.len() == BATCH {
                TOut::Done(TState { machine: emit(m, st.pending), pending: seq![byte], ..st })
            } else {
                TOut::Done(TState { pending: st.pending.push(byte), ..st })
            }
        } else {
            TOut::Done(on(st, m.write()))
        },
        Node::Mul(lo, hi, args) => match m.mul_fault(lo, hi) {
            Some(e) => TOut::Fault(e, st, true),
            None => TOut::Done(on(st, m.mul(args))),
        },
        _ => TOut::Done(st),
    }
}

/// What is done when a write loop is left: the gathered bytes are handed
/// to the writer and gathering ends.
pub open spec fn handed_on(st: TState) -> TState {
    TState { machine: emit(st.machine, st.pending), pending: Seq::empty(), batching: false }
}

/// What a node does with `fuel` for the rounds of its loops. A loop runs
/// its body as long as the head cell is not zero; an `If` is a loop whose
/// body ends by clearing the head cell, and means what that loop means;
/// a write loop gathers what its body writes and hands it on when it is
/// left.
pub open spec fn tnode(n: Node, st: TState, fuel: nat) -> TOut
    decreases fuel, n, 0int,
{
    match n {
        Node::Loop(body) => if st.machine.head() == 0 {
            TOut::Done(st)
        } else {
            rounds(body, st, fuel, false)
        },
        Node::WriteLoop(body) => if st.machine.head() == 0 {
            TOut::Done(st)
        } else {
            rounds(body, TState { batching: true, ..st }, fuel, true)
        },
        Node::If(body) => if st.machine.head() == 0 {
            TOut::Done(st)
        } else {
            rounds(body, st, fuel, false)
        },
        other => leaf(other, st),
    }
}

/// The rounds of a loop that has been entered: the body, and again as
/// long as the head cell is not zero. Each round takes one from the fuel.
pub open spec fn rounds(body: Seq<Node>, st: TState, fuel: nat, gathering: bool) -> TOut
    decreases fuel, body, 1int,
{
    if fuel == 0 {
        TOut::Timeout
    } else {
        match tseq(body, st, (fuel - 1) as nat) {
            TOut::Done(after) => if after.machine.head() != 0 {
                rounds(body, after, (fuel - 1) as nat, gathering)
            } else if gathering {
                TOut::Done(handed_on(after))
            } else {
                TOut::Done(after)
            },
            other => other,
        }
    }
}

/// What a sequence of nodes does, one after the other.
pub open spec fn tseq(s: Seq<Node>, st: TState, fuel: nat) -> TOut
    decreases fuel, s, 2int,
{
    if s.len() == 0 {
        TOut::Done(st)
    } else {
        match tseq(s.drop_last(), st, fuel) {
            TOut::Done(after) => tnode(s.last(), after, fuel),
            other => other,
        }
    }
}

/// Whether `out` goes on from `l`: what `l` holds is still there.
pub open spec fn extends(l: Lowered, out: Lowered) -> bool {
    &&& l.stream.len() <= out.stream.len()
    &&& l.table.len() <= out.table.len()
    &&& forall|i: int| 0 <= i < l.stream.len() ==> #[trigger] out.stream[i] == l.stream[i]
    &&& forall|i: int| 0 <= i < l.table.len() ==> #[trigger] out.table[i] == l.table[i]
}

/// Lowering goes on from what is there.
pub proof fn lemma_lower_extends(l: Lowered, s: Seq<Node>)
    ensures
        extends(l, lower(l, s)),
    decreases s, 1int,
{
    if s.len() > 0 {
        lemma_lower_extends(l, s.drop_last());
        lemma_lower_node_extends(lower(l, s.drop_last()), s.last());
    }
}

/// Lowering a node goes on from what is there.
pub proof fn lemma_lower_node_extends(l: Lowered, n: Node)
    ensures
        extends(l, lower_node(l, n)),
    decreases n, 0int,
{
    match n {
        Node::Loop(children) => {
            let opened = Lowered { stream: l.stream.push(Executable::LStart(0)), ..l };
            lemma_lower_extends(opened, children);
            assert forall|i: int| 0 <= i < l.stream.len() implies #[trigger] opened.stream[i]
                == l.stream[i] by {}
        },
        Node::WriteLoop(children) => {
            let opened = Lowered { stream: l.stream.push(Executable::WLStart(0)), ..l };
            lemma_lower_extends(opened, children);
            assert forall|i: int| 0 <= i < l.stream.len() implies #[trigger] opened.stream[i]
                == l.stream[i] by {}
        },
        Node::If(children) => {
            let opened = Lowered { stream: l.stream.push(Executable::LStart(0)), ..l };
            lemma_lower_extends(opened, children);
            assert forall|i: int| 0 <= i < l.stream.len() implies #[trigger] opened.stream[i]
                == l.stream[i] by {}
        },
        Node::Mul(lo, hi, args) => {
            lemma_index_of(l.table, Recipe { lo, hi, args });
        },
        _ => {},
    }
}

/// Whether the stream `x` with the table `tab` holds what lowering made
/// of some nodes behind `l`: the instructions from the end of `l` to the
/// end of `out`, and the recipes of `out`.
pub open spec fn placed(x: Seq<Executable>, tab: Seq<Recipe>, l: Lowered, out: Lowered) -> bool {
    &&& l.stream.len() <= out.stream.len() <= x.len()
    &&& out.table.len() <= tab.len()
    &&& forall|i: int| l.stream.len() <= i < out.stream.len() ==> #[trigger] x[i] == out.stream[i]
    &&& forall|i: int| 0 <= i < out.table.len() ==> #[trigger] tab[i] == out.table[i]
}

/// The loop whose body is lowered behind a loop start: the stream with
/// the place for the loop start taken.
pub open spec fn opened(l: Lowered, start: Executable) -> Lowered {
    Lowered { stream: l.stream.push(start), ..l }
}

/// Whether the tree is in order: no head move is by more than 32 bits
/// can hold, every term of a fused loop lies within the offsets the loop
/// is said to reach, and the body of every `If` ends by clearing the head
/// cell.
pub open spec fn small(s: Seq<Node>) -> bool
    decreases s, 1int,
{
    if s.len() == 0 {
        true
    } else {
        small(s.drop_last()) && small_node(s.last())
    }
}

/// Whether the node, with what is below it, is in order.
pub open spec fn small_node(n: Node) -> bool
    decreases n, 0int,
{
    match n {
        Node::IncPtr(by) => by <= u32::MAX,
        Node::DecPtr(by) => by <= u32::MAX,
        Node::Mul(lo, hi, args) => Machine::args_within(args, lo, hi),
        Node::Loop(children) => small(children),
        Node::If(children) => small(children) && children.len() > 0 && children.last() is Zero,
        Node::WriteLoop(children) => small(children),
        _ => true,
    }
}

/// Whether indices into the stream and the table fit in 32 bits.
pub open spec fn fits(x: Seq<Executable>, tab: Seq<Recipe>) -> bool {
    x.len() <= u32::MAX && tab.len() <= u32::MAX
}

/// Whether `n` steps of the stream from `start` come to what the tree
/// came to: to the state it ended on, at `end`; to the error it stopped
/// with, at a fused loop if one raised it; or, when the fuel of the tree
/// ran out, at least `fuel` less `slack` steps on without an end.
pub open spec fn realized(
    x: Seq<Executable>,
    tab: Seq<Recipe>,
    start: XRun,
    end: int,
    out: TOut,
    fuel: nat,
    slack: nat,
    n: nat,
) -> bool {
    let r = xsteps(x, tab, start, n);
    match out {
        TOut::Done(after) => r == run_in(after, end),
        TOut::Fault(e, after, fused) => r.fault == Some(e) && state_of(r) == after && 0 <= r.idx
            < x.len() && fused == (x[r.idx] is Multiply),
        TOut::Timeout => n + slack >= fuel && r.fault is None && 0 <= r.idx < x.len(),
    }
}

/// One step is the first of many.
pub proof fn lemma_xsteps_one(x: Seq<Executable>, tab: Seq<Recipe>, r: XRun)
    ensures
        xsteps(x, tab, r, 1) == xstep(x, tab, r),
{
    assert(xsteps(x, tab, r, 1) == xsteps(x, tab, xstep(x, tab, r), 0));
}

/// What the stream holds where a loop stands: behind the body, at `e`,
/// the end of the loop, which points back at its start.
pub open spec fn loop_end_at(
    x: Seq<Executable>,
    o: Lowered,
    body: Seq<Node>,
    e: int,
    gathering: bool,
) -> bool {
    let inner = lower(o, body);
    let base = o.stream.len() - 1;
    &&& base >= 0
    &&& e < x.len()
    &&& e == inner.stream.len()
    &&& if gathering {
        x[e] == Executable::WLEnd(base as u32)
    } else {
        x[e] == Executable::LEnd(base as u32)
    }
}

/// The stream does what a sequence of nodes does.
pub proof fn lemma_realize_seq(
    x: Seq<Executable>,
    tab: Seq<Recipe>,
    l: Lowered,
    s: Seq<Node>,
    st: TState,
    fuel: nat,
) -> (n: nat)
    requires
        fits(x, tab),
        small(s),
        placed(x, tab, l, lower(l, s)),
    ensures
        realized(
            x,
            tab,
            run_in(st, l.stream.len() as int),
            lower(l, s).stream.len() as int,
            tseq(s, st, fuel),
            fuel,
            0,
            n,
        ),
    decreases fuel, s, 2int,
{
    let start = run_in(st, l.stream.len() as int);
    if s.len() == 0 {
        0
    } else {
        let front = s.drop_last();
        let lf = lower(l, front);
        let out = lower(l, s);
        lemma_lower_extends(l, front);
        lemma_lower_node_extends(lf, s.last());
        assert(placed(x, tab, l, lf)) by {
            assert forall|i: int| l.stream.len() <= i < lf.stream.len() implies #[trigger] x[i]
                == lf.stream[i] by {
                assert(out.stream[i] == lf.stream[i]);
            }
            assert forall|i: int| 0 <= i < lf.table.len() implies #[trigger] tab[i]
                == lf.table[i] by {
                assert(out.table[i] == lf.table[i]);
            }
        }
        assert(placed(x, tab, lf, out));
        let n1 = lemma_realize_seq(x, tab, l, front, st, fuel);
        match tseq(front, st, fuel) {
            TOut::Done(mid) => {
                let n2 = lemma_realize_node(x, tab, lf, s.last(), mid, fuel);
                lemma_xsteps_add(x, tab, start, n1, n2);
                (n1 + n2) as nat
            },
            _ => n1,
        }
    }
}

/// The stream does what the rounds of a loop do.
pub proof fn lemma_realize_rounds(
    x: Seq<Executable>,
    tab: Seq<Recipe>,
    o: Lowered,
    body: Seq<Node>,
    st: TState,
    fuel: nat,
    e: int,
    gathering: bool,
) -> (n: nat)
    requires
        fits(x, tab),
        small(body),
        placed(x, tab, o, lower(o, body)),
        loop_end_at(x, o, body, e, gathering),
    ensures
        realized(
            x,
            tab,
            run_in(st, o.stream.len() as int),
            e + 1,
            rounds(body, st, fuel, gathering),
            fuel,
            1,
            n,
        ),
    decreases fuel, body, 1int,
{
    let start = run_in(st, o.stream.len() as int);
    let inner = lower(o, body);
    let base = o.stream.len() - 1;
    lemma_lower_grows(o, body);
    if fuel == 0 {
        0
    } else {
        let n1 = lemma_realize_seq(x, tab, o, body, st, (fuel - 1) as nat);
        match tseq(body, st, (fuel - 1) as nat) {
            TOut::Done(after) => {
                let at_end = run_in(after, inner.stream.len() as int);
                let stepped = xstep(x, tab, at_end);
                lemma_xsteps_one(x, tab, at_end);
                lemma_xsteps_add(x, tab, start, n1, 1);
                assert(stepped == xeffect(x[e], at_end, x.len() as int, tab));
                assert(behind(base, x.len() as int) == base + 1);
                if after.machine.head() != 0 {
                    assert(stepped == run_in(after, base + 1));
                    let n2 = lemma_realize_rounds(
                        x,
                        tab,
                        o,
                        body,
                        after,
                        (fuel - 1) as nat,
                        e,
                        gathering,
                    );
                    lemma_xsteps_add(x, tab, start, n1 + 1, n2);
                    (n1 + 1 + n2) as nat
                } else {
                    (n1 + 1) as nat
                }
            },
            _ => n1,
        }
    }
}

/// The stream does what a node does.
pub proof fn lemma_realize_node(
    x: Seq<Executable>,
    tab: Seq<Recipe>,
    l: Lowered,
    n: Node,
    st: TState,
    fuel: nat,
) -> (k: nat)
    requires
        fits(x, tab),
        small_node(n),
        placed(x, tab, l, lower_node(l, n)),
    ensures
        realized(
            x,
            tab,
            run_in(st, l.stream.len() as int),
            lower_node(l, n).stream.len() as int,
            tnode(n, st, fuel),
            fuel,
            0,
            k,
        ),
    decreases fuel, n, 0int,
{
    let base = l.stream.len() as int;
    let start = run_in(st, base);
    let out = lower_node(l, n);
    let len = x.len() as int;
    match n {
        Node::Loop(body) => {
            let o = opened(l, Executable::LStart(0));
            let inner = lower(o, body);
            lemma_lower_grows(o, body);
            lemma_lower_extends(o, body);
            let e = inner.stream.len() as int;
            assert(x[base] == out.stream[base]);
            assert(x[e] == out.stream[e]);
            assert(x[base] == Executable::LStart(e as u32));
            assert(placed(x, tab, o, inner)) by {
                assert forall|i: int| o.stream.len() <= i < inner.stream.len() implies #[trigger] x[i]
                    == inner.stream[i] by {
                    assert(x[i] == out.stream[i]);
                }
                assert forall|i: int| 0 <= i < inner.table.len() implies #[trigger] tab[i]
                    == inner.table[i] by {
                    assert(tab[i] == out.table[i]);
                }
            }
            assert(loop_end_at(x, o, body, e, false));
            let stepped = xstep(x, tab, start);
            lemma_xsteps_one(x, tab, start);
            assert(stepped == xeffect(x[base], start, len, tab));
            if st.machine.head() == 0 {
                assert(behind(e, len) == e + 1);
                1
            } else {
                assert(stepped == run_in(st, base + 1));
                let n2 = lemma_realize_rounds(x, tab, o, body, st, fuel, e, false);
                lemma_xsteps_add(x, tab, start, 1, n2);
                (1 + n2) as nat
            }
        },
        Node::WriteLoop(body) => {
            let o = opened(l, Executable::WLStart(0));
            let inner = lower(o, body);
            lemma_lower_grows(o, body);
            lemma_lower_extends(o, body);
            let e = inner.stream.len() as int;
            assert(x[base] == out.stream[base]);
            assert(x[e] == out.stream[e]);
            assert(placed(x, tab, o, inner)) by {
                assert forall|i: int| o.stream.len() <= i < inner.stream.len() implies #[trigger] x[i]
                    == inner.stream[i] by {
                    assert(x[i] == out.stream[i]);
                }
                assert forall|i: int| 0 <= i < inner.table.len() implies #[trigger] tab[i]
                    == inner.table[i] by {
                    assert(tab[i] == out.table[i]);
                }
            }
            assert(loop_end_at(x, o, body, e, true));
            let stepped = xstep(x, tab, start);
            lemma_xsteps_one(x, tab, start);
            assert(stepped == xeffect(x[base], start, len, tab));
            if st.machine.head() == 0 {
                assert(behind(e, len) == e + 1);
                1
            } else {
                let gathering = TState { batching: true, ..st };
                assert(stepped == run_in(gathering, base + 1));
                let n2 = lemma_realize_rounds(x, tab, o, body, gathering, fuel, e, true);
                lemma_xsteps_add(x, tab, start, 1, n2);
                (1 + n2) as nat
            }
        },
        Node::If(body) => {
            let o = opened(l, Executable::LStart(0));
            let inner = lower(o, body);
            lemma_lower_grows(o, body);
            lemma_lower_extends(o, body);
            // the body ends by clearing the head cell: it is not empty
            assert(inner.stream.len() > o.stream.len()) by {
                lemma_lower_grows(o, body.drop_last());
                assert(inner == lower_node(lower(o, body.drop_last()), body.last()));
            }
            let e = inner.stream.len() as int;
            assert(x[base] == out.stream[base]);
            assert(x[e] == out.stream[e]);
            assert(x[base] == Executable::LStart(e as u32));
            assert(placed(x, tab, o, inner)) by {
                assert forall|i: int| o.stream.len() <= i < inner.stream.len() implies #[trigger] x[i]
                    == inner.stream[i] by {
                    assert(x[i] == out.stream[i]);
                }
                assert forall|i: int| 0 <= i < inner.table.len() implies #[trigger] tab[i]
                    == inner.table[i] by {
                    assert(tab[i] == out.table[i]);
                }
            }
            assert(loop_end_at(x, o, body, e, false));
            let stepped = xstep(x, tab, start);
            lemma_xsteps_one(x, tab, start);
            assert(stepped == xeffect(x[base], start, len, tab));
            if st.machine.head() == 0 {
                assert(behind(e, len) == e + 1);
                1
            } else {
                assert(stepped == run_in(st, base + 1));
                let n2 = lemma_realize_rounds(x, tab, o, body, st, fuel, e, false);
                lemma_xsteps_add(x, tab, start, 1, n2);
                (1 + n2) as nat
            }
        },
        Node::Mul(lo, hi, args) => {
            let recipe = Recipe { lo, hi, args };
            lemma_index_of(l.table, recipe);
            let i = index_of(l.table, recipe);
            assert(x[base] == out.stream[base]);
            assert(x[base] == Executable::Multiply(i as u32));
            assert(out.table[i] == recipe);
            assert(tab[i] == out.table[i]);
            let stepped = xstep(x, tab, start);
            lemma_xsteps_one(x, tab, start);
            assert(stepped == xeffect(x[base], start, len, tab));
            if st.machine.mul_fault(lo, hi) is Some {
                assert(state_of(stepped) == st);
            }
            1
        },
        _ => {
            assert(x[base] == out.stream[base]);
            let stepped = xstep(x, tab, start);
            lemma_xsteps_one(x, tab, start);
            assert(stepped == xeffect(x[base], start, len, tab));
            match n {
                Node::IncPtr(by) => {
                    assert(low32(by as int) == by);
                },
                Node::DecPtr(by) => {
                    assert(low32(by as int) == by);
                },
                _ => {},
            }
            1
        },
    }
}

/// More fuel changes nothing once a sequence has come to an end or to
/// an error.
pub proof fn lemma_tseq_more_fuel(s: Seq<Node>, st: TState, fuel: nat, more: nat)
    requires
        fuel <= more,
        !(tseq(s, st, fuel) is Timeout),
    ensures
        tseq(s, st, more) == tseq(s, st, fuel),
    decreases fuel, s, 2int,
{
    if s.len() > 0 {
        match tseq(s.drop_last(), st, fuel) {
            TOut::Done(mid) => {
                lemma_tseq_more_fuel(s.drop_last(), st, fuel, more);
                lemma_tnode_more_fuel(s.last(), mid, fuel, more);
            },
            _ => {
                lemma_tseq_more_fuel(s.drop_last(), st, fuel, more);
            },
        }
    }
}

/// More fuel changes nothing once a node has come to an end or to an
/// error.
pub proof fn lemma_tnode_more_fuel(n: Node, st: TState, fuel: nat, more: nat)
    requires
        fuel <= more,
        !(tnode(n, st, fuel) is Timeout),
    ensures
        tnode(n, st, more) == tnode(n, st, fuel),
    decreases fuel, n, 0int,
{
    match n {
        Node::Loop(body) => {
            if st.machine.head() != 0 {
                lemma_rounds_more_fuel(body, st, fuel, more, false);
            }
        },
        Node::WriteLoop(body) => {
            if st.machine.head() != 0 {
                lemma_rounds_more_fuel(body, TState { batching: true, ..st }, fuel, more, true);
            }
        },
        Node::If(body) => {
            if st.machine.head() != 0 {
                lemma_rounds_more_fuel(body, st, fuel, more, false);
            }
        },
        _ => {},
    }
}

/// More fuel changes nothing once the rounds of a loop have come to an
/// end or to an error.
pub proof fn lemma_rounds_more_fuel(
    body: Seq<Node>,
    st: TState,
    fuel: nat,
    more: nat,
    gathering: bool,
)
    requires
        fuel <= more,
        !(rounds(body, st, fuel, gathering) is Timeout),
    ensures
        rounds(body, st, more, gathering) == rounds(body, st, fuel, gathering),
    decreases fuel, body, 1int,
{
    if fuel > 0 {
        lemma_tseq_more_fuel(body, st, (fuel - 1) as nat, (more - 1) as nat);
        match tseq(body, st, (fuel - 1) as nat) {
            TOut::Done(after) => {
                if after.machine.head() != 0 {
                    lemma_rounds_more_fuel(
                        body,
                        after,
                        (fuel - 1) as nat,
                        (more - 1) as nat,
                        gathering,
                    );
                }
            },
            _ => {},
        }
    }
}

/// A run of the stream that has come to its end is over.
pub proof fn lemma_never_later(x: Seq<Executable>, tab: Seq<Recipe>, r: XRun, n: nat, later: nat)
    requires
        xfinished(x, xsteps(x, tab, r, n)),
        n <= later,
    ensures
        xsteps(x, tab, r, later) == xsteps(x, tab, r, n),
{
    lemma_xsteps_add(x, tab, r, n, (later - n) as nat);
    lemma_xfinished_stays(x, tab, xsteps(x, tab, r, n), (later - n) as nat);
}

/// Whether a run was stopped by a fused loop whose range leaves the
/// tape.
pub open spec fn stopped_by_fused(x: Seq<Executable>, r: XRun) -> bool {
    r.fault is Some && 0 <= r.idx < x.len() && x[r.idx] is Multiply
}

/// What the stream comes to, the tree comes to. When the stream lowered
/// from a tree comes to its end or to an error, the tree comes, with
/// fuel enough, to the same: it ends on the state the stream ends on, or
/// stops with the same error on the same state.
pub proof fn lemma_stream_end_is_tree_end(
    x: Seq<Executable>,
    tab: Seq<Recipe>,
    s: Seq<Node>,
    st: TState,
    n: nat,
) -> (fuel: nat)
    requires
        fits(x, tab),
        small(s),
        (Lowered { stream: x, table: tab }) == lower(
            Lowered { stream: Seq::empty(), table: Seq::empty() },
            s,
        ),
        xfinished(x, xsteps(x, tab, run_in(st, 0), n)),
    ensures
        match xsteps(x, tab, run_in(st, 0), n).fault {
            None => tseq(s, st, fuel) == TOut::Done(state_of(xsteps(x, tab, run_in(st, 0), n))),
            Some(e) => tseq(s, st, fuel) == TOut::Fault(
                e,
                state_of(xsteps(x, tab, run_in(st, 0), n)),
                stopped_by_fused(x, xsteps(x, tab, run_in(st, 0), n)),
            ),
        },
{
    let l = Lowered { stream: Seq::empty(), table: Seq::empty() };
    let start = run_in(st, 0);
    let end = xsteps(x, tab, start, n);
    let fuel = (n + 1) as nat;
    assert(placed(x, tab, l, lower(l, s)));
    let k = lemma_realize_seq(x, tab, l, s, st, fuel);
    let r = xsteps(x, tab, start, k);
    match tseq(s, st, fuel) {
        TOut::Done(after) => {
            assert(r == run_in(after, x.len() as int));
            assert(xfinished(x, r));
            if k <= n {
                lemma_never_later(x, tab, start, k, n);
            } else {
                lemma_never_later(x, tab, start, n, k);
            }
        },
        TOut::Fault(e, after, fused) => {
            assert(xfinished(x, r));
            if k <= n {
                lemma_never_later(x, tab, start, k, n);
            } else {
                lemma_never_later(x, tab, start, n, k);
            }
        },
        TOut::Timeout => {
            lemma_never_later(x, tab, start, n, k);
        },
    }
    fuel
}

} // verus!
