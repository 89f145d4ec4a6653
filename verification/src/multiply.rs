//! Fused multiply loops: a loop whose body only steps cells and moves the
//! head, brings the head back and takes one from the head cell does what
//! its fused form does.

use crate::interpreter::behind;
use crate::ir::{
    lemma_sim_none, lemma_sim_ok, multiply_of, sim, sim_args, sim_node, sim_ok, sim_start, MulArg,
    Node, Sim,
};
use crate::lower::{low32, lower, lower_node, Executable, Lowered, Recipe};
use crate::state::Machine;
use crate::stream::{clearing_at, lemma_xsteps_add, xstep, xsteps, XRun};
use vstd::arithmetic::div_mod::{lemma_add_mod_noop_right, lemma_small_mod, lemma_sub_mod_noop_right};
use vstd::prelude::*;

verus! {

/// The instruction a cell or head step of a loop body lowers to.
pub open spec fn op_of(n: Node) -> Executable {
    match n {
        Node::Inc(by) => Executable::Inc(by),
        Node::Dec(by) => Executable::Dec(by),
        Node::IncPtr(by) => Executable::IncPtr(low32(by as int)),
        Node::DecPtr(by) => Executable::DecPtr(low32(by as int)),
        _ => Executable::Zero,
    }
}

/// Whether the loop with the body `body` stands at `s` in the stream: a
/// loop start, one instruction for each node of the body, and a loop end,
/// the two ends pointing at each other.
pub open spec fn loop_at(stream: Seq<Executable>, s: int, body: Seq<Node>) -> bool {
    let e = s + 1 + body.len();
    &&& 0 <= s
    &&& e < stream.len()
    &&& e <= u32::MAX
    &&& stream[s] == Executable::LStart(e as u32)
    &&& stream[e] == Executable::LEnd(s as u32)
    &&& forall|j: int| 0 <= j < body.len() ==> #[trigger] stream[s + 1 + j] == op_of(body[j])
}

/// The tape with `delta[i]` added to the cell `i - 32` cells from `p0`,
/// for each of the 64 offsets that lies on the tape.
pub open spec fn plus(cells: Seq<int>, p0: int, delta: Seq<int>, md: int) -> Seq<int> {
    Seq::new(
        cells.len(),
        |j: int|
            if 0 <= j - p0 + 32 < 64 {
                (cells[j] + delta[j - p0 + 32]) % md
            } else {
                cells[j]
            },
    )
}

/// Each of 64 changes taken `k` times.
pub open spec fn scaled(delta: Seq<int>, k: int) -> Seq<int> {
    Seq::new(64, |i: int| k * delta[i])
}

/// The fronts of a body that can be tried out can be tried out, and they
/// reach no further than the body.
pub proof fn lemma_sim_front(body: Seq<Node>, j: int)
    requires
        0 <= j <= body.len(),
        sim(body) is Some,
    ensures
        sim(body.take(j)) is Some,
        sim_ok(sim(body.take(j)).unwrap()),
        sim(body).unwrap().lo <= sim(body.take(j)).unwrap().lo,
        sim(body.take(j)).unwrap().hi <= sim(body).unwrap().hi,
        j < body.len() ==> sim(body.take(j + 1)) == sim_node(
            sim(body.take(j)).unwrap(),
            body[j],
        ),
    decreases body.len() - j,
{
    lemma_sim_none(body.take(j), body, j);
    lemma_sim_ok(body.take(j));
    if j < body.len() {
        assert(body.take(j + 1).drop_last() =~= body.take(j));
        assert(body.take(j + 1).last() == body[j]);
        lemma_sim_front(body, j + 1);
    } else {
        assert(body.take(j) =~= body);
    }
}

/// The machine after the first `j` nodes of a body that started on `m0`.
pub open spec fn after_front(m0: Machine, body: Seq<Node>, j: int) -> Machine {
    let s = sim(body.take(j)).unwrap();
    laid_on(m0, s)
}

/// Adding to a tape in order keeps it in order.
proof fn lemma_plus_wf(m0: Machine, delta: Seq<int>, ptr: int)
    requires
        m0.wf(),
        0 <= ptr < m0.cells.len(),
    ensures
        (Machine { cells: plus(m0.cells, m0.ptr, delta, m0.modulus), ptr, ..m0 }).wf(),
{
    let m = Machine { cells: plus(m0.cells, m0.ptr, delta, m0.modulus), ptr, ..m0 };
    assert forall|i: int| 0 <= i < m.cells.len() implies 0 <= #[trigger] m.cells[i]
        < m.modulus by {
        assert(0 <= m0.cells[i] < m0.modulus);
    }
}

/// The machine on which the scratch tape `sc` of a trial run has been
/// laid: each cell has gained what the scratch cell holds, and the head
/// stands where the scratch head stands.
pub open spec fn laid_on(m0: Machine, sc: Sim) -> Machine {
    Machine {
        cells: plus(m0.cells, m0.ptr, sc.cells, m0.modulus),
        ptr: m0.ptr + sc.idx - 32,
        ..m0
    }
}

/// A cell step on the tape is the cell step on the scratch tape.
proof fn lemma_cell_step_on_tape(m0: Machine, before: Sim, after: Sim, change: int, by: int)
    requires
        m0.wf(),
        before.cells.len() == 64,
        0 <= before.idx < 64,
        0 <= m0.ptr + before.idx - 32 < m0.cells.len(),
        after == (Sim {
            cells: before.cells.update(before.idx, before.cells[before.idx] + change),
            ..before
        }),
        by % m0.modulus == change % m0.modulus,
    ensures
        laid_on(m0, before).set((laid_on(m0, before).head() + by) % m0.modulus) == laid_on(
            m0,
            after,
        ),
{
    let md = m0.modulus;
    let mb = laid_on(m0, before);
    let ma = laid_on(m0, after);
    let q = mb.ptr;
    let base = m0.cells[q] + before.cells[before.idx];
    assert(mb.head() == base % md);
    assert((base % md + by) % md == (base + change) % md) by {
        lemma_add_mod_noop_right(by, base, md);
        vstd::arithmetic::div_mod::lemma_add_mod_noop(base, by, md);
        vstd::arithmetic::div_mod::lemma_add_mod_noop(base, change, md);
    }
    assert forall|i: int| 0 <= i < m0.cells.len() implies mb.set((mb.head() + by) % md).cells[i]
        == ma.cells[i] by {
        if i != q {
            assert(i - m0.ptr + 32 != before.idx);
        }
    }
    assert(mb.set((mb.head() + by) % md).cells =~= ma.cells);
}

/// What one node of the body does on the tape is what it does on the
/// scratch tape.
proof fn lemma_node_on_tape(m0: Machine, before: Sim, node: Node)
    requires
        m0.wf(),
        sim_ok(before),
        sim_node(before, node) is Some,
        sim_ok(sim_node(before, node).unwrap()),
        0 <= m0.ptr + before.idx - 32 < m0.cells.len(),
        0 <= m0.ptr + sim_node(before, node).unwrap().idx - 32 < m0.cells.len(),
    ensures
        match node {
            Node::Inc(by) => laid_on(m0, before).inc(by as int % m0.modulus) == laid_on(
                m0,
                sim_node(before, node).unwrap(),
            ),
            Node::Dec(by) => laid_on(m0, before).dec(by as int % m0.modulus) == laid_on(
                m0,
                sim_node(before, node).unwrap(),
            ),
            Node::IncPtr(by) => by < 64 && laid_on(m0, before).can_inc_ptr(by as int) && laid_on(
                m0,
                before,
            ).inc_ptr(by as int) == laid_on(m0, sim_node(before, node).unwrap()),
            Node::DecPtr(by) => by < 64 && laid_on(m0, before).can_dec_ptr(by as int) && laid_on(
                m0,
                before,
            ).dec_ptr(by as int) == laid_on(m0, sim_node(before, node).unwrap()),
            _ => false,
        },
{
    let md = m0.modulus;
    let after = sim_node(before, node).unwrap();
    let mb = laid_on(m0, before);
    match node {
        Node::Inc(by) => {
            vstd::arithmetic::div_mod::lemma_mod_twice(by as int, md);
            lemma_cell_step_on_tape(m0, before, after, by as int, by as int % md);
        },
        Node::Dec(by) => {
            vstd::arithmetic::div_mod::lemma_mod_twice(by as int, md);
            let v = by as int % md;
            assert((0 - v) % md == (0 - by as int) % md) by {
                vstd::arithmetic::div_mod::lemma_sub_mod_noop_right(0, by as int, md);
            }
            lemma_cell_step_on_tape(m0, before, after, 0 - by as int, 0 - v);
            assert(mb.head() - v == mb.head() + (0 - v));
        },
        _ => {},
    }
}

/// What the body does, node by node. Run from the instruction behind the
/// loop start, on a tape that holds every offset the body reaches, the
/// first `j` instructions of the body add to each cell what the trial run
/// on the scratch tape added, and leave the head where the trial run
/// left it.
proof fn lemma_body_front(
    stream: Seq<Executable>,
    table: Seq<Recipe>,
    r: XRun,
    s: int,
    body: Seq<Node>,
    j: int,
)
    requires
        loop_at(stream, s, body),
        sim(body) is Some,
        0 <= j <= body.len(),
        r.idx == s + 1,
        r.fault is None,
        r.machine.wf(),
        0 <= r.machine.ptr + sim(body).unwrap().lo,
        r.machine.ptr + sim(body).unwrap().hi < r.machine.cells.len(),
    ensures
        xsteps(stream, table, r, j as nat) == r.go(after_front(r.machine, body, j), s + 1 + j),
        after_front(r.machine, body, j).wf(),
    decreases j,
{
    let m0 = r.machine;
    let md = m0.modulus;
    lemma_sim_front(body, j);
    if j == 0 {
        assert(body.take(0) =~= Seq::<Node>::empty());
        assert(sim(body.take(0)) == Some(sim_start()));
        assert forall|i: int| 0 <= i < m0.cells.len() implies plus(
            m0.cells,
            m0.ptr,
            sim_start().cells,
            md,
        )[i] == m0.cells[i] by {
            lemma_small_mod(m0.cells[i] as nat, md as nat);
        }
        assert(plus(m0.cells, m0.ptr, sim_start().cells, md) =~= m0.cells);
        assert(after_front(m0, body, 0) == m0);
    } else {
        lemma_body_front(stream, table, r, s, body, j - 1);
        lemma_sim_front(body, j - 1);
        let before = sim(body.take(j - 1)).unwrap();
        let after = sim(body.take(j)).unwrap();
        let mb = after_front(m0, body, j - 1);
        let ma = after_front(m0, body, j);
        let rb = r.go(mb, s + j);
        let node = body[j - 1];
        assert(stream[s + 1 + (j - 1)] == op_of(node));
        assert(sim_node(before, node) == Some(after));
        assert(mb == laid_on(m0, before));
        assert(ma == laid_on(m0, after));
        lemma_node_on_tape(m0, before, node);
        lemma_body_step(stream, table, rb, node, ma);
        lemma_xsteps_add(stream, table, r, (j - 1) as nat, 1);
        let stepped = xstep(stream, table, rb);
        assert(xsteps(stream, table, rb, 1) == xsteps(stream, table, stepped, 0));
        lemma_plus_wf(m0, after.cells, ma.ptr);
    }
}

/// One instruction of the body does to the run what its node does to the
/// machine.
proof fn lemma_body_step(
    stream: Seq<Executable>,
    table: Seq<Recipe>,
    rb: XRun,
    node: Node,
    ma: Machine,
)
    requires
        rb.fault is None,
        0 <= rb.idx < stream.len(),
        stream[rb.idx] == op_of(node),
        match node {
            Node::Inc(by) => rb.machine.inc(by as int % rb.machine.modulus) == ma,
            Node::Dec(by) => rb.machine.dec(by as int % rb.machine.modulus) == ma,
            Node::IncPtr(by) => by < 64 && rb.machine.can_inc_ptr(by as int)
                && rb.machine.inc_ptr(by as int) == ma,
            Node::DecPtr(by) => by < 64 && rb.machine.can_dec_ptr(by as int)
                && rb.machine.dec_ptr(by as int) == ma,
            _ => false,
        },
    ensures
        xstep(stream, table, rb) == rb.go(ma, rb.idx + 1),
{
    match node {
        Node::IncPtr(by) => {
            assert(low32(by as int) == by);
        },
        Node::DecPtr(by) => {
            assert(low32(by as int) == by);
        },
        _ => {},
    }
}

/// Adding twice is adding the sum.
proof fn lemma_plus_plus(cells: Seq<int>, p0: int, a: Seq<int>, b: Seq<int>, sum: Seq<int>, md: int)
    requires
        md > 0,
        a.len() == 64,
        b.len() == 64,
        sum.len() == 64,
        forall|i: int| 0 <= i < 64 ==> #[trigger] sum[i] == a[i] + b[i],
    ensures
        plus(plus(cells, p0, a, md), p0, b, md) == plus(cells, p0, sum, md),
{
    assert forall|j: int| 0 <= j < cells.len() implies plus(plus(cells, p0, a, md), p0, b, md)[j]
        == plus(cells, p0, sum, md)[j] by {
        if 0 <= j - p0 + 32 < 64 {
            let i = j - p0 + 32;
            assert(sum[i] == a[i] + b[i]);
            lemma_add_mod_noop_right(b[i], cells[j] + a[i], md);
        }
    }
    assert(plus(plus(cells, p0, a, md), p0, b, md) =~= plus(cells, p0, sum, md));
}

/// Once more is one more time.
proof fn lemma_scaled_next(delta: Seq<int>, k: int)
    requires
        delta.len() == 64,
    ensures
        forall|i: int|
            0 <= i < 64 ==> #[trigger] scaled(delta, k + 1)[i] == scaled(delta, k)[i] + delta[i],
{
    assert forall|i: int| 0 <= i < 64 implies #[trigger] scaled(delta, k + 1)[i] == scaled(
        delta,
        k,
    )[i] + delta[i] by {
        assert((k + 1) * delta[i] == k * delta[i] + delta[i]) by (nonlinear_arith);
    }
}

/// The machine after `k` rounds of a loop that started on `m0`.
pub open spec fn after_rounds(m0: Machine, body: Seq<Node>, k: int) -> Machine {
    Machine {
        cells: plus(m0.cells, m0.ptr, scaled(sim(body).unwrap().cells, k), m0.modulus),
        ..m0
    }
}

/// What the loop does, round by round. With `k` rounds done and the head
/// cell not yet zero, the loop goes on until the head cell is zero, and
/// comes out behind the loop end after as many rounds as the head cell
/// held at the start.
proof fn lemma_rounds(
    stream: Seq<Executable>,
    table: Seq<Recipe>,
    r: XRun,
    s: int,
    body: Seq<Node>,
    m0: Machine,
    k: int,
) -> (n: nat)
    requires
        loop_at(stream, s, body),
        multiply_of(body) is Some,
        m0.wf(),
        0 <= m0.ptr + sim(body).unwrap().lo,
        m0.ptr + sim(body).unwrap().hi < m0.cells.len(),
        0 <= k < m0.head(),
        r.idx == s + 1,
        r.fault is None,
        r.machine == after_rounds(m0, body, k),
    ensures
        xsteps(stream, table, r, n) == r.go(
            after_rounds(m0, body, m0.head()),
            s + 2 + body.len(),
        ),
    decreases m0.head() - k,
{
    let md = m0.modulus;
    let v = m0.head();
    let full = sim(body).unwrap();
    let len = body.len() as int;
    let e = s + 1 + len;
    lemma_sim_ok(body);
    let mk = after_rounds(m0, body, k);
    lemma_plus_wf(m0, scaled(full.cells, k), m0.ptr);
    assert(mk.wf());
    lemma_body_front(stream, table, r, s, body, len);
    assert(body.take(len) =~= body);
    let mb = after_front(mk, body, len);
    assert(mb.ptr == m0.ptr);
    lemma_scaled_next(full.cells, k);
    lemma_plus_plus(
        m0.cells,
        m0.ptr,
        scaled(full.cells, k),
        full.cells,
        scaled(full.cells, k + 1),
        md,
    );
    assert(mb == after_rounds(m0, body, k + 1));
    let at_end = r.go(mb, e);
    assert(xsteps(stream, table, r, len as nat) == at_end);
    let head = mb.head();
    assert(head == (v + (k + 1) * full.cells[32]) % md) by {
        assert(scaled(full.cells, k + 1)[32] == (k + 1) * full.cells[32]);
    }
    assert((k + 1) * full.cells[32] == -(k + 1)) by (nonlinear_arith)
        requires
            full.cells[32] == -1,
    ;
    assert(head == v - (k + 1)) by {
        lemma_small_mod((v - (k + 1)) as nat, md as nat);
    }
    let next = xstep(stream, table, at_end);
    assert(xsteps(stream, table, at_end, 1) == next) by {
        assert(xsteps(stream, table, at_end, 1) == xsteps(stream, table, next, 0));
    }
    lemma_xsteps_add(stream, table, r, len as nat, 1);
    if head == 0 {
        assert(next == r.go(mb, e + 1));
        (len + 1) as nat
    } else {
        assert(behind(s, stream.len() as int) == s + 1);
        assert(next == r.go(mb, s + 1));
        let more = lemma_rounds(stream, table, next, s, body, m0, k + 1);
        lemma_xsteps_add(stream, table, r, (len + 1) as nat, more);
        (len + 1 + more) as nat
    }
}

/// The tape after the first `upto` scratch cells have been turned into
/// terms and added `v` times: what the fused multiply computes.
proof fn lemma_mul_cells(m: Machine, d: Seq<int>, v: int, upto: int)
    requires
        m.wf(),
        d.len() == 64,
        0 <= upto <= 64,
        forall|i: int| 0 <= i < 64 ==> i64::MIN <= #[trigger] d[i] <= i64::MAX,
        forall|i: int|
            0 <= i < 64 && #[trigger] d[i] != 0 ==> 0 <= m.ptr + i - 32 < m.cells.len(),
    ensures
        m.mul_cells(v, sim_args(d, upto)).len() == m.cells.len(),
        forall|j: int|
            0 <= j < m.cells.len() ==> #[trigger] m.mul_cells(v, sim_args(d, upto))[j] == (if 0
                <= j - m.ptr + 32 < upto && j != m.ptr && d[j - m.ptr + 32] != 0 {
                (m.cells[j] + v * d[j - m.ptr + 32]) % m.modulus
            } else {
                m.cells[j]
            }),
    decreases upto,
{
    if upto > 0 {
        lemma_mul_cells(m, d, v, upto - 1);
        let i = upto - 1;
        let rest = sim_args(d, upto - 1);
        if d[i] != 0 && i != 32 {
            let arg = MulArg { offset: (i - 32) as isize, change: d[i] as i64 };
            let all = rest.push(arg);
            assert(sim_args(d, upto) == all);
            assert(all.drop_last() =~= rest);
            assert(all.last() == arg);
            let before = m.mul_cells(v, rest);
            let at = m.ptr + arg.offset;
            assert(at == m.ptr + i - 32);
            assert(before[at] == m.cells[at]);
        }
    }
}

/// A fused multiply loop does what its loop does. Let a loop stand at `s`
/// whose body has the fused form `(lo, hi, args)`, and let the tape hold
/// every offset from `lo` to `hi` around the head. Then the run of the
/// loop comes to an end behind the loop, on the machine that the fused
/// multiply with `args` makes: the head cell is zero, and each other cell
/// has gained the old head value times its change.
pub proof fn lemma_multiply_loop(
    stream: Seq<Executable>,
    table: Seq<Recipe>,
    r: XRun,
    s: int,
    body: Seq<Node>,
)
    requires
        loop_at(stream, s, body),
        multiply_of(body) is Some,
        r.idx == s,
        r.fault is None,
        r.machine.wf(),
        r.machine.mul_fault(multiply_of(body).unwrap().0, multiply_of(body).unwrap().1) is None,
    ensures
        exists|n: nat| #[trigger]
            xsteps(stream, table, r, n) == r.go(
                r.machine.mul(multiply_of(body).unwrap().2),
                s + 2 + body.len(),
            ),
{
    let m = r.machine;
    let md = m.modulus;
    let v = m.head();
    let full = sim(body).unwrap();
    let args = multiply_of(body).unwrap().2;
    let e = s + 1 + body.len();
    lemma_sim_ok(body);
    assert(args == sim_args(full.cells, 64));
    // what the fused multiply makes, cell by cell
    let z = m.zero();
    assert(z.wf()) by {
        assert forall|i: int| 0 <= i < z.cells.len() implies 0 <= #[trigger] z.cells[i]
            < z.modulus by {
            if i != m.ptr {
                assert(z.cells[i] == m.cells[i]);
            }
        }
    }
    lemma_mul_cells(z, full.cells, v, 64);
    let target = after_rounds(m, body, v);
    assert(m.mul(args).cells =~= target.cells) by {
        assert forall|j: int| 0 <= j < m.cells.len() implies m.mul(args).cells[j]
            == target.cells[j] by {
            let i = j - m.ptr + 32;
            if 0 <= i < 64 {
                assert(scaled(full.cells, v)[i] == v * full.cells[i]);
                if j == m.ptr {
                    assert(v * full.cells[32] == -v) by (nonlinear_arith)
                        requires
                            full.cells[32] == -1,
                    ;
                    assert((v + (0 - v)) % md == 0) by {
                        lemma_small_mod(0, md as nat);
                    }
                } else if full.cells[i] == 0 {
                    assert(v * full.cells[i] == 0) by (nonlinear_arith)
                        requires
                            full.cells[i] == 0,
                    ;
                    lemma_small_mod(m.cells[j] as nat, md as nat);
                }
            }
        }
    }
    assert(m.mul(args) == target);
    let first = xstep(stream, table, r);
    assert(xsteps(stream, table, r, 1) == first) by {
        assert(xsteps(stream, table, r, 1) == xsteps(stream, table, first, 0));
    }
    if v == 0 {
        assert(behind(e, stream.len() as int) == e + 1);
        assert(first == r.go(m, e + 1));
        assert(target.cells =~= m.cells) by {
            assert forall|j: int| 0 <= j < m.cells.len() implies target.cells[j]
                == m.cells[j] by {
                let i = j - m.ptr + 32;
                if 0 <= i < 64 {
                    assert(scaled(full.cells, 0)[i] == 0 * full.cells[i]);
                    lemma_small_mod(m.cells[j] as nat, md as nat);
                }
            }
        }
        assert(xsteps(stream, table, r, 1) == r.go(m.mul(args), s + 2 + body.len()));
    } else {
        assert(first == r.go(m, s + 1));
        assert(after_rounds(m, body, 0).cells =~= m.cells) by {
            assert forall|j: int| 0 <= j < m.cells.len() implies after_rounds(m, body, 0).cells[j]
                == m.cells[j] by {
                let i = j - m.ptr + 32;
                if 0 <= i < 64 {
                    assert(scaled(full.cells, 0)[i] == 0 * full.cells[i]);
                    lemma_small_mod(m.cells[j] as nat, md as nat);
                }
            }
        }
        assert(after_rounds(m, body, 0) == m);
        let more = lemma_rounds(stream, table, first, s, body, m, 0);
        lemma_xsteps_add(stream, table, r, 1, more);
        assert(xsteps(stream, table, r, 1 + more) == r.go(m.mul(args), s + 2 + body.len()));
    }
}

/// The instructions of a body of cell and head steps, in order.
pub open spec fn ops_of(body: Seq<Node>) -> Seq<Executable> {
    Seq::new(body.len(), |j: int| op_of(body[j]))
}

/// A body that can be tried out lowers to one instruction for each node,
/// and enters no recipe.
pub proof fn lemma_lower_steps(l: Lowered, body: Seq<Node>)
    requires
        sim(body) is Some,
    ensures
        lower(l, body) == (Lowered { stream: l.stream + ops_of(body), ..l }),
    decreases body.len(),
{
    if body.len() == 0 {
        assert(l.stream + ops_of(body) =~= l.stream);
    } else {
        let front = body.drop_last();
        assert(front =~= body.take(body.len() - 1));
        lemma_sim_front(body, body.len() - 1);
        lemma_lower_steps(l, front);
        assert(body.take(body.len() as int) =~= body);
        let node = body.last();
        assert(sim_node(sim(front).unwrap(), node) is Some);
        let prev = lower(l, front);
        assert(lower(l, body) == lower_node(prev, node));
        assert(lower_node(prev, node) == (Lowered {
            stream: prev.stream.push(op_of(node)),
            ..prev
        }));
        assert(ops_of(body) =~= ops_of(front).push(op_of(node)));
        assert(prev.stream.push(op_of(node)) =~= l.stream + ops_of(body));
    }
}

/// A loop that has a fused form lowers to a loop start, one instruction
/// for each node of its body, and a loop end, the two ends pointing at
/// each other: the loop of which `lemma_multiply_loop` speaks.
pub proof fn lemma_lowered_loop(l: Lowered, body: Seq<Node>)
    requires
        multiply_of(body) is Some,
        l.stream.len() + 1 + body.len() <= u32::MAX,
    ensures
        loop_at(lower_node(l, Node::Loop(body)).stream, l.stream.len() as int, body),
        lower_node(l, Node::Loop(body)).stream.len() == l.stream.len() + 2 + body.len(),
        lower_node(l, Node::Loop(body)).table == l.table,
{
    let s = l.stream.len() as int;
    let opened = Lowered { stream: l.stream.push(Executable::LStart(0)), ..l };
    lemma_lower_steps(opened, body);
    let inner = lower(opened, body);
    assert(body.len() > 0) by {
        if body.len() == 0 {
            assert(sim(body) == Some(sim_start()));
        }
    }
    lemma_sim_front(body, body.len() - 1);
    assert(body.take(body.len() as int) =~= body);
    assert(inner.stream.last() == op_of(body.last()));
    assert(!(inner.stream.last() is LEnd));
    let out = lower_node(l, Node::Loop(body)).stream;
    assert forall|j: int| 0 <= j < body.len() implies #[trigger] out[s + 1 + j] == op_of(
        body[j],
    ) by {
        assert(inner.stream[s + 1 + j] == ops_of(body)[j]);
    }
}

/// A loop whose body is one `Inc(1)` or one `Dec(1)` lowers to the loop
/// of which `lemma_clearing_loop` speaks.
pub proof fn lemma_lowered_clearing(l: Lowered, up: bool)
    requires
        l.stream.len() + 2 <= u32::MAX,
    ensures
        clearing_at(
            lower_node(
                l,
                Node::Loop(
                    seq![if up {
                        Node::Inc(1)
                    } else {
                        Node::Dec(1)
                    }],
                ),
            ).stream,
            l.stream.len() as int,
        ),
        lower_node(
            l,
            Node::Loop(
                seq![if up {
                    Node::Inc(1)
                } else {
                    Node::Dec(1)
                }],
            ),
        ).stream.len() == l.stream.len() + 3,
        lower_node(
            l,
            Node::Loop(
                seq![if up {
                    Node::Inc(1)
                } else {
                    Node::Dec(1)
                }],
            ),
        ).table == l.table,
{
    let node = if up {
        Node::Inc(1)
    } else {
        Node::Dec(1)
    };
    let body = seq![node];
    let opened = Lowered { stream: l.stream.push(Executable::LStart(0)), ..l };
    assert(body.drop_last() =~= Seq::<Node>::empty());
    assert(body.last() == node);
    assert(lower(opened, body.drop_last()) == opened);
    assert(lower(opened, body) == lower_node(opened, node));
}

} // verus!
