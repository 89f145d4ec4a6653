//! The executable stream and its interpreter, with fused multiply loops
//! and batched output inside write loops.

use crate::cell::BfOptimizable;
use crate::compiler::STREAM_LIMIT;
use crate::error::{BfCompError, BfExecError, BfExecErrorTy};
use crate::interpreter::behind;
use crate::ir::{muls_ok, nodes, ITree};
use crate::lower::{
    lemma_lower_ok, lower, lowered_ok, recipes, DistinctMultiply, Executable, Lowered,
    MultiplyCache, Recipe,
};
use crate::state::{BfState, Machine};
use vstd::prelude::*;

verus! {

/// How many bytes a write loop gathers before it hands them on.
pub const BATCH: usize = 32;

/// A point in a run of the executable stream: the machine, the index of
/// the next instruction, the error the run stopped with, the bytes
/// gathered and not yet handed to the writer, and whether a write loop is
/// gathering.
pub struct XRun {
    pub machine: Machine,
    pub idx: int,
    pub fault: Option<BfExecErrorTy>,
    pub pending: Seq<u8>,
    pub batching: bool,
}

impl XRun {
    /// A run about to start at `idx`, with nothing gathered.
    pub open spec fn at(machine: Machine, idx: int) -> XRun {
        XRun { machine, idx, fault: None, pending: Seq::empty(), batching: false }
    }

    /// The same run, moved on to `idx` with the machine `machine`.
    pub open spec fn go(self, machine: Machine, idx: int) -> XRun {
        XRun { machine, idx, ..self }
    }

    /// The same run, stopped with the error `e`.
    pub open spec fn stop(self, machine: Machine, e: BfExecErrorTy) -> XRun {
        XRun { machine, fault: Some(e), ..self }
    }

    /// Everything written so far, whether handed to the writer or still
    /// gathered.
    pub open spec fn all_output(self) -> Seq<u8> {
        self.machine.output + self.pending
    }
}

/// The machine with `bytes` appended to its output.
pub open spec fn emit(m: Machine, bytes: Seq<u8>) -> Machine {
    Machine { output: m.output + bytes, ..m }
}

/// The machine a run leaves behind when it is over: what was still
/// gathered is handed to the writer.
pub open spec fn settled(r: XRun) -> Machine {
    emit(r.machine, r.pending)
}

/// What the instruction `op`, standing at `r.idx` in a stream of `len`
/// instructions with the recipes `table`, does to the run `r`. A read
/// inside a write loop hands what was gathered to the writer first.
pub open spec fn xeffect(op: Executable, r: XRun, len: int, table: Seq<Recipe>) -> XRun {
    let m = r.machine;
    match op {
        Executable::Zero => r.go(m.zero(), r.idx + 1),
        Executable::Inc(by) => r.go(m.inc(by as int % m.modulus), r.idx + 1),
        Executable::Dec(by) => r.go(m.dec(by as int % m.modulus), r.idx + 1),
        Executable::IncPtr(by) => if m.can_inc_ptr(by as int) {
            r.go(m.inc_ptr(by as int), r.idx + 1)
        } else {
            r.stop(m, BfExecErrorTy::Overflow)
        },
        Executable::DecPtr(by) => if m.can_dec_ptr(by as int) {
            r.go(m.dec_ptr(by as int), r.idx + 1)
        } else {
            r.stop(m, BfExecErrorTy::Underflow)
        },
        Executable::WLStart(to) => if m.head() == 0 {
            r.go(m, behind(to as int, len))
        } else {
            XRun { batching: true, idx: r.idx + 1, ..r }
        },
        Executable::WLEnd(to) => if m.head() != 0 {
            r.go(m, behind(to as int, len))
        } else {
            XRun {
                machine: emit(m, r.pending),
                pending: Seq::empty(),
                batching: false,
                idx: r.idx + 1,
                ..r
            }
        },
        Executable::LStart(to) => if m.head() == 0 {
            r.go(m, behind(to as int, len))
        } else {
            r.go(m, r.idx + 1)
        },
        Executable::LEnd(to) => if m.head() != 0 {
            r.go(m, behind(to as int, len))
        } else {
            r.go(m, r.idx + 1)
        },
        Executable::Read => if r.batching {
            let handed = XRun { machine: emit(m, r.pending), pending: Seq::empty(), ..r };
            if m.can_read() {
                handed.go(handed.machine.read(), r.idx + 1)
            } else {
                handed.stop(handed.machine.read(), BfExecErrorTy::IOError)
            }
        } else if m.can_read() {
            r.go(m.read(), r.idx + 1)
        } else {
            r.stop(m.read(), BfExecErrorTy::IOError)
        },
        Executable::Write => if r.batching {
            let byte = (m.head() % 0x100) as u8;
            if r.pending.len() == BATCH {
                XRun { machine: emit(m, r.pending), pending: seq![byte], idx: r.idx + 1, ..r }
            } else {
                XRun { pending: r.pending.push(byte), idx: r.idx + 1, ..r }
            }
        } else {
            r.go(m.write(), r.idx + 1)
        },
        Executable::Multiply(lut) => {
            let recipe = table[lut as int];
            match m.mul_fault(recipe.lo, recipe.hi) {
                Some(e) => r.stop(m, e),
                None => r.go(m.mul(recipe.args), r.idx + 1),
            }
        },
    }
}

/// A run is over once it has stopped with an error or has left the stream.
pub open spec fn xfinished(stream: Seq<Executable>, r: XRun) -> bool {
    r.fault is Some || r.idx < 0 || r.idx >= stream.len()
}

/// One instruction further; a run that is over stays as it is.
pub open spec fn xstep(stream: Seq<Executable>, table: Seq<Recipe>, r: XRun) -> XRun {
    if xfinished(stream, r) {
        r
    } else {
        xeffect(stream[r.idx], r, stream.len() as int, table)
    }
}

/// Up to `n` instructions further.
pub open spec fn xsteps(stream: Seq<Executable>, table: Seq<Recipe>, r: XRun, n: nat) -> XRun
    decreases n,
{
    if n == 0 {
        r
    } else {
        xsteps(stream, table, xstep(stream, table, r), (n - 1) as nat)
    }
}

/// The run from `r` comes to an end.
pub open spec fn xhalts(stream: Seq<Executable>, table: Seq<Recipe>, r: XRun) -> bool {
    exists|n: nat| xfinished(stream, #[trigger] xsteps(stream, table, r, n))
}

/// Where the run from `r` ends, if it does.
pub open spec fn xoutcome(stream: Seq<Executable>, table: Seq<Recipe>, r: XRun) -> XRun {
    xsteps(stream, table, r, choose|n: nat| xfinished(stream, #[trigger] xsteps(stream, table, r, n)))
}

/// What a run reports: nothing when it left the stream, else the error
/// and the index of the instruction that raised it.
pub open spec fn xreport(r: XRun) -> Result<(), BfExecError> {
    match r.fault {
        Some(e) => Err(BfExecError { source: e, idx: r.idx as usize }),
        None => Ok(()),
    }
}

/// A run that is over stays where it is.
pub proof fn lemma_xfinished_stays(stream: Seq<Executable>, table: Seq<Recipe>, r: XRun, n: nat)
    requires
        xfinished(stream, r),
    ensures
        xsteps(stream, table, r, n) == r,
    decreases n,
{
    if n > 0 {
        lemma_xfinished_stays(stream, table, r, (n - 1) as nat);
    }
}

/// Steps add up.
pub proof fn lemma_xsteps_add(
    stream: Seq<Executable>,
    table: Seq<Recipe>,
    r: XRun,
    a: nat,
    b: nat,
)
    ensures
        xsteps(stream, table, r, a + b) == xsteps(stream, table, xsteps(stream, table, r, a), b),
    decreases a,
{
    if a > 0 {
        lemma_xsteps_add(stream, table, xstep(stream, table, r), (a - 1) as nat, b);
    }
}

/// However long a run that has ended is continued, it stays at its
/// outcome.
pub proof fn lemma_xoutcome(stream: Seq<Executable>, table: Seq<Recipe>, r: XRun, n: nat)
    requires
        xfinished(stream, xsteps(stream, table, r, n)),
    ensures
        xhalts(stream, table, r),
        xoutcome(stream, table, r) == xsteps(stream, table, r, n),
{
    let k = choose|k: nat| xfinished(stream, #[trigger] xsteps(stream, table, r, k));
    if k <= n {
        lemma_xsteps_add(stream, table, r, k, (n - k) as nat);
        lemma_xfinished_stays(stream, table, xsteps(stream, table, r, k), (n - k) as nat);
    } else {
        lemma_xsteps_add(stream, table, r, n, (k - n) as nat);
        lemma_xfinished_stays(stream, table, xsteps(stream, table, r, n), (k - n) as nat);
    }
}

/// The instruction with batching taken away: a write loop becomes a loop.
pub open spec fn unbatched_op(op: Executable) -> Executable {
    match op {
        Executable::WLStart(to) => Executable::LStart(to),
        Executable::WLEnd(to) => Executable::LEnd(to),
        other => other,
    }
}

/// The stream with every write loop turned into a loop.
pub open spec fn unbatched(stream: Seq<Executable>) -> Seq<Executable> {
    Seq::new(stream.len(), |i: int| unbatched_op(stream[i]))
}

/// Whether the run `b` of a stream and the run `u` of the same stream
/// without batching are at the same point and have written the same
/// bytes in the same order, be they handed to the writer or still
/// gathered. How much has been flushed is left open.
pub open spec fn same_output(b: XRun, u: XRun) -> bool {
    &&& b.idx == u.idx
    &&& b.fault == u.fault
    &&& b.machine.modulus == u.machine.modulus
    &&& b.machine.cells == u.machine.cells
    &&& b.machine.ptr == u.machine.ptr
    &&& b.machine.input == u.machine.input
    &&& b.machine.starved == u.machine.starved
    &&& b.all_output() == u.machine.output
    &&& u.pending.len() == 0
    &&& !u.batching
    &&& b.batching || b.pending.len() == 0
}

/// One instruction with batching writes what the instruction without
/// batching writes.
pub proof fn lemma_batching_step(stream: Seq<Executable>, table: Seq<Recipe>, b: XRun, u: XRun)
    requires
        same_output(b, u),
    ensures
        same_output(xstep(stream, table, b), xstep(unbatched(stream), table, u)),
{
    let plain = unbatched(stream);
    if !xfinished(stream, b) {
        let op = stream[b.idx];
        assert(plain[u.idx] == unbatched_op(op));
        let nb = xstep(stream, table, b);
        let nu = xstep(plain, table, u);
        let m = b.machine;
        match op {
            Executable::Write => {
                let byte = (m.head() % 0x100) as u8;
                assert(nu.machine.output == u.machine.output.push(byte));
                if b.batching {
                    if b.pending.len() == BATCH {
                        assert(nb.all_output() =~= (m.output + b.pending).push(byte));
                    } else {
                        assert(nb.all_output() =~= (m.output + b.pending).push(byte));
                    }
                } else {
                    assert(b.pending =~= Seq::<u8>::empty());
                    assert(nb.all_output() =~= (m.output + b.pending).push(byte));
                }
            },
            Executable::WLEnd(to) => {
                if m.head() == 0 {
                    assert(nb.all_output() =~= m.output + b.pending);
                }
            },
            Executable::Read => {
                if b.batching {
                    assert(nb.machine.output == m.output + b.pending);
                    assert(nb.all_output() =~= m.output + b.pending);
                    assert(emit(m, b.pending).read().cells == u.machine.read().cells);
                    assert(emit(m, b.pending).read().input == u.machine.read().input);
                }
            },
            Executable::Multiply(lut) => {
                let recipe = table[lut as int];
                assert(m.mul_fault(recipe.lo, recipe.hi) == u.machine.mul_fault(
                    recipe.lo,
                    recipe.hi,
                ));
                assert(m.zero().cells == u.machine.zero().cells);
                lemma_mul_cells_same(m.zero(), u.machine.zero(), m.head(), recipe.args);
            },
            _ => {},
        }
    }
}

/// The fused multiply looks at the tape, the head and the modulus alone.
pub proof fn lemma_mul_cells_same(a: Machine, b: Machine, v: int, args: Seq<crate::ir::MulArg>)
    requires
        a.cells == b.cells,
        a.ptr == b.ptr,
        a.modulus == b.modulus,
    ensures
        a.mul_cells(v, args) == b.mul_cells(v, args),
    decreases args.len(),
{
    if args.len() > 0 {
        lemma_mul_cells_same(a, b, v, args.drop_last());
    }
}

/// Batching keeps the order of the output. However far a stream is run,
/// with batching or without, the bytes written are the same bytes in the
/// same order; with batching some of them may still be gathered. Once
/// what was gathered is handed on, as it is when a run is over, the
/// writer holds the same bytes in both runs; and so it does whenever no
/// write loop is gathering.
pub proof fn lemma_batching_keeps_output(
    stream: Seq<Executable>,
    table: Seq<Recipe>,
    b: XRun,
    u: XRun,
    n: nat,
)
    requires
        same_output(b, u),
    ensures
        same_output(xsteps(stream, table, b, n), xsteps(unbatched(stream), table, u, n)),
        settled(xsteps(stream, table, b, n)).output == xsteps(
            unbatched(stream),
            table,
            u,
            n,
        ).machine.output,
        !xsteps(stream, table, b, n).batching ==> xsteps(stream, table, b, n).machine.output
            == xsteps(unbatched(stream), table, u, n).machine.output,
    decreases n,
{
    if n > 0 {
        lemma_batching_step(stream, table, b, u);
        lemma_batching_keeps_output(
            stream,
            table,
            xstep(stream, table, b),
            xstep(unbatched(stream), table, u),
            (n - 1) as nat,
        );
    }
    let end = xsteps(stream, table, b, n);
    if !end.batching {
        assert(end.pending =~= Seq::<u8>::empty());
        assert(end.all_output() =~= end.machine.output);
    }
}

/// Whether a loop that only steps the head cell once, up or down,
/// stands at `s`: a loop start, `Inc(1)` or `Dec(1)`, and a loop end,
/// the two ends pointing at each other.
pub open spec fn clearing_at(stream: Seq<Executable>, s: int) -> bool {
    &&& 0 <= s
    &&& s + 2 < stream.len()
    &&& stream[s] == Executable::LStart((s + 2) as u32)
    &&& s + 2 <= u32::MAX
    &&& (stream[s + 1] == Executable::Inc(1) || stream[s + 1] == Executable::Dec(1))
    &&& stream[s + 2] == Executable::LEnd(s as u32)
}

/// Inside a clearing loop, with the head cell not zero, the run comes
/// out behind the loop with the head cell zero and nothing else changed.
proof fn lemma_clearing_body(stream: Seq<Executable>, table: Seq<Recipe>, r: XRun, s: int) -> (n:
    nat)
    requires
        clearing_at(stream, s),
        r.idx == s + 1,
        r.fault is None,
        r.machine.wf(),
        r.machine.head() != 0,
    ensures
        xsteps(stream, table, r, n) == r.go(r.machine.zero(), s + 3),
    decreases
            (if stream[s + 1] == Executable::Inc(1) {
                r.machine.modulus - r.machine.head()
            } else {
                r.machine.head()
            }),
{
    let m = r.machine;
    let h = m.head();
    assert(m.modulus >= 2);
    assert(1int % m.modulus == 1) by {
        vstd::arithmetic::div_mod::lemma_small_mod(1, m.modulus as nat);
    }
    let up = stream[s + 1] == Executable::Inc(1);
    let h2 = if up {
        (h + 1) % m.modulus
    } else {
        (h - 1) % m.modulus
    };
    assert(h2 == if up {
        if h + 1 == m.modulus {
            0
        } else {
            h + 1
        }
    } else {
        h - 1
    }) by {
        if up && h + 1 == m.modulus {
            vstd::arithmetic::div_mod::lemma_mod_self_0(m.modulus);
        } else if up {
            vstd::arithmetic::div_mod::lemma_small_mod((h + 1) as nat, m.modulus as nat);
        } else {
            vstd::arithmetic::div_mod::lemma_small_mod((h - 1) as nat, m.modulus as nat);
        }
    }
    let r1 = xstep(stream, table, r);
    assert(r1 == r.go(m.set(h2), s + 2));
    assert(m.set(h2).wf()) by {
        assert forall|i: int| 0 <= i < m.set(h2).cells.len() implies 0 <= #[trigger] m.set(
            h2,
        ).cells[i] < m.modulus by {
            if i != m.ptr {
                assert(m.set(h2).cells[i] == m.cells[i]);
            }
        }
    }
    let r2 = xstep(stream, table, r1);
    assert(xsteps(stream, table, r, 2) == r2) by {
        assert(xsteps(stream, table, r, 2) == xsteps(stream, table, r1, 1));
        assert(xsteps(stream, table, r1, 1) == xsteps(stream, table, r2, 0));
    }
    if h2 == 0 {
        assert(m.set(h2) == m.zero());
        assert(r2 == r.go(m.zero(), s + 3));
        2
    } else {
        assert(r2 == r.go(m.set(h2), s + 1));
        let k = lemma_clearing_body(stream, table, r2, s);
        assert(m.set(h2).zero().cells =~= m.zero().cells);
        assert(m.set(h2).zero() == m.zero());
        lemma_xsteps_add(stream, table, r, 2, k);
        (2 + k) as nat
    }
}

/// A clearing loop clears. A loop whose body is one `Inc(1)` or one
/// `Dec(1)`, entered with any value in the head cell, comes to an end
/// behind the loop, with the head cell zero and the rest of the machine
/// as it was: it does what `Zero` does.
pub proof fn lemma_clearing_loop(stream: Seq<Executable>, table: Seq<Recipe>, r: XRun, s: int)
    requires
        clearing_at(stream, s),
        r.idx == s,
        r.fault is None,
        r.machine.wf(),
    ensures
        exists|n: nat| #[trigger]
            xsteps(stream, table, r, n) == (XRun {
                idx: s + 3,
                ..xeffect(Executable::Zero, r, stream.len() as int, table)
            }),
{
    let m = r.machine;
    let r1 = xstep(stream, table, r);
    assert(xsteps(stream, table, r, 1) == r1) by {
        assert(xsteps(stream, table, r, 1) == xsteps(stream, table, r1, 0));
    }
    if m.head() == 0 {
        assert(m.zero().cells =~= m.cells);
        assert(m.zero() == m);
        assert(r1 == r.go(m.zero(), s + 3));
    } else {
        assert(r1 == r.go(m, s + 1));
        let k = lemma_clearing_body(stream, table, r1, s);
        lemma_xsteps_add(stream, table, r, 1, k);
        assert(xsteps(stream, table, r, 1 + k) == r.go(m.zero(), s + 3));
    }
    assert(r.go(m.zero(), s + 3) == (XRun {
        idx: s + 3,
        ..xeffect(Executable::Zero, r, stream.len() as int, table)
    }));
}

/// The bytes a write loop has gathered, and whether one is gathering.
pub struct WriteBatch {
    pub buf: Vec<u8>,
    pub active: bool,
}

impl WriteBatch {
    /// Nothing gathered, no write loop entered.
    pub fn new() -> (r: Self)
        ensures
            r.buf@ == Seq::<u8>::empty(),
            !r.active,
    {
        WriteBatch { buf: Vec::new(), active: false }
    }
}

/// Whether every term of every recipe lies within the recipe's range.
pub open spec fn table_ok(table: Seq<Recipe>) -> bool {
    forall|i: int|
        0 <= i < table.len() ==> Machine::args_within(
            (#[trigger] table[i]).args,
            table[i].lo,
            table[i].hi,
        )
}

/// Whether every fused loop of the stream points at a recipe.
pub open spec fn ops_ok(stream: Seq<Executable>, len: int) -> bool {
    forall|k: int|
        0 <= k < stream.len() ==> (#[trigger] stream[k] matches Executable::Multiply(i) ==> i
            < len)
}

/// An executable stream with the recipes of its fused loops.
#[derive(Debug)]
pub struct InterpreterStream(pub Vec<Executable>, pub Vec<DistinctMultiply>);

impl InterpreterStream {
    /// Every fused loop points at a recipe whose terms lie within its
    /// range.
    pub open spec fn wf(&self) -> bool {
        ops_ok(self.0@, self.1@.len() as int) && table_ok(recipes(self.1@))
    }

    /// The run of this stream that is at `idx` on the machine `m`, with
    /// `batch` gathered.
    pub open spec fn run_at(m: Machine, batch: WriteBatch, idx: int) -> XRun {
        XRun { machine: m, idx, fault: None, pending: batch.buf@, batching: batch.active }
    }

    /// Gathers the low byte of the head cell; a full batch is handed to
    /// the writer first.
    pub fn write<C: BfOptimizable>(buf: &mut Vec<u8>, state: &mut BfState<C>) -> (r: Result<
        (),
        BfExecErrorTy,
    >)
        requires
            old(state).wf(),
            old(buf)@.len() <= BATCH,
        ensures
            r is Ok,
            final(state).wf(),
            final(buf)@.len() <= BATCH,
            old(buf)@.len() == BATCH ==> final(state)@ == emit(old(state)@, old(buf)@)
                && final(buf)@ == seq![(old(state)@.head() % 0x100) as u8],
            old(buf)@.len() < BATCH ==> final(state)@ == old(state)@
                && final(buf)@ == old(buf)@.push((old(state)@.head() % 0x100) as u8),
    {
        if buf.len() == BATCH {
            state.write_all(buf.as_slice());
            buf.clear();
        }
        buf.push(state.get().truncate_u8());
        proof {
            if old(buf)@.len() == BATCH {
                assert(buf@ =~= seq![(old(state)@.head() % 0x100) as u8]);
            }
        }
        Ok(())
    }

    /// Hands what has been gathered to the writer.
    pub fn softflush<C: BfOptimizable>(buf: &mut Vec<u8>, state: &mut BfState<C>) -> (r: Result<
        (),
        BfExecErrorTy,
    >)
        requires
            old(state).wf(),
        ensures
            r is Ok,
            final(state).wf(),
            final(state)@ == emit(old(state)@, old(buf)@),
            final(buf)@ == Seq::<u8>::empty(),
    {
        state.write_all(buf.as_slice());
        buf.clear();
        Ok(())
    }

    /// Executes the instruction at `idx` and says where the run goes on,
    /// or which error stopped it. Before an error is reported, and before
    /// a read, what was gathered is handed to the writer.
    pub fn step<C: BfOptimizable>(
        &self,
        state: &mut BfState<C>,
        batch: &mut WriteBatch,
        idx: usize,
    ) -> (r: Result<usize, BfExecError>)
        requires
            self.wf(),
            old(state).wf(),
            old(batch).buf@.len() <= BATCH,
            idx < self.0@.len(),
        ensures
            final(state).wf(),
            final(batch).buf@.len() <= BATCH,
            match r {
                Ok(next) => xstep(
                    self.0@,
                    recipes(self.1@),
                    Self::run_at(old(state)@, *old(batch), idx as int),
                ) == Self::run_at(final(state)@, *final(batch), next as int),
                Err(e) => {
                    let x = xstep(
                        self.0@,
                        recipes(self.1@),
                        Self::run_at(old(state)@, *old(batch), idx as int),
                    );
                    &&& e.idx == idx
                    &&& x.fault == Some(e.source)
                    &&& x.idx == idx
                    &&& final(state)@ == settled(x)
                    &&& final(batch).buf@ == Seq::<u8>::empty()
                    &&& final(batch).active == x.batching
                },
            },
    {
        let len = self.0.len();
        let mut next = idx + 1;
        proof {
            old(state).lemma_wf();
        }
        let res: Result<(), BfExecErrorTy> = match self.0[idx] {
            Executable::Zero => {
                state.zero();
                Ok(())
            },
            Executable::Inc(by) => {
                state.inc(C::truncate_from(by));
                Ok(())
            },
            Executable::Dec(by) => {
                state.dec(C::truncate_from(by));
                Ok(())
            },
            Executable::IncPtr(by) => state.inc_ptr(by as usize),
            Executable::DecPtr(by) => state.dec_ptr(by as usize),
            Executable::WLStart(to) => {
                if state.jump_forward() {
                    next = jump_behind(to, len);
                } else {
                    batch.active = true;
                }
                Ok(())
            },
            Executable::WLEnd(to) => {
                if state.jump_backward() {
                    next = jump_behind(to, len);
                    Ok(())
                } else {
                    batch.active = false;
                    Self::softflush(&mut batch.buf, state)
                }
            },
            Executable::LStart(to) => {
                if state.jump_forward() {
                    next = jump_behind(to, len);
                }
                Ok(())
            },
            Executable::LEnd(to) => {
                if state.jump_backward() {
                    next = jump_behind(to, len);
                }
                Ok(())
            },
            Executable::Read => {
                if batch.active {
                    let _ = Self::softflush(&mut batch.buf, state);
                }
                state.read()
            },
            Executable::Write => {
                if batch.active {
                    Self::write(&mut batch.buf, state)
                } else {
                    state.write()
                }
            },
            Executable::Multiply(lut) => {
                let dm = &self.1[lut as usize];
                proof {
                    assert(recipes(self.1@)[lut as int] == dm@);
                }
                state.mul(&dm.0, dm.1.as_slice())
            },
        };
        match res {
            Ok(()) => Ok(next),
            Err(source) => {
                let _ = Self::softflush(&mut batch.buf, state);
                Err(BfExecError { source, idx })
            },
        }
    }

    /// Runs the stream from its first instruction to its end or to the
    /// first error. The stream must come to an end on this state.
    ///
    /// However the run ends, every byte written has reached the writer:
    /// what a write loop had gathered when the run stopped is handed on
    /// before the run returns.
    pub fn run<C: BfOptimizable>(&self, state: &mut BfState<C>) -> (r: Result<(), BfExecError>)
        requires
            self.wf(),
            old(state).wf(),
            xhalts(self.0@, recipes(self.1@), XRun::at(old(state)@, 0)),
        ensures
            final(state).wf(),
            final(state)@ == settled(
                xoutcome(self.0@, recipes(self.1@), XRun::at(old(state)@, 0)),
            ),
            r == xreport(xoutcome(self.0@, recipes(self.1@), XRun::at(old(state)@, 0))),
    {
        let ghost stream = self.0@;
        let ghost table = recipes(self.1@);
        let ghost start = XRun::at(state@, 0);
        let ghost mut fuel: nat = choose|n: nat|
            xfinished(stream, #[trigger] xsteps(stream, table, start, n));
        proof {
            lemma_xoutcome(stream, table, start, fuel);
        }
        let mut batch = WriteBatch::new();
        let mut idx: usize = 0;
        while idx < self.0.len()
            invariant
                self.wf(),
                state.wf(),
                batch.buf@.len() <= BATCH,
                stream == self.0@,
                table == recipes(self.1@),
                start == XRun::at(old(state)@, 0),
                xfinished(
                    stream,
                    xsteps(stream, table, Self::run_at(state@, batch, idx as int), fuel),
                ),
                xsteps(stream, table, Self::run_at(state@, batch, idx as int), fuel) == xoutcome(
                    stream,
                    table,
                    start,
                ),
            decreases fuel,
        {
            let ghost here = Self::run_at(state@, batch, idx as int);
            proof {
                assert(!xfinished(stream, here));
                assert(fuel > 0) by {
                    if fuel == 0 {
                        assert(xsteps(stream, table, here, 0) == here);
                    }
                }
                assert(xsteps(stream, table, here, fuel) == xsteps(
                    stream,
                    table,
                    xstep(stream, table, here),
                    (fuel - 1) as nat,
                ));
            }
            match self.step(state, &mut batch, idx) {
                Ok(next) => {
                    idx = next;
                },
                Err(e) => {
                    proof {
                        lemma_xfinished_stays(
                            stream,
                            table,
                            xstep(stream, table, here),
                            (fuel - 1) as nat,
                        );
                    }
                    return Err(e);
                },
            }
            proof {
                fuel = (fuel - 1) as nat;
            }
        }
        proof {
            lemma_xfinished_stays(stream, table, Self::run_at(state@, batch, idx as int), fuel);
        }
        let _ = Self::softflush(&mut batch.buf, state);
        Ok(())
    }
}

/// Where a jump to the partner at `to` continues.
fn jump_behind(to: u32, len: usize) -> (r: usize)
    ensures
        r as int == behind(to as int, len as int),
{
    let to = to as usize;
    if to >= len {
        len
    } else {
        to + 1
    }
}

impl ITree {
    /// Lowers a tree to an executable stream with its table of recipes.
    /// Fails with `Overflow` when the stream would hold more than
    /// `STREAM_LIMIT` instructions.
    pub fn synthesize(this: &[Self]) -> (r: Result<InterpreterStream, BfCompError>)
        ensures
            match r {
                Ok(out) => {
                    &&& (Lowered { stream: out.0@, table: recipes(out.1@) }) == lower(
                        Lowered { stream: Seq::empty(), table: Seq::empty() },
                        nodes(this@),
                    )
                    &&& out.0@.len() <= STREAM_LIMIT
                    &&& muls_ok(nodes(this@)) ==> out.wf()
                },
                Err(e) => e == BfCompError::Overflow && lower(
                    Lowered { stream: Seq::empty(), table: Seq::empty() },
                    nodes(this@),
                ).stream.len() > STREAM_LIMIT,
            },
    {
        let mut cache = MultiplyCache::default();
        let mut stream: Vec<Executable> = Vec::new();
        proof {
            assert(recipes(cache.0@) =~= Seq::<Recipe>::empty());
        }
        Self::synth_inner(this, &mut stream, &mut cache);
        if stream.len() > STREAM_LIMIT {
            return Err(BfCompError::Overflow);
        }
        proof {
            if muls_ok(nodes(this@)) {
                lemma_lower_ok(
                    Lowered { stream: Seq::empty(), table: Seq::empty() },
                    nodes(this@),
                );
                let l = Lowered { stream: stream@, table: recipes(cache.0@) };
                assert(lowered_ok(l));
                assert forall|i: int| 0 <= i < l.table.len() implies Machine::args_within(
                    (#[trigger] l.table[i]).args,
                    l.table[i].lo,
                    l.table[i].hi,
                ) by {}
            }
        }
        Ok(InterpreterStream(stream, cache.0))
    }
}

} // verus!
