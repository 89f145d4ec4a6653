//! The interpreter of the direct instruction stream, with an optional
//! instruction budget under which a run can be stopped and resumed.

use crate::cell::BfOptimizable;
use crate::compiler::BfInstruc;
use crate::error::{BfExecError, BfExecErrorTy, Overflow};
use crate::state::{BfState, Machine, Reader};
use vstd::prelude::*;

verus! {

/// A point in a run: the machine, the index of the next instruction, and
/// the error the run stopped with, if it did.
pub struct Run {
    pub machine: Machine,
    pub idx: int,
    pub fault: Option<BfExecErrorTy>,
}

impl Run {
    /// A run about to execute the instruction at `idx`.
    pub open spec fn at(machine: Machine, idx: int) -> Run {
        Run { machine, idx, fault: None }
    }

    /// The run moves on to `idx` with the machine `machine`.
    pub open spec fn go(machine: Machine, idx: int) -> Run {
        Run { machine, idx, fault: None }
    }

    /// The run stops at `idx` with the error `e`.
    pub open spec fn stop(machine: Machine, idx: int, e: BfExecErrorTy) -> Run {
        Run { machine, idx, fault: Some(e) }
    }
}

/// Where a jump to the partner at `to` continues: behind the partner, or at
/// the end of a stream of `len` instructions when the partner lies outside.
pub open spec fn behind(to: int, len: int) -> int {
    if to >= len {
        len
    } else {
        to + 1
    }
}

/// What the instruction `i`, standing at `idx` in a stream of `len`
/// instructions, does to the machine `m`.
pub open spec fn effect<T: BfOptimizable>(i: BfInstruc<T>, m: Machine, idx: int, len: int) -> Run {
    match i {
        BfInstruc::Zero => Run::go(m.zero(), idx + 1),
        BfInstruc::Inc => Run::go(m.inc(1), idx + 1),
        BfInstruc::Dec => Run::go(m.dec(1), idx + 1),
        BfInstruc::IncPtr => if m.can_inc_ptr(1) {
            Run::go(m.inc_ptr(1), idx + 1)
        } else {
            Run::stop(m, idx, BfExecErrorTy::Overflow)
        },
        BfInstruc::DecPtr => if m.can_dec_ptr(1) {
            Run::go(m.dec_ptr(1), idx + 1)
        } else {
            Run::stop(m, idx, BfExecErrorTy::Underflow)
        },
        BfInstruc::Write => Run::go(m.write(), idx + 1),
        BfInstruc::Read => if m.can_read() {
            Run::go(m.read(), idx + 1)
        } else {
            Run::stop(m.read(), idx, BfExecErrorTy::IOError)
        },
        BfInstruc::LStart(end) => if m.head() == 0 {
            Run::go(m, behind(end as int, len))
        } else {
            Run::go(m, idx + 1)
        },
        BfInstruc::LEnd(start) => if m.head() != 0 {
            Run::go(m, behind(start as int, len))
        } else {
            Run::go(m, idx + 1)
        },
        BfInstruc::IncBy(val) => Run::go(m.inc(val.val()), idx + 1),
        BfInstruc::DecBy(val) => Run::go(m.dec(val.val()), idx + 1),
        BfInstruc::IncPtrBy(val) => if m.can_inc_ptr(val as int) {
            Run::go(m.inc_ptr(val as int), idx + 1)
        } else {
            Run::stop(m, idx, BfExecErrorTy::Overflow)
        },
        BfInstruc::DecPtrBy(val) => if m.can_dec_ptr(val as int) {
            Run::go(m.dec_ptr(val as int), idx + 1)
        } else {
            Run::stop(m, idx, BfExecErrorTy::Underflow)
        },
    }
}

/// A run is over once it has stopped with an error or has left the stream.
pub open spec fn finished<T: BfOptimizable>(stream: Seq<BfInstruc<T>>, r: Run) -> bool {
    r.fault is Some || r.idx < 0 || r.idx >= stream.len()
}

/// One instruction further; a run that is over stays as it is.
pub open spec fn step<T: BfOptimizable>(stream: Seq<BfInstruc<T>>, r: Run) -> Run {
    if finished(stream, r) {
        r
    } else {
        effect(stream[r.idx], r.machine, r.idx, stream.len() as int)
    }
}

/// Up to `n` instructions further.
pub open spec fn steps<T: BfOptimizable>(stream: Seq<BfInstruc<T>>, r: Run, n: nat) -> Run
    decreases n,
{
    if n == 0 {
        r
    } else {
        steps(stream, step(stream, r), (n - 1) as nat)
    }
}

/// How many of the next `n` steps execute an instruction without error:
/// what a run charges to its budget.
pub open spec fn charged<T: BfOptimizable>(stream: Seq<BfInstruc<T>>, r: Run, n: nat) -> nat
    decreases n,
{
    if n == 0 || finished(stream, r) || step(stream, r).fault is Some {
        0
    } else {
        1 + charged(stream, step(stream, r), (n - 1) as nat)
    }
}

/// The run from `r` comes to an end.
pub open spec fn halts<T: BfOptimizable>(stream: Seq<BfInstruc<T>>, r: Run) -> bool {
    exists|n: nat| finished(stream, #[trigger] steps(stream, r, n))
}

/// Where the run from `r` ends, if it does.
pub open spec fn outcome<T: BfOptimizable>(stream: Seq<BfInstruc<T>>, r: Run) -> Run {
    steps(stream, r, choose|n: nat| finished(stream, #[trigger] steps(stream, r, n)))
}

/// What a run reports: nothing when it left the stream, else the error
/// and the index of the instruction that raised it.
pub open spec fn report(r: Run) -> Result<(), BfExecError> {
    match r.fault {
        Some(e) => Err(BfExecError { source: e, idx: r.idx as usize }),
        None => Ok(()),
    }
}

/// What a run under a budget of `limit` instructions comes to.
pub open spec fn limited<T: BfOptimizable>(stream: Seq<BfInstruc<T>>, r: Run, limit: nat) -> Run {
    let end = steps(stream, r, limit);
    if limit == 0 || !finished(stream, end) {
        Run { fault: Some(BfExecErrorTy::NotEnoughInstructions), ..end }
    } else {
        end
    }
}

/// A run that is over stays where it is.
pub proof fn lemma_finished_stays<T: BfOptimizable>(stream: Seq<BfInstruc<T>>, r: Run, n: nat)
    requires
        finished(stream, r),
    ensures
        steps(stream, r, n) == r,
        charged(stream, r, n) == 0,
    decreases n,
{
    if n > 0 {
        lemma_finished_stays(stream, r, (n - 1) as nat);
    }
}

/// Steps add up: `a + b` steps are `a` steps and then `b` more, and the
/// charges add up with them.
pub proof fn lemma_steps_add<T: BfOptimizable>(
    stream: Seq<BfInstruc<T>>,
    r: Run,
    a: nat,
    b: nat,
)
    ensures
        steps(stream, r, a + b) == steps(stream, steps(stream, r, a), b),
        charged(stream, r, a + b) == charged(stream, r, a) + (if charged(stream, r, a) == a {
            charged(stream, steps(stream, r, a), b)
        } else {
            0
        }),
    decreases a,
{
    if a > 0 {
        lemma_steps_add(stream, step(stream, r), (a - 1) as nat, b);
        if finished(stream, r) {
            lemma_finished_stays(stream, r, a + b);
            lemma_finished_stays(stream, r, a);
        } else if step(stream, r).fault is Some {
            lemma_finished_stays(stream, step(stream, r), (a - 1) as nat);
        }
    }
}

/// However long a run that has ended is continued, it stays at its
/// outcome.
pub proof fn lemma_outcome<T: BfOptimizable>(stream: Seq<BfInstruc<T>>, r: Run, n: nat)
    requires
        finished(stream, steps(stream, r, n)),
    ensures
        halts(stream, r),
        outcome(stream, r) == steps(stream, r, n),
        finished(stream, outcome(stream, r)),
{
    let k = choose|k: nat| finished(stream, #[trigger] steps(stream, r, k));
    if k <= n {
        lemma_steps_add(stream, r, k, (n - k) as nat);
        lemma_finished_stays(stream, steps(stream, r, k), (n - k) as nat);
    } else {
        lemma_steps_add(stream, r, n, (k - n) as nat);
        lemma_finished_stays(stream, steps(stream, r, n), (k - n) as nat);
    }
}

/// No instruction raises `NotEnoughInstructions`: a run reports it only
/// for want of budget.
pub proof fn lemma_budget_error_is_no_fault<T: BfOptimizable>(
    stream: Seq<BfInstruc<T>>,
    r: Run,
    n: nat,
)
    requires
        r.fault != Some(BfExecErrorTy::NotEnoughInstructions),
    ensures
        steps(stream, r, n).fault != Some(BfExecErrorTy::NotEnoughInstructions),
    decreases n,
{
    if n > 0 {
        lemma_budget_error_is_no_fault(stream, step(stream, r), (n - 1) as nat);
    }
}

/// Resumption. A run that stopped for want of budget after a budget of
/// `a`, resumed at the index it reported with a budget of `b`, comes to
/// what one run with a budget of `a + b` comes to: the same machine, the
/// same output, the same report and the same budget left over.
pub proof fn lemma_resume<T: BfOptimizable>(stream: Seq<BfInstruc<T>>, r: Run, a: nat, b: nat)
    requires
        r.fault is None,
        limited(stream, r, a).fault == Some(BfExecErrorTy::NotEnoughInstructions),
    ensures
        limited(
            stream,
            Run::at(limited(stream, r, a).machine, limited(stream, r, a).idx),
            b,
        ) == limited(stream, r, a + b),
        charged(stream, r, a) == a,
        charged(stream, r, a + b) == a + charged(
            stream,
            Run::at(limited(stream, r, a).machine, limited(stream, r, a).idx),
            b,
        ),
{
    lemma_budget_error_is_no_fault(stream, r, a);
    lemma_steps_add(stream, r, a, b);
    if a > 0 {
        lemma_unfinished_charges_all(stream, r, a);
        assert(steps(stream, r, a).fault is None);
    }
}

/// A run that is not over after `n` steps was charged for all of them.
pub proof fn lemma_unfinished_charges_all<T: BfOptimizable>(
    stream: Seq<BfInstruc<T>>,
    r: Run,
    n: nat,
)
    requires
        !finished(stream, steps(stream, r, n)),
    ensures
        charged(stream, r, n) == n,
    decreases n,
{
    if n > 0 {
        if finished(stream, r) {
            lemma_finished_stays(stream, r, n);
        } else if step(stream, r).fault is Some {
            lemma_finished_stays(stream, step(stream, r), (n - 1) as nat);
        } else {
            lemma_unfinished_charges_all(stream, step(stream, r), (n - 1) as nat);
        }
    }
}

/// A budget that suffices changes nothing: when the run under a budget of
/// `n` does not stop for want of budget, it comes to what the run without
/// a budget comes to.
pub proof fn lemma_limited_is_outcome<T: BfOptimizable>(stream: Seq<BfInstruc<T>>, r: Run, n: nat)
    requires
        r.fault is None,
        limited(stream, r, n).fault != Some(BfExecErrorTy::NotEnoughInstructions),
    ensures
        halts(stream, r),
        limited(stream, r, n) == outcome(stream, r),
{
    lemma_outcome(stream, r, n);
}

/// A run that does not stop for want of budget does not depend on the
/// budget: whatever two budgets it is given, it comes to the same.
pub proof fn lemma_budget_free<T: BfOptimizable>(
    stream: Seq<BfInstruc<T>>,
    r: Run,
    a: nat,
    b: nat,
)
    requires
        r.fault is None,
        limited(stream, r, a).fault != Some(BfExecErrorTy::NotEnoughInstructions),
        limited(stream, r, b).fault != Some(BfExecErrorTy::NotEnoughInstructions),
    ensures
        limited(stream, r, a) == limited(stream, r, b),
{
    lemma_limited_is_outcome(stream, r, a);
    lemma_limited_is_outcome(stream, r, b);
}

/// An interpreter over a zeroed tape of `size` cells that reads from
/// `read`, with an empty budget. Fails with `InitOverflow` when the tape
/// has no cell for the head to stand on.
pub fn new_in_memory<T: BfOptimizable>(size: usize, read: Reader) -> (r: Result<
    BrainFuckExecutor<T>,
    BfExecError,
>)
    ensures
        match r {
            Ok(exec) => {
                &&& size > 0
                &&& exec.state.wf()
                &&& exec.instruction_limit == 0
                &&& exec.state@ == Machine::fresh(
                    T::modulus(),
                    size as nat,
                    read.remaining(),
                    read.starved(),
                )
            },
            Err(e) => size == 0 && e == (BfExecError {
                source: BfExecErrorTy::InitOverflow,
                idx: 0,
            }),
        },
{
    match BfState::zeroed(size, read) {
        Some(state) => Ok(BrainFuckExecutor { state, instruction_limit: 0 }),
        None => Err(BfExecError { source: BfExecErrorTy::InitOverflow, idx: 0 }),
    }
}

/// An interpreter of the direct stream: the state it works on and the
/// instructions it may still execute in limited mode.
pub struct BrainFuckExecutor<T> {
    pub state: BfState<T>,
    pub instruction_limit: u64,
}

impl<T: BfOptimizable> BrainFuckExecutor<T> {
    /// Adds `amount` to the instruction budget, or fails and leaves the
    /// budget as it was when the sum does not fit.
    pub fn add_instruction_limit(&mut self, amount: u64) -> (r: Result<(), Overflow>)
        ensures
            final(self).state == old(self).state,
            match r {
                Ok(()) => final(self).instruction_limit == old(self).instruction_limit + amount,
                Err(_) => old(self).instruction_limit + amount > u64::MAX
                    && final(self).instruction_limit == old(self).instruction_limit,
            },
    {
        match self.instruction_limit.checked_add(amount) {
            Some(sum) => {
                self.instruction_limit = sum;
                Ok(())
            },
            None => Err(Overflow),
        }
    }

    /// The instructions the budget still allows.
    pub fn instructions_left(&self) -> (r: u64)
        ensures
            r == self.instruction_limit,
    {
        self.instruction_limit
    }

    /// Grants the next slice of a larger budget: the budget of the
    /// executor becomes what is left of the larger budget, but no more
    /// than `most`; where the run has no larger budget, it becomes `most`.
    pub fn grant_slice(&mut self, left: Option<u64>, most: u64) -> (r: u64)
        ensures
            final(self).state == old(self).state,
            final(self).instruction_limit == r,
            r == match left {
                Some(l) => if l < most {
                    l
                } else {
                    most
                },
                None => most,
            },
    {
        let slice = match left {
            Some(l) => if l < most {
                l
            } else {
                most
            },
            None => most,
        };
        self.instruction_limit = slice;
        slice
    }

    /// What is left of a larger budget after a slice of it: the larger
    /// budget less what the executor has used of the `granted`
    /// instructions.
    pub fn left_after_slice(&self, left: Option<u64>, granted: u64) -> (r: Option<u64>)
        requires
            self.instruction_limit <= granted,
            left matches Some(l) ==> granted <= l,
        ensures
            r == match left {
                Some(l) => Some((l - (granted - self.instruction_limit)) as u64),
                None => None,
            },
    {
        match left {
            Some(l) => Some(l - (granted - self.instruction_limit)),
            None => None,
        }
    }

    /// Executes the instruction at `idx` and says where the run goes on,
    /// or which error stopped it. The budget is not touched.
    pub fn step(&mut self, stream: &[BfInstruc<T>], idx: usize) -> (r: Result<usize, BfExecError>)
        requires
            old(self).state.wf(),
            idx < stream@.len(),
        ensures
            final(self).state.wf(),
            final(self).instruction_limit == old(self).instruction_limit,
            final(self).state@ == step(stream@, Run::at(old(self).state@, idx as int)).machine,
            match r {
                Ok(next) => step(stream@, Run::at(old(self).state@, idx as int)) == Run::go(
                    final(self).state@,
                    next as int,
                ),
                Err(e) => e.idx == idx && step(stream@, Run::at(old(self).state@, idx as int))
                    == Run::stop(final(self).state@, idx as int, e.source),
            },
    {
        let len = stream.len();
        let mut next = idx + 1;
        let res: Result<(), BfExecErrorTy> = match stream[idx] {
            BfInstruc::Zero => {
                self.state.zero();
                Ok(())
            },
            BfInstruc::Inc => {
                self.state.inc(T::from_u8(1));
                Ok(())
            },
            BfInstruc::Dec => {
                self.state.dec(T::from_u8(1));
                Ok(())
            },
            BfInstruc::IncPtr => self.state.inc_ptr(1),
            BfInstruc::DecPtr => self.state.dec_ptr(1),
            BfInstruc::Write => self.state.write(),
            BfInstruc::Read => self.state.read(),
            BfInstruc::LStart(end) => {
                if self.state.jump_forward() {
                    next = Self::behind(end, len);
                }
                Ok(())
            },
            BfInstruc::LEnd(start) => {
                if self.state.jump_backward() {
                    next = Self::behind(start, len);
                }
                Ok(())
            },
            BfInstruc::IncBy(val) => {
                self.state.inc(val);
                Ok(())
            },
            BfInstruc::DecBy(val) => {
                self.state.dec(val);
                Ok(())
            },
            BfInstruc::IncPtrBy(val) => self.state.inc_ptr(val as usize),
            BfInstruc::DecPtrBy(val) => self.state.dec_ptr(val as usize),
        };
        match res {
            Ok(()) => Ok(next),
            Err(source) => Err(BfExecError { source, idx }),
        }
    }

    /// Where a jump to the partner at `to` continues.
    fn behind(to: u32, len: usize) -> (r: usize)
        ensures
            r as int == behind(to as int, len as int),
    {
        let to = to as usize;
        if to >= len {
            len
        } else {
            to + 1
        }
    }

    /// Runs the stream from `idx` to its end or to the first error. In
    /// limited mode each executed instruction is charged to the budget,
    /// and the run stops with `NotEnoughInstructions` when the budget is
    /// empty before an instruction.
    #[inline(always)]
    fn internal_run(&mut self, stream: &[BfInstruc<T>], idx: usize) -> (r: Result<
        (),
        BfExecError,
    >)
        requires
            old(self).state.wf(),
        ensures
            final(self).state.wf(),
            final(self).state@ == limited(
                stream@,
                Run::at(old(self).state@, idx as int),
                old(self).instruction_limit as nat,
            ).machine,
            r == report(
                limited(
                    stream@,
                    Run::at(old(self).state@, idx as int),
                    old(self).instruction_limit as nat,
                ),
            ),
            final(self).instruction_limit == old(self).instruction_limit - charged(
                stream@,
                Run::at(old(self).state@, idx as int),
                old(self).instruction_limit as nat,
            ),
    {
        let ghost start = Run::at(self.state@, idx as int);
        let ghost budget = self.instruction_limit as nat;
        if self.instruction_limit == 0 {
            return Err(BfExecError { source: BfExecErrorTy::NotEnoughInstructions, idx });
        }
        let mut cur = idx;
        while cur < stream.len()
            invariant
                self.state.wf(),
                start == Run::at(old(self).state@, idx as int),
                budget == old(self).instruction_limit,
                self.instruction_limit <= budget,
                steps(stream@, start, budget) == steps(
                    stream@,
                    Run::at(self.state@, cur as int),
                    self.instruction_limit as nat,
                ),
                charged(stream@, start, budget) == (budget - self.instruction_limit) + charged(
                    stream@,
                    Run::at(self.state@, cur as int),
                    self.instruction_limit as nat,
                ),
                budget > 0,
            decreases self.instruction_limit,
        {
            let ghost here = Run::at(self.state@, cur as int);
            if self.instruction_limit == 0 {
                proof {
                    assert(steps(stream@, here, 0) == here);
                    assert(charged(stream@, here, 0) == 0);
                    assert(!finished(stream@, here));
                }
                return Err(
                    BfExecError { source: BfExecErrorTy::NotEnoughInstructions, idx: cur },
                );
            }
            let ghost left = self.instruction_limit as nat;
            proof {
                assert(steps(stream@, here, left) == steps(
                    stream@,
                    step(stream@, here),
                    (left - 1) as nat,
                ));
            }
            match self.step(stream, cur) {
                Ok(next) => {
                    cur = next;
                },
                Err(e) => {
                    proof {
                        lemma_finished_stays(stream@, step(stream@, here), (left - 1) as nat);
                        assert(charged(stream@, here, left) == 0);
                        assert(finished(stream@, step(stream@, here)));
                    }
                    return Err(e);
                },
            }
            self.instruction_limit = self.instruction_limit - 1;
        }
        proof {
            lemma_finished_stays(
                stream@,
                Run::at(self.state@, cur as int),
                self.instruction_limit as nat,
            );
        }
        Ok(())
    }

    /// Runs the stream from its first instruction to its end or to the
    /// first error, without a budget. The stream must come to an end on
    /// this state.
    pub fn run(&mut self, stream: &[BfInstruc<T>]) -> (r: Result<(), BfExecError>)
        requires
            old(self).state.wf(),
            halts(stream@, Run::at(old(self).state@, 0)),
        ensures
            final(self).state.wf(),
            final(self).instruction_limit == old(self).instruction_limit,
            final(self).state@ == outcome(stream@, Run::at(old(self).state@, 0)).machine,
            r == report(outcome(stream@, Run::at(old(self).state@, 0))),
    {
        let ghost start = Run::at(self.state@, 0);
        let ghost mut fuel: nat = choose|n: nat| finished(stream@, #[trigger] steps(stream@, start, n));
        proof {
            lemma_outcome(stream@, start, fuel);
        }
        let mut idx: usize = 0;
        while idx < stream.len()
            invariant
                self.state.wf(),
                self.instruction_limit == old(self).instruction_limit,
                start == Run::at(old(self).state@, 0),
                finished(stream@, steps(stream@, Run::at(self.state@, idx as int), fuel)),
                steps(stream@, Run::at(self.state@, idx as int), fuel) == outcome(stream@, start),
            decreases fuel,
        {
            let ghost here = Run::at(self.state@, idx as int);
            proof {
                assert(!finished(stream@, here));
                assert(fuel > 0) by {
                    if fuel == 0 {
                        assert(steps(stream@, here, 0) == here);
                    }
                }
                assert(steps(stream@, here, fuel) == steps(
                    stream@,
                    step(stream@, here),
                    (fuel - 1) as nat,
                ));
            }
            match self.step(stream, idx) {
                Ok(next) => {
                    idx = next;
                },
                Err(e) => {
                    proof {
                        lemma_finished_stays(stream@, step(stream@, here), (fuel - 1) as nat);
                        assert(finished(stream@, step(stream@, here)));
                    }
                    return Err(e);
                },
            }
            proof {
                fuel = (fuel - 1) as nat;
            }
        }
        proof {
            lemma_finished_stays(stream@, Run::at(self.state@, idx as int), fuel);
        }
        Ok(())
    }

    /// Runs the stream from its first instruction under the budget; see
    /// [`Self::run_limited_from`].
    pub fn run_limited(&mut self, stream: &[BfInstruc<T>]) -> (r: Result<(), BfExecError>)
        requires
            old(self).state.wf(),
        ensures
            final(self).state.wf(),
            final(self).state@ == limited(
                stream@,
                Run::at(old(self).state@, 0),
                old(self).instruction_limit as nat,
            ).machine,
            r == report(
                limited(stream@, Run::at(old(self).state@, 0), old(self).instruction_limit as nat),
            ),
            final(self).instruction_limit == old(self).instruction_limit - charged(
                stream@,
                Run::at(old(self).state@, 0),
                old(self).instruction_limit as nat,
            ),
    {
        self.internal_run(stream, 0)
    }

    /// Runs the stream from `start` under the budget: each instruction
    /// executed without error takes one from it. With an empty budget, or
    /// when the budget runs out before the stream does, the run stops with
    /// `NotEnoughInstructions` at the index of the next instruction, from
    /// which it can be resumed once the budget is refilled.
    pub fn run_limited_from(&mut self, stream: &[BfInstruc<T>], start: usize) -> (r: Result<
        (),
        BfExecError,
    >)
        requires
            old(self).state.wf(),
        ensures
            final(self).state.wf(),
            final(self).state@ == limited(
                stream@,
                Run::at(old(self).state@, start as int),
                old(self).instruction_limit as nat,
            ).machine,
            r == report(
                limited(
                    stream@,
                    Run::at(old(self).state@, start as int),
                    old(self).instruction_limit as nat,
                ),
            ),
            final(self).instruction_limit == old(self).instruction_limit - charged(
                stream@,
                Run::at(old(self).state@, start as int),
                old(self).instruction_limit as nat,
            ),
    {
        self.internal_run(stream, start)
    }
}

} // verus!
