//! Partial evaluation for the C emitter: the program is run at compile
//! time, slice by slice, until it ends, asks for input or a deadline
//! passes; what it has done by then is put into the emitted source.
//! Also the throughput estimate that sizes the slices.

use crate::c_source::{cold_c, interpreted_c, BfExecState};
use crate::cell::BfOptimizable;
use crate::compiler::{lemma_linked_unique, linked, BfInstruc, BfInstructionStream};
use crate::error::{BfExecError, BfExecErrorTy};
use crate::interpreter::{
    charged, finished, lemma_budget_free, lemma_unfinished_charges_all, limited, report, step,
    steps, BrainFuckExecutor, Run,
};
use crate::state::{lemma_set_wf, BfState, Machine, Reader};
use std::time::{Duration, Instant};
use vstd::prelude::*;

verus! {

/// `std::time::Instant`: a reading of the monotonic clock.
#[verifier::external_type_specification]
#[verifier::external_body]
pub struct ExInstant(Instant);

/// `Instant::now`: the present reading of the clock. Nothing is claimed
/// of it.
#[verifier::external_body]
fn clock_now() -> Instant {
    Instant::now()
}

/// `Instant::elapsed`: the time gone by since `start`. Nothing is claimed
/// of it.
#[verifier::external_body]
fn elapsed_since(start: &Instant) -> Duration {
    start.elapsed()
}

/// `Duration::as_nanos`: the span in nanoseconds. Nothing is claimed of
/// their number.
#[verifier::external_body]
fn as_nanos(span: &Duration) -> u128 {
    span.as_nanos()
}

/// The comparison `>` of two readings of the clock: whether `now` is
/// later than `deadline`. Nothing is claimed of the answer.
#[verifier::external_body]
fn is_later(now: &Instant, deadline: &Instant) -> bool {
    now > deadline
}

/// `std::hint::black_box` on a stream: the same stream, which the
/// optimizer must take as unknown.
#[verifier::external_body]
fn shield_stream<'a, T: BfOptimizable>(stream: &'a [BfInstruc<T>]) -> (r: &'a [BfInstruc<T>])
    ensures
        r@ == stream@,
{
    std::hint::black_box(stream)
}

/// `std::hint::black_box` on a number: the same number, which the
/// optimizer must take as unknown.
#[verifier::external_body]
fn shield_count(v: u64) -> (r: u64)
    ensures
        r == v,
{
    std::hint::black_box(v)
}

/// How many instructions a throughput sample may execute.
pub const SAMPLE: u32 = 100_000;

/// How many cells the tape of a throughput sample has.
pub const SAMPLE_TAPE: usize = 30_000;

/// Instructions per second, given the instructions executed and the
/// nanoseconds that took; `None` when no time was measured.
pub open spec fn spec_throughput(executed: nat, nanos: nat) -> Option<u128> {
    if nanos == 0 {
        None
    } else {
        Some((executed * 1_000_000_000 / nanos) as u128)
    }
}

/// Instructions per second, given the instructions executed and the
/// nanoseconds that took; `None` when no time was measured.
pub fn throughput(executed: u32, nanos: u128) -> (r: Option<u128>)
    ensures
        r == spec_throughput(executed as nat, nanos as nat),
{
    if nanos == 0 {
        None
    } else {
        Some((executed as u128 * 1_000_000_000) / nanos)
    }
}

/// The stream of a throughput sample: a loop that never ends and never
/// leaves the first two cells.
pub open spec fn sample_stream<T: BfOptimizable>() -> Seq<BfInstruc<T>> {
    seq![
        BfInstruc::Inc,
        BfInstruc::LStart(5),
        BfInstruc::IncPtr,
        BfInstruc::Dec,
        BfInstruc::Dec,
        BfInstruc::IncBy(T::of(4)),
        BfInstruc::DecPtr,
        BfInstruc::LEnd(1),
    ]
}

/// The run of a throughput sample over `stream`: from its first
/// instruction, on a fresh tape with no input.
pub open spec fn sample_run<T: BfOptimizable>(stream: Seq<BfInstruc<T>>) -> Run {
    limited(
        stream,
        Run::at(
            Machine::fresh(T::modulus(), SAMPLE_TAPE as nat, Seq::<u8>::empty(), false),
            0,
        ),
        SAMPLE as nat,
    )
}

/// How many instructions the sample over `stream` executes.
pub open spec fn sample_executed<T: BfOptimizable>(stream: Seq<BfInstruc<T>>) -> nat {
    charged(
        stream,
        Run::at(
            Machine::fresh(T::modulus(), SAMPLE_TAPE as nat, Seq::<u8>::empty(), false),
            0,
        ),
        SAMPLE as nat,
    )
}

/// The machine on which a throughput sample starts.
pub open spec fn sample_start<T: BfOptimizable>() -> Run {
    Run::at(Machine::fresh(T::modulus(), SAMPLE_TAPE as nat, Seq::<u8>::empty(), false), 0)
}

/// What holds all through the sample loop: no error, the first cell is
/// one once it has been stepped, and the head is on the second cell
/// between the two head moves and on the first cell elsewhere.
pub open spec fn sample_inv<T: BfOptimizable>(r: Run) -> bool {
    &&& r.fault is None
    &&& r.machine.wf()
    &&& r.machine.modulus == T::modulus()
    &&& r.machine.cells.len() == SAMPLE_TAPE
    &&& 0 <= r.idx < 8
    &&& r.machine.cells[0] == (if r.idx == 0 {
        0int
    } else {
        1int
    })
    &&& r.machine.ptr == (if 3 <= r.idx <= 6 {
        1int
    } else {
        0int
    })
}

/// The sample loop never ends and never fails.
pub proof fn lemma_sample_goes_on<T: BfOptimizable>(r: Run, n: nat)
    requires
        sample_inv::<T>(r),
    ensures
        sample_inv::<T>(steps(sample_stream::<T>(), r, n)),
        !finished(sample_stream::<T>(), steps(sample_stream::<T>(), r, n)),
    decreases n,
{
    let stream = sample_stream::<T>();
    T::lemma_modulus();
    assert(stream.len() == 8);
    if n > 0 {
        let m = r.machine;
        let md = m.modulus;
        let next = step(stream, r);
        assert(sample_inv::<T>(next)) by {
            T::of(4).lemma_val_range();
            if r.idx == 0 {
                assert(stream[0] == BfInstruc::<T>::Inc);
                vstd::arithmetic::div_mod::lemma_small_mod(1, md as nat);
                lemma_set_wf(m, 1);
            } else if r.idx == 1 {
                assert(stream[1] == BfInstruc::<T>::LStart(5));
            } else if r.idx == 2 {
                assert(stream[2] == BfInstruc::<T>::IncPtr);
            } else if r.idx == 3 {
                assert(stream[3] == BfInstruc::<T>::Dec);
                lemma_set_wf(m, (m.head() - 1) % md);
            } else if r.idx == 4 {
                assert(stream[4] == BfInstruc::<T>::Dec);
                lemma_set_wf(m, (m.head() - 1) % md);
            } else if r.idx == 5 {
                assert(stream[5] == BfInstruc::<T>::IncBy(T::of(4)));
                lemma_set_wf(m, (m.head() + T::of(4).val()) % md);
            } else if r.idx == 6 {
                assert(stream[6] == BfInstruc::<T>::DecPtr);
            } else {
                assert(stream[7] == BfInstruc::<T>::LEnd(1));
            }
        }
        lemma_sample_goes_on::<T>(next, (n - 1) as nat);
    }
}

/// The canonical sample uses up its budget: it executes all 100,000
/// instructions and fails in no other way.
pub proof fn lemma_sample_uses_budget<T: BfOptimizable>()
    ensures
        sample_run(sample_stream::<T>()).fault == Some(BfExecErrorTy::NotEnoughInstructions),
        sample_executed(sample_stream::<T>()) == SAMPLE,
{
    T::lemma_modulus();
    let start = sample_start::<T>();
    lemma_sample_goes_on::<T>(start, SAMPLE as nat);
    lemma_unfinished_charges_all(sample_stream::<T>(), start, SAMPLE as nat);
}

impl<T: BfOptimizable> BrainFuckExecutor<T> {
    /// Estimates how many instructions this machine interprets in a
    /// second, from a sample of 100,000 instructions of a loop that never
    /// ends. `None` when no time was measured.
    #[must_use]
    pub fn estimate_instructions_per_second() -> (r: Option<u128>)
        ensures
            exists|nanos: nat| r == #[trigger] spec_throughput(SAMPLE as nat, nanos),
    {
        let mut stream: Vec<BfInstruc<T>> = Vec::new();
        stream.push(BfInstruc::Inc);
        stream.push(BfInstruc::LStart(5));
        stream.push(BfInstruc::IncPtr);
        stream.push(BfInstruc::Dec);
        stream.push(BfInstruc::Dec);
        stream.push(BfInstruc::IncBy(T::truncate_from(4)));
        stream.push(BfInstruc::DecPtr);
        stream.push(BfInstruc::LEnd(1));
        proof {
            assert(stream@ =~= sample_stream::<T>());
        }
        proof {
            lemma_sample_uses_budget::<T>();
        }
        match Self::estimate_instructions_per_second_from_stream(stream.as_slice()) {
            Ok(rate) => rate,
            Err(_) => None,
        }
    }

    /// Estimates the throughput from a sample of up to 100,000
    /// instructions of `stream`, run on a fresh tape of 30,000 cells with
    /// no input. `Ok(None)` when no time was measured.
    ///
    /// Fails with the error of the sample run, unless that is only that
    /// the sample was used up.
    pub fn estimate_instructions_per_second_from_stream(stream: &[BfInstruc<T>]) -> (r: Result<
        Option<u128>,
        BfExecError,
    >)
        ensures
            match r {
                Ok(rate) => {
                    &&& report(sample_run(stream@)) is Ok || sample_run(stream@).fault == Some(
                        BfExecErrorTy::NotEnoughInstructions,
                    )
                    &&& exists|nanos: nat|
                        rate == #[trigger] spec_throughput(sample_executed(stream@), nanos)
                },
                Err(e) => report(sample_run(stream@)) == Err::<(), BfExecError>(e) && e.source
                    != BfExecErrorTy::NotEnoughInstructions,
            },
    {
        let state = match BfState::<T>::zeroed(SAMPLE_TAPE, Reader::empty()) {
            Some(state) => state,
            None => {
                return Ok(None);
            },
        };
        let mut exec = BrainFuckExecutor { state, instruction_limit: SAMPLE as u64 };
        let start = clock_now();
        let outcome = exec.run_limited(shield_stream(stream));
        let left = shield_count(exec.instructions_left());
        let span = elapsed_since(&start);
        let nanos = as_nanos(&span);
        match outcome {
            Err(e) => {
                match e.source {
                    BfExecErrorTy::NotEnoughInstructions => {},
                    _ => {
                        return Err(e);
                    },
                }
            },
            Ok(()) => {},
        }
        let executed = SAMPLE - left as u32;
        let rate = throughput(executed, nanos);
        proof {
            assert(rate == spec_throughput(sample_executed(stream@), nanos as nat));
        }
        Ok(rate)
    }
}

/// What to do after a slice of partial evaluation.
#[derive(Copy, Clone, Debug, PartialEq, Eq, Structural)]
pub enum Verdict {
    /// Emit the source now: with the snapshot and the index to resume at,
    /// or, when the program has ended, with its output alone.
    Render(Option<usize>),
    /// Refill the budget and run the next slice from this index.
    Resume(usize),
    /// The program fails at compile time with this error.
    Fail(BfExecErrorTy),
}

/// What to do after a slice that came to `outcome`, where `late` says
/// whether the deadline has passed.
pub open spec fn verdict(outcome: Result<(), BfExecError>, late: bool) -> Verdict {
    match outcome {
        Ok(()) => Verdict::Render(None),
        Err(e) => match e.source {
            BfExecErrorTy::IOError => Verdict::Render(Some(e.idx)),
            BfExecErrorTy::NotEnoughInstructions => if late {
                Verdict::Render(Some(e.idx))
            } else {
                Verdict::Resume(e.idx)
            },
            other => Verdict::Fail(other),
        },
    }
}

/// Decides what to do after a slice of partial evaluation: a program that
/// has ended or asks for input is emitted; one that ran out of budget is
/// emitted if the deadline has passed and resumed if not; one that left
/// the tape fails.
pub fn decide(outcome: Result<(), BfExecError>, late: bool) -> (r: Verdict)
    ensures
        r == verdict(outcome, late),
{
    match outcome {
        Ok(()) => Verdict::Render(None),
        Err(e) => match e.source {
            BfExecErrorTy::IOError => Verdict::Render(Some(e.idx)),
            BfExecErrorTy::NotEnoughInstructions => {
                if late {
                    Verdict::Render(Some(e.idx))
                } else {
                    Verdict::Resume(e.idx)
                }
            },
            other => Verdict::Fail(other),
        },
    }
}

/// Compiling twice gives the same source. Two compilations of one
/// program text yield the same stream and so the same cold source; and
/// two partial evaluations that both stop because the program ended or
/// asked for input, whatever budgets they ran under and whatever the
/// clock said, stop on the same machine with the same verdict and so
/// yield the same source.
pub proof fn lemma_compile_twice<T: BfOptimizable>(
    text: Seq<u8>,
    first: Seq<BfInstruc<T>>,
    second: Seq<BfInstruc<T>>,
    size: nat,
    m: Machine,
    a: nat,
    b: nat,
    late_a: bool,
    late_b: bool,
)
    requires
        linked(BfInstructionStream::<T>::folded(text), first),
        linked(BfInstructionStream::<T>::folded(text), second),
        limited(first, Run::at(m, 0), a).fault != Some(BfExecErrorTy::NotEnoughInstructions),
        limited(second, Run::at(m, 0), b).fault != Some(BfExecErrorTy::NotEnoughInstructions),
    ensures
        first == second,
        cold_c(first, size) == cold_c(second, size),
        limited(first, Run::at(m, 0), a) == limited(second, Run::at(m, 0), b),
        verdict(report(limited(first, Run::at(m, 0), a)), late_a) == verdict(
            report(limited(second, Run::at(m, 0), b)),
            late_b,
        ),
{
    lemma_linked_unique(BfInstructionStream::<T>::folded(text), first, second);
    lemma_budget_free(first, Run::at(m, 0), a, b);
}

/// What a slice of partial evaluation came to.
pub enum Slice {
    /// The emitted C source.
    Rendered(String),
    /// The index at which the next slice resumes.
    Resume(usize),
    /// The error with which the program fails at compile time.
    Failed(BfExecErrorTy),
}

/// The C source for a program stopped at `instruction_pointer` on the
/// machine `m`.
pub open spec fn snapshot_c<T: BfOptimizable>(
    code: Seq<BfInstruc<T>>,
    size: nat,
    m: Machine,
    instruction_pointer: Option<usize>,
) -> Seq<char> {
    interpreted_c(code, size, m.cells, m.ptr as nat, instruction_pointer, m.output)
}

/// Whether the slice result `r` carries out the verdict `v` for a program
/// stopped on the machine `m`.
pub open spec fn carries_out<T: BfOptimizable>(
    r: Slice,
    v: Verdict,
    code: Seq<BfInstruc<T>>,
    size: nat,
    m: Machine,
) -> bool {
    match v {
        Verdict::Render(ip) => r matches Slice::Rendered(text) && text@ == snapshot_c(
            code,
            size,
            m,
            ip,
        ),
        Verdict::Resume(idx) => r matches Slice::Resume(at) && at == idx,
        Verdict::Fail(e) => r matches Slice::Failed(with) && with == e,
    }
}

/// Runs one slice of partial evaluation: the program is resumed at
/// `s_idx` under the budget of `execenv`; then the clock is read and the
/// slice is judged. The caller refills the budget before the next slice.
pub fn render_c_deadline<T: BfOptimizable>(
    code: &BfInstructionStream<T>,
    execenv: &mut BrainFuckExecutor<T>,
    s_idx: usize,
    deadline: &Instant,
) -> (r: Slice)
    requires
        old(execenv).state.wf(),
    ensures
        final(execenv).state.wf(),
        final(execenv).state@ == limited(
            code@,
            Run::at(old(execenv).state@, s_idx as int),
            old(execenv).instruction_limit as nat,
        ).machine,
        final(execenv).instruction_limit == old(execenv).instruction_limit - charged(
            code@,
            Run::at(old(execenv).state@, s_idx as int),
            old(execenv).instruction_limit as nat,
        ),
        exists|late: bool|
            carries_out(
                r,
                #[trigger] verdict(
                    report(
                        limited(
                            code@,
                            Run::at(old(execenv).state@, s_idx as int),
                            old(execenv).instruction_limit as nat,
                        ),
                    ),
                    late,
                ),
                code@,
                code.spec_array_size() as nat,
                final(execenv).state@,
            ),
{
    let outcome = execenv.run_limited_from(code.as_slice(), s_idx);
    let now = clock_now();
    let late = is_later(&now, deadline);
    match decide(outcome, late) {
        Verdict::Render(instruction_pointer) => {
            let cells = execenv.state.cells();
            let snapshot = BfExecState {
                cursor: execenv.state.ptr(),
                data: cells,
                instruction_pointer,
            };
            let text = code.render_interpreted_c(&snapshot, execenv.state.output());
            proof {
                execenv.state.lemma_wf();
                assert(Seq::new(cells@.len(), |i: int| cells@[i].val()) =~= execenv.state@.cells);
                assert(verdict(outcome, late) == Verdict::Render(instruction_pointer));
            }
            Slice::Rendered(text)
        },
        Verdict::Resume(idx) => {
            proof {
                assert(verdict(outcome, late) == Verdict::Resume(idx));
            }
            Slice::Resume(idx)
        },
        Verdict::Fail(e) => {
            proof {
                assert(verdict(outcome, late) == Verdict::Fail(e));
            }
            Slice::Failed(e)
        },
    }
}

} // verus!
