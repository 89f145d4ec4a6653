//! Refinement of programs of the abstract machine: a fine program does
//! what a coarse program does when it can be cut into segments, one for
//! each coarse instruction, each of which does what its instruction does.

use crate::brackets::{close_of, delta, open_of, scan_close, scan_open, Bracket};
use crate::direct::DRun;
use crate::machine::{
    aeffect, afinished, ahalts, akinds, aoutcome, astep, asteps, basic_effect, is_basic,
    lemma_afinished_stays, lemma_aoutcome, lemma_astep_wf, lemma_asteps_add, lemma_asteps_later,
    lemma_asteps_one, moves_ok, sound, AOp, Effect,
};
use crate::error::{BfCompError, BfExecErrorTy};
use crate::state::Machine;
use either::Either;
use vstd::prelude::*;

verus! {

/// Whether two runs ended alike: with the same error or with none, with
/// the same output, and, if with no error, on the same machine.
pub open spec fn same_end(a: DRun, b: DRun) -> bool {
    &&& a.fault == b.fault
    &&& a.machine.output == b.machine.output
    &&& a.fault is None ==> a.machine == b.machine
}

/// Whether `n` steps from `lo` on the machine `m` do what the instruction
/// `op` does: without an error they arrive at `hi` on the machine that
/// `op` makes; with an error they stop with that error and with the same
/// output.
pub open spec fn lands(a: Seq<AOp>, m: Machine, lo: int, hi: int, op: AOp, n: nat) -> bool {
    let end = asteps(a, DRun::at(m, lo), n);
    let want = basic_effect(op, m);
    match want.fault {
        None => end == DRun::at(want.machine, hi),
        Some(f) => end.fault == Some(Either::<BfExecErrorTy, BfCompError>::Left(f))
            && end.machine.output == want.machine.output,
    }
}

/// Whether the segment from `lo` to `hi` does what `op` does, on every
/// machine with the modulus `md`, in at least one step.
pub open spec fn implements(a: Seq<AOp>, lo: int, hi: int, op: AOp, md: int) -> bool {
    forall|m: Machine|
        #[trigger] sound(m, md) ==> exists|n: nat| n >= 1 && #[trigger] lands(a, m, lo, hi, op, n)
}

/// Whether the segment from `lo` to `hi` leaves the nesting depth as it
/// found it and never closes a loop it did not open: a scan for a partner
/// passes over it, in either direction.
pub open spec fn neutral(a: Seq<AOp>, lo: int, hi: int) -> bool {
    &&& forall|d: int| d >= 1 ==> #[trigger] scan_close(akinds(a), lo, d) == scan_close(akinds(a), hi, d)
    &&& forall|d: int|
        d >= 1 ==> #[trigger] scan_open(akinds(a), hi - 1, d) == scan_open(akinds(a), lo - 1, d)
}

/// Whether the segment from `lo` to `hi` stands for the coarse
/// instruction `op`: a loop boundary is itself, behind any number of
/// `Nop`; any other instruction is a neutral segment that does what the
/// instruction does.
pub open spec fn segment_ok(a: Seq<AOp>, op: AOp, lo: int, hi: int, md: int) -> bool {
    if is_basic(op) {
        neutral(a, lo, hi) && implements(a, lo, hi, op, md)
    } else {
        a[hi - 1] == op && forall|i: int| lo <= i < hi - 1 ==> #[trigger] a[i] == AOp::Nop
    }
}

/// Whether the fine program `a` refines the coarse program `b`, cut at
/// the bounds `f`: segment `j` runs from `f[j]` to `f[j + 1]` and stands
/// for `b[j]` on machines with the modulus `md`; behind the last segment
/// only `Nop` follows.
pub open spec fn refines(a: Seq<AOp>, b: Seq<AOp>, f: Seq<int>, md: int) -> bool {
    &&& f.len() == b.len() + 1
    &&& f[0] == 0
    &&& f[b.len() as int] <= a.len()
    &&& forall|j: int| 0 <= j < b.len() ==> #[trigger] f[j] < f[j + 1]
    &&& forall|j: int| 0 <= j < b.len() ==> segment_ok(a, #[trigger] b[j], f[j], f[j + 1], md)
    &&& forall|i: int| f[b.len() as int] <= i < a.len() ==> #[trigger] a[i] == AOp::Nop
    &&& moves_ok(b)
}

/// The bounds rise.
pub proof fn lemma_bounds_rise(a: Seq<AOp>, b: Seq<AOp>, f: Seq<int>, md: int, i: int, j: int)
    requires
        refines(a, b, f, md),
        0 <= i <= j <= b.len(),
    ensures
        0 <= f[i] <= f[j] <= a.len(),
        i < j ==> f[i] < f[j],
    decreases j - i,
{
    if i < j {
        lemma_bounds_rise(a, b, f, md, i + 1, j);
        lemma_bounds_down(a, b, f, md, i);
        assert(f[i] < f[i + 1]);
    } else {
        lemma_bounds_up(a, b, f, md, i);
    }
}

/// Every bound lies between the start of the fine program and the last
/// bound.
pub proof fn lemma_bounds_up(a: Seq<AOp>, b: Seq<AOp>, f: Seq<int>, md: int, i: int)
    requires
        refines(a, b, f, md),
        0 <= i <= b.len(),
    ensures
        0 <= f[i] <= f[b.len() as int],
    decreases b.len() - i,
{
    lemma_bounds_down(a, b, f, md, i);
    if i < b.len() {
        lemma_bounds_up(a, b, f, md, i + 1);
        assert(f[i] < f[i + 1]);
    }
}

/// No bound lies before the start of the fine program.
pub proof fn lemma_bounds_down(a: Seq<AOp>, b: Seq<AOp>, f: Seq<int>, md: int, i: int)
    requires
        refines(a, b, f, md),
        0 <= i <= b.len(),
    ensures
        0 <= f[i],
    decreases i,
{
    if i > 0 {
        lemma_bounds_down(a, b, f, md, i - 1);
        assert(f[i - 1] < f[i - 1 + 1]);
    }
}

/// A run walks through `Nop` without a change.
pub proof fn lemma_nops_run(a: Seq<AOp>, m: Machine, lo: int, hi: int)
    requires
        0 <= lo <= hi <= a.len(),
        forall|i: int| lo <= i < hi ==> #[trigger] a[i] == AOp::Nop,
    ensures
        asteps(a, DRun::at(m, lo), (hi - lo) as nat) == DRun::at(m, hi),
    decreases hi - lo,
{
    if lo < hi {
        assert(a[lo] == AOp::Nop);
        assert(astep(a, DRun::at(m, lo)) == DRun::at(m, lo + 1));
        lemma_nops_run(a, m, lo + 1, hi);
    }
}

/// A scan towards the end passes over what is no loop boundary.
pub proof fn lemma_scan_close_over(k: Seq<Bracket>, lo: int, hi: int, d: int)
    requires
        0 <= lo <= hi <= k.len(),
        d != 0,
        forall|i: int| lo <= i < hi ==> #[trigger] k[i] == Bracket::Other,
    ensures
        scan_close(k, lo, d) == scan_close(k, hi, d),
    decreases hi - lo,
{
    if lo < hi {
        assert(k[lo] == Bracket::Other);
        lemma_scan_close_over(k, lo + 1, hi, d);
    }
}

/// A scan towards the start passes over what is no loop boundary.
pub proof fn lemma_scan_open_over(k: Seq<Bracket>, lo: int, hi: int, d: int)
    requires
        0 <= lo <= hi <= k.len(),
        d != 0,
        forall|i: int| lo <= i < hi ==> #[trigger] k[i] == Bracket::Other,
    ensures
        scan_open(k, hi - 1, d) == scan_open(k, lo - 1, d),
    decreases hi - lo,
{
    if lo < hi {
        assert(k[hi - 1] == Bracket::Other);
        lemma_scan_open_over(k, lo, hi - 1, d);
    }
}

/// Where the partner found in the coarse program lies in the fine one: a
/// loop end at the end of its segment, none behind the program.
pub open spec fn lift_close(f: Seq<int>, fine_len: int, coarse_len: int, c: int) -> int {
    if 0 <= c < coarse_len {
        f[c + 1] - 1
    } else {
        fine_len
    }
}

/// Where the partner found in the coarse program lies in the fine one: a
/// loop start at the end of its segment, none before the program.
pub open spec fn lift_open(f: Seq<int>, o: int) -> int {
    if 0 <= o {
        f[o + 1] - 1
    } else {
        -1
    }
}

/// Scans towards the end agree: a scan of the fine program from a bound
/// finds the loop end that the scan of the coarse program finds.
pub proof fn lemma_lift_close(a: Seq<AOp>, b: Seq<AOp>, f: Seq<int>, md: int, i: int, d: int)
    requires
        refines(a, b, f, md),
        0 <= i <= b.len(),
        d >= 1,
    ensures
        scan_close(akinds(a), f[i], d) == lift_close(
            f,
            a.len() as int,
            b.len() as int,
            scan_close(akinds(b), i, d),
        ),
    decreases b.len() - i,
{
    let ka = akinds(a);
    let kb = akinds(b);
    lemma_bounds_rise(a, b, f, md, i, b.len() as int);
    if i == b.len() {
        assert forall|x: int| f[i] <= x < a.len() implies #[trigger] ka[x] == Bracket::Other by {
            assert(a[x] == AOp::Nop);
        }
        lemma_scan_close_over(ka, f[i], a.len() as int, d);
    } else {
        lemma_bounds_rise(a, b, f, md, i, i + 1);
        lemma_bounds_rise(a, b, f, md, i + 1, b.len() as int);
        let lo = f[i];
        let hi = f[i + 1];
        assert(segment_ok(a, b[i], lo, hi, md));
        if is_basic(b[i]) {
            assert(kb[i] == Bracket::Other);
            assert(scan_close(ka, lo, d) == scan_close(ka, hi, d));
            lemma_lift_close(a, b, f, md, i + 1, d);
        } else {
            assert forall|x: int| lo <= x < hi - 1 implies #[trigger] ka[x] == Bracket::Other by {
                assert(a[x] == AOp::Nop);
            }
            lemma_scan_close_over(ka, lo, hi - 1, d);
            assert(ka[hi - 1] == kb[i]);
            let next = d + delta(kb[i]);
            if next != 0 {
                assert(scan_close(ka, hi - 1, d) == scan_close(ka, hi, next));
                assert(scan_close(kb, i, d) == scan_close(kb, i + 1, next));
                lemma_lift_close(a, b, f, md, i + 1, next);
            }
        }
    }
}

/// Scans towards the start agree: a scan of the fine program from the end
/// of a segment finds the loop start that the scan of the coarse program
/// finds.
pub proof fn lemma_lift_open(a: Seq<AOp>, b: Seq<AOp>, f: Seq<int>, md: int, i: int, d: int)
    requires
        refines(a, b, f, md),
        -1 <= i < b.len(),
        d >= 1,
    ensures
        scan_open(akinds(a), f[i + 1] - 1, d) == lift_open(f, scan_open(akinds(b), i, d)),
    decreases i + 1,
{
    let ka = akinds(a);
    let kb = akinds(b);
    if i >= 0 {
        lemma_bounds_rise(a, b, f, md, i, i + 1);
        lemma_bounds_rise(a, b, f, md, i + 1, b.len() as int);
        let lo = f[i];
        let hi = f[i + 1];
        assert(segment_ok(a, b[i], lo, hi, md));
        if is_basic(b[i]) {
            assert(kb[i] == Bracket::Other);
            assert(scan_open(ka, hi - 1, d) == scan_open(ka, lo - 1, d));
            lemma_lift_open(a, b, f, md, i - 1, d);
        } else {
            assert(ka[hi - 1] == kb[i]);
            let next = d - delta(kb[i]);
            if next != 0 {
                assert(scan_open(ka, hi - 1, d) == scan_open(ka, hi - 2, next));
                assert forall|x: int| lo <= x < hi - 1 implies #[trigger] ka[x]
                    == Bracket::Other by {
                    assert(a[x] == AOp::Nop);
                }
                lemma_scan_open_over(ka, lo, hi - 1, next);
                lemma_lift_open(a, b, f, md, i - 1, next);
            }
        }
    }
}

/// Whether the fine run `ra` is where the coarse run `rb` is: stopped
/// with the same error and the same output; or at the end of the program
/// on the same machine; or at the bound of the coarse index on the same
/// machine.
pub open spec fn matches_run(a: Seq<AOp>, b: Seq<AOp>, f: Seq<int>, ra: DRun, rb: DRun) -> bool {
    if rb.fault is Some {
        ra.fault == rb.fault && ra.machine.output == rb.machine.output
    } else if rb.idx == b.len() {
        ra == DRun::at(rb.machine, a.len() as int)
    } else {
        0 <= rb.idx < b.len() && ra == DRun::at(rb.machine, f[rb.idx])
    }
}

/// The fine run at a bound arrives where the coarse run arrives: at the
/// next bound, or, behind the last segment, at the end of the program.
proof fn lemma_arrive(a: Seq<AOp>, b: Seq<AOp>, f: Seq<int>, md: int, m: Machine, j: int) -> (n: nat)
    requires
        refines(a, b, f, md),
        0 <= j <= b.len(),
    ensures
        matches_run(a, b, f, asteps(a, DRun::at(m, f[j]), n), DRun::at(m, j)),
        j < b.len() ==> n == 0,
{
    if j == b.len() {
        lemma_bounds_rise(a, b, f, md, j, j);
        lemma_nops_run(a, m, f[j], a.len() as int);
        (a.len() - f[j]) as nat
    } else {
        0
    }
}

/// One coarse step is at least one fine step. From a bound, the fine run
/// comes to where one step takes the coarse run.
proof fn lemma_refined_step(a: Seq<AOp>, b: Seq<AOp>, f: Seq<int>, md: int, m: Machine, j: int) -> (n: nat)
    requires
        refines(a, b, f, md),
        sound(m, md),
        0 <= j < b.len(),
    ensures
        n >= 1,
        matches_run(a, b, f, asteps(a, DRun::at(m, f[j]), n), astep(b, DRun::at(m, j))),
{
    let ka = akinds(a);
    let kb = akinds(b);
    let lo = f[j];
    let hi = f[j + 1];
    let rb = DRun::at(m, j);
    let nb = astep(b, rb);
    lemma_bounds_rise(a, b, f, md, j, j + 1);
    lemma_bounds_rise(a, b, f, md, j + 1, b.len() as int);
    assert(segment_ok(a, b[j], lo, hi, md));
    assert(nb == aeffect(b, m, j));
    if is_basic(b[j]) {
        let n = choose|n: nat| n >= 1 && #[trigger] lands(a, m, lo, hi, b[j], n);
        let want = basic_effect(b[j], m);
        let end = asteps(a, DRun::at(m, lo), n);
        if want.fault is None {
            assert(nb == DRun::at(want.machine, j + 1));
            let more = lemma_arrive(a, b, f, md, want.machine, j + 1);
            lemma_asteps_add(a, DRun::at(m, lo), n, more);
            (n + more) as nat
        } else {
            n
        }
    } else {
        // over the `Nop` in front of the loop boundary
        lemma_nops_run(a, m, lo, hi - 1);
        let at_bracket = DRun::at(m, hi - 1);
        let walked = (hi - 1 - lo) as nat;
        assert(asteps(a, DRun::at(m, lo), walked) == at_bracket);
        let stepped = astep(a, at_bracket);
        lemma_asteps_one(a, at_bracket);
        lemma_asteps_add(a, DRun::at(m, lo), walked, 1);
        assert(asteps(a, DRun::at(m, lo), walked + 1) == stepped);
        assert(a[hi - 1] == b[j]);
        assert(stepped == aeffect(a, m, hi - 1));
        if b[j] is Open {
            if m.head() != 0 {
                assert(stepped == DRun::at(m, hi));
                assert(nb == DRun::at(m, j + 1));
                let more = lemma_arrive(a, b, f, md, m, j + 1);
                lemma_asteps_add(a, DRun::at(m, lo), walked + 1, more);
                (walked + 1 + more) as nat
            } else {
                // the partners agree
                assert(close_of(ka, hi - 1) == scan_close(ka, hi, 1));
                assert(close_of(kb, j) == scan_close(kb, j + 1, 1));
                lemma_lift_close(a, b, f, md, j + 1, 1);
                crate::brackets::lemma_scan_close_range(kb, j + 1, 1);
                let c = close_of(kb, j);
                if c < b.len() {
                    lemma_bounds_rise(a, b, f, md, c + 1, b.len() as int);
                    assert(stepped == DRun::at(m, f[c + 1]));
                    assert(nb == DRun::at(m, c + 1));
                    let more = lemma_arrive(a, b, f, md, m, c + 1);
                    lemma_asteps_add(a, DRun::at(m, lo), walked + 1, more);
                    (walked + 1 + more) as nat
                } else {
                    (walked + 1) as nat
                }
            }
        } else {
            assert(b[j] is Close);
            if m.head() == 0 {
                assert(stepped == DRun::at(m, hi));
                assert(nb == DRun::at(m, j + 1));
                let more = lemma_arrive(a, b, f, md, m, j + 1);
                lemma_asteps_add(a, DRun::at(m, lo), walked + 1, more);
                (walked + 1 + more) as nat
            } else {
                assert(open_of(ka, hi - 1) == scan_open(ka, hi - 2, 1));
                assert(open_of(kb, j) == scan_open(kb, j - 1, 1));
                assert forall|x: int| lo <= x < hi - 1 implies #[trigger] ka[x]
                    == Bracket::Other by {
                    assert(a[x] == AOp::Nop);
                }
                lemma_scan_open_over(ka, lo, hi - 1, 1);
                lemma_lift_open(a, b, f, md, j - 1, 1);
                crate::brackets::lemma_scan_open_range(kb, j - 1, 1);
                let o = open_of(kb, j);
                if o >= 0 {
                    lemma_bounds_rise(a, b, f, md, o, o + 1);
                    lemma_bounds_rise(a, b, f, md, o + 1, b.len() as int);
                    assert(stepped == DRun::at(m, f[o + 1]));
                    assert(nb == DRun::at(m, o + 1));
                    let more = lemma_arrive(a, b, f, md, m, o + 1);
                    lemma_asteps_add(a, DRun::at(m, lo), walked + 1, more);
                    (walked + 1 + more) as nat
                } else {
                    (walked + 1) as nat
                }
            }
        }
    }
}

/// The fine run keeps up with the coarse run. After any number of coarse
/// steps, the fine run is, after at least as many steps, where the coarse
/// run is.
pub proof fn lemma_refined_run(a: Seq<AOp>, b: Seq<AOp>, f: Seq<int>, md: int, m: Machine, n: nat) -> (k:
    nat)
    requires
        refines(a, b, f, md),
        sound(m, md),
    ensures
        k >= n,
        matches_run(a, b, f, asteps(a, DRun::at(m, 0), k), asteps(b, DRun::at(m, 0), n)),
        sound(asteps(b, DRun::at(m, 0), n).machine, md),
        asteps(b, DRun::at(m, 0), n).fault is None ==> 0 <= asteps(b, DRun::at(m, 0), n).idx
            <= b.len(),
    decreases n,
{
    let ra0 = DRun::at(m, 0);
    let rb0 = DRun::at(m, 0);
    if n == 0 {
        let k = lemma_arrive(a, b, f, md, m, 0);
        k
    } else {
        let k = lemma_refined_run(a, b, f, md, m, (n - 1) as nat);
        let rb = asteps(b, rb0, (n - 1) as nat);
        let ra = asteps(a, ra0, k);
        lemma_asteps_add(b, rb0, (n - 1) as nat, 1);
        lemma_asteps_one(b, rb);
        let nb = astep(b, rb);
        assert(asteps(b, rb0, n) == nb);
        lemma_astep_wf(b, rb, md);
        if afinished(b, rb) {
            // both runs are over and stay where they are
            assert(afinished(a, ra));
            lemma_asteps_later(a, ra0, k, (k + 1) as nat);
            (k + 1) as nat
        } else {
            let j = rb.idx;
            assert(ra == DRun::at(rb.machine, f[j]));
            assert(rb == DRun::at(rb.machine, j));
            let more = lemma_refined_step(a, b, f, md, rb.machine, j);
            lemma_asteps_add(a, ra0, k, more);
            if nb.fault is None {
                lemma_step_in_bounds(b, rb);
            }
            (k + more) as nat
        }
    }
}

/// A step without an error leads to an instruction of the program or to
/// its end.
pub proof fn lemma_step_in_bounds(p: Seq<AOp>, r: DRun)
    requires
        !afinished(p, r),
        astep(p, r).fault is None,
    ensures
        0 <= astep(p, r).idx <= p.len(),
{
    crate::brackets::lemma_scan_close_range(akinds(p), r.idx + 1, 1);
    crate::brackets::lemma_scan_open_range(akinds(p), r.idx - 1, 1);
}

/// A refinement runs as its coarse program runs. A fine program that
/// refines a coarse one comes to an end on a machine exactly when the
/// coarse one does, and then both end alike: with the same error or
/// none, with the same output, and without an error on the same machine.
pub proof fn lemma_refinement(a: Seq<AOp>, b: Seq<AOp>, f: Seq<int>, md: int, m: Machine)
    requires
        refines(a, b, f, md),
        sound(m, md),
    ensures
        ahalts(a, DRun::at(m, 0)) <==> ahalts(b, DRun::at(m, 0)),
        ahalts(b, DRun::at(m, 0)) ==> same_end(
            aoutcome(a, DRun::at(m, 0)),
            aoutcome(b, DRun::at(m, 0)),
        ),
{
    let start = DRun::at(m, 0);
    if ahalts(b, start) {
        let n = choose|n: nat| afinished(b, #[trigger] asteps(b, start, n));
        lemma_aoutcome(b, start, n);
        let k = lemma_refined_run(a, b, f, md, m, n);
        let rb = asteps(b, start, n);
        let ra = asteps(a, start, k);
        assert(afinished(a, ra));
        lemma_aoutcome(a, start, k);
    }
    if ahalts(a, start) {
        let k0 = choose|k: nat| afinished(a, #[trigger] asteps(a, start, k));
        let k = lemma_refined_run(a, b, f, md, m, (k0 + 1) as nat);
        let rb = asteps(b, start, (k0 + 1) as nat);
        if !afinished(b, rb) {
            lemma_bounds_rise(a, b, f, md, rb.idx, b.len() as int);
            lemma_asteps_later(a, start, k0, k);
            assert(false);
        }
    }
}

/// A segment that holds no loop boundary is neutral.
pub proof fn lemma_plain_is_neutral(a: Seq<AOp>, lo: int, hi: int)
    requires
        0 <= lo <= hi <= a.len(),
        forall|i: int| lo <= i < hi ==> is_basic(#[trigger] a[i]),
    ensures
        neutral(a, lo, hi),
{
    let k = akinds(a);
    assert forall|i: int| lo <= i < hi implies #[trigger] k[i] == Bracket::Other by {
        assert(is_basic(a[i]));
    }
    assert forall|d: int| d >= 1 implies #[trigger] scan_close(k, lo, d) == scan_close(
        k,
        hi,
        d,
    ) by {
        lemma_scan_close_over(k, lo, hi, d);
    }
    assert forall|d: int| d >= 1 implies #[trigger] scan_open(k, hi - 1, d) == scan_open(
        k,
        lo - 1,
        d,
    ) by {
        lemma_scan_open_over(k, lo, hi, d);
    }
}

/// An instruction behind any number of `Nop` does what it does alone.
pub proof fn lemma_nops_then_op(a: Seq<AOp>, lo: int, hi: int, md: int)
    requires
        0 <= lo < hi <= a.len(),
        is_basic(a[hi - 1]),
        forall|i: int| lo <= i < hi - 1 ==> #[trigger] a[i] == AOp::Nop,
    ensures
        implements(a, lo, hi, a[hi - 1], md),
        neutral(a, lo, hi),
{
    assert forall|i: int| lo <= i < hi implies is_basic(#[trigger] a[i]) by {
        if i < hi - 1 {
            assert(a[i] == AOp::Nop);
        }
    }
    lemma_plain_is_neutral(a, lo, hi);
    assert forall|m: Machine| #[trigger] sound(m, md) implies exists|n: nat|
        n >= 1 && #[trigger] lands(a, m, lo, hi, a[hi - 1], n) by {
        lemma_nops_run(a, m, lo, hi - 1);
        let walked = (hi - 1 - lo) as nat;
        let at_op = DRun::at(m, hi - 1);
        lemma_asteps_one(a, at_op);
        lemma_asteps_add(a, DRun::at(m, lo), walked, 1);
        assert(astep(a, at_op) == aeffect(a, m, hi - 1));
        assert(lands(a, m, lo, hi, a[hi - 1], walked + 1));
    }
}

/// What `n` times the instruction `u` do to the machine, one after the
/// other, as far as no error stops them.
pub open spec fn repeated(u: AOp, m: Machine, n: nat) -> Effect
    decreases n,
{
    if n == 0 {
        Effect { machine: m, fault: None }
    } else {
        let first = basic_effect(u, m);
        if first.fault is Some {
            first
        } else {
            repeated(u, first.machine, (n - 1) as nat)
        }
    }
}

/// A run through a segment of equal instructions does what the
/// instruction does so many times.
pub proof fn lemma_repeat_run(a: Seq<AOp>, m: Machine, lo: int, hi: int, u: AOp)
    requires
        0 <= lo <= hi <= a.len(),
        is_basic(u),
        forall|x: int| lo <= x < hi ==> #[trigger] a[x] == u,
    ensures
        match repeated(u, m, (hi - lo) as nat).fault {
            None => asteps(a, DRun::at(m, lo), (hi - lo) as nat) == DRun::at(
                repeated(u, m, (hi - lo) as nat).machine,
                hi,
            ),
            Some(e) => asteps(a, DRun::at(m, lo), (hi - lo) as nat).fault == Some(
                Either::<BfExecErrorTy, BfCompError>::Left(e),
            ) && asteps(a, DRun::at(m, lo), (hi - lo) as nat).machine == repeated(
                u,
                m,
                (hi - lo) as nat,
            ).machine,
        },
    decreases hi - lo,
{
    if lo < hi {
        assert(a[lo] == u);
        let first = basic_effect(u, m);
        let stepped = astep(a, DRun::at(m, lo));
        assert(stepped == aeffect(a, m, lo));
        if first.fault is Some {
            lemma_afinished_stays(a, stepped, (hi - lo - 1) as nat);
        } else {
            assert(stepped == DRun::at(first.machine, lo + 1));
            lemma_repeat_run(a, first.machine, lo + 1, hi, u);
        }
    }
}

/// A segment of two or more equal instructions implements `op` when so
/// many times the instruction come to what `op` comes to.
pub proof fn lemma_repeat_implements(a: Seq<AOp>, lo: int, hi: int, u: AOp, op: AOp, md: int)
    requires
        0 <= lo < hi <= a.len(),
        is_basic(u),
        forall|x: int| lo <= x < hi ==> #[trigger] a[x] == u,
        forall|m: Machine| #[trigger]
            sound(m, md) ==> repeated(u, m, (hi - lo) as nat).fault == basic_effect(op, m).fault
                && repeated(u, m, (hi - lo) as nat).machine.output == basic_effect(
                op,
                m,
            ).machine.output && (basic_effect(op, m).fault is None ==> repeated(
                u,
                m,
                (hi - lo) as nat,
            ).machine == basic_effect(op, m).machine),
    ensures
        implements(a, lo, hi, op, md),
        neutral(a, lo, hi),
{
    assert forall|i: int| lo <= i < hi implies is_basic(#[trigger] a[i]) by {
        assert(a[i] == u);
    }
    lemma_plain_is_neutral(a, lo, hi);
    assert forall|m: Machine| #[trigger] sound(m, md) implies exists|n: nat|
        n >= 1 && #[trigger] lands(a, m, lo, hi, op, n) by {
        lemma_repeat_run(a, m, lo, hi, u);
        assert(lands(a, m, lo, hi, op, (hi - lo) as nat));
    }
}

/// Adding one `n` times adds `n`.
pub proof fn lemma_repeated_add(m: Machine, n: nat)
    requires
        m.wf(),
        m.modulus > 1,
    ensures
        repeated(AOp::Add(1), m, n) == (Effect {
            machine: m.set((m.head() + n) % m.modulus),
            fault: None,
        }),
    decreases n,
{
    let h = m.head();
    let md = m.modulus;
    if n == 0 {
        vstd::arithmetic::div_mod::lemma_small_mod(h as nat, md as nat);
        assert(m.set(h).cells =~= m.cells);
    } else {
        let first = m.inc(1);
        vstd::arithmetic::div_mod::lemma_mod_bound(h + 1, md);
        crate::state::lemma_set_wf(m, (h + 1) % md);
        lemma_repeated_add(first, (n - 1) as nat);
        assert(first.head() == (h + 1) % md);
        assert((first.head() + (n - 1)) % md == (h + n) % md) by {
            vstd::arithmetic::div_mod::lemma_add_mod_noop_right(n - 1, h + 1, md);
        }
        assert(first.set((h + n) % md).cells =~= m.set((h + n) % md).cells);
    }
}

/// Taking one `n` times takes `n`.
pub proof fn lemma_repeated_sub(m: Machine, n: nat)
    requires
        m.wf(),
        m.modulus > 1,
    ensures
        repeated(AOp::Sub(1), m, n) == (Effect {
            machine: m.set((m.head() - n) % m.modulus),
            fault: None,
        }),
    decreases n,
{
    let h = m.head();
    let md = m.modulus;
    if n == 0 {
        vstd::arithmetic::div_mod::lemma_small_mod(h as nat, md as nat);
        assert(m.set(h).cells =~= m.cells);
    } else {
        let first = m.dec(1);
        vstd::arithmetic::div_mod::lemma_mod_bound(h - 1, md);
        crate::state::lemma_set_wf(m, (h - 1) % md);
        lemma_repeated_sub(first, (n - 1) as nat);
        assert(first.head() == (h - 1) % md);
        assert((first.head() - (n - 1)) % md == (h - n) % md) by {
            vstd::arithmetic::div_mod::lemma_sub_mod_noop(h - 1, n - 1, md);
            vstd::arithmetic::div_mod::lemma_sub_mod_noop((h - 1) % md, n - 1, md);
            vstd::arithmetic::div_mod::lemma_mod_twice(h - 1, md);
            assert((h - 1) - (n - 1) == h - n);
        }
        assert(first.set((h - n) % md).cells =~= m.set((h - n) % md).cells);
    }
}

/// Moving the head `n` times by one towards the end moves it by `n`, or
/// fails as the one move by `n` fails, the tape and the streams being as
/// they were.
pub proof fn lemma_repeated_right(m: Machine, n: nat)
    requires
        m.wf(),
    ensures
        repeated(AOp::Right(1), m, n).fault == basic_effect(AOp::Right(n as int), m).fault,
        repeated(AOp::Right(1), m, n).machine == (Machine {
            ptr: repeated(AOp::Right(1), m, n).machine.ptr,
            ..m
        }),
        m.can_inc_ptr(n as int) ==> repeated(AOp::Right(1), m, n).machine == m.inc_ptr(n as int),
    decreases n,
{
    if n > 0 && m.can_inc_ptr(1) {
        lemma_repeated_right(m.inc_ptr(1), (n - 1) as nat);
    }
}

/// Moving the head `n` times by one towards the start moves it by `n`, or
/// fails as the one move by `n` fails, the tape and the streams being as
/// they were.
pub proof fn lemma_repeated_left(m: Machine, n: nat)
    requires
        m.wf(),
    ensures
        repeated(AOp::Left(1), m, n).fault == basic_effect(AOp::Left(n as int), m).fault,
        repeated(AOp::Left(1), m, n).machine == (Machine {
            ptr: repeated(AOp::Left(1), m, n).machine.ptr,
            ..m
        }),
        m.can_dec_ptr(n as int) ==> repeated(AOp::Left(1), m, n).machine == m.dec_ptr(n as int),
    decreases n,
{
    if n > 0 && m.can_dec_ptr(1) {
        lemma_repeated_left(m.dec_ptr(1), (n - 1) as nat);
    }
}

/// Whether a loop that only steps the head cell once, up or down,
/// stands at `lo`.
pub open spec fn clearing(a: Seq<AOp>, lo: int) -> bool {
    &&& 0 <= lo
    &&& lo + 3 <= a.len()
    &&& a[lo] == AOp::Open
    &&& (a[lo + 1] == AOp::Add(1) || a[lo + 1] == AOp::Sub(1))
    &&& a[lo + 2] == AOp::Close
}

/// The two ends of a clearing loop are partners.
pub proof fn lemma_clearing_partners(a: Seq<AOp>, lo: int)
    requires
        clearing(a, lo),
    ensures
        close_of(akinds(a), lo) == lo + 2,
        open_of(akinds(a), lo + 2) == lo,
        neutral(a, lo, lo + 3),
{
    let k = akinds(a);
    assert(k[lo] == Bracket::Open);
    assert(k[lo + 1] == Bracket::Other);
    assert(k[lo + 2] == Bracket::Close);
    assert(scan_close(k, lo, 0) == scan_close(k, lo + 1, 1));
    assert(scan_close(k, lo + 1, 1) == scan_close(k, lo + 2, 1));
    assert(scan_open(k, lo + 2, 0) == scan_open(k, lo + 1, 1));
    assert(scan_open(k, lo + 1, 1) == scan_open(k, lo, 1));
    assert forall|d: int| d >= 1 implies #[trigger] scan_close(k, lo, d) == scan_close(
        k,
        lo + 3,
        d,
    ) by {
        assert(scan_close(k, lo, d) == scan_close(k, lo + 1, d + 1));
        assert(scan_close(k, lo + 1, d + 1) == scan_close(k, lo + 2, d + 1));
        assert(scan_close(k, lo + 2, d + 1) == scan_close(k, lo + 3, d));
    }
    assert forall|d: int| d >= 1 implies #[trigger] scan_open(k, lo + 3 - 1, d) == scan_open(
        k,
        lo - 1,
        d,
    ) by {
        assert(scan_open(k, lo + 2, d) == scan_open(k, lo + 1, d + 1));
        assert(scan_open(k, lo + 1, d + 1) == scan_open(k, lo, d + 1));
        assert(scan_open(k, lo, d + 1) == scan_open(k, lo - 1, d));
    }
}

/// Inside a clearing loop, with the head cell not zero, the run comes out
/// behind the loop with the head cell zero and nothing else changed.
proof fn lemma_clearing_rounds(a: Seq<AOp>, m: Machine, lo: int) -> (n: nat)
    requires
        clearing(a, lo),
        m.wf(),
        m.head() != 0,
    ensures
        asteps(a, DRun::at(m, lo + 1), n) == DRun::at(m.zero(), lo + 3),
    decreases
            (if a[lo + 1] == AOp::Add(1) {
                m.modulus - m.head()
            } else {
                m.head()
            }),
{
    let h = m.head();
    let md = m.modulus;
    let up = a[lo + 1] == AOp::Add(1);
    lemma_clearing_partners(a, lo);
    let h2 = if up {
        (h + 1) % md
    } else {
        (h - 1) % md
    };
    assert(h2 == if up {
        if h + 1 == md {
            0
        } else {
            h + 1
        }
    } else {
        h - 1
    }) by {
        if up && h + 1 == md {
            vstd::arithmetic::div_mod::lemma_mod_self_0(md);
        } else if up {
            vstd::arithmetic::div_mod::lemma_small_mod((h + 1) as nat, md as nat);
        } else {
            vstd::arithmetic::div_mod::lemma_small_mod((h - 1) as nat, md as nat);
        }
    }
    let r = DRun::at(m, lo + 1);
    let r1 = astep(a, r);
    assert(r1 == aeffect(a, m, lo + 1));
    assert(r1 == DRun::at(m.set(h2), lo + 2));
    crate::state::lemma_set_wf(m, h2);
    let r2 = astep(a, r1);
    assert(r2 == aeffect(a, m.set(h2), lo + 2));
    assert(asteps(a, r, 2) == r2) by {
        assert(asteps(a, r, 2) == asteps(a, r1, 1));
        assert(asteps(a, r1, 1) == asteps(a, r2, 0));
    }
    if h2 == 0 {
        assert(r2 == DRun::at(m.zero(), lo + 3));
        2
    } else {
        assert(r2 == DRun::at(m.set(h2), lo + 1));
        let k = lemma_clearing_rounds(a, m.set(h2), lo);
        assert(m.set(h2).zero().cells =~= m.zero().cells);
        lemma_asteps_add(a, r, 2, k);
        (2 + k) as nat
    }
}

/// A clearing loop does what `Zero` does.
pub proof fn lemma_clearing_implements(a: Seq<AOp>, lo: int, md: int)
    requires
        clearing(a, lo),
    ensures
        implements(a, lo, lo + 3, AOp::Zero, md),
        neutral(a, lo, lo + 3),
{
    lemma_clearing_partners(a, lo);
    assert forall|m: Machine| #[trigger] sound(m, md) implies exists|n: nat|
        n >= 1 && #[trigger] lands(a, m, lo, lo + 3, AOp::Zero, n) by {
        let r = DRun::at(m, lo);
        let r1 = astep(a, r);
        lemma_asteps_one(a, r);
        assert(r1 == aeffect(a, m, lo));
        if m.head() == 0 {
            assert(m.zero().cells =~= m.cells);
            assert(r1 == DRun::at(m.zero(), lo + 3));
            assert(lands(a, m, lo, lo + 3, AOp::Zero, 1));
        } else {
            assert(r1 == DRun::at(m, lo + 1));
            let k = lemma_clearing_rounds(a, m, lo);
            lemma_asteps_add(a, r, 1, k);
            assert(lands(a, m, lo, lo + 3, AOp::Zero, 1 + k));
        }
    }
}

/// The instruction that means for loop nesting what `k` means, and does
/// nothing else.
pub open spec fn kind_op(k: Bracket) -> AOp {
    match k {
        Bracket::Open => AOp::Open,
        Bracket::Close => AOp::Close,
        Bracket::Other => AOp::Nop,
    }
}

/// The program that follows a loop nesting and does nothing else.
pub open spec fn kind_ops(k: Seq<Bracket>) -> Seq<AOp> {
    Seq::new(k.len(), |i: int| kind_op(k[i]))
}

/// Whether the entry at `x` is no loop boundary.
pub open spec fn other_at(k: Seq<Bracket>, x: int) -> bool {
    k[x] == Bracket::Other
}

/// Whether segment `j` of the fine nesting `ka` stands for the entry
/// `kb[j]` of the coarse nesting: that entry is its last, and nothing in
/// front of it is a loop boundary.
pub open spec fn nest_segment(ka: Seq<Bracket>, kb: Seq<Bracket>, f: Seq<int>, j: int) -> bool {
    &&& 0 <= f[j] < f[j + 1] <= ka.len()
    &&& ka[f[j + 1] - 1] == kb[j]
    &&& forall|x: int| f[j] <= x < f[j + 1] - 1 ==> #[trigger] other_at(ka, x)
}

/// Whether the fine nesting `ka` is the coarse nesting `kb` with more in
/// between that is no loop boundary, cut at the bounds `f`.
pub open spec fn nesting_cut(ka: Seq<Bracket>, kb: Seq<Bracket>, f: Seq<int>) -> bool {
    &&& f.len() == kb.len() + 1
    &&& f[0] == 0
    &&& f[kb.len() as int] == ka.len()
    &&& forall|j: int| 0 <= j < kb.len() ==> #[trigger] nest_segment(ka, kb, f, j)
}

/// A program that does nothing implements `Nop`.
pub proof fn lemma_nops_implement(a: Seq<AOp>, lo: int, hi: int, md: int)
    requires
        0 <= lo < hi <= a.len(),
        forall|i: int| lo <= i < hi ==> #[trigger] a[i] == AOp::Nop,
    ensures
        implements(a, lo, hi, AOp::Nop, md),
        neutral(a, lo, hi),
{
    assert forall|i: int| lo <= i < hi implies is_basic(#[trigger] a[i]) by {
        assert(a[i] == AOp::Nop);
    }
    lemma_plain_is_neutral(a, lo, hi);
    assert forall|m: Machine| #[trigger] sound(m, md) implies exists|n: nat|
        n >= 1 && #[trigger] lands(a, m, lo, hi, AOp::Nop, n) by {
        lemma_nops_run(a, m, lo, hi);
        assert(lands(a, m, lo, hi, AOp::Nop, (hi - lo) as nat));
    }
}

/// A nesting with more in between refines the nesting without, as
/// programs that do nothing.
pub proof fn lemma_nesting_refines(ka: Seq<Bracket>, kb: Seq<Bracket>, f: Seq<int>, md: int)
    requires
        nesting_cut(ka, kb, f),
    ensures
        refines(kind_ops(ka), kind_ops(kb), f, md),
        akinds(kind_ops(ka)) == ka,
        akinds(kind_ops(kb)) == kb,
{
    let a = kind_ops(ka);
    let b = kind_ops(kb);
    assert(akinds(a) =~= ka);
    assert(akinds(b) =~= kb);
    assert forall|j: int| 0 <= j < b.len() implies segment_ok(
        a,
        #[trigger] b[j],
        f[j],
        f[j + 1],
        md,
    ) by {
        assert(nest_segment(ka, kb, f, j));
        let lo = f[j];
        let hi = f[j + 1];
        assert forall|x: int| lo <= x < hi - 1 implies #[trigger] a[x] == AOp::Nop by {
            assert(other_at(ka, x));
        }
        assert(a[hi - 1] == b[j]);
        if is_basic(b[j]) {
            assert forall|x: int| lo <= x < hi implies #[trigger] a[x] == AOp::Nop by {
                if x < hi - 1 {
                    assert(other_at(ka, x));
                }
            }
            lemma_nops_implement(a, lo, hi, md);
        }
    }
    assert forall|j: int| 0 <= j < b.len() implies #[trigger] f[j] < f[j + 1] by {
        assert(nest_segment(ka, kb, f, j));
    }
    assert forall|i: int| 0 <= i < b.len() implies crate::machine::move_ok(#[trigger] b[i]) by {}
}

/// Partners lift. In a nesting with more in between, the partner of a loop
/// start lies where the partner in the nesting without lies, and so for a
/// loop end.
pub proof fn lemma_partners_lift(ka: Seq<Bracket>, kb: Seq<Bracket>, f: Seq<int>, j: int)
    requires
        nesting_cut(ka, kb, f),
        0 <= j < kb.len(),
    ensures
        kb[j] == Bracket::Open ==> close_of(ka, f[j + 1] - 1) == lift_close(
            f,
            ka.len() as int,
            kb.len() as int,
            close_of(kb, j),
        ),
        kb[j] == Bracket::Close ==> open_of(ka, f[j + 1] - 1) == lift_open(f, open_of(kb, j)),
{
    lemma_nesting_refines(ka, kb, f, 0x100);
    let a = kind_ops(ka);
    let b = kind_ops(kb);
    assert(nest_segment(ka, kb, f, j));
    let lo = f[j];
    let hi = f[j + 1];
    if kb[j] == Bracket::Open {
        assert(close_of(ka, hi - 1) == scan_close(ka, hi, 1));
        assert(close_of(kb, j) == scan_close(kb, j + 1, 1));
        lemma_lift_close(a, b, f, 0x100, j + 1, 1);
    }
    if kb[j] == Bracket::Close {
        assert(open_of(ka, hi - 1) == scan_open(ka, hi - 2, 1));
        assert(open_of(kb, j) == scan_open(kb, j - 1, 1));
        assert forall|x: int| lo <= x < hi - 1 implies #[trigger] ka[x] == Bracket::Other by {
            assert(other_at(ka, x));
        }
        lemma_scan_open_over(ka, lo, hi - 1, 1);
        lemma_lift_open(a, b, f, 0x100, j - 1, 1);
    }
}

} // verus!
