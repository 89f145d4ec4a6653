//! The abstract machine behind every flat program form: instructions
//! that step cells, move the head, read and write, and loop boundaries
//! that find their partners by nesting.
//!
//! The runs of the program forms are compared through this machine.

use crate::brackets::{close_of, open_of, Bracket};
use crate::direct::DRun;
use crate::error::{BfCompError, BfExecErrorTy};
use crate::state::{lemma_set_wf, Machine};
use vstd::prelude::*;

verus! {

/// One instruction of the abstract machine.
pub enum AOp {
    /// Does nothing.
    Nop,
    /// Clears the head cell.
    Zero,
    /// Adds to the head cell.
    Add(int),
    /// Takes from the head cell.
    Sub(int),
    /// Moves the head towards the end.
    Right(int),
    /// Moves the head towards the start.
    Left(int),
    Read,
    Write,
    /// A loop start.
    Open,
    /// A loop end.
    Close,
}

/// What an instruction means for loop nesting.
pub open spec fn akind(op: AOp) -> Bracket {
    match op {
        AOp::Open => Bracket::Open,
        AOp::Close => Bracket::Close,
        _ => Bracket::Other,
    }
}

/// The loop nesting of a program.
pub open spec fn akinds(p: Seq<AOp>) -> Seq<Bracket> {
    Seq::new(p.len(), |i: int| akind(p[i]))
}

/// Whether an instruction is no loop boundary.
pub open spec fn is_basic(op: AOp) -> bool {
    !(op is Open || op is Close)
}

/// What came of an instruction that is no loop boundary: the machine, and
/// the error that stopped it, if one did.
pub struct Effect {
    pub machine: Machine,
    pub fault: Option<BfExecErrorTy>,
}

/// What an instruction that is no loop boundary does to the machine.
pub open spec fn basic_effect(op: AOp, m: Machine) -> Effect {
    match op {
        AOp::Zero => Effect { machine: m.zero(), fault: None },
        AOp::Add(k) => Effect { machine: m.inc(k), fault: None },
        AOp::Sub(k) => Effect { machine: m.dec(k), fault: None },
        AOp::Right(k) => if m.can_inc_ptr(k) {
            Effect { machine: m.inc_ptr(k), fault: None }
        } else {
            Effect { machine: m, fault: Some(BfExecErrorTy::Overflow) }
        },
        AOp::Left(k) => if m.can_dec_ptr(k) {
            Effect { machine: m.dec_ptr(k), fault: None }
        } else {
            Effect { machine: m, fault: Some(BfExecErrorTy::Underflow) }
        },
        AOp::Read => Effect {
            machine: m.read(),
            fault: if m.can_read() {
                None
            } else {
                Some(BfExecErrorTy::IOError)
            },
        },
        AOp::Write => Effect { machine: m.write(), fault: None },
        _ => Effect { machine: m, fault: None },
    }
}

/// What the instruction at `idx` does to the machine `m`. A loop boundary
/// that has to jump goes behind its partner, and stops the run when it
/// has none.
pub open spec fn aeffect(p: Seq<AOp>, m: Machine, idx: int) -> DRun {
    let k = akinds(p);
    match p[idx] {
        AOp::Open => if m.head() != 0 {
            DRun::at(m, idx + 1)
        } else if close_of(k, idx) < p.len() {
            DRun::at(m, close_of(k, idx) + 1)
        } else {
            DRun::broken(m, idx, BfCompError::LoopCountMismatch)
        },
        AOp::Close => if m.head() == 0 {
            DRun::at(m, idx + 1)
        } else if open_of(k, idx) >= 0 {
            DRun::at(m, open_of(k, idx) + 1)
        } else {
            DRun::broken(m, idx, BfCompError::LoopEndBeforeLoopStart)
        },
        op => {
            let e = basic_effect(op, m);
            match e.fault {
                Some(f) => DRun::stop(e.machine, idx, f),
                None => DRun::at(e.machine, idx + 1),
            }
        },
    }
}

/// A run is over once it has stopped with an error or has left the
/// program.
pub open spec fn afinished(p: Seq<AOp>, r: DRun) -> bool {
    r.fault is Some || r.idx < 0 || r.idx >= p.len()
}

/// One instruction further; a run that is over stays as it is.
pub open spec fn astep(p: Seq<AOp>, r: DRun) -> DRun {
    if afinished(p, r) {
        r
    } else {
        aeffect(p, r.machine, r.idx)
    }
}

/// Up to `n` instructions further.
pub open spec fn asteps(p: Seq<AOp>, r: DRun, n: nat) -> DRun
    decreases n,
{
    if n == 0 {
        r
    } else {
        asteps(p, astep(p, r), (n - 1) as nat)
    }
}

/// The run from `r` comes to an end.
pub open spec fn ahalts(p: Seq<AOp>, r: DRun) -> bool {
    exists|n: nat| afinished(p, #[trigger] asteps(p, r, n))
}

/// Where the run from `r` ends, if it does.
pub open spec fn aoutcome(p: Seq<AOp>, r: DRun) -> DRun {
    asteps(p, r, choose|n: nat| afinished(p, #[trigger] asteps(p, r, n)))
}

/// A run that is over stays where it is.
pub proof fn lemma_afinished_stays(p: Seq<AOp>, r: DRun, n: nat)
    requires
        afinished(p, r),
    ensures
        asteps(p, r, n) == r,
    decreases n,
{
    if n > 0 {
        lemma_afinished_stays(p, r, (n - 1) as nat);
    }
}

/// Steps add up.
pub proof fn lemma_asteps_add(p: Seq<AOp>, r: DRun, a: nat, b: nat)
    ensures
        asteps(p, r, a + b) == asteps(p, asteps(p, r, a), b),
    decreases a,
{
    if a > 0 {
        lemma_asteps_add(p, astep(p, r), (a - 1) as nat, b);
    }
}

/// A run that is over after `n` steps is over after any greater number of
/// steps, at the same place.
pub proof fn lemma_asteps_later(p: Seq<AOp>, r: DRun, n: nat, later: nat)
    requires
        afinished(p, asteps(p, r, n)),
        n <= later,
    ensures
        asteps(p, r, later) == asteps(p, r, n),
{
    lemma_asteps_add(p, r, n, (later - n) as nat);
    lemma_afinished_stays(p, asteps(p, r, n), (later - n) as nat);
}

/// However long a run that has ended is continued, it stays at its
/// outcome.
pub proof fn lemma_aoutcome(p: Seq<AOp>, r: DRun, n: nat)
    requires
        afinished(p, asteps(p, r, n)),
    ensures
        ahalts(p, r),
        aoutcome(p, r) == asteps(p, r, n),
{
    let k = choose|k: nat| afinished(p, #[trigger] asteps(p, r, k));
    if k <= n {
        lemma_asteps_later(p, r, k, n);
    } else {
        lemma_asteps_later(p, r, n, k);
    }
}

/// One step is the first of many.
pub proof fn lemma_asteps_one(p: Seq<AOp>, r: DRun)
    ensures
        asteps(p, r, 1) == astep(p, r),
{
    assert(asteps(p, r, 1) == asteps(p, astep(p, r), 0));
}

/// Whether the machine is in order and its cells have the modulus `md`,
/// which makes them at least a byte wide, so that they can take what is
/// read.
pub open spec fn sound(m: Machine, md: int) -> bool {
    m.wf() && m.modulus == md && md >= 0x100
}

/// Whether no instruction of the program moves the head by a negative
/// amount.
pub open spec fn moves_ok(p: Seq<AOp>) -> bool {
    forall|i: int| 0 <= i < p.len() ==> move_ok(#[trigger] p[i])
}

/// Whether the instruction does not move the head by a negative amount.
pub open spec fn move_ok(op: AOp) -> bool {
    match op {
        AOp::Right(k) => k >= 0,
        AOp::Left(k) => k >= 0,
        _ => true,
    }
}

/// An instruction that is no loop boundary keeps the machine in order.
pub proof fn lemma_basic_effect_wf(op: AOp, m: Machine, md: int)
    requires
        sound(m, md),
        move_ok(op),
    ensures
        sound(basic_effect(op, m).machine, md),
{
    match op {
        AOp::Zero => {
            lemma_set_wf(m, 0);
        },
        AOp::Add(k) => {
            vstd::arithmetic::div_mod::lemma_mod_bound(m.head() + k, md);
            lemma_set_wf(m, (m.head() + k) % md);
        },
        AOp::Sub(k) => {
            vstd::arithmetic::div_mod::lemma_mod_bound(m.head() - k, md);
            lemma_set_wf(m, (m.head() - k) % md);
        },
        AOp::Read => {
            let fl = m.flush();
            assert(fl.wf());
            if m.input.len() > 0 {
                lemma_set_wf(fl, m.input[0] as int);
            } else if !m.starved {
                lemma_set_wf(fl, 0);
            }
        },
        AOp::Write => {},
        _ => {},
    }
}

/// One step keeps the machine in order.
pub proof fn lemma_astep_wf(p: Seq<AOp>, r: DRun, md: int)
    requires
        sound(r.machine, md),
        moves_ok(p),
    ensures
        sound(astep(p, r).machine, md),
{
    if !afinished(p, r) {
        lemma_basic_effect_wf(p[r.idx], r.machine, md);
    }
}

} // verus!
