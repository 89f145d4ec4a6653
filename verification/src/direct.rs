//! The direct interpreter: it walks the program text itself and finds the
//! partner of a loop boundary only when it has to jump, remembering each
//! pair it has found.

use crate::brackets::{
    close_of, lemma_pairing_back_close, lemma_pairing_back_open, lemma_pairing_back_other,
    lemma_pairing_close, lemma_pairing_open, lemma_pairing_other, open_of, pairing, pairing_back,
    scan_close, scan_open, Bracket,
};
use crate::cell::BfOptimizable;
use crate::compiler::{CLOSE, COMMA, DOT, LEFT, MINUS, OPEN, PLUS, RIGHT};
use crate::error::{BfCompError, BfExecError, BfExecErrorTy};
use crate::state::{BfState, Machine};
use either::Either;
use std::collections::HashMap;
use vstd::prelude::*;

verus! {

/// `either::Either`: a value of one of two types, `Left` or `Right`.
#[verifier::external_type_specification]
#[verifier::reject_recursive_types(L)]
#[verifier::reject_recursive_types(R)]
pub struct ExEither<L, R>(Either<L, R>);

/// What a byte of the program text means for loop nesting.
pub open spec fn source_bracket(b: u8) -> Bracket {
    if b == OPEN {
        Bracket::Open
    } else if b == CLOSE {
        Bracket::Close
    } else {
        Bracket::Other
    }
}

/// The loop nesting of a program text.
pub open spec fn source_brackets(input: Seq<u8>) -> Seq<Bracket> {
    Seq::new(input.len(), |i: int| source_bracket(input[i]))
}

/// Whether every pair the cache remembers is a loop boundary of the text
/// with its partner, remembered in both directions.
pub open spec fn cache_ok(input: Seq<u8>, cache: Map<usize, usize>) -> bool {
    let k = source_brackets(input);
    forall|j: usize| #[trigger]
        cache.contains_key(j) ==> j < input.len() && cache[j] < input.len()
            && cache.contains_pair(cache[j], j) && match k[j as int] {
            Bracket::Open => close_of(k, j as int) == cache[j],
            Bracket::Close => open_of(k, j as int) == cache[j],
            Bracket::Other => false,
        }
}

/// Finds the loop end that closes the loop start at `cur`: from the cache
/// if it is there, else by scanning towards the end, remembering every
/// pair met on the way. Fails with `LoopCountMismatch` when the text ends
/// first. `iter` is scratch space.
pub fn lstart_jump(
    input: &[u8],
    cur: usize,
    cache: &mut HashMap<usize, usize>,
    iter: &mut Vec<usize>,
) -> (r: Result<usize, BfCompError>)
    requires
        cur < input@.len(),
        input@[cur as int] == OPEN,
        cache_ok(input@, old(cache)@),
    ensures
        cache_ok(input@, final(cache)@),
        old(cache)@.submap_of(final(cache)@),
        r matches Ok(to) ==> final(cache)@.contains_pair(cur, to) && final(cache)@.contains_pair(
            to,
            cur,
        ),
        match r {
            Ok(to) => to < input@.len() && to == close_of(source_brackets(input@), cur as int),
            Err(e) => e == BfCompError::LoopCountMismatch && close_of(
                source_brackets(input@),
                cur as int,
            ) == input@.len(),
        },
{
    broadcast use vstd::std_specs::hash::group_hash_axioms;

    let ghost kinds = source_brackets(input@);
    match cache.get(&cur) {
        Some(jump) => {
            return Ok(*jump);
        },
        None => {},
    }
    iter.clear();
    let len = input.len();
    let mut i = cur;
    while i < len
        invariant
            cur <= i <= len,
            len == input@.len(),
            kinds == source_brackets(input@),
            kinds[cur as int] == Bracket::Open,
            pairing(kinds, i as int, iter@),
            cache_ok(input@, cache@),
            old(cache)@.submap_of(cache@),
            i > cur ==> iter@.len() > 0 && iter@[0] == cur,
            i == cur ==> iter@.len() == 0,
        decreases len - i,
    {
        let ghost old_stack = iter@;
        let byte = input[i];
        if byte == OPEN {
            proof {
                lemma_pairing_open(kinds, i as int, iter@);
            }
            iter.push(i);
        } else if byte == CLOSE {
            match iter.pop() {
                Some(end) => {
                    proof {
                        lemma_pairing_close(kinds, i as int, old_stack);
                        assert(old_stack.last() == end);
                        assert(iter@ =~= old_stack.drop_last());
                    }
                    let ghost known = cache@;
                    cache.insert(i, end);
                    cache.insert(end, i);
                    proof {
                        assert forall|k: usize| #[trigger] known.contains_key(k) implies cache@[k]
                            == known[k] by {}
                        assert(known.submap_of(cache@));
                    }
                    if iter.len() == 0 {
                        return Ok(i);
                    }
                },
                None => {},
            }
        } else {
            proof {
                lemma_pairing_other(kinds, i as int, iter@);
            }
        }
        i = i + 1;
    }
    proof {
        assert(close_of(kinds, iter@[0] as int) == scan_close(kinds, len as int, iter@.len() - 0));
    }
    Err(BfCompError::LoopCountMismatch)
}

/// Finds the loop start that the loop end at `cur` closes: from the cache
/// if it is there, else by scanning towards the start, remembering every
/// pair met on the way. Fails with `LoopEndBeforeLoopStart` when the text
/// begins first. `iter` is scratch space.
pub fn lend_jump(
    input: &[u8],
    cur: usize,
    cache: &mut HashMap<usize, usize>,
    iter: &mut Vec<usize>,
) -> (r: Result<usize, BfCompError>)
    requires
        cur < input@.len(),
        input@[cur as int] == CLOSE,
        cache_ok(input@, old(cache)@),
    ensures
        cache_ok(input@, final(cache)@),
        old(cache)@.submap_of(final(cache)@),
        r matches Ok(to) ==> final(cache)@.contains_pair(cur, to) && final(cache)@.contains_pair(
            to,
            cur,
        ),
        match r {
            Ok(to) => to < input@.len() && to == open_of(source_brackets(input@), cur as int),
            Err(e) => e == BfCompError::LoopEndBeforeLoopStart && open_of(
                source_brackets(input@),
                cur as int,
            ) == -1,
        },
{
    broadcast use vstd::std_specs::hash::group_hash_axioms;

    let ghost kinds = source_brackets(input@);
    match cache.get(&cur) {
        Some(jump) => {
            return Ok(*jump);
        },
        None => {},
    }
    iter.clear();
    let len = input.len();
    let mut i = cur;
    loop
        invariant
            i <= cur < len,
            len == input@.len(),
            kinds == source_brackets(input@),
            kinds[cur as int] == Bracket::Close,
            pairing_back(kinds, i as int, iter@),
            cache_ok(input@, cache@),
            old(cache)@.submap_of(cache@),
            i < cur ==> iter@.len() > 0 && iter@[0] == cur,
            i == cur ==> iter@.len() == 0,
        decreases i,
    {
        let ghost old_stack = iter@;
        let byte = input[i];
        if byte == CLOSE {
            proof {
                lemma_pairing_back_close(kinds, i as int, iter@);
            }
            iter.push(i);
        } else if byte == OPEN {
            match iter.pop() {
                Some(end) => {
                    proof {
                        lemma_pairing_back_open(kinds, i as int, old_stack);
                        assert(old_stack.last() == end);
                        assert(iter@ =~= old_stack.drop_last());
                    }
                    let ghost known = cache@;
                    cache.insert(i, end);
                    cache.insert(end, i);
                    proof {
                        assert forall|k: usize| #[trigger] known.contains_key(k) implies cache@[k]
                            == known[k] by {}
                        assert(known.submap_of(cache@));
                    }
                    if iter.len() == 0 {
                        return Ok(i);
                    }
                },
                None => {},
            }
        } else {
            proof {
                lemma_pairing_back_other(kinds, i as int, iter@);
            }
        }
        if i == 0 {
            proof {
                assert(open_of(kinds, iter@[0] as int) == scan_open(kinds, -1, iter@.len() - 0));
            }
            return Err(BfCompError::LoopEndBeforeLoopStart);
        }
        i = i - 1;
    }
}

/// A point in a run over the program text: the machine, the index of the
/// next byte, and the error the run stopped with, if it did.
pub struct DRun {
    pub machine: Machine,
    pub idx: int,
    pub fault: Option<Either<BfExecErrorTy, BfCompError>>,
}

impl DRun {
    /// A run about to execute the byte at `idx`.
    pub open spec fn at(machine: Machine, idx: int) -> DRun {
        DRun { machine, idx, fault: None }
    }

    /// The run stops at `idx` with a run-time error.
    pub open spec fn stop(machine: Machine, idx: int, e: BfExecErrorTy) -> DRun {
        DRun { machine, idx, fault: Some(Either::Left(e)) }
    }

    /// The run stops at `idx` because a loop boundary has no partner.
    pub open spec fn broken(machine: Machine, idx: int, e: BfCompError) -> DRun {
        DRun { machine, idx, fault: Some(Either::Right(e)) }
    }
}

/// What the byte at `idx` of the program text does to the machine `m`.
/// A loop boundary that has to jump and has no partner stops the run.
pub open spec fn deffect(input: Seq<u8>, m: Machine, idx: int) -> DRun {
    let b = input[idx];
    let k = source_brackets(input);
    if b == PLUS {
        DRun::at(m.inc(1), idx + 1)
    } else if b == MINUS {
        DRun::at(m.dec(1), idx + 1)
    } else if b == RIGHT {
        if m.can_inc_ptr(1) {
            DRun::at(m.inc_ptr(1), idx + 1)
        } else {
            DRun::stop(m, idx, BfExecErrorTy::Overflow)
        }
    } else if b == LEFT {
        if m.can_dec_ptr(1) {
            DRun::at(m.dec_ptr(1), idx + 1)
        } else {
            DRun::stop(m, idx, BfExecErrorTy::Underflow)
        }
    } else if b == OPEN {
        if m.head() != 0 {
            DRun::at(m, idx + 1)
        } else if close_of(k, idx) < input.len() {
            DRun::at(m, close_of(k, idx) + 1)
        } else {
            DRun::broken(m, idx, BfCompError::LoopCountMismatch)
        }
    } else if b == CLOSE {
        if m.head() == 0 {
            DRun::at(m, idx + 1)
        } else if open_of(k, idx) >= 0 {
            DRun::at(m, open_of(k, idx) + 1)
        } else {
            DRun::broken(m, idx, BfCompError::LoopEndBeforeLoopStart)
        }
    } else if b == COMMA {
        if m.can_read() {
            DRun::at(m.read(), idx + 1)
        } else {
            DRun::stop(m.read(), idx, BfExecErrorTy::IOError)
        }
    } else if b == DOT {
        DRun::at(m.write(), idx + 1)
    } else {
        DRun::at(m, idx + 1)
    }
}

/// A run is over once it has stopped with an error or has left the text.
pub open spec fn dfinished(input: Seq<u8>, r: DRun) -> bool {
    r.fault is Some || r.idx < 0 || r.idx >= input.len()
}

/// One byte further; a run that is over stays as it is.
pub open spec fn dstep(input: Seq<u8>, r: DRun) -> DRun {
    if dfinished(input, r) {
        r
    } else {
        deffect(input, r.machine, r.idx)
    }
}

/// Up to `n` bytes further.
pub open spec fn dsteps(input: Seq<u8>, r: DRun, n: nat) -> DRun
    decreases n,
{
    if n == 0 {
        r
    } else {
        dsteps(input, dstep(input, r), (n - 1) as nat)
    }
}

/// The run from `r` comes to an end.
pub open spec fn dhalts(input: Seq<u8>, r: DRun) -> bool {
    exists|n: nat| dfinished(input, #[trigger] dsteps(input, r, n))
}

/// Where the run from `r` ends, if it does.
pub open spec fn doutcome(input: Seq<u8>, r: DRun) -> DRun {
    dsteps(input, r, choose|n: nat| dfinished(input, #[trigger] dsteps(input, r, n)))
}

/// What a run reports: nothing when it left the text, else the error,
/// and for a run-time error the index of the byte that raised it.
pub open spec fn dreport(r: DRun) -> Result<(), Either<BfExecError, BfCompError>> {
    match r.fault {
        Some(Either::Left(e)) => Err(Either::Left(BfExecError { source: e, idx: r.idx as usize })),
        Some(Either::Right(e)) => Err(Either::Right(e)),
        None => Ok(()),
    }
}

/// The machine a run leaves behind: the output is flushed once the text
/// has been left, and not when an error stopped the run.
pub open spec fn dfinal(r: DRun) -> Machine {
    if r.fault is Some {
        r.machine
    } else {
        r.machine.flush()
    }
}

/// A run that is over stays where it is.
pub proof fn lemma_dfinished_stays(input: Seq<u8>, r: DRun, n: nat)
    requires
        dfinished(input, r),
    ensures
        dsteps(input, r, n) == r,
    decreases n,
{
    if n > 0 {
        lemma_dfinished_stays(input, r, (n - 1) as nat);
    }
}

/// Steps add up.
pub proof fn lemma_dsteps_add(input: Seq<u8>, r: DRun, a: nat, b: nat)
    ensures
        dsteps(input, r, a + b) == dsteps(input, dsteps(input, r, a), b),
    decreases a,
{
    if a > 0 {
        lemma_dsteps_add(input, dstep(input, r), (a - 1) as nat, b);
    }
}

/// However long a run that has ended is continued, it stays at its
/// outcome.
pub proof fn lemma_doutcome(input: Seq<u8>, r: DRun, n: nat)
    requires
        dfinished(input, dsteps(input, r, n)),
    ensures
        dhalts(input, r),
        doutcome(input, r) == dsteps(input, r, n),
{
    let k = choose|k: nat| dfinished(input, #[trigger] dsteps(input, r, k));
    if k <= n {
        lemma_dsteps_add(input, r, k, (n - k) as nat);
        lemma_dfinished_stays(input, dsteps(input, r, k), (n - k) as nat);
    } else {
        lemma_dsteps_add(input, r, n, (k - n) as nat);
        lemma_dfinished_stays(input, dsteps(input, r, n), (k - n) as nat);
    }
}

/// Executes the byte at `idx` and says where the run goes on, or which
/// error stopped it. `cache` remembers the pairs of loop boundaries found
/// so far; `iter` is scratch space.
pub fn step<C: BfOptimizable>(
    input: &[u8],
    state: &mut BfState<C>,
    cache: &mut HashMap<usize, usize>,
    iter: &mut Vec<usize>,
    idx: usize,
) -> (r: Result<usize, Either<BfExecError, BfCompError>>)
    requires
        old(state).wf(),
        idx < input@.len(),
        cache_ok(input@, old(cache)@),
    ensures
        final(state).wf(),
        cache_ok(input@, final(cache)@),
        match r {
            Ok(next) => dstep(input@, DRun::at(old(state)@, idx as int)) == DRun::at(
                final(state)@,
                next as int,
            ),
            Err(Either::Left(e)) => e.idx == idx && dstep(input@, DRun::at(old(state)@, idx as int))
                == DRun::stop(final(state)@, idx as int, e.source),
            Err(Either::Right(e)) => dstep(input@, DRun::at(old(state)@, idx as int))
                == DRun::broken(final(state)@, idx as int, e),
        },
{
    let len = input.len();
    let byte = input[idx];
    let ghost expected = deffect(input@, state@, idx as int);
    proof {
        assert(dstep(input@, DRun::at(state@, idx as int)) == expected);
    }
    if byte == PLUS {
        state.inc(C::from_u8(1));
        Ok(idx + 1)
    } else if byte == MINUS {
        state.dec(C::from_u8(1));
        Ok(idx + 1)
    } else if byte == RIGHT {
        match state.inc_ptr(1) {
            Ok(()) => Ok(idx + 1),
            Err(source) => Err(Either::Left(BfExecError { source, idx })),
        }
    } else if byte == LEFT {
        match state.dec_ptr(1) {
            Ok(()) => Ok(idx + 1),
            Err(source) => Err(Either::Left(BfExecError { source, idx })),
        }
    } else if byte == OPEN {
        if state.jump_forward() {
            match lstart_jump(input, idx, cache, iter) {
                Ok(to) => Ok(to + 1),
                Err(e) => Err(Either::Right(e)),
            }
        } else {
            Ok(idx + 1)
        }
    } else if byte == CLOSE {
        if state.jump_backward() {
            match lend_jump(input, idx, cache, iter) {
                Ok(to) => Ok(to + 1),
                Err(e) => Err(Either::Right(e)),
            }
        } else {
            Ok(idx + 1)
        }
    } else if byte == COMMA {
        match state.read() {
            Ok(()) => Ok(idx + 1),
            Err(source) => Err(Either::Left(BfExecError { source, idx })),
        }
    } else if byte == DOT {
        match state.write() {
            Ok(()) => Ok(idx + 1),
            Err(source) => Err(Either::Left(BfExecError { source, idx })),
        }
    } else {
        Ok(idx + 1)
    }
}

/// Runs a program text from its first byte to its end or to the first
/// error, and flushes the output when the end is reached. The program
/// must come to an end on this state.
pub fn interpret<C: BfOptimizable>(input: &[u8], state: &mut BfState<C>) -> (r: Result<
    (),
    Either<BfExecError, BfCompError>,
>)
    requires
        old(state).wf(),
        dhalts(input@, DRun::at(old(state)@, 0)),
    ensures
        final(state).wf(),
        final(state)@ == dfinal(doutcome(input@, DRun::at(old(state)@, 0))),
        r == dreport(doutcome(input@, DRun::at(old(state)@, 0))),
{
    let ghost start = DRun::at(state@, 0);
    let ghost mut fuel: nat = choose|n: nat| dfinished(input@, #[trigger] dsteps(input@, start, n));
    proof {
        lemma_doutcome(input@, start, fuel);
    }
    let mut cache: HashMap<usize, usize> = HashMap::new();
    let mut iter: Vec<usize> = Vec::new();
    let mut idx: usize = 0;
    while idx < input.len()
        invariant
            state.wf(),
            cache_ok(input@, cache@),
            start == DRun::at(old(state)@, 0),
            dfinished(input@, dsteps(input@, DRun::at(state@, idx as int), fuel)),
            dsteps(input@, DRun::at(state@, idx as int), fuel) == doutcome(input@, start),
        decreases fuel,
    {
        let ghost here = DRun::at(state@, idx as int);
        proof {
            assert(!dfinished(input@, here));
            assert(fuel > 0) by {
                if fuel == 0 {
                    assert(dsteps(input@, here, 0) == here);
                }
            }
            assert(dsteps(input@, here, fuel) == dsteps(
                input@,
                dstep(input@, here),
                (fuel - 1) as nat,
            ));
        }
        match step(input, state, &mut cache, &mut iter, idx) {
            Ok(next) => {
                idx = next;
            },
            Err(e) => {
                proof {
                    lemma_dfinished_stays(input@, dstep(input@, here), (fuel - 1) as nat);
                }
                return Err(e);
            },
        }
        proof {
            fuel = (fuel - 1) as nat;
        }
    }
    proof {
        lemma_dfinished_stays(input@, DRun::at(state@, idx as int), fuel);
    }
    state.flush();
    Ok(())
}

} // verus!
