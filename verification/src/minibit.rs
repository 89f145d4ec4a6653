//! The compact bytecode: one byte per instruction, with short jumps
//! inline and long jumps in a map beside the tape.
//!
//! The high three bits of a byte select the instruction, the low five are
//! its operand: a run length less one, or a jump distance, where zero
//! sends the interpreter to the map. A `Wild` byte is a read, a write, or
//! a long head move followed by its length as eight little-endian bytes.

use crate::brackets::{
    balanced, close_of, closes_early, delta, lemma_closed_step, lemma_open_stack_close,
    lemma_open_stack_close_early, lemma_open_stack_end, lemma_open_stack_open,
    lemma_open_stack_other, lemma_scan_close_range, lemma_scan_open_range, open_of, open_stack,
    scan_close, Bracket,
};
use crate::cell::{lemma_byte_fits, BfOptimizable};
use crate::compiler::{CLOSE, COMMA, DOT, LEFT, MINUS, OPEN, PLUS, RIGHT};
use crate::error::{BfCompError, BfExecError, BfExecErrorTy};
use crate::source::{
    byte_run, clearing_loop, is_program, is_run_byte, lemma_byte_run_bounds, program_bytes,
    run_length, strip_comments,
};
use crate::interpreter::Run;
use crate::state::{BfState, Machine, Reader};
use either::Either;
use std::collections::HashMap;
use vstd::bytes::{spec_u64_from_le_bytes, spec_u64_to_le_bytes, u64_from_le_bytes, u64_to_le_bytes};
use vstd::prelude::*;

verus! {

/// The instruction a byte of the tape selects.
#[derive(Copy, Clone, Debug, PartialEq, Eq, Structural)]
pub enum Instr {
    Inc,
    Dec,
    IncPtr,
    DecPtr,
    LStart,
    LEnd,
    Zero,
    Wild,
}

/// What a `Wild` byte stands for.
#[derive(Copy, Clone, Debug, PartialEq, Eq, Structural)]
pub enum WildArgs {
    Read,
    Write,
    IncPtrMany,
    DecPtrMany,
}

impl WildArgs {
    /// The operand of the `Wild` byte.
    pub open spec fn code(self) -> u8 {
        match self {
            WildArgs::Read => 0,
            WildArgs::Write => 1,
            WildArgs::IncPtrMany => 2,
            WildArgs::DecPtrMany => 3,
        }
    }

    /// What the operand `v` of a `Wild` byte stands for, if anything.
    pub open spec fn spec_from_wild(v: u8) -> Option<Self> {
        if v == 0 {
            Some(WildArgs::Read)
        } else if v == 1 {
            Some(WildArgs::Write)
        } else if v == 2 {
            Some(WildArgs::IncPtrMany)
        } else if v == 3 {
            Some(WildArgs::DecPtrMany)
        } else {
            None
        }
    }

    /// What the operand `v` of a `Wild` byte stands for, if anything.
    pub fn from_wild(v: u8) -> (r: Option<Self>)
        ensures
            r == Self::spec_from_wild(v),
    {
        if v == 0 {
            Some(WildArgs::Read)
        } else if v == 1 {
            Some(WildArgs::Write)
        } else if v == 2 {
            Some(WildArgs::IncPtrMany)
        } else if v == 3 {
            Some(WildArgs::DecPtrMany)
        } else {
            None
        }
    }

    fn operand(self) -> (r: u8)
        ensures
            r == self.code(),
    {
        match self {
            WildArgs::Read => 0,
            WildArgs::Write => 1,
            WildArgs::IncPtrMany => 2,
            WildArgs::DecPtrMany => 3,
        }
    }
}

impl Instr {
    /// The three bits that select the instruction.
    pub open spec fn code(self) -> u8 {
        match self {
            Instr::Inc => 0,
            Instr::Dec => 1,
            Instr::IncPtr => 2,
            Instr::DecPtr => 3,
            Instr::LStart => 4,
            Instr::LEnd => 5,
            Instr::Zero => 6,
            Instr::Wild => 7,
        }
    }

    /// The instruction that three bits select.
    pub open spec fn of_code(c: int) -> Instr {
        if c == 0 {
            Instr::Inc
        } else if c == 1 {
            Instr::Dec
        } else if c == 2 {
            Instr::IncPtr
        } else if c == 3 {
            Instr::DecPtr
        } else if c == 4 {
            Instr::LStart
        } else if c == 5 {
            Instr::LEnd
        } else if c == 6 {
            Instr::Zero
        } else {
            Instr::Wild
        }
    }

    /// The byte for the instruction with the low five bits of `operand`.
    pub open spec fn spec_with(self, operand: u8) -> u8 {
        (self.code() * 32 + operand % 32) as u8
    }

    /// The instruction and the operand of a byte.
    pub open spec fn spec_decode(b: u8) -> (Instr, u8) {
        (Self::of_code(b as int / 32), b % 32)
    }

    /// The byte for the instruction with the low five bits of `operand`.
    pub fn with(self, operand: u8) -> (r: u8)
        ensures
            r == self.spec_with(operand),
            Self::spec_decode(r) == (self, (operand % 32) as u8),
    {
        let code: u8 = match self {
            Instr::Inc => 0,
            Instr::Dec => 1,
            Instr::IncPtr => 2,
            Instr::DecPtr => 3,
            Instr::LStart => 4,
            Instr::LEnd => 5,
            Instr::Zero => 6,
            Instr::Wild => 7,
        };
        code * 32 + operand % 32
    }

    /// The `Wild` byte for `args`.
    pub fn wild(args: WildArgs) -> (r: u8)
        ensures
            r == Instr::Wild.spec_with(args.code()),
    {
        Instr::Wild.with(args.operand())
    }

    /// The instruction and the operand of a byte.
    pub fn decode(b: u8) -> (r: (Self, u8))
        ensures
            r == Self::spec_decode(b),
            r.1 < 32,
            r.0.spec_with(r.1) == b,
    {
        let code = b / 32;
        let instr = if code == 0 {
            Instr::Inc
        } else if code == 1 {
            Instr::Dec
        } else if code == 2 {
            Instr::IncPtr
        } else if code == 3 {
            Instr::DecPtr
        } else if code == 4 {
            Instr::LStart
        } else if code == 5 {
            Instr::LEnd
        } else if code == 6 {
            Instr::Zero
        } else {
            Instr::Wild
        };
        (instr, b % 32)
    }
}

/// The instruction that a run of the program byte `b` folds into.
pub open spec fn run_instr(b: u8) -> Instr {
    if b == PLUS {
        Instr::Inc
    } else if b == MINUS {
        Instr::Dec
    } else if b == RIGHT {
        Instr::IncPtr
    } else {
        Instr::DecPtr
    }
}

/// A run of `n` in short form: one byte for each full 32, then one for
/// the rest.
pub open spec fn chunked(instr: Instr, n: nat) -> Seq<u8> {
    Seq::new(n / 32, |i: int| instr.spec_with(31)) + if n % 32 != 0 {
        seq![instr.spec_with(((n % 32) - 1) as u8)]
    } else {
        Seq::empty()
    }
}

/// The bytes for a run of `n` program bytes `b`: a head move of 32 or
/// more is a `Wild` byte with its length behind it, every other run is in
/// short form.
pub open spec fn run_bytes(b: u8, n: nat) -> Seq<u8> {
    if n >= 32 && b == RIGHT {
        seq![Instr::Wild.spec_with(2)] + spec_u64_to_le_bytes(n as u64)
    } else if n >= 32 && b == LEFT {
        seq![Instr::Wild.spec_with(3)] + spec_u64_to_le_bytes(n as u64)
    } else {
        chunked(run_instr(b), n)
    }
}

/// The tape of a comment-free program text, with every jump distance
/// still zero.
pub open spec fn btape(p: Seq<u8>) -> Seq<u8>
    decreases p.len(),
{
    if p.len() == 0 {
        Seq::empty()
    } else if p[0] == DOT {
        seq![Instr::Wild.spec_with(1)] + btape(p.skip(1))
    } else if p[0] == COMMA {
        seq![Instr::Wild.spec_with(0)] + btape(p.skip(1))
    } else if p[0] == OPEN {
        if clearing_loop(p) {
            seq![Instr::Zero.spec_with(0)] + btape(p.skip(3))
        } else {
            seq![Instr::LStart.spec_with(0)] + btape(p.skip(1))
        }
    } else if p[0] == CLOSE {
        seq![Instr::LEnd.spec_with(0)] + btape(p.skip(1))
    } else if is_run_byte(p[0]) {
        let n = byte_run(p);
        proof {
            lemma_byte_run_bounds(p);
        }
        run_bytes(p[0], n) + btape(p.skip(n as int))
    } else {
        btape(p.skip(1))
    }
}

/// Whether a byte is a long head move, which has eight bytes behind it.
pub open spec fn is_many(b: u8) -> bool {
    b == Instr::Wild.spec_with(2) || b == Instr::Wild.spec_with(3)
}

/// What a byte that is an instruction means for loop nesting.
pub open spec fn byte_bracket(b: u8) -> Bracket {
    if Instr::spec_decode(b).0 == Instr::LStart {
        Bracket::Open
    } else if Instr::spec_decode(b).0 == Instr::LEnd {
        Bracket::Close
    } else {
        Bracket::Other
    }
}

/// The loop nesting of the tape from the instruction at `from` on. The
/// bytes behind a long head move are no instructions.
pub open spec fn tape_brackets(tape: Seq<u8>, from: int) -> Seq<Bracket>
    decreases tape.len() - from,
{
    if from < 0 || from >= tape.len() {
        Seq::empty()
    } else if is_many(tape[from]) {
        if tape.len() - from <= 9 {
            Seq::new((tape.len() - from) as nat, |i: int| Bracket::Other)
        } else {
            Seq::new(9, |i: int| Bracket::Other) + tape_brackets(tape, from + 9)
        }
    } else {
        seq![byte_bracket(tape[from])] + tape_brackets(tape, from + 1)
    }
}

/// The nesting has one entry for each byte.
pub proof fn lemma_tape_brackets_len(tape: Seq<u8>, from: int)
    requires
        0 <= from <= tape.len(),
    ensures
        tape_brackets(tape, from).len() == tape.len() - from,
    decreases tape.len() - from,
{
    if from < tape.len() {
        if is_many(tape[from]) {
            if tape.len() - from > 9 {
                lemma_tape_brackets_len(tape, from + 9);
            }
        } else {
            lemma_tape_brackets_len(tape, from + 1);
        }
    }
}

/// The byte of a loop boundary whose partner is `d` bytes away: the
/// distance itself up to 31, else zero.
pub open spec fn link_byte(instr: Instr, d: int) -> u8 {
    instr.spec_with(
        if d <= 31 {
            d as u8
        } else {
            0
        },
    )
}

/// `cur` and `map` are `raw` with the jumps resolved of every loop that
/// ends before `idx`: a loop boundary holds the distance to its partner
/// if that is at most 31, else zero, and then the map holds the partner's
/// index; every other byte is as it was.
pub open spec fn tape_linked_upto(
    raw: Seq<u8>,
    cur: Seq<u8>,
    map: Map<usize, usize>,
    idx: int,
) -> bool {
    let k = tape_brackets(raw, 0);
    &&& cur.len() == raw.len()
    &&& forall|j: int|
        0 <= j < raw.len() ==> #[trigger] cur[j] == match k[j] {
            Bracket::Open => if close_of(k, j) < idx {
                link_byte(Instr::LStart, close_of(k, j) - j)
            } else {
                raw[j]
            },
            Bracket::Close => if j < idx {
                link_byte(Instr::LEnd, j - open_of(k, j))
            } else {
                raw[j]
            },
            Bracket::Other => raw[j],
        }
    &&& forall|j: usize| #[trigger]
        map.contains_key(j) <==> j < raw.len() && match k[j as int] {
            Bracket::Open => close_of(k, j as int) < idx && close_of(k, j as int) - j > 31,
            Bracket::Close => j < idx && j - open_of(k, j as int) > 31,
            Bracket::Other => false,
        }
    &&& forall|j: usize| #[trigger]
        map.contains_key(j) ==> map[j] as int == match k[j as int] {
            Bracket::Open => close_of(k, j as int),
            _ => open_of(k, j as int),
        }
}

/// `cur` and `map` are `raw` with all jumps resolved.
pub open spec fn tape_linked(raw: Seq<u8>, cur: Seq<u8>, map: Map<usize, usize>) -> bool {
    tape_linked_upto(raw, cur, map, raw.len() as int)
}

/// A program in compact bytecode: the tape and the map of its long jumps.
pub struct BTapeStream(pub Vec<u8>, pub HashMap<usize, usize>);

impl BTapeStream {
    /// The tape of a program text, with every jump distance still zero.
    pub fn rewrite(data: &[u8]) -> (r: Vec<u8>)
        ensures
            r@ == btape(program_bytes(data@)),
    {
        let valid = strip_comments(data);
        let len = valid.len();
        let mut out: Vec<u8> = Vec::new();
        let mut i: usize = 0;
        proof {
            assert(valid@.skip(0) =~= valid@);
            assert(out@ + btape(valid@) =~= btape(valid@));
        }
        while i < len
            invariant
                i <= len,
                len == valid@.len(),
                forall|k: int| 0 <= k < valid@.len() ==> is_program(#[trigger] valid@[k]),
                out@ + btape(valid@.skip(i as int)) == btape(valid@),
            decreases len - i,
        {
            let next = valid[i];
            let ghost tail = valid@.skip(i as int);
            let ghost done = out@;
            let step: usize;
            proof {
                assert(tail[0] == next);
                assert(is_program(valid@[i as int]));
            }
            if next == COMMA {
                out.push(Instr::wild(WildArgs::Read));
                step = 1;
            } else if next == DOT {
                out.push(Instr::wild(WildArgs::Write));
                step = 1;
            } else if next == OPEN {
                if len - i >= 3 && (valid[i + 1] == PLUS || valid[i + 1] == MINUS) && valid[i + 2]
                    == CLOSE {
                    out.push(Instr::Zero.with(0));
                    step = 3;
                } else {
                    out.push(Instr::LStart.with(0));
                    step = 1;
                }
            } else if next == CLOSE {
                out.push(Instr::LEnd.with(0));
                step = 1;
            } else {
                let run = run_length(valid.as_slice(), i);
                step = run;
                let count = run as u64;
                let instr = if next == PLUS {
                    Instr::Inc
                } else if next == MINUS {
                    Instr::Dec
                } else if next == RIGHT {
                    Instr::IncPtr
                } else {
                    Instr::DecPtr
                };
                let chunks = count / 32;
                let last = (count % 32) as u8;
                if chunks >= 1 && (next == RIGHT || next == LEFT) {
                    if next == RIGHT {
                        out.push(Instr::wild(WildArgs::IncPtrMany));
                    } else {
                        out.push(Instr::wild(WildArgs::DecPtrMany));
                    }
                    let operand = u64_to_le_bytes(count);
                    out.extend_from_slice(operand.as_slice());
                } else {
                    let mut c: u64 = 0;
                    while c < chunks
                        invariant
                            c <= chunks,
                            out@ == done + Seq::new(c as nat, |k: int| instr.spec_with(31)),
                        decreases chunks - c,
                    {
                        out.push(instr.with(31));
                        c = c + 1;
                        proof {
                            assert(out@ =~= done + Seq::new(c as nat, |k: int| instr.spec_with(31)));
                        }
                    }
                    if last != 0 {
                        out.push(instr.with(last - 1));
                    }
                }
                proof {
                    assert(out@ =~= done + run_bytes(next, run as nat));
                }
            }
            proof {
                assert(tail.skip(step as int) =~= valid@.skip(i + step));
                assert(out@ + btape(valid@.skip(i + step)) =~= done + btape(tail));
            }
            i = i + step;
        }
        proof {
            assert(valid@.skip(len as int) =~= Seq::<u8>::empty());
            assert(out@ =~= out@ + btape(valid@.skip(len as int)));
        }
        out
    }
}

/// Instructions that are no loop boundaries leave the open loops as they
/// are.
pub proof fn lemma_open_stack_others(s: Seq<Bracket>, i: int, n: int, stack: Seq<usize>)
    requires
        open_stack(s, i, stack),
        0 <= n,
        i + n <= s.len(),
        forall|k: int| i <= k < i + n ==> s[k] == Bracket::Other,
    ensures
        open_stack(s, i + n, stack),
    decreases n,
{
    if n > 0 {
        lemma_open_stack_others(s, i, n - 1, stack);
        lemma_open_stack_other(s, i + n - 1, stack);
    }
}

impl BTapeStream {
    /// Resolves the jumps of a tape in place and gives the map of the
    /// long ones. On an error the tape is left partly resolved.
    ///
    /// Fails with `LoopEndBeforeLoopStart` when a loop end has no loop
    /// start before it, and with `LoopCountMismatch` when a loop start is
    /// never closed.
    pub fn insert_loop(data: &mut Vec<u8>) -> (r: Result<HashMap<usize, usize>, BfCompError>)
        ensures
            final(data)@.len() == old(data)@.len(),
            match r {
                Ok(map) => balanced(tape_brackets(old(data)@, 0)) && tape_linked(
                    old(data)@,
                    final(data)@,
                    map@,
                ),
                Err(e) => if closes_early(tape_brackets(old(data)@, 0)) {
                    e == BfCompError::LoopEndBeforeLoopStart
                } else {
                    e == BfCompError::LoopCountMismatch && !balanced(
                        tape_brackets(old(data)@, 0),
                    )
                },
            },
    {
        broadcast use vstd::std_specs::hash::group_hash_axioms;

        let ghost raw = data@;
        let ghost kinds = tape_brackets(raw, 0);
        let mut stack: Vec<usize> = Vec::new();
        let mut oversized: HashMap<usize, usize> = HashMap::new();
        let len = data.len();
        let mut idx: usize = 0;
        proof {
            lemma_tape_brackets_len(raw, 0);
            assert(kinds.skip(0) =~= kinds);
            assert forall|j: int| 0 <= j < len && kinds[j] == Bracket::Open implies close_of(
                kinds,
                j,
            ) >= 0 by {
                lemma_scan_close_range(kinds, j, 0);
            }
        }
        while idx < len
            invariant
                idx <= len,
                raw == old(data)@,
                len == raw.len(),
                data@.len() == len,
                kinds == tape_brackets(raw, 0),
                kinds.len() == len,
                kinds.skip(idx as int) == tape_brackets(raw, idx as int),
                open_stack(kinds, idx as int, stack@),
                tape_linked_upto(raw, data@, oversized@, idx as int),
            decreases len - idx,
        {
            let ghost before = data@;
            let ghost old_map = oversized@;
            let ghost old_stack = stack@;
            let decoded = Instr::decode(data[idx]);
            let mut step: usize = 1;
            proof {
                lemma_tape_brackets_len(raw, idx as int);
                assert(before[idx as int] == raw[idx as int]) by {
                    lemma_scan_open_range(kinds, idx as int, 0);
                    lemma_scan_close_range(kinds, idx as int, 0);
                }
                assert(kinds[idx as int] == kinds.skip(idx as int)[0]);
            }
            match decoded.0 {
                Instr::LStart => {
                    proof {
                        lemma_open_stack_open(kinds, idx as int, stack@);
                    }
                    stack.push(idx);
                },
                Instr::LEnd => {
                    match stack.pop() {
                        Some(v) => {
                            proof {
                                lemma_open_stack_close(kinds, idx as int, old_stack);
                                assert(old_stack.last() == v);
                                assert(stack@ =~= old_stack.drop_last());
                            }
                            let distance = idx - v;
                            if distance <= 31 {
                                let distance = distance as u8;
                                data[v] = Instr::LStart.with(distance);
                                data[idx] = Instr::LEnd.with(distance);
                            } else {
                                data[v] = Instr::LStart.with(0);
                                data[idx] = Instr::LEnd.with(0);
                                oversized.insert(v, idx);
                                oversized.insert(idx, v);
                            }
                        },
                        None => {
                            proof {
                                lemma_open_stack_close_early(kinds, idx as int, old_stack);
                            }
                            return Err(BfCompError::LoopEndBeforeLoopStart);
                        },
                    }
                },
                Instr::Wild => {
                    if decoded.1 == 2 || decoded.1 == 3 {
                        step = if len - idx <= 9 {
                            len - idx
                        } else {
                            9
                        };
                        proof {
                            let rest = tape_brackets(raw, idx as int);
                            assert forall|k: int| idx <= k < idx + step implies kinds[k]
                                == Bracket::Other by {
                                assert(kinds[k] == kinds.skip(idx as int)[k - idx]);
                            }
                            lemma_open_stack_others(kinds, idx as int, step as int, stack@);
                            if len - idx > 9 {
                                lemma_tape_brackets_len(raw, idx + 9);
                                assert(kinds.skip(idx + 9) =~= rest.skip(9));
                                assert(rest.skip(9) =~= tape_brackets(raw, idx + 9));
                            } else {
                                assert(kinds.skip(len as int) =~= Seq::<Bracket>::empty());
                            }
                        }
                    } else {
                        proof {
                            lemma_open_stack_other(kinds, idx as int, stack@);
                        }
                    }
                },
                _ => {
                    proof {
                        lemma_open_stack_other(kinds, idx as int, stack@);
                    }
                },
            }
            proof {
                let rest = tape_brackets(raw, idx as int);
                if step == 1 {
                    lemma_tape_brackets_len(raw, idx + 1);
                    assert(kinds.skip(idx + 1) =~= rest.skip(1));
                    assert(!is_many(raw[idx as int]) ==> rest.skip(1) =~= tape_brackets(
                        raw,
                        idx + 1,
                    ));
                    if is_many(raw[idx as int]) {
                        assert(len - idx == 1);
                        assert(kinds.skip(len as int) =~= Seq::<Bracket>::empty());
                    }
                }
                lemma_linked_step(raw, before, old_map, data@, oversized@, idx as int, step as int,
                    old_stack);
            }
            idx = idx + step;
        }
        proof {
            lemma_open_stack_end(kinds, stack@);
        }
        if stack.len() != 0 {
            return Err(BfCompError::LoopCountMismatch);
        }
        Ok(oversized)
    }

    /// Compiles a program text to compact bytecode.
    ///
    /// Fails with `LoopEndBeforeLoopStart` when a loop end has no loop
    /// start before it, and with `LoopCountMismatch` when a loop start is
    /// never closed.
    pub fn from_bf(data: &[u8]) -> (r: Result<Self, BfCompError>)
        ensures
            match r {
                Ok(stream) => balanced(tape_brackets(btape(program_bytes(data@)), 0))
                    && tape_linked(btape(program_bytes(data@)), stream.0@, stream.1@),
                Err(e) => if closes_early(tape_brackets(btape(program_bytes(data@)), 0)) {
                    e == BfCompError::LoopEndBeforeLoopStart
                } else {
                    e == BfCompError::LoopCountMismatch && !balanced(
                        tape_brackets(btape(program_bytes(data@)), 0),
                    )
                },
            },
    {
        let mut data = Self::rewrite(data);
        match Self::insert_loop(&mut data) {
            Ok(map) => Ok(Self(data, map)),
            Err(e) => Err(e),
        }
    }
}

/// One step of jump resolution: the tape and the map after the
/// instruction at `idx`, which takes `step` bytes, are resolved up to
/// behind it.
pub proof fn lemma_linked_step(
    raw: Seq<u8>,
    before: Seq<u8>,
    old_map: Map<usize, usize>,
    after: Seq<u8>,
    new_map: Map<usize, usize>,
    idx: int,
    step: int,
    stack: Seq<usize>,
)
    requires
        0 <= idx < raw.len(),
        raw.len() <= usize::MAX,
        1 <= step,
        idx + step <= raw.len(),
        tape_brackets(raw, 0).len() == raw.len(),
        open_stack(tape_brackets(raw, 0), idx, stack),
        tape_linked_upto(raw, before, old_map, idx),
        forall|k: int| idx < k < idx + step ==> tape_brackets(raw, 0)[k] == Bracket::Other,
        tape_brackets(raw, 0)[idx] == Bracket::Close ==> stack.len() > 0,
        match tape_brackets(raw, 0)[idx] {
            Bracket::Close => {
                let v = stack.last() as int;
                &&& after == before.update(v, link_byte(Instr::LStart, idx - v)).update(
                    idx,
                    link_byte(Instr::LEnd, idx - v),
                )
                &&& new_map == if idx - v <= 31 {
                    old_map
                } else {
                    old_map.insert(v as usize, idx as usize).insert(idx as usize, v as usize)
                }
            },
            _ => after == before && new_map == old_map,
        },
    ensures
        tape_linked_upto(raw, after, new_map, idx + step),
{
    let k = tape_brackets(raw, 0);
    let next = idx + step;
    assert forall|j: int| 0 <= j < raw.len() && k[j] == Bracket::Open implies (close_of(k, j)
        < next <==> (close_of(k, j) < idx || (k[idx] == Bracket::Close && j
        == stack.last()))) by {
        lemma_closed_step(k, idx, stack, j);
        lemma_scan_close_range(k, j, 0);
        let c = close_of(k, j);
        if idx < c < next {
            lemma_close_is_close(k, j, 0);
        }
    }
    if k[idx] == Bracket::Close {
        lemma_open_stack_close(k, idx, stack);
    }
    assert forall|j: int| 0 <= j < raw.len() implies #[trigger] after[j] == match k[j] {
        Bracket::Open => if close_of(k, j) < next {
            link_byte(Instr::LStart, close_of(k, j) - j)
        } else {
            raw[j]
        },
        Bracket::Close => if j < next {
            link_byte(Instr::LEnd, j - open_of(k, j))
        } else {
            raw[j]
        },
        Bracket::Other => raw[j],
    } by {
        assert(before[j] == before[j]);
    }
    assert forall|j: usize| #[trigger]
        new_map.contains_key(j) <==> j < raw.len() && match k[j as int] {
            Bracket::Open => close_of(k, j as int) < next && close_of(k, j as int) - j > 31,
            Bracket::Close => j < next && j - open_of(k, j as int) > 31,
            Bracket::Other => false,
        } by {
        assert(old_map.contains_key(j) == old_map.contains_key(j));
    }
    assert forall|j: usize| #[trigger] new_map.contains_key(j) implies new_map[j] as int
        == match k[j as int] {
        Bracket::Open => close_of(k, j as int),
        _ => open_of(k, j as int),
    } by {
        assert(old_map.contains_key(j) == old_map.contains_key(j));
    }
}

/// Where a scan towards the end stops, a loop end stands.
pub proof fn lemma_close_is_close(s: Seq<Bracket>, i: int, depth: int)
    requires
        0 <= i,
        depth >= 0,
        depth > 0 || (i < s.len() && s[i] == Bracket::Open),
    ensures
        scan_close(s, i, depth) < s.len() ==> s[scan_close(s, i, depth)] == Bracket::Close
            || scan_close(s, i, depth) == i && depth == 0,
    decreases s.len() - i,
{
    if i < s.len() {
        let next = depth + delta(s[i]);
        if next != 0 {
            lemma_close_is_close(s, i + 1, next);
        }
    }
}

/// Where a jump to the partner at `to` continues: behind the partner, or
/// at the end of a tape of `len` bytes when the partner lies outside.
pub open spec fn jump_to(to: int, len: int) -> int {
    if 0 <= to < len {
        to + 1
    } else {
        len
    }
}

/// The partner of the loop boundary at `idx`: `by` bytes away, towards
/// the end if `forward` and else towards the start, when `by` is not
/// zero; else what the map says. A boundary missing from the map has its
/// partner outside the tape.
pub open spec fn partner(map: Map<usize, usize>, idx: int, by: u8, forward: bool, len: int) -> int {
    if by != 0 {
        if forward {
            idx + by
        } else {
            idx - by
        }
    } else if map.contains_key(idx as usize) {
        map[idx as usize] as int
    } else {
        len
    }
}

/// What the instruction at `idx` of the tape does to the machine `m`.
pub open spec fn beffect(tape: Seq<u8>, map: Map<usize, usize>, m: Machine, idx: int) -> Run {
    let instr = Instr::spec_decode(tape[idx]).0;
    let by = Instr::spec_decode(tape[idx]).1;
    let len = tape.len() as int;
    match instr {
        Instr::Zero => Run::go(m.zero(), idx + 1),
        Instr::Inc => Run::go(m.inc(by + 1), idx + 1),
        Instr::Dec => Run::go(m.dec(by + 1), idx + 1),
        Instr::IncPtr => if m.can_inc_ptr(by + 1) {
            Run::go(m.inc_ptr(by + 1), idx + 1)
        } else {
            Run::stop(m, idx, BfExecErrorTy::Overflow)
        },
        Instr::DecPtr => if m.can_dec_ptr(by + 1) {
            Run::go(m.dec_ptr(by + 1), idx + 1)
        } else {
            Run::stop(m, idx, BfExecErrorTy::Underflow)
        },
        Instr::LStart => if m.head() == 0 {
            Run::go(m, jump_to(partner(map, idx, by, true, len), len))
        } else {
            Run::go(m, idx + 1)
        },
        Instr::LEnd => if m.head() != 0 {
            Run::go(m, jump_to(partner(map, idx, by, false, len), len))
        } else {
            Run::go(m, idx + 1)
        },
        Instr::Wild => match WildArgs::spec_from_wild(by) {
            Some(WildArgs::Read) => if m.can_read() {
                Run::go(m.read(), idx + 1)
            } else {
                Run::stop(m.read(), idx, BfExecErrorTy::IOError)
            },
            Some(WildArgs::Write) => Run::go(m.write(), idx + 1),
            Some(WildArgs::IncPtrMany) => if idx + 9 > len {
                Run::go(m, len)
            } else {
                let n = spec_u64_from_le_bytes(tape.subrange(idx + 1, idx + 9)) as int;
                if m.can_inc_ptr(n) {
                    Run::go(m.inc_ptr(n), idx + 9)
                } else {
                    Run::stop(m, idx, BfExecErrorTy::Overflow)
                }
            },
            Some(WildArgs::DecPtrMany) => if idx + 9 > len {
                Run::go(m, len)
            } else {
                let n = spec_u64_from_le_bytes(tape.subrange(idx + 1, idx + 9)) as int;
                if m.can_dec_ptr(n) {
                    Run::go(m.dec_ptr(n), idx + 9)
                } else {
                    Run::stop(m, idx, BfExecErrorTy::Underflow)
                }
            },
            None => Run::go(m, idx + 1),
        },
    }
}

/// A run is over once it has stopped with an error or has left the tape.
pub open spec fn bfinished(tape: Seq<u8>, r: Run) -> bool {
    r.fault is Some || r.idx < 0 || r.idx >= tape.len()
}

/// One instruction further; a run that is over stays as it is.
pub open spec fn bstep(tape: Seq<u8>, map: Map<usize, usize>, r: Run) -> Run {
    if bfinished(tape, r) {
        r
    } else {
        beffect(tape, map, r.machine, r.idx)
    }
}

/// Up to `n` instructions further.
pub open spec fn bsteps(tape: Seq<u8>, map: Map<usize, usize>, r: Run, n: nat) -> Run
    decreases n,
{
    if n == 0 {
        r
    } else {
        bsteps(tape, map, bstep(tape, map, r), (n - 1) as nat)
    }
}

/// The run from `r` comes to an end.
pub open spec fn bhalts(tape: Seq<u8>, map: Map<usize, usize>, r: Run) -> bool {
    exists|n: nat| bfinished(tape, #[trigger] bsteps(tape, map, r, n))
}

/// Where the run from `r` ends, if it does.
pub open spec fn boutcome(tape: Seq<u8>, map: Map<usize, usize>, r: Run) -> Run {
    bsteps(tape, map, r, choose|n: nat| bfinished(tape, #[trigger] bsteps(tape, map, r, n)))
}

/// A run that is over stays where it is.
pub proof fn lemma_bfinished_stays(tape: Seq<u8>, map: Map<usize, usize>, r: Run, n: nat)
    requires
        bfinished(tape, r),
    ensures
        bsteps(tape, map, r, n) == r,
    decreases n,
{
    if n > 0 {
        lemma_bfinished_stays(tape, map, r, (n - 1) as nat);
    }
}

/// Steps add up.
pub proof fn lemma_bsteps_add(tape: Seq<u8>, map: Map<usize, usize>, r: Run, a: nat, b: nat)
    ensures
        bsteps(tape, map, r, a + b) == bsteps(tape, map, bsteps(tape, map, r, a), b),
    decreases a,
{
    if a > 0 {
        lemma_bsteps_add(tape, map, bstep(tape, map, r), (a - 1) as nat, b);
    }
}

/// However long a run that has ended is continued, it stays at its
/// outcome.
pub proof fn lemma_boutcome(tape: Seq<u8>, map: Map<usize, usize>, r: Run, n: nat)
    requires
        bfinished(tape, bsteps(tape, map, r, n)),
    ensures
        bhalts(tape, map, r),
        boutcome(tape, map, r) == bsteps(tape, map, r, n),
{
    let k = choose|k: nat| bfinished(tape, #[trigger] bsteps(tape, map, r, k));
    if k <= n {
        lemma_bsteps_add(tape, map, r, k, (n - k) as nat);
        lemma_bfinished_stays(tape, map, bsteps(tape, map, r, k), (n - k) as nat);
    } else {
        lemma_bsteps_add(tape, map, r, n, (k - n) as nat);
        lemma_bfinished_stays(tape, map, bsteps(tape, map, r, n), (k - n) as nat);
    }
}

impl BTapeStream {
    /// The partner of the loop boundary at `idx`, as far as it lies on
    /// the tape, and from there the index at which the run goes on.
    fn jump(&self, idx: usize, by: u8, forward: bool) -> (r: usize)
        requires
            idx < self.0@.len(),
            by < 32,
        ensures
            r as int == jump_to(
                partner(self.1@, idx as int, by, forward, self.0@.len() as int),
                self.0@.len() as int,
            ),
    {
        broadcast use vstd::std_specs::hash::group_hash_axioms;

        let len = self.0.len();
        if by != 0 {
            let by = by as usize;
            if forward {
                if by < len - idx {
                    idx + by + 1
                } else {
                    len
                }
            } else {
                if by <= idx {
                    idx - by + 1
                } else {
                    len
                }
            }
        } else {
            match self.1.get(&idx) {
                Some(to) => {
                    if *to < len {
                        *to + 1
                    } else {
                        len
                    }
                },
                None => len,
            }
        }
    }

    /// The length of the long head move at `idx`, if the tape holds all
    /// of it.
    fn operand(&self, idx: usize) -> (r: Option<u64>)
        requires
            idx < self.0@.len(),
        ensures
            match r {
                Some(n) => idx + 9 <= self.0@.len() && n == spec_u64_from_le_bytes(
                    self.0@.subrange(idx + 1, idx + 9),
                ),
                None => idx + 9 > self.0@.len(),
            },
    {
        if self.0.len() - idx < 9 {
            return None;
        }
        let bytes = vstd::slice::slice_subrange(self.0.as_slice(), idx + 1, idx + 9);
        Some(u64_from_le_bytes(bytes))
    }

    /// Executes the `Wild` instruction at `idx`, whose operand is `by`.
    fn step_wild<C: BfOptimizable>(&self, state: &mut BfState<C>, idx: usize, by: u8) -> (r:
        Result<usize, BfExecError>)
        requires
            old(state).wf(),
            idx < self.0@.len(),
            Instr::spec_decode(self.0@[idx as int]) == (Instr::Wild, by),
        ensures
            final(state).wf(),
            match r {
                Ok(next) => beffect(self.0@, self.1@, old(state)@, idx as int) == Run::go(
                    final(state)@,
                    next as int,
                ),
                Err(e) => e.idx == idx && beffect(self.0@, self.1@, old(state)@, idx as int)
                    == Run::stop(final(state)@, idx as int, e.source),
            },
    {
        let len = self.0.len();
        let mut next = idx + 1;
        proof {
            old(state).lemma_wf();
        }
        let res: Result<(), BfExecErrorTy> = match WildArgs::from_wild(by) {
            Some(WildArgs::Read) => state.read(),
            Some(WildArgs::Write) => state.write(),
            Some(WildArgs::IncPtrMany) => match self.operand(idx) {
                Some(n) => {
                    next = idx + 9;
                    if n > usize::MAX as u64 {
                        proof {
                            assert(!state@.can_inc_ptr(n as int));
                        }
                        Err(BfExecErrorTy::Overflow)
                    } else {
                        state.inc_ptr(n as usize)
                    }
                },
                None => {
                    next = len;
                    Ok(())
                },
            },
            Some(WildArgs::DecPtrMany) => match self.operand(idx) {
                Some(n) => {
                    next = idx + 9;
                    if n > usize::MAX as u64 {
                        proof {
                            assert(!state@.can_dec_ptr(n as int));
                        }
                        Err(BfExecErrorTy::Underflow)
                    } else {
                        state.dec_ptr(n as usize)
                    }
                },
                None => {
                    next = len;
                    Ok(())
                },
            },
            None => Ok(()),
        };
        match res {
            Ok(()) => Ok(next),
            Err(source) => Err(BfExecError { source, idx }),
        }
    }

    /// Executes the instruction at `idx` and says where the run goes on,
    /// or which error stopped it.
    pub fn step<C: BfOptimizable>(&self, state: &mut BfState<C>, idx: usize) -> (r: Result<
        usize,
        BfExecError,
    >)
        requires
            old(state).wf(),
            idx < self.0@.len(),
        ensures
            final(state).wf(),
            match r {
                Ok(next) => bstep(self.0@, self.1@, Run::at(old(state)@, idx as int)) == Run::go(
                    final(state)@,
                    next as int,
                ),
                Err(e) => e.idx == idx && bstep(self.0@, self.1@, Run::at(old(state)@, idx as int))
                    == Run::stop(final(state)@, idx as int, e.source),
            },
    {
        let len = self.0.len();
        let decoded = Instr::decode(self.0[idx]);
        let by = decoded.1;
        let ghost m = state@;
        let ghost expected = beffect(self.0@, self.1@, m, idx as int);
        proof {
            old(state).lemma_wf();
            C::lemma_modulus();
            assert(bstep(self.0@, self.1@, Run::at(m, idx as int)) == expected);
        }
        match decoded.0 {
            Instr::Zero => {
                state.zero();
                assert(expected == Run::go(state@, idx + 1));
                Ok(idx + 1)
            },
            Instr::Inc => {
                proof {
                    lemma_byte_fits::<C>(by as int + 1);
                }
                state.inc(C::from_u8(by).wrapping_add(C::from_u8(1)));
                assert(expected == Run::go(state@, idx + 1));
                Ok(idx + 1)
            },
            Instr::Dec => {
                proof {
                    lemma_byte_fits::<C>(by as int + 1);
                }
                state.dec(C::from_u8(by).wrapping_add(C::from_u8(1)));
                assert(expected == Run::go(state@, idx + 1));
                Ok(idx + 1)
            },
            Instr::IncPtr => match state.inc_ptr(by as usize + 1) {
                Ok(()) => {
                    assert(expected == Run::go(state@, idx + 1));
                    Ok(idx + 1)
                },
                Err(source) => {
                    assert(expected == Run::stop(state@, idx as int, source));
                    Err(BfExecError { source, idx })
                },
            },
            Instr::DecPtr => match state.dec_ptr(by as usize + 1) {
                Ok(()) => {
                    assert(expected == Run::go(state@, idx + 1));
                    Ok(idx + 1)
                },
                Err(source) => {
                    assert(expected == Run::stop(state@, idx as int, source));
                    Err(BfExecError { source, idx })
                },
            },
            Instr::LStart => {
                let next = if state.jump_forward() {
                    self.jump(idx, by, true)
                } else {
                    idx + 1
                };
                assert(expected == Run::go(state@, next as int));
                Ok(next)
            },
            Instr::LEnd => {
                let next = if state.jump_backward() {
                    self.jump(idx, by, false)
                } else {
                    idx + 1
                };
                assert(expected == Run::go(state@, next as int));
                Ok(next)
            },
            Instr::Wild => self.step_wild(state, idx, by),
        }
    }

    /// Runs the tape from its first instruction to its end or to the
    /// first error. The program must come to an end on this state.
    pub fn run<C: BfOptimizable>(&self, state: &mut BfState<C>) -> (r: Result<(), BfExecError>)
        requires
            old(state).wf(),
            bhalts(self.0@, self.1@, Run::at(old(state)@, 0)),
        ensures
            final(state).wf(),
            final(state)@ == boutcome(self.0@, self.1@, Run::at(old(state)@, 0)).machine,
            r == crate::interpreter::report(boutcome(self.0@, self.1@, Run::at(old(state)@, 0))),
    {
        let ghost tape = self.0@;
        let ghost map = self.1@;
        let ghost start = Run::at(state@, 0);
        let ghost mut fuel: nat = choose|n: nat|
            bfinished(tape, #[trigger] bsteps(tape, map, start, n));
        proof {
            lemma_boutcome(tape, map, start, fuel);
        }
        let mut idx: usize = 0;
        while idx < self.0.len()
            invariant
                state.wf(),
                tape == self.0@,
                map == self.1@,
                start == Run::at(old(state)@, 0),
                bfinished(tape, bsteps(tape, map, Run::at(state@, idx as int), fuel)),
                bsteps(tape, map, Run::at(state@, idx as int), fuel) == boutcome(tape, map, start),
            decreases fuel,
        {
            let ghost here = Run::at(state@, idx as int);
            proof {
                assert(!bfinished(tape, here));
                assert(fuel > 0) by {
                    if fuel == 0 {
                        assert(bsteps(tape, map, here, 0) == here);
                    }
                }
                assert(bsteps(tape, map, here, fuel) == bsteps(
                    tape,
                    map,
                    bstep(tape, map, here),
                    (fuel - 1) as nat,
                ));
            }
            match self.step(state, idx) {
                Ok(next) => {
                    idx = next;
                },
                Err(e) => {
                    proof {
                        lemma_bfinished_stays(tape, map, bstep(tape, map, here), (fuel - 1) as nat);
                    }
                    return Err(e);
                },
            }
            proof {
                fuel = (fuel - 1) as nat;
            }
        }
        proof {
            lemma_bfinished_stays(tape, map, Run::at(state@, idx as int), fuel);
        }
        Ok(())
    }
}

/// How many bytes of `s` equal `b`.
pub open spec fn occurrences(s: Seq<u8>, b: u8) -> nat
    decreases s.len(),
{
    if s.len() == 0 {
        0
    } else {
        occurrences(s.drop_last(), b) + if s.last() == b {
            1nat
        } else {
            0nat
        }
    }
}

/// `bytecount::count`: how many bytes of `haystack` equal `needle`.
#[verifier::external_body]
fn count_bytes(haystack: &[u8], needle: u8) -> (r: usize)
    ensures
        r as nat == occurrences(haystack@, needle),
{
    bytecount::count(haystack, needle)
}

/// The tape length for a program text: `arr_len`, or, without one, the
/// number of `>` in the text but at least 30,000.
pub fn tape_len(code: &[u8], arr_len: Option<u32>) -> (r: usize)
    ensures
        r as nat == match arr_len {
            Some(v) => v as nat,
            None => if occurrences(code@, RIGHT) > 30_000 {
                occurrences(code@, RIGHT)
            } else {
                30_000
            },
        },
{
    match arr_len {
        Some(v) => v as usize,
        None => {
            let moves = count_bytes(code, RIGHT);
            if moves > 30_000 {
                moves
            } else {
                30_000
            }
        },
    }
}

/// Everything a run of the compact bytecode needs: the compiled program
/// and a state over a zeroed tape of the length `tape_len` gives, reading
/// from `read`.
///
/// Fails with the compile error of the text, and with `InitOverflow` when
/// the tape has no cell for the head to stand on.
pub fn prepare<C: BfOptimizable>(code: &[u8], arr_len: Option<u32>, read: Reader) -> (r: Result<
    (BTapeStream, BfState<C>),
    Either<BfExecError, BfCompError>,
>)
    ensures
        match r {
            Ok((stream, state)) => {
                &&& balanced(tape_brackets(btape(program_bytes(code@)), 0))
                &&& tape_linked(btape(program_bytes(code@)), stream.0@, stream.1@)
                &&& arr_len != Some(0u32)
                &&& state.wf()
                &&& state@ == Machine::fresh(
                    C::modulus(),
                    match arr_len {
                        Some(v) => v as nat,
                        None => if occurrences(code@, RIGHT) > 30_000 {
                            occurrences(code@, RIGHT)
                        } else {
                            30_000
                        },
                    },
                    read.remaining(),
                    read.starved(),
                )
            },
            Err(Either::Right(e)) => if closes_early(
                tape_brackets(btape(program_bytes(code@)), 0),
            ) {
                e == BfCompError::LoopEndBeforeLoopStart
            } else {
                e == BfCompError::LoopCountMismatch && !balanced(
                    tape_brackets(btape(program_bytes(code@)), 0),
                )
            },
            Err(Either::Left(e)) => balanced(tape_brackets(btape(program_bytes(code@)), 0))
                && arr_len == Some(0u32) && e == (BfExecError {
                source: BfExecErrorTy::InitOverflow,
                idx: 0,
            }),
        },
{
    let len = tape_len(code, arr_len);
    let stream = match BTapeStream::from_bf(code) {
        Ok(stream) => stream,
        Err(e) => {
            return Err(Either::Right(e));
        },
    };
    match BfState::zeroed(len, read) {
        Some(state) => Ok((stream, state)),
        None => Err(Either::Left(BfExecError { source: BfExecErrorTy::InitOverflow, idx: 0 })),
    }
}

} // verus!
