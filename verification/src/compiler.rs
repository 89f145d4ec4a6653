//! The direct instruction stream: one instruction per program byte, with
//! runs folded, clearing loops replaced and jumps resolved; and its
//! rendering as C source.

use crate::brackets::{
    balanced, close_of, closes_early,
    lemma_closed_step, lemma_open_stack_close, lemma_open_stack_close_early,
    lemma_open_stack_end, lemma_open_stack_open, lemma_open_stack_other, lemma_scan_close_range,
    open_of, open_stack, Bracket,
};
use crate::cell::BfOptimizable;
use crate::error::BfCompError;
use vstd::prelude::*;

verus! {

/// The program byte `+`.
pub const PLUS: u8 = 0x2b;

/// The program byte `-`.
pub const MINUS: u8 = 0x2d;

/// The program byte `>`.
pub const RIGHT: u8 = 0x3e;

/// The program byte `<`.
pub const LEFT: u8 = 0x3c;

/// The program byte `.`.
pub const DOT: u8 = 0x2e;

/// The program byte `,`.
pub const COMMA: u8 = 0x2c;

/// The program byte `[`.
pub const OPEN: u8 = 0x5b;

/// The program byte `]`.
pub const CLOSE: u8 = 0x5d;

/// One instruction of the direct stream.
#[derive(Clone, Copy, Debug, PartialEq, Eq)]
pub enum BfInstruc<CellSize> {
    Zero,
    Inc,
    Dec,
    IncPtr,
    DecPtr,
    Write,
    Read,
    /// A loop start; its operand is the index of the matching loop end.
    LStart(u32),
    /// A loop end; its operand is the index of the matching loop start.
    LEnd(u32),
    IncBy(CellSize),
    DecBy(CellSize),
    /// Moves the head towards the end by a run length, which is never zero.
    IncPtrBy(u32),
    /// Moves the head towards the start by a run length, which is never zero.
    DecPtrBy(u32),
}

impl<T: BfOptimizable> BfInstruc<T> {
    /// The instruction a program byte stands for, with jumps unresolved;
    /// `None` for a comment byte.
    pub open spec fn spec_from_byte(value: u8) -> Option<Self> {
        if value == PLUS {
            Some(BfInstruc::Inc)
        } else if value == MINUS {
            Some(BfInstruc::Dec)
        } else if value == RIGHT {
            Some(BfInstruc::IncPtr)
        } else if value == LEFT {
            Some(BfInstruc::DecPtr)
        } else if value == DOT {
            Some(BfInstruc::Write)
        } else if value == COMMA {
            Some(BfInstruc::Read)
        } else if value == OPEN {
            Some(BfInstruc::LStart(0))
        } else if value == CLOSE {
            Some(BfInstruc::LEnd(0))
        } else {
            None
        }
    }

    /// The instruction a program byte stands for, or the byte itself when
    /// it is a comment.
    pub fn try_from(value: u8) -> (r: Result<Self, u8>)
        ensures
            match r {
                Ok(i) => Self::spec_from_byte(value) == Some(i),
                Err(b) => Self::spec_from_byte(value) is None && b == value,
            },
    {
        if value == PLUS {
            Ok(BfInstruc::Inc)
        } else if value == MINUS {
            Ok(BfInstruc::Dec)
        } else if value == RIGHT {
            Ok(BfInstruc::IncPtr)
        } else if value == LEFT {
            Ok(BfInstruc::DecPtr)
        } else if value == DOT {
            Ok(BfInstruc::Write)
        } else if value == COMMA {
            Ok(BfInstruc::Read)
        } else if value == OPEN {
            Ok(BfInstruc::LStart(0))
        } else if value == CLOSE {
            Ok(BfInstruc::LEnd(0))
        } else {
            Err(value)
        }
    }

    /// Whether a run of this instruction folds into one.
    pub open spec fn spec_is_multi(self) -> bool {
        self is Inc || self is Dec || self is IncPtr || self is DecPtr
    }

    /// The instruction that does the work of a run of `v` of this one.
    pub open spec fn spec_as_multi(self, v: u32) -> Option<Self> {
        match self {
            BfInstruc::Inc => Some(BfInstruc::IncBy(T::of(v as int))),
            BfInstruc::Dec => Some(BfInstruc::DecBy(T::of(v as int))),
            BfInstruc::IncPtr => Some(BfInstruc::IncPtrBy(v)),
            BfInstruc::DecPtr => Some(BfInstruc::DecPtrBy(v)),
            _ => None,
        }
    }

    /// The instruction that does the work of a run of `v` of this one: the
    /// cell instructions reduce `v` to the cell width, the head
    /// instructions keep it, and take no run of zero. `None` for an
    /// instruction that does not fold.
    pub fn as_multi_with(&self, v: u32) -> (r: Option<Self>)
        requires
            self is IncPtr || self is DecPtr ==> v != 0,
        ensures
            r == self.spec_as_multi(v),
    {
        match self {
            BfInstruc::Inc => Some(BfInstruc::IncBy(T::truncate_from(v))),
            BfInstruc::Dec => Some(BfInstruc::DecBy(T::truncate_from(v))),
            BfInstruc::IncPtr => Some(BfInstruc::IncPtrBy(v)),
            BfInstruc::DecPtr => Some(BfInstruc::DecPtrBy(v)),
            _ => None,
        }
    }

    /// Whether a run of this instruction folds into one.
    pub fn is_multi_optimizable(&self) -> (r: bool)
        ensures
            r == self.spec_is_multi(),
    {
        match self {
            BfInstruc::Inc | BfInstruc::Dec | BfInstruc::IncPtr | BfInstruc::DecPtr => true,
            _ => false,
        }
    }

    /// Whether two instructions that fold are the same instruction.
    fn same_multi(&self, other: &Self) -> (r: bool)
        requires
            self.spec_is_multi(),
        ensures
            r == (*self == *other),
    {
        match (self, other) {
            (BfInstruc::Inc, BfInstruc::Inc) => true,
            (BfInstruc::Dec, BfInstruc::Dec) => true,
            (BfInstruc::IncPtr, BfInstruc::IncPtr) => true,
            (BfInstruc::DecPtr, BfInstruc::DecPtr) => true,
            _ => false,
        }
    }

    /// What the instruction means for loop nesting.
    pub open spec fn bracket(self) -> Bracket {
        match self {
            BfInstruc::LStart(_) => Bracket::Open,
            BfInstruc::LEnd(_) => Bracket::Close,
            _ => Bracket::Other,
        }
    }
}

/// The loop nesting of a stream.
pub open spec fn stream_brackets<T: BfOptimizable>(s: Seq<BfInstruc<T>>) -> Seq<Bracket> {
    Seq::new(s.len(), |i: int| s[i].bracket())
}

/// The instructions of a program text, comments dropped.
pub open spec fn source_stream<T: BfOptimizable>(bytes: Seq<u8>) -> Seq<BfInstruc<T>>
    decreases bytes.len(),
{
    if bytes.len() == 0 {
        Seq::empty()
    } else {
        let rest = source_stream::<T>(bytes.drop_last());
        match BfInstruc::<T>::spec_from_byte(bytes.last()) {
            Some(i) => rest.push(i),
            None => rest,
        }
    }
}

/// How many instructions at the front of `s` equal its first.
pub open spec fn head_run<T: BfOptimizable>(s: Seq<BfInstruc<T>>) -> nat
    decreases s.len(),
{
    if s.len() == 0 {
        0
    } else if s.len() == 1 || s[1] != s[0] {
        1
    } else {
        1 + head_run(s.skip(1))
    }
}

/// A run is never longer than the stream.
pub proof fn lemma_head_run_bounds<T: BfOptimizable>(s: Seq<BfInstruc<T>>)
    ensures
        head_run(s) <= s.len(),
        s.len() > 0 ==> head_run(s) >= 1,
    decreases s.len(),
{
    if s.len() > 1 && s[1] == s[0] {
        lemma_head_run_bounds(s.skip(1));
    }
}

/// The stream with every run of two or more equal cell or head
/// instructions folded into one.
pub open spec fn grouped<T: BfOptimizable>(s: Seq<BfInstruc<T>>) -> Seq<BfInstruc<T>>
    decreases s.len(),
{
    if s.len() == 0 {
        Seq::empty()
    } else if s[0].spec_is_multi() && head_run(s) > 1 {
        let n = head_run(s);
        proof {
            lemma_head_run_bounds(s);
        }
        seq![s[0].spec_as_multi(#[verifier::truncate] (n as u32)).unwrap()] + grouped(
            s.skip(n as int),
        )
    } else {
        seq![s[0]] + grouped(s.skip(1))
    }
}

/// Whether a loop that only steps the head cell once starts at `i`.
pub open spec fn clears_at<T: BfOptimizable>(s: Seq<BfInstruc<T>>, i: int) -> bool {
    &&& 0 <= i
    &&& i + 2 < s.len()
    &&& s[i] == BfInstruc::<T>::LStart(0)
    &&& (s[i + 1] is Dec || s[i + 1] is Inc)
    &&& s[i + 2] == BfInstruc::<T>::LEnd(0)
}

/// The stream with each such loop replaced by `Zero`.
pub open spec fn zero_folded<T: BfOptimizable>(s: Seq<BfInstruc<T>>) -> Seq<BfInstruc<T>>
    decreases s.len(),
{
    if s.len() == 0 {
        Seq::empty()
    } else if clears_at(s, 0) {
        seq![BfInstruc::Zero] + zero_folded(s.skip(3))
    } else {
        seq![s[0]] + zero_folded(s.skip(1))
    }
}

/// `r` is `s` with every loop start pointing at its loop end and every
/// loop end at its loop start.
pub open spec fn linked<T: BfOptimizable>(s: Seq<BfInstruc<T>>, r: Seq<BfInstruc<T>>) -> bool {
    &&& r.len() == s.len()
    &&& forall|i: int|
        0 <= i < s.len() ==> #[trigger] r[i] == match s[i] {
            BfInstruc::LStart(_) => BfInstruc::LStart(close_of(stream_brackets(s), i) as u32),
            BfInstruc::LEnd(_) => BfInstruc::LEnd(open_of(stream_brackets(s), i) as u32),
            other => other,
        }
}

/// `r` is `s` with the jumps resolved of every loop that ends before `idx`.
pub open spec fn linked_upto<T: BfOptimizable>(
    s: Seq<BfInstruc<T>>,
    r: Seq<BfInstruc<T>>,
    idx: int,
) -> bool {
    &&& r.len() == s.len()
    &&& forall|j: int|
        0 <= j < s.len() ==> #[trigger] r[j] == match s[j] {
            BfInstruc::LStart(_) => if close_of(stream_brackets(s), j) < idx {
                BfInstruc::LStart(close_of(stream_brackets(s), j) as u32)
            } else {
                s[j]
            },
            BfInstruc::LEnd(_) => if j < idx {
                BfInstruc::LEnd(open_of(stream_brackets(s), j) as u32)
            } else {
                s[j]
            },
            other => other,
        }
}

/// Resolving jumps has one result: two streams that are both `s` with
/// its jumps resolved are the same stream.
pub proof fn lemma_linked_unique<T: BfOptimizable>(
    s: Seq<BfInstruc<T>>,
    a: Seq<BfInstruc<T>>,
    b: Seq<BfInstruc<T>>,
)
    requires
        linked(s, a),
        linked(s, b),
    ensures
        a == b,
{
    assert(a =~= b);
}

/// How many single head moves towards the end a stream holds.
pub open spec fn right_moves<T: BfOptimizable>(s: Seq<BfInstruc<T>>) -> nat
    decreases s.len(),
{
    if s.len() == 0 {
        0
    } else {
        right_moves(s.drop_last()) + if s.last() is IncPtr {
            1nat
        } else {
            0nat
        }
    }
}

/// The default tape length: the number of single head moves towards the
/// end in the unfolded stream, but at least 30,000.
pub open spec fn guessed_len<T: BfOptimizable>(s: Seq<BfInstruc<T>>) -> int {
    if right_moves(s) > 30_000 {
        right_moves(s) as int
    } else {
        30_000
    }
}

/// The most instructions a stream may hold: half of the largest signed
/// 32-bit number.
pub const STREAM_LIMIT: usize = 0x3FFF_FFFF;

/// Folding runs never lengthens a stream.
pub proof fn lemma_grouped_len<T: BfOptimizable>(s: Seq<BfInstruc<T>>)
    ensures
        grouped(s).len() <= s.len(),
    decreases s.len(),
{
    if s.len() > 0 {
        lemma_head_run_bounds(s);
        if s[0].spec_is_multi() && head_run(s) > 1 {
            lemma_grouped_len(s.skip(head_run(s) as int));
        } else {
            lemma_grouped_len(s.skip(1));
        }
    }
}

/// Replacing clearing loops never lengthens a stream.
pub proof fn lemma_zero_folded_len<T: BfOptimizable>(s: Seq<BfInstruc<T>>)
    ensures
        zero_folded(s).len() <= s.len(),
    decreases s.len(),
{
    if s.len() > 0 {
        if clears_at(s, 0) {
            lemma_zero_folded_len(s.skip(3));
        } else {
            lemma_zero_folded_len(s.skip(1));
        }
    }
}

/// `usize_cast::IntoUsize::into_usize` on a `u32`: the same number, as a
/// `usize`.
#[verifier::external_body]
fn u32_into_usize(v: u32) -> (r: usize)
    ensures
        r as int == v as int,
{
    usize_cast::IntoUsize::into_usize(v)
}

/// A compiled direct stream together with the tape length it is meant for.
pub struct BfInstructionStream<T>(Vec<BfInstruc<T>>, usize);

impl<T: BfOptimizable> View for BfInstructionStream<T> {
    type V = Seq<BfInstruc<T>>;

    closed spec fn view(&self) -> Seq<BfInstruc<T>> {
        self.0@
    }
}

impl<T: BfOptimizable> BfInstructionStream<T> {
    /// The tape length the stream is meant for.
    pub closed spec fn spec_array_size(&self) -> usize {
        self.1
    }

    /// What compiling a program text yields: its instructions with runs
    /// folded and clearing loops replaced, before jumps are resolved.
    pub open spec fn folded(text: Seq<u8>) -> Seq<BfInstruc<T>> {
        zero_folded(grouped(source_stream::<T>(text)))
    }

    /// Compiles a program text: drops comments, folds runs, replaces
    /// clearing loops and resolves jumps. The tape length is `array_len`,
    /// or, without one, the number of `>` in the text but at least 30,000.
    ///
    /// Fails with `Overflow` when the text holds more than `STREAM_LIMIT`
    /// instructions, so that no stream is longer than that; else with
    /// `LoopEndBeforeLoopStart` when a loop end has no loop start before
    /// it, and with `LoopCountMismatch` when a loop start is never closed.
    pub fn optimized_from_text(v: &[u8], array_len: Option<u32>) -> (r: Result<
        Self,
        BfCompError,
    >)
        ensures
            Self::folded(v@).len() <= source_stream::<T>(v@).len(),
            match r {
                Ok(stream) => {
                    &&& source_stream::<T>(v@).len() <= STREAM_LIMIT
                    &&& stream@.len() <= STREAM_LIMIT
                    &&& balanced(stream_brackets(Self::folded(v@)))
                    &&& linked(Self::folded(v@), stream@)
                    &&& stream.spec_array_size() as int == match array_len {
                        Some(n) => n as int,
                        None => guessed_len(source_stream::<T>(v@)),
                    }
                },
                Err(e) => if source_stream::<T>(v@).len() > STREAM_LIMIT {
                    e == BfCompError::Overflow
                } else if closes_early(stream_brackets(Self::folded(v@))) {
                    e == BfCompError::LoopEndBeforeLoopStart
                } else {
                    e == BfCompError::LoopCountMismatch && !balanced(
                        stream_brackets(Self::folded(v@)),
                    )
                },
            },
    {
        proof {
            lemma_grouped_len(source_stream::<T>(v@));
            lemma_zero_folded_len(grouped(source_stream::<T>(v@)));
        }
        let mut new = Self(Self::bf_to_stream(v), 0);
        if new.0.len() > STREAM_LIMIT {
            return Err(BfCompError::Overflow);
        }
        let array_len: u32 = match array_len {
            Some(n) => n,
            None => {
                let mut accu: u32 = 0;
                let mut i: usize = 0;
                while i < new.0.len()
                    invariant
                        i <= new.0.len(),
                        new.0.len() <= u32::MAX,
                        accu as nat == right_moves(new.0@.take(i as int)),
                        accu <= i,
                    decreases new.0.len() - i,
                {
                    proof {
                        assert(new.0@.take(i + 1).drop_last() =~= new.0@.take(i as int));
                    }
                    if let BfInstruc::IncPtr = new.0[i] {
                        accu = accu + 1;
                    }
                    i = i + 1;
                }
                proof {
                    assert(new.0@.take(i as int) =~= new.0@);
                }
                if accu > 30_000 {
                    accu
                } else {
                    30_000
                }
            },
        };
        new.1 = u32_into_usize(array_len);
        new.group_common_bf();
        new.static_optimize();
        match new.insert_bf_jump_points() {
            Ok(()) => Ok(new),
            Err(e) => Err(e),
        }
    }

    /// The tape length the stream is meant for.
    #[must_use]
    pub fn reccomended_array_size(&self) -> (r: usize)
        ensures
            r == self.spec_array_size(),
    {
        self.1
    }

    /// The instructions of the stream.
    pub fn as_slice(&self) -> (r: &[BfInstruc<T>])
        ensures
            r@ == self@,
    {
        self.0.as_slice()
    }

    /// A stream over ready-made instructions, meant for a tape as long as
    /// the stream.
    pub fn from(stream: Vec<BfInstruc<T>>) -> (r: Self)
        ensures
            r@ == stream@,
            r.spec_array_size() == stream@.len(),
    {
        let stream_len = stream.len();
        Self(stream, stream_len)
    }

    /// The instructions of the stream, by value.
    pub fn into_vec(self) -> (r: Vec<BfInstruc<T>>)
        ensures
            r@ == self@,
    {
        self.0
    }

    /// Folds every run of two or more equal cell or head instructions into
    /// one.
    #[inline]
    pub fn group_common_bf(&mut self)
        requires
            old(self)@.len() <= u32::MAX,
        ensures
            final(self)@ == grouped(old(self)@),
            final(self)@.len() <= old(self)@.len(),
            final(self).spec_array_size() == old(self).spec_array_size(),
    {
        let ghost orig = self.0@;
        let len = self.0.len();
        let mut newlen: usize = 0;
        let mut i: usize = 0;
        proof {
            assert(orig.skip(0) =~= orig);
            assert(self.0@.take(0) + grouped(orig) =~= grouped(orig));
        }
        while i < len
            invariant
                newlen <= i <= len,
                len == orig.len(),
                len <= u32::MAX,
                self.0@.len() == len,
                self.1 == old(self).1,
                forall|j: int| i <= j < len ==> self.0@[j] == orig[j],
                self.0@.take(newlen as int) + grouped(orig.skip(i as int)) == grouped(orig),
            decreases len - i,
        {
            let cur = self.0[i];
            let ghost start = i;
            let ghost tail = orig.skip(i as int);
            let ghost done = self.0@.take(newlen as int);
            let folded: BfInstruc<T>;
            if cur.is_multi_optimizable() {
                let mut ctr: u32 = 1;
                while i + 1 < len && cur.same_multi(&self.0[i + 1])
                    invariant
                        start <= i < len,
                        len == orig.len(),
                        len <= u32::MAX,
                        self.0@.len() == len,
                        ctr == i - start + 1,
                        cur == orig[i as int],
                        cur == orig[start as int],
                        cur.spec_is_multi(),
                        forall|j: int| start <= j < len ==> self.0@[j] == orig[j],
                        head_run(orig.skip(start as int)) == (i - start) + head_run(
                            orig.skip(i as int),
                        ),
                    decreases len - i,
                {
                    proof {
                        assert(orig.skip(i as int).skip(1) =~= orig.skip(i + 1));
                    }
                    i = i + 1;
                    ctr = ctr + 1;
                }
                proof {
                    assert(head_run(orig.skip(i as int)) == 1);
                    assert(head_run(tail) == ctr);
                    assert(tail.skip(ctr as int) =~= orig.skip(i + 1));
                }
                if ctr == 1 {
                    folded = cur;
                } else {
                    folded = cur.as_multi_with(ctr).unwrap();
                }
            } else {
                proof {
                    assert(tail.skip(1) =~= orig.skip(i + 1));
                }
                folded = cur;
            }
            self.0[newlen] = folded;
            proof {
                assert(grouped(tail) =~= seq![folded] + grouped(orig.skip(i + 1)));
                assert(self.0@.take(newlen + 1) =~= done.push(folded));
                assert(done.push(folded) + grouped(orig.skip(i + 1)) =~= done + grouped(tail));
            }
            newlen = newlen + 1;
            i = i + 1;
        }
        self.0.truncate(newlen);
        proof {
            assert(orig.skip(len as int) =~= Seq::<BfInstruc<T>>::empty());
            assert(self.0@ =~= self.0@ + grouped(orig.skip(len as int)));
        }
    }

    /// The instructions of a program text, comments dropped.
    pub fn bf_to_stream(v: &[u8]) -> (r: Vec<BfInstruc<T>>)
        ensures
            r@ == source_stream::<T>(v@),
            r@.len() <= v@.len(),
    {
        let mut out: Vec<BfInstruc<T>> = Vec::new();
        let mut i: usize = 0;
        while i < v.len()
            invariant
                i <= v.len(),
                out@.len() <= i,
                out@ == source_stream::<T>(v@.take(i as int)),
            decreases v.len() - i,
        {
            proof {
                assert(v@.take(i + 1).drop_last() =~= v@.take(i as int));
            }
            match BfInstruc::<T>::try_from(v[i]) {
                Ok(instr) => out.push(instr),
                Err(_) => {},
            }
            i = i + 1;
        }
        proof {
            assert(v@.take(i as int) =~= v@);
        }
        out
    }

    /// Replaces each loop that only steps the head cell once by `Zero`.
    pub fn static_optimize(&mut self)
        ensures
            final(self)@ == zero_folded(old(self)@),
            final(self)@.len() <= old(self)@.len(),
            final(self).spec_array_size() == old(self).spec_array_size(),
    {
        let ghost orig = self.0@;
        let len = self.0.len();
        let mut newidx: usize = 0;
        let mut i: usize = 0;
        proof {
            assert(orig.skip(0) =~= orig);
            assert(self.0@.take(0) + zero_folded(orig) =~= zero_folded(orig));
        }
        while i < len
            invariant
                newidx <= i <= len,
                len == orig.len(),
                self.0@.len() == len,
                self.1 == old(self).1,
                forall|j: int| i <= j < len ==> self.0@[j] == orig[j],
                self.0@.take(newidx as int) + zero_folded(orig.skip(i as int)) == zero_folded(
                    orig,
                ),
            decreases len - i,
        {
            let ghost tail = orig.skip(i as int);
            let ghost done = self.0@.take(newidx as int);
            let clears = len - i > 2 && Self::is_lstart0(&self.0[i]) && Self::is_step(
                &self.0[i + 1],
            ) && Self::is_lend0(&self.0[i + 2]);
            proof {
                assert(clears == clears_at(tail, 0));
            }
            let cur = self.0[i];
            if clears {
                self.0[newidx] = BfInstruc::Zero;
                proof {
                    assert(tail.skip(3) =~= orig.skip(i + 3));
                    assert(self.0@.take(newidx + 1) =~= done.push(BfInstruc::Zero));
                    assert(done.push(BfInstruc::Zero) + zero_folded(orig.skip(i + 3)) =~= done
                        + zero_folded(tail));
                }
                i = i + 3;
            } else {
                self.0[newidx] = cur;
                proof {
                    assert(tail.skip(1) =~= orig.skip(i + 1));
                    assert(self.0@.take(newidx + 1) =~= done.push(cur));
                    assert(done.push(cur) + zero_folded(orig.skip(i + 1)) =~= done + zero_folded(
                        tail,
                    ));
                }
                i = i + 1;
            }
            newidx = newidx + 1;
        }
        self.0.truncate(newidx);
        proof {
            assert(orig.skip(len as int) =~= Seq::<BfInstruc<T>>::empty());
            assert(self.0@ =~= self.0@ + zero_folded(orig.skip(len as int)));
        }
    }

    fn is_lstart0(i: &BfInstruc<T>) -> (r: bool)
        ensures
            r == (*i == BfInstruc::<T>::LStart(0)),
    {
        match i {
            BfInstruc::LStart(to) => *to == 0,
            _ => false,
        }
    }

    fn is_lend0(i: &BfInstruc<T>) -> (r: bool)
        ensures
            r == (*i == BfInstruc::<T>::LEnd(0)),
    {
        match i {
            BfInstruc::LEnd(to) => *to == 0,
            _ => false,
        }
    }

    fn is_step(i: &BfInstruc<T>) -> (r: bool)
        ensures
            r == (i is Dec || i is Inc),
    {
        match i {
            BfInstruc::Dec | BfInstruc::Inc => true,
            _ => false,
        }
    }

    /// Resolves the jumps: every loop start gets the index of its loop end
    /// and every loop end that of its loop start. On an error the stream is
    /// left partly resolved: the loops that end before some index have
    /// their jumps, and every other instruction is as it was. When a loop
    /// start is never closed, that index is the end of the stream.
    pub fn insert_bf_jump_points(&mut self) -> (r: Result<(), BfCompError>)
        requires
            old(self)@.len() <= u32::MAX,
        ensures
            final(self).spec_array_size() == old(self).spec_array_size(),
            final(self)@.len() == old(self)@.len(),
            match r {
                Ok(()) => balanced(stream_brackets(old(self)@)) && linked(old(self)@, final(self)@),
                Err(e) => {
                    &&& if closes_early(stream_brackets(old(self)@)) {
                        e == BfCompError::LoopEndBeforeLoopStart
                    } else {
                        e == BfCompError::LoopCountMismatch && !balanced(
                            stream_brackets(old(self)@),
                        )
                    }
                    &&& exists|i: int|
                        0 <= i <= old(self)@.len() && #[trigger] linked_upto(
                            old(self)@,
                            final(self)@,
                            i,
                        )
                    &&& e == BfCompError::LoopCountMismatch ==> linked_upto(
                        old(self)@,
                        final(self)@,
                        old(self)@.len() as int,
                    )
                },
            },
    {
        let ghost orig = self.0@;
        let ghost kinds = stream_brackets(orig);
        let mut stack: Vec<usize> = Vec::new();
        let len = self.0.len();
        let mut idx: usize = 0;
        proof {
            assert forall|j: int| 0 <= j < len && orig[j] is LStart implies close_of(kinds, j)
                >= 0 by {
                lemma_scan_close_range(kinds, j, 0);
            }
        }
        while idx < len
            invariant
                idx <= len,
                len == orig.len(),
                len <= u32::MAX,
                self.0@.len() == len,
                self.1 == old(self).1,
                orig == old(self).0@,
                kinds == stream_brackets(orig),
                open_stack(kinds, idx as int, stack@),
                linked_upto(orig, self.0@, idx as int),
            decreases len - idx,
        {
            let ghost before = self.0@;
            let ghost old_stack = stack@;
            match self.0[idx] {
                BfInstruc::LStart(_) => {
                    proof {
                        lemma_open_stack_open(kinds, idx as int, stack@);
                    }
                    stack.push(idx);
                },
                BfInstruc::LEnd(_) => {
                    if let Some(v) = stack.pop() {
                        proof {
                            lemma_open_stack_close(kinds, idx as int, old_stack);
                            assert(old_stack.last() == v);
                            assert(stack@ =~= old_stack.drop_last());
                        }
                        self.0[v] = BfInstruc::LStart(idx as u32);
                        self.0[idx] = BfInstruc::LEnd(v as u32);
                    } else {
                        proof {
                            lemma_open_stack_close_early(kinds, idx as int, old_stack);
                            assert(linked_upto(old(self)@, self@, idx as int));
                        }
                        return Err(BfCompError::LoopEndBeforeLoopStart);
                    }
                },
                _ => {
                    proof {
                        lemma_open_stack_other(kinds, idx as int, stack@);
                    }
                },
            }
            proof {
                let now = self.0@;
                assert forall|j: int| 0 <= j < len implies #[trigger] now[j] == match orig[j] {
                    BfInstruc::LStart(_) => if close_of(kinds, j) < idx + 1 {
                        BfInstruc::LStart(close_of(kinds, j) as u32)
                    } else {
                        orig[j]
                    },
                    BfInstruc::LEnd(_) => if j < idx + 1 {
                        BfInstruc::LEnd(open_of(kinds, j) as u32)
                    } else {
                        orig[j]
                    },
                    other => other,
                } by {
                    assert(before[j] == before[j]);
                    if orig[j] is LStart {
                        lemma_closed_step(kinds, idx as int, old_stack, j);
                    }
                }
            }
            idx = idx + 1;
        }
        proof {
            lemma_open_stack_end(kinds, stack@);
            if stack@.len() == 0 {
                assert(linked(orig, self.0@));
            }
        }
        if stack.len() != 0 {
            proof {
                assert(linked_upto(old(self)@, self@, len as int));
            }
            return Err(BfCompError::LoopCountMismatch);
        }
        Ok(())
    }
}

} // verus!
