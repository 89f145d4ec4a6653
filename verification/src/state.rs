//! The tape, its head, and the byte streams a program reads and writes.

use crate::cell::BfOptimizable;
use crate::error::BfExecErrorTy;
use crate::ir::MulArg;
use std::collections::VecDeque;
use std::ops::Range;
use vstd::arithmetic::div_mod::*;
use vstd::prelude::*;

verus! {

/// The abstract state that every executor transforms.
pub struct Machine {
    /// One more than the largest cell value.
    pub modulus: int,
    /// The tape.
    pub cells: Seq<int>,
    /// The head position.
    pub ptr: int,
    /// The bytes not yet read.
    pub input: Seq<u8>,
    /// Whether reading past the last byte fails; otherwise it yields zero.
    pub starved: bool,
    /// Every byte written so far, in order.
    pub output: Seq<u8>,
    /// How many of the written bytes have been flushed.
    pub flushed: int,
}

impl Machine {
    /// The head is on the tape and every cell lies below the modulus.
    pub open spec fn wf(self) -> bool {
        &&& self.modulus > 0
        &&& 0 <= self.ptr < self.cells.len()
        &&& forall|i: int| 0 <= i < self.cells.len() ==> 0 <= #[trigger] self.cells[i] < self.modulus
        &&& 0 <= self.flushed <= self.output.len()
    }

    /// A zeroed tape of `len` cells with the head on the first.
    pub open spec fn fresh(modulus: int, len: nat, input: Seq<u8>, starved: bool) -> Machine {
        Machine {
            modulus,
            cells: Seq::new(len, |i: int| 0int),
            ptr: 0,
            input,
            starved,
            output: Seq::empty(),
            flushed: 0,
        }
    }

    /// The value under the head.
    pub open spec fn head(self) -> int {
        self.cells[self.ptr]
    }

    pub open spec fn set(self, v: int) -> Machine {
        Machine { cells: self.cells.update(self.ptr, v), ..self }
    }

    pub open spec fn zero(self) -> Machine {
        self.set(0)
    }

    pub open spec fn inc(self, by: int) -> Machine {
        self.set((self.head() + by) % self.modulus)
    }

    pub open spec fn dec(self, by: int) -> Machine {
        self.set((self.head() - by) % self.modulus)
    }

    /// Whether the head can move `by` cells towards the end.
    pub open spec fn can_inc_ptr(self, by: int) -> bool {
        self.ptr + by < self.cells.len()
    }

    pub open spec fn inc_ptr(self, by: int) -> Machine {
        Machine { ptr: self.ptr + by, ..self }
    }

    /// Whether the head can move `by` cells towards the start.
    pub open spec fn can_dec_ptr(self, by: int) -> bool {
        by <= self.ptr
    }

    pub open spec fn dec_ptr(self, by: int) -> Machine {
        Machine { ptr: self.ptr - by, ..self }
    }

    /// The low byte of the head cell is appended to the output.
    pub open spec fn write(self) -> Machine {
        Machine { output: self.output.push((self.head() % 0x100) as u8), ..self }
    }

    /// Everything written so far counts as flushed.
    pub open spec fn flush(self) -> Machine {
        Machine { flushed: self.output.len() as int, ..self }
    }

    /// Whether a read delivers: there is a byte, or the input has ended.
    pub open spec fn can_read(self) -> bool {
        self.input.len() > 0 || !self.starved
    }

    /// The state after a read: the output is flushed first; then the next
    /// byte, or zero at the end of the input, lands under the head. A read
    /// that cannot deliver leaves the tape and the input as they were.
    pub open spec fn read(self) -> Machine {
        let m = self.flush();
        if self.input.len() > 0 {
            Machine { input: self.input.skip(1), ..m.set(self.input[0] as int) }
        } else if self.starved {
            m
        } else {
            m.set(0)
        }
    }

    /// Why a fused multiply over the offsets `lo..=hi` cannot run here.
    pub open spec fn mul_fault(self, lo: int, hi: int) -> Option<BfExecErrorTy> {
        if self.ptr + lo < 0 || self.ptr + hi < 0 {
            Some(BfExecErrorTy::Underflow)
        } else if self.ptr + lo >= self.cells.len() || self.ptr + hi >= self.cells.len() {
            Some(BfExecErrorTy::Overflow)
        } else {
            None
        }
    }

    /// The tape after adding `v * change` to the cell at each offset, in
    /// the order of `args`.
    pub open spec fn mul_cells(self, v: int, args: Seq<MulArg>) -> Seq<int>
        decreases args.len(),
    {
        if args.len() == 0 {
            self.cells
        } else {
            let a = args.last();
            let before = self.mul_cells(v, args.drop_last());
            let at = self.ptr + a.offset;
            before.update(at, (before[at] + v * a.change) % self.modulus)
        }
    }

    /// The state after a fused multiply that can run: the head cell is
    /// cleared, then its old value times each `change` is added at each offset.
    pub open spec fn mul(self, args: Seq<MulArg>) -> Machine {
        Machine { cells: self.zero().mul_cells(self.head(), args), ..self }
    }

    /// Whether every offset of `args` lies in `lo..=hi`.
    pub open spec fn args_within(args: Seq<MulArg>, lo: int, hi: int) -> bool {
        forall|i: int| 0 <= i < args.len() ==> lo <= (#[trigger] args[i]).offset <= hi
    }
}

/// A value below the modulus in place of the head cell keeps the machine
/// in order.
pub proof fn lemma_set_wf(m: Machine, v: int)
    requires
        m.wf(),
        0 <= v < m.modulus,
    ensures
        m.set(v).wf(),
{
    assert forall|i: int| 0 <= i < m.set(v).cells.len() implies 0 <= #[trigger] m.set(v).cells[i]
        < m.modulus by {
        if i != m.ptr {
            assert(m.set(v).cells[i] == m.cells[i]);
        }
    }
}

/// Reducing to 32 bits before reducing to a cell width changes nothing.
pub proof fn lemma_reduce_twice(m: int, x: int)
    requires
        m == 0x100 || m == 0x1_0000 || m == 0x1_0000_0000,
    ensures
        (x % 0x1_0000_0000) % m == x % m,
{
    if m == 0x100 {
        lemma_mod_mod(x, 0x100, 0x100_0000);
    } else if m == 0x1_0000 {
        lemma_mod_mod(x, 0x1_0000, 0x1_0000);
    } else {
        lemma_mod_mod(x, 0x1_0000_0000, 1);
    }
}

/// Adding a product reduced step by step is adding the product: the factor
/// and the product may each be reduced to the cell width before the sum is.
pub proof fn lemma_mul_term(m: int, cell: int, v: int, chg: int)
    requires
        m > 0,
    ensures
        (cell + (v * (chg % m)) % m) % m == (cell + v * chg) % m,
{
    lemma_mul_mod_noop_right(v, chg, m);
    lemma_add_mod_noop_right(cell, v * chg, m);
}

/// What a read request came to.
#[derive(Copy, Clone, Debug, PartialEq, Eq, Structural)]
pub enum ReadOutcome {
    /// The next byte of the input.
    Byte(u8),
    /// The input has ended.
    End,
    /// The reader could not deliver.
    Failed,
}

/// An in-memory byte source.
///
/// Once its bytes are used up it either reports the end of the input or
/// fails, as chosen when it was made. A reader that fails can be fed more
/// bytes and asked again.
pub struct Reader {
    data: VecDeque<u8>,
    starved: bool,
}

impl Reader {
    /// The bytes not yet read.
    pub closed spec fn remaining(&self) -> Seq<u8> {
        self.data@
    }

    /// Whether reading past the last byte fails.
    pub closed spec fn starved(&self) -> bool {
        self.starved
    }

    /// A reader over `data` that reports the end of the input after it.
    pub fn new(data: &[u8]) -> (r: Reader)
        ensures
            r.remaining() == data@,
            !r.starved(),
    {
        let mut queue: VecDeque<u8> = VecDeque::new();
        let mut i: usize = 0;
        while i < data.len()
            invariant
                i <= data.len(),
                queue@ == data@.take(i as int),
            decreases data.len() - i,
        {
            queue.push_back(data[i]);
            i = i + 1;
            assert(data@.take(i as int) =~= data@.take(i - 1).push(data@[i - 1]));
        }
        assert(data@.take(i as int) =~= data@);
        Reader { data: queue, starved: false }
    }

    /// A reader with no bytes that reports the end of the input at once.
    pub fn empty() -> (r: Reader)
        ensures
            r.remaining() == Seq::<u8>::empty(),
            !r.starved(),
    {
        Reader { data: VecDeque::new(), starved: false }
    }

    /// A reader with no bytes on which every read fails.
    pub fn failing() -> (r: Reader)
        ensures
            r.remaining() == Seq::<u8>::empty(),
            r.starved(),
    {
        Reader { data: VecDeque::new(), starved: true }
    }

    /// Appends one byte to the unread input.
    pub fn feed(&mut self, byte: u8)
        ensures
            final(self).remaining() == old(self).remaining().push(byte),
            final(self).starved() == old(self).starved(),
    {
        self.data.push_back(byte);
    }

    /// Declares the input finished: reads past the last byte now yield the
    /// end of the input.
    pub fn close(&mut self)
        ensures
            final(self).remaining() == old(self).remaining(),
            !final(self).starved(),
    {
        self.starved = false;
    }

    /// Takes the next byte, if there is one.
    pub fn read_byte(&mut self) -> (r: ReadOutcome)
        ensures
            final(self).starved() == old(self).starved(),
            old(self).remaining().len() > 0 ==> r == ReadOutcome::Byte(old(self).remaining()[0])
                && final(self).remaining() == old(self).remaining().skip(1),
            old(self).remaining().len() == 0 ==> final(self).remaining() == old(self).remaining()
                && r == (if old(self).starved() {
                ReadOutcome::Failed
            } else {
                ReadOutcome::End
            }),
    {
        match self.data.pop_front() {
            Some(b) => {
                assert(self.data@ =~= old(self).data@.skip(1));
                ReadOutcome::Byte(b)
            },
            None => {
                if self.starved {
                    ReadOutcome::Failed
                } else {
                    ReadOutcome::End
                }
            },
        }
    }
}

/// An in-memory byte sink that remembers how much of it has been flushed.
pub struct Writer {
    data: Vec<u8>,
    flushed: usize,
}

impl Writer {
    /// No more is flushed than was written.
    pub closed spec fn wf(&self) -> bool {
        self.flushed <= self.data.len()
    }

    /// Every byte written so far.
    pub closed spec fn written(&self) -> Seq<u8> {
        self.data@
    }

    /// How many of the written bytes have been flushed.
    pub closed spec fn flushed_len(&self) -> int {
        self.flushed as int
    }

    /// An empty sink.
    pub fn new() -> (r: Writer)
        ensures
            r.wf(),
            r.written() == Seq::<u8>::empty(),
            r.flushed_len() == 0,
    {
        Writer { data: Vec::new(), flushed: 0 }
    }

    /// Appends one byte.
    pub fn write_byte(&mut self, byte: u8)
        requires
            old(self).wf(),
        ensures
            final(self).wf(),
            final(self).written() == old(self).written().push(byte),
            final(self).flushed_len() == old(self).flushed_len(),
    {
        self.data.push(byte);
    }

    /// Appends all of `bytes`.
    pub fn write_all(&mut self, bytes: &[u8])
        requires
            old(self).wf(),
        ensures
            final(self).wf(),
            final(self).written() == old(self).written() + bytes@,
            final(self).flushed_len() == old(self).flushed_len(),
    {
        self.data.extend_from_slice(bytes);
    }

    /// Marks everything written so far as flushed.
    pub fn flush(&mut self)
        requires
            old(self).wf(),
        ensures
            final(self).wf(),
            final(self).written() == old(self).written(),
            final(self).flushed_len() == old(self).written().len(),
    {
        self.flushed = self.data.len();
    }

    /// Hands out every byte written so far and starts afresh.
    pub fn take(&mut self) -> (r: Vec<u8>)
        ensures
            r@ == old(self).written(),
            final(self).wf(),
            final(self).written() == Seq::<u8>::empty(),
            final(self).flushed_len() == 0,
    {
        let mut out: Vec<u8> = Vec::new();
        core::mem::swap(&mut self.data, &mut out);
        self.flushed = 0;
        out
    }

    /// Every byte written so far.
    pub fn bytes(&self) -> (r: &[u8])
        ensures
            r@ == self.written(),
    {
        self.data.as_slice()
    }

    /// How many of the written bytes have been flushed.
    pub fn flushed(&self) -> (r: usize)
        ensures
            r as int == self.flushed_len(),
    {
        self.flushed
    }
}

/// The memory of a running program: the tape with its head, the reader the
/// program takes its input from and the writer it sends its output to.
pub struct BfState<C> {
    ptr: usize,
    cells: Vec<C>,
    read: Reader,
    write: Writer,
}

impl<C: BfOptimizable> View for BfState<C> {
    type V = Machine;

    closed spec fn view(&self) -> Machine {
        Machine {
            modulus: C::modulus(),
            cells: self.tape(),
            ptr: self.head_pos(),
            input: self.read.remaining(),
            starved: self.read.starved(),
            output: self.write.written(),
            flushed: self.write.flushed_len(),
        }
    }
}

impl<C: BfOptimizable> BfState<C> {
    /// The tape as integers.
    pub closed spec fn tape(&self) -> Seq<int> {
        Seq::new(self.cells@.len(), |i: int| self.cells@[i].val())
    }

    /// The head position.
    pub closed spec fn head_pos(&self) -> int {
        self.ptr as int
    }

    /// The cell under the head.
    pub closed spec fn head_cell(&self) -> C {
        self.cells@[self.ptr as int]
    }

    /// The head is on the tape.
    pub closed spec fn wf(&self) -> bool {
        self@.wf() && self.write.wf() && self.cells@.len() <= usize::MAX
    }

    /// A well-formed state stands for a well-formed machine over this cell
    /// width.
    pub broadcast proof fn lemma_wf(&self)
        requires
            #[trigger] self.wf(),
        ensures
            self@.wf(),
            self@.modulus == C::modulus(),
            self@.cells.len() <= usize::MAX,
    {
    }

    proof fn lemma_tape(&self)
        ensures
            self.tape().len() == self.cells@.len(),
            C::modulus() > 0,
            forall|i: int|
                0 <= i < self.cells@.len() ==> 0 <= #[trigger] self.tape()[i] < C::modulus()
                    && self.tape()[i] == self.cells@[i].val(),
    {
        assert forall|i: int| 0 <= i < self.cells@.len() implies 0 <= #[trigger] self.tape()[i]
            < C::modulus() && self.tape()[i] == self.cells@[i].val() by {
            self.cells@[i].lemma_val_range();
        }
        C::lemma_modulus();
    }

    /// Builds a state with the head at `ptr`, or hands the parts back when
    /// `ptr` is not on the tape.
    pub fn new(ptr: usize, cells: Vec<C>, read: Reader, write: Writer) -> (r: Result<
        Self,
        (usize, Vec<C>, Reader, Writer),
    >)
        requires
            write.wf(),
        ensures
            match r {
                Ok(state) => {
                    &&& ptr < cells.len()
                    &&& state.wf()
                    &&& state@.ptr == ptr
                    &&& state@.cells == Seq::new(cells@.len(), |i: int| cells@[i].val())
                    &&& state@.modulus == C::modulus()
                    &&& state@.input == read.remaining()
                    &&& state@.starved == read.starved()
                    &&& state@.output == write.written()
                    &&& state@.flushed == write.flushed_len()
                },
                Err(parts) => ptr >= cells.len() && parts == (ptr, cells, read, write),
            },
    {
        if ptr < cells.len() {
            let state = Self { ptr, cells, read, write };
            proof {
                state.lemma_tape();
            }
            Ok(state)
        } else {
            Err((ptr, cells, read, write))
        }
    }

    /// A state over a zeroed tape of `len` cells with the head on the first
    /// and nothing written yet.
    pub fn zeroed(len: usize, read: Reader) -> (r: Option<Self>)
        ensures
            match r {
                Some(state) => {
                    &&& len > 0
                    &&& state.wf()
                    &&& state@ == Machine::fresh(
                        C::modulus(),
                        len as nat,
                        read.remaining(),
                        read.starved(),
                    )
                },
                None => len == 0,
            },
    {
        if len == 0 {
            return None;
        }
        let mut cells: Vec<C> = Vec::new();
        let mut i: usize = 0;
        while i < len
            invariant
                i <= len,
                cells@.len() == i,
                forall|j: int| 0 <= j < i ==> (#[trigger] cells@[j]).val() == 0,
            decreases len - i,
        {
            cells.push(C::zero());
            i = i + 1;
        }
        let state = Self { ptr: 0, cells, read, write: Writer::new() };
        proof {
            state.lemma_tape();
            assert(state@.cells =~= Seq::new(len as nat, |i: int| 0int));
        }
        Some(state)
    }

    /// The head position.
    pub fn ptr(&self) -> (r: usize)
        ensures
            r as int == self@.ptr,
    {
        self.ptr
    }

    /// Every byte written so far.
    pub fn output(&self) -> (r: &[u8])
        ensures
            r@ == self@.output,
    {
        self.write.bytes()
    }

    /// How many of the written bytes have been flushed.
    pub fn flushed(&self) -> (r: usize)
        ensures
            r as int == self@.flushed,
    {
        self.write.flushed()
    }

    /// Hands out every byte written so far; the output starts afresh.
    pub fn drain_output(&mut self) -> (r: Vec<u8>)
        requires
            old(self).wf(),
        ensures
            final(self).wf(),
            r@ == old(self)@.output,
            final(self)@ == (Machine { output: Seq::empty(), flushed: 0, ..old(self)@ }),
    {
        let out = self.write.take();
        proof {
            assert(self.tape() =~= old(self).tape());
        }
        out
    }

    /// Appends one byte to the unread input.
    pub fn feed(&mut self, byte: u8)
        requires
            old(self).wf(),
        ensures
            final(self).wf(),
            final(self)@ == (Machine { input: old(self)@.input.push(byte), ..old(self)@ }),
    {
        self.read.feed(byte);
        proof {
            assert(self.tape() =~= old(self).tape());
        }
    }

    /// Declares the input finished: reads past its last byte now yield zero.
    pub fn close_input(&mut self)
        requires
            old(self).wf(),
        ensures
            final(self).wf(),
            final(self)@ == (Machine { starved: false, ..old(self)@ }),
    {
        self.read.close();
        proof {
            assert(self.tape() =~= old(self).tape());
        }
    }

    /// Appends all of `bytes` to the output.
    pub fn write_all(&mut self, bytes: &[u8])
        requires
            old(self).wf(),
        ensures
            final(self).wf(),
            final(self)@ == (Machine { output: old(self)@.output + bytes@, ..old(self)@ }),
    {
        self.write.write_all(bytes);
        proof {
            assert(self.tape() =~= old(self).tape());
        }
    }

    /// Marks everything written so far as flushed.
    pub fn flush(&mut self)
        requires
            old(self).wf(),
        ensures
            final(self).wf(),
            final(self)@ == old(self)@.flush(),
    {
        self.write.flush();
        proof {
            assert(self.tape() =~= old(self).tape());
        }
    }

    /// The tape.
    pub fn cells(&self) -> (r: &[C])
        ensures
            r@.len() == self@.cells.len(),
            forall|i: int| 0 <= i < r@.len() ==> (#[trigger] r@[i]).val() == self@.cells[i],
    {
        self.cells.as_slice()
    }

    /// The cell under the head.
    #[inline(always)]
    pub fn get(&self) -> (r: C)
        requires
            self.wf(),
        ensures
            r == self.head_cell(),
            r.val() == self@.head(),
    {
        self.cells[self.ptr]
    }

    /// Stores `data` under the head.
    #[inline(always)]
    pub fn set(&mut self, data: C)
        requires
            old(self).wf(),
        ensures
            final(self).wf(),
            final(self)@ == old(self)@.set(data.val()),
            final(self).head_cell() == data,
    {
        let p = self.ptr;
        self.cells[p] = data;
        proof {
            self.lemma_tape();
            old(self).lemma_tape();
            assert(self.tape() =~= old(self).tape().update(p as int, data.val()));
        }
    }

    /// Replaces the cell under the head by what `transform` makes of it.
    #[inline(always)]
    pub fn map<F: FnOnce(C) -> C>(&mut self, transform: F)
        requires
            old(self).wf(),
            call_requires(transform, (old(self).head_cell(),)),
        ensures
            final(self).wf(),
            call_ensures(transform, (old(self).head_cell(),), final(self).head_cell()),
            final(self)@ == old(self)@.set(final(self).head_cell().val()),
    {
        let cell = self.get();
        self.set(transform(cell))
    }

    /// Clears the cell under the head.
    #[inline(always)]
    pub fn zero(&mut self)
        requires
            old(self).wf(),
        ensures
            final(self).wf(),
            final(self)@ == old(self)@.zero(),
    {
        self.set(C::zero());
    }

    /// Appends the low byte of the head cell to the output.
    #[inline(always)]
    pub fn write(&mut self) -> (r: Result<(), BfExecErrorTy>)
        requires
            old(self).wf(),
        ensures
            final(self).wf(),
            r is Ok,
            final(self)@ == old(self)@.write(),
    {
        let cell = self.get().truncate_u8();
        self.write.write_byte(cell);
        Ok(())
    }

    /// Flushes the output, then takes one byte of input into the head cell;
    /// at the end of the input the cell becomes zero. Fails with `IOError`
    /// when the reader cannot deliver.
    #[inline(always)]
    pub fn read(&mut self) -> (r: Result<(), BfExecErrorTy>)
        requires
            old(self).wf(),
        ensures
            final(self).wf(),
            final(self)@ == old(self)@.read(),
            match r {
                Ok(()) => old(self)@.can_read(),
                Err(e) => e == BfExecErrorTy::IOError && !old(self)@.can_read(),
            },
    {
        self.write.flush();
        match self.read.read_byte() {
            ReadOutcome::Byte(b) => {
                self.set(C::from_u8(b));
                Ok(())
            },
            ReadOutcome::End => {
                self.set(C::from_u8(0));
                Ok(())
            },
            ReadOutcome::Failed => Err(BfExecErrorTy::IOError),
        }
    }

    /// Adds `by` to the head cell, wrapping.
    #[inline(always)]
    pub fn inc(&mut self, by: C)
        requires
            old(self).wf(),
        ensures
            final(self).wf(),
            final(self)@ == old(self)@.inc(by.val()),
    {
        let cell = self.get();
        self.set(cell.wrapping_add(by));
    }

    /// Subtracts `by` from the head cell, wrapping.
    #[inline(always)]
    pub fn dec(&mut self, by: C)
        requires
            old(self).wf(),
        ensures
            final(self).wf(),
            final(self)@ == old(self)@.dec(by.val()),
    {
        let cell = self.get();
        self.set(cell.wrapping_sub(by));
    }

    /// Moves the head `by` cells towards the end, or fails with `Overflow`
    /// and leaves the state as it was.
    #[inline(always)]
    pub fn inc_ptr(&mut self, by: usize) -> (r: Result<(), BfExecErrorTy>)
        requires
            old(self).wf(),
        ensures
            final(self).wf(),
            match r {
                Ok(()) => old(self)@.can_inc_ptr(by as int) && final(self)@ == old(self)@.inc_ptr(
                    by as int,
                ),
                Err(e) => e == BfExecErrorTy::Overflow && !old(self)@.can_inc_ptr(by as int)
                    && *final(self) == *old(self),
            },
    {
        let len = self.cells.len();
        match self.ptr.checked_add(by) {
            Some(incremented) => {
                if incremented < len {
                    self.ptr = incremented;
                    proof {
                        self.lemma_tape();
                        old(self).lemma_tape();
                        assert(self.tape() =~= old(self).tape());
                    }
                    Ok(())
                } else {
                    proof {
                        old(self).lemma_tape();
                    }
                    Err(BfExecErrorTy::Overflow)
                }
            },
            None => {
                proof {
                    old(self).lemma_tape();
                }
                Err(BfExecErrorTy::Overflow)
            },
        }
    }

    /// Moves the head `by` cells towards the start, or fails with
    /// `Underflow` and leaves the state as it was.
    #[inline(always)]
    pub fn dec_ptr(&mut self, by: usize) -> (r: Result<(), BfExecErrorTy>)
        requires
            old(self).wf(),
        ensures
            final(self).wf(),
            match r {
                Ok(()) => old(self)@.can_dec_ptr(by as int) && final(self)@ == old(self)@.dec_ptr(
                    by as int,
                ),
                Err(e) => e == BfExecErrorTy::Underflow && !old(self)@.can_dec_ptr(by as int)
                    && *final(self) == *old(self),
            },
    {
        match self.ptr.checked_sub(by) {
            Some(decrement) => {
                self.ptr = decrement;
                proof {
                    self.lemma_tape();
                    old(self).lemma_tape();
                    assert(self.tape() =~= old(self).tape());
                }
                Ok(())
            },
            None => Err(BfExecErrorTy::Underflow),
        }
    }

    /// Whether a loop start skips its loop: the head cell is zero.
    #[inline(always)]
    pub fn jump_forward(&self) -> (r: bool)
        requires
            self.wf(),
        ensures
            r == (self@.head() == 0),
    {
        self.get().into_u32() == 0
    }

    /// Whether a loop end repeats its loop: the head cell is not zero.
    #[inline(always)]
    pub fn jump_backward(&self) -> (r: bool)
        requires
            self.wf(),
        ensures
            r == (self@.head() != 0),
    {
        self.get().into_u32() != 0
    }

    /// The index `off` cells away from `p` on a tape of `len` cells, or the
    /// bound it breaks.
    fn offset_index(p: usize, off: isize, len: usize) -> (r: Result<usize, BfExecErrorTy>)
        ensures
            match r {
                Ok(i) => i as int == p + off && i < len,
                Err(e) => if p + off < 0 {
                    e == BfExecErrorTy::Underflow
                } else {
                    e == BfExecErrorTy::Overflow && p + off >= len
                },
            },
    {
        match p.checked_add_signed(off) {
            Some(i) => {
                if i < len {
                    Ok(i)
                } else {
                    Err(BfExecErrorTy::Overflow)
                }
            },
            None => {
                if off < 0 {
                    Err(BfExecErrorTy::Underflow)
                } else {
                    Err(BfExecErrorTy::Overflow)
                }
            },
        }
    }

    /// The fused multiply: checks that the offsets `bounds.start` and
    /// `bounds.end` are on the tape, clears the head cell, and adds its old
    /// value times each `change` to the cell at each offset. On a failed
    /// check the state is left as it was.
    #[inline(always)]
    pub fn mul(&mut self, bounds: &Range<isize>, operators: &[MulArg]) -> (r: Result<
        (),
        BfExecErrorTy,
    >)
        requires
            old(self).wf(),
            Machine::args_within(operators@, bounds.start as int, bounds.end as int),
        ensures
            final(self).wf(),
            match r {
                Ok(()) => old(self)@.mul_fault(bounds.start as int, bounds.end as int) is None
                    && final(self)@ == old(self)@.mul(operators@),
                Err(e) => old(self)@.mul_fault(bounds.start as int, bounds.end as int) == Some(e)
                    && *final(self) == *old(self),
            },
    {
        let len = self.cells.len();
        let p = self.ptr;
        proof {
            old(self).lemma_tape();
        }
        let lower = Self::offset_index(p, bounds.start, len);
        let upper = Self::offset_index(p, bounds.end, len);
        match (lower, upper) {
            (Err(BfExecErrorTy::Underflow), _) => {
                return Err(BfExecErrorTy::Underflow);
            },
            (_, Err(BfExecErrorTy::Underflow)) => {
                return Err(BfExecErrorTy::Underflow);
            },
            (Err(_), _) => {
                return Err(BfExecErrorTy::Overflow);
            },
            (_, Err(_)) => {
                return Err(BfExecErrorTy::Overflow);
            },
            _ => {},
        }
        let by = self.get();
        self.zero();
        let ghost start = self@;
        let ghost v = by.val();
        let mut k: usize = 0;
        while k < operators.len()
            invariant
                k <= operators.len(),
                self.wf(),
                self.ptr == p,
                p < len,
                len == self.cells@.len(),
                start.wf(),
                start.modulus == C::modulus(),
                start.ptr == p,
                start.cells.len() == len,
                by.val() == v,
                0 <= p + bounds.start,
                p + bounds.end < len,
                Machine::args_within(operators@, bounds.start as int, bounds.end as int),
                self@ == (Machine { cells: start.mul_cells(v, operators@.take(k as int)), ..start }),
            decreases operators.len() - k,
        {
            let arg = operators[k];
            let ghost before = self@;
            proof {
                self.lemma_tape();
                C::lemma_modulus();
            }
            let at = (p as i128 + arg.offset as i128) as usize;
            let reduced: u32 = match arg.change.checked_rem_euclid(0x1_0000_0000) {
                Some(rem) => rem as u32,
                None => 0,
            };
            let delta = C::truncate_from(reduced);
            let cell = self.cells[at];
            let updated = cell.wrapping_add(by.wrapping_mul(delta));
            self.cells[at] = updated;
            proof {
                let m = C::modulus();
                let chg = arg.change as int;
                assert(reduced as int == chg % 0x1_0000_0000);
                lemma_reduce_twice(m, chg);
                lemma_mul_term(m, cell.val(), v, chg);
                assert(updated.val() == (cell.val() + v * chg) % m);
                self.lemma_tape();
                let taken = operators@.take(k + 1);
                assert(taken.drop_last() =~= operators@.take(k as int));
                assert(taken.last() == arg);
                assert(self.tape() =~= before.cells.update(at as int, updated.val()));
                assert(self.tape() =~= start.mul_cells(v, taken));
            }
            k = k + 1;
        }
        proof {
            assert(operators@.take(k as int) =~= operators@);
        }
        Ok(())
    }
}

} // verus!
