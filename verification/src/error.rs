//! Compile-time and run-time error kinds.

use vstd::prelude::*;

verus! {

/// Why a program could not be compiled.
#[derive(Copy, Clone, Debug, PartialEq, Eq, Structural)]
pub enum BfCompError {
    /// The loop starts and loop ends do not pair up: a start is left open.
    LoopCountMismatch,
    /// A loop end came before any loop start that it could close.
    LoopEndBeforeLoopStart,
    /// The instruction stream is larger than an interpreter accepts.
    Overflow,
}

impl BfCompError {
    pub open spec fn spec_message(self) -> Seq<char> {
        match self {
            BfCompError::LoopCountMismatch =>
                "the count of loop start instructions does not match the count of loop end instructions"@,
            BfCompError::LoopEndBeforeLoopStart =>
                "loop end instruction was encountered before loop start instruction to complete it"@,
            BfCompError::Overflow => "overflowed maximum code size allowed by interpreter"@,
        }
    }

    /// The one-line diagnostic for this error.
    pub fn message(&self) -> (r: &'static str)
        ensures
            r@ == self.spec_message(),
    {
        match self {
            BfCompError::LoopCountMismatch =>
                "the count of loop start instructions does not match the count of loop end instructions",
            BfCompError::LoopEndBeforeLoopStart =>
                "loop end instruction was encountered before loop start instruction to complete it",
            BfCompError::Overflow => "overflowed maximum code size allowed by interpreter",
        }
    }
}

/// Why a run stopped before the end of the program.
#[derive(Copy, Clone, Debug, PartialEq, Eq, Structural)]
pub enum BfExecErrorTy {
    /// The head would have moved past the last cell.
    Overflow,
    /// The head would have moved below the first cell.
    Underflow,
    /// The head was already outside the tape when the run was set up.
    InitOverflow,
    /// The instruction budget ran out; the run can be resumed.
    NotEnoughInstructions,
    /// The reader could not deliver a byte.
    IOError,
}

impl BfExecErrorTy {
    pub open spec fn spec_message(self) -> Seq<char> {
        match self {
            BfExecErrorTy::Overflow => "runtime overflowed its backing array"@,
            BfExecErrorTy::Underflow => "runtime underflowed its backing array"@,
            BfExecErrorTy::InitOverflow =>
                "the pointer was already overflowed when the runtime started"@,
            BfExecErrorTy::NotEnoughInstructions =>
                "not enough instructions to complete the run, halted before completion"@,
            BfExecErrorTy::IOError => "an IO error was encountered"@,
        }
    }

    /// The one-line diagnostic for this error.
    pub fn message(&self) -> (r: &'static str)
        ensures
            r@ == self.spec_message(),
    {
        match self {
            BfExecErrorTy::Overflow => "runtime overflowed its backing array",
            BfExecErrorTy::Underflow => "runtime underflowed its backing array",
            BfExecErrorTy::InitOverflow =>
                "the pointer was already overflowed when the runtime started",
            BfExecErrorTy::NotEnoughInstructions =>
                "not enough instructions to complete the run, halted before completion",
            BfExecErrorTy::IOError => "an IO error was encountered",
        }
    }
}

/// A run-time error together with the index of the instruction that raised it.
#[derive(Copy, Clone, Debug, PartialEq, Eq, Structural)]
pub struct BfExecError {
    pub source: BfExecErrorTy,
    pub idx: usize,
}

impl BfExecError {
    /// The one-line diagnostic for this error: that of its kind.
    pub fn message(&self) -> (r: &'static str)
        ensures
            r@ == self.source.spec_message(),
    {
        self.source.message()
    }
}

/// The instruction budget cannot grow past `u64::MAX`.
#[derive(Copy, Clone, Debug, PartialEq, Eq, Structural)]
pub struct Overflow;

impl Overflow {
    /// The one-line diagnostic for this error.
    pub fn message(&self) -> (r: &'static str)
        ensures
            r@ == "overflow while attempting to add instruction limit"@,
    {
        "overflow while attempting to add instruction limit"
    }
}

} // verus!
