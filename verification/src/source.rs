//! Program text: the eight program bytes among the comments.

use crate::compiler::{CLOSE, COMMA, DOT, LEFT, MINUS, OPEN, PLUS, RIGHT};
use vstd::prelude::*;

verus! {

/// Whether a byte is one of the eight program bytes.
pub open spec fn is_program(b: u8) -> bool {
    b == PLUS || b == MINUS || b == RIGHT || b == LEFT || b == DOT || b == COMMA || b == OPEN || b
        == CLOSE
}

/// Whether a byte is one of the four that fold into runs: `+ - > <`.
pub open spec fn is_run_byte(b: u8) -> bool {
    b == PLUS || b == MINUS || b == RIGHT || b == LEFT
}

/// The program bytes of a text, in order, without the comments.
pub open spec fn program_bytes(text: Seq<u8>) -> Seq<u8>
    decreases text.len(),
{
    if text.len() == 0 {
        Seq::empty()
    } else if is_program(text.last()) {
        program_bytes(text.drop_last()).push(text.last())
    } else {
        program_bytes(text.drop_last())
    }
}

/// How many bytes at the front of `s` equal its first.
pub open spec fn byte_run(s: Seq<u8>) -> nat
    decreases s.len(),
{
    if s.len() == 0 {
        0
    } else if s.len() == 1 || s[1] != s[0] {
        1
    } else {
        1 + byte_run(s.skip(1))
    }
}

/// A run is at least one byte and never longer than the text.
pub proof fn lemma_byte_run_bounds(s: Seq<u8>)
    ensures
        byte_run(s) <= s.len(),
        s.len() > 0 ==> byte_run(s) >= 1,
    decreases s.len(),
{
    if s.len() > 1 && s[1] == s[0] {
        lemma_byte_run_bounds(s.skip(1));
    }
}

/// Whether `s` starts with a loop whose whole body is one `+` or one `-`.
pub open spec fn clearing_loop(s: Seq<u8>) -> bool {
    s.len() >= 3 && s[0] == OPEN && (s[1] == PLUS || s[1] == MINUS) && s[2] == CLOSE
}

/// Whether a byte is one of the eight program bytes.
pub fn is_program_byte(b: u8) -> (r: bool)
    ensures
        r == is_program(b),
{
    b == PLUS || b == MINUS || b == RIGHT || b == LEFT || b == DOT || b == COMMA || b == OPEN || b
        == CLOSE
}

/// The program bytes of a text, in order, without the comments.
pub fn strip_comments(text: &[u8]) -> (r: Vec<u8>)
    ensures
        r@ == program_bytes(text@),
        r@.len() <= text@.len(),
        forall|i: int| 0 <= i < r@.len() ==> is_program(#[trigger] r@[i]),
{
    let mut out: Vec<u8> = Vec::new();
    let mut i: usize = 0;
    while i < text.len()
        invariant
            i <= text.len(),
            out@ == program_bytes(text@.take(i as int)),
            out@.len() <= i,
            forall|k: int| 0 <= k < out@.len() ==> is_program(#[trigger] out@[k]),
        decreases text.len() - i,
    {
        proof {
            assert(text@.take(i + 1).drop_last() =~= text@.take(i as int));
        }
        if is_program_byte(text[i]) {
            out.push(text[i]);
        }
        i = i + 1;
    }
    proof {
        assert(text@.take(i as int) =~= text@);
    }
    out
}

/// The length of the run of equal bytes that starts at `from`.
pub fn run_length(bytes: &[u8], from: usize) -> (r: usize)
    requires
        from < bytes@.len(),
    ensures
        r as nat == byte_run(bytes@.skip(from as int)),
        1 <= r <= bytes@.len() - from,
{
    let first = bytes[from];
    let len = bytes.len();
    let mut i: usize = from;
    proof {
        lemma_byte_run_bounds(bytes@.skip(from as int));
    }
    while i + 1 < len && bytes[i + 1] == first
        invariant
            len == bytes@.len(),
            from <= i < bytes@.len(),
            bytes@[i as int] == first,
            byte_run(bytes@.skip(from as int)) == (i - from) + byte_run(bytes@.skip(i as int)),
        decreases bytes@.len() - i,
    {
        proof {
            assert(bytes@.skip(i as int).skip(1) =~= bytes@.skip(i + 1));
        }
        i = i + 1;
    }
    proof {
        assert(byte_run(bytes@.skip(i as int)) == 1);
    }
    i - from + 1
}

} // verus!
