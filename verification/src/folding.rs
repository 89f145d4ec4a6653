//! Folding of runs: a token that stands for a run of equal program bytes
//! does what the tokens for the single bytes do one after the other.

use crate::compiler::{MINUS, PLUS, RIGHT};
use crate::error::BfExecErrorTy;
use crate::ir::{run_token, Token};
use crate::source::is_run_byte;
use crate::state::{lemma_set_wf, Machine};
use vstd::arithmetic::div_mod::{lemma_mod_mod, lemma_sub_mod_noop};
use vstd::prelude::*;

verus! {

/// What came of some tokens: the machine, and the error that stopped
/// them, if one did.
pub struct Done {
    pub machine: Machine,
    pub fault: Option<BfExecErrorTy>,
}

/// What a token does to the machine. A loop boundary on its own does
/// nothing.
pub open spec fn token_effect(m: Machine, t: Token) -> Done {
    match t {
        Token::Zero => Done { machine: m.zero(), fault: None },
        Token::Inc(by) => Done { machine: m.inc(by as int % m.modulus), fault: None },
        Token::Dec(by) => Done { machine: m.dec(by as int % m.modulus), fault: None },
        Token::IncPtr(by) => if m.can_inc_ptr(by as int) {
            Done { machine: m.inc_ptr(by as int), fault: None }
        } else {
            Done { machine: m, fault: Some(BfExecErrorTy::Overflow) }
        },
        Token::DecPtr(by) => if m.can_dec_ptr(by as int) {
            Done { machine: m.dec_ptr(by as int), fault: None }
        } else {
            Done { machine: m, fault: Some(BfExecErrorTy::Underflow) }
        },
        Token::Read => Done {
            machine: m.read(),
            fault: if m.can_read() {
                None
            } else {
                Some(BfExecErrorTy::IOError)
            },
        },
        Token::Write => Done { machine: m.write(), fault: None },
        Token::LStart => Done { machine: m, fault: None },
        Token::LEnd => Done { machine: m, fault: None },
    }
}

/// What `n` times the token `t` do to the machine, one after the other,
/// as far as no error stops them.
pub open spec fn repeated_effect(m: Machine, t: Token, n: nat) -> Done
    decreases n,
{
    if n == 0 {
        Done { machine: m, fault: None }
    } else {
        let first = token_effect(m, t);
        if first.fault is Some {
            first
        } else {
            repeated_effect(first.machine, t, (n - 1) as nat)
        }
    }
}

/// Whether a folded token and its unfolded run came to the same: the same
/// error or none; without an error the same machine; with one the same
/// tape and the same streams, the head being where the error left it.
pub open spec fn same_effect(folded: Done, unfolded: Done) -> bool {
    &&& folded.fault == unfolded.fault
    &&& folded.fault is None ==> folded.machine == unfolded.machine
    &&& folded.fault is Some ==> folded.machine == (Machine {
        ptr: folded.machine.ptr,
        ..unfolded.machine
    })
}

/// Stepping the head cell up `n` times by one adds `n` to it.
proof fn lemma_inc_times(m: Machine, n: nat)
    requires
        m.wf(),
    ensures
        repeated_effect(m, Token::Inc(1), n) == (Done {
            machine: m.set((m.head() + n) % m.modulus),
            fault: None,
        }),
    decreases n,
{
    let h = m.head();
    let md = m.modulus;
    if n == 0 {
        vstd::arithmetic::div_mod::lemma_small_mod(h as nat, md as nat);
        assert(m.set(h).cells =~= m.cells);
    } else {
        let first = m.inc(1int % md);
        assert(first == m.set((h + 1) % md)) by {
            vstd::arithmetic::div_mod::lemma_add_mod_noop_right(h, 1, md);
        }
        assert(first.wf()) by {
            lemma_set_wf(m, (h + 1) % md);
        }
        lemma_inc_times(first, (n - 1) as nat);
        assert(first.head() == (h + 1) % md);
        assert((first.head() + (n - 1)) % md == (h + n) % md) by {
            vstd::arithmetic::div_mod::lemma_add_mod_noop_right(n - 1, h + 1, md);
        }
        assert(first.set((h + n) % md).cells =~= m.set((h + n) % md).cells);
    }
}

/// Stepping the head cell down `n` times by one takes `n` from it.
proof fn lemma_dec_times(m: Machine, n: nat)
    requires
        m.wf(),
    ensures
        repeated_effect(m, Token::Dec(1), n) == (Done {
            machine: m.set((m.head() - n) % m.modulus),
            fault: None,
        }),
    decreases n,
{
    let h = m.head();
    let md = m.modulus;
    if n == 0 {
        vstd::arithmetic::div_mod::lemma_small_mod(h as nat, md as nat);
        assert(m.set(h).cells =~= m.cells);
    } else {
        let first = m.dec(1int % md);
        assert(first == m.set((h - 1) % md)) by {
            vstd::arithmetic::div_mod::lemma_sub_mod_noop_right(h, 1, md);
        }
        assert(first.wf()) by {
            lemma_set_wf(m, (h - 1) % md);
        }
        lemma_dec_times(first, (n - 1) as nat);
        assert(first.head() == (h - 1) % md);
        assert((first.head() - (n - 1)) % md == (h - n) % md) by {
            lemma_sub_mod_noop(h - 1, n - 1, md);
            lemma_sub_mod_noop((h - 1) % md, n - 1, md);
            vstd::arithmetic::div_mod::lemma_mod_twice(h - 1, md);
            assert((h - 1) - (n - 1) == h - n);
        }
        assert(first.set((h - n) % md).cells =~= m.set((h - n) % md).cells);
    }
}

/// Moving the head `n` times by one towards the end moves it by `n`, or
/// fails as the one move by `n` fails.
proof fn lemma_inc_ptr_times(m: Machine, n: nat)
    requires
        m.wf(),
    ensures
        repeated_effect(m, Token::IncPtr(1), n).fault == (if m.can_inc_ptr(n as int) {
            None
        } else {
            Some(BfExecErrorTy::Overflow)
        }),
        m.can_inc_ptr(n as int) ==> repeated_effect(m, Token::IncPtr(1), n).machine == m.inc_ptr(
            n as int,
        ),
        repeated_effect(m, Token::IncPtr(1), n).machine == (Machine {
            ptr: repeated_effect(m, Token::IncPtr(1), n).machine.ptr,
            ..m
        }),
    decreases n,
{
    if n > 0 && m.can_inc_ptr(1) {
        lemma_inc_ptr_times(m.inc_ptr(1), (n - 1) as nat);
    }
}

/// Moving the head `n` times by one towards the start moves it by `n`, or
/// fails as the one move by `n` fails.
proof fn lemma_dec_ptr_times(m: Machine, n: nat)
    requires
        m.wf(),
    ensures
        repeated_effect(m, Token::DecPtr(1), n).fault == (if m.can_dec_ptr(n as int) {
            None
        } else {
            Some(BfExecErrorTy::Underflow)
        }),
        m.can_dec_ptr(n as int) ==> repeated_effect(m, Token::DecPtr(1), n).machine == m.dec_ptr(
            n as int,
        ),
        repeated_effect(m, Token::DecPtr(1), n).machine == (Machine {
            ptr: repeated_effect(m, Token::DecPtr(1), n).machine.ptr,
            ..m
        }),
    decreases n,
{
    if n > 0 && m.can_dec_ptr(1) {
        lemma_dec_ptr_times(m.dec_ptr(1), (n - 1) as nat);
    }
}

/// Folding a run changes nothing. On any machine, the one token for a
/// run of `n` program bytes `b` comes to what `n` tokens for the single
/// byte come to: the same cells, the same head, the same input and
/// output, and the same error if the head leaves the tape; only where
/// the head stands after such an error is left open.
pub proof fn lemma_folded_run(m: Machine, b: u8, n: nat)
    requires
        m.wf(),
        m.modulus == 0x100 || m.modulus == 0x1_0000 || m.modulus == 0x1_0000_0000,
        is_run_byte(b),
        n <= usize::MAX,
    ensures
        same_effect(token_effect(m, run_token(b, n)), repeated_effect(m, run_token(b, 1), n)),
{
    let md = m.modulus;
    let h = m.head();
    let low = (n % 0x1_0000_0000) as int;
    assert(low % md == n as int % md) by {
        if md == 0x100 {
            lemma_mod_mod(n as int, 0x100, 0x100_0000);
        } else if md == 0x1_0000 {
            lemma_mod_mod(n as int, 0x1_0000, 0x1_0000);
        } else {
            lemma_mod_mod(n as int, 0x1_0000_0000, 1);
        }
    }
    if b == PLUS {
        lemma_inc_times(m, n);
        assert((h + low % md) % md == (h + n) % md) by {
            vstd::arithmetic::div_mod::lemma_add_mod_noop_right(h, n as int, md);
        }
    } else if b == MINUS {
        lemma_dec_times(m, n);
        assert((h - low % md) % md == (h - n) % md) by {
            vstd::arithmetic::div_mod::lemma_sub_mod_noop_right(h, n as int, md);
        }
    } else if b == RIGHT {
        lemma_inc_ptr_times(m, n);
    } else {
        lemma_dec_ptr_times(m, n);
    }
}

} // verus!
