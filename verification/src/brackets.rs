//! Nesting of loop brackets: depths, balance and matching partners.
//!
//! Each program form maps its instructions to a sequence of [`Bracket`]s;
//! the jump targets of every form are stated over that sequence.

use vstd::prelude::*;

verus! {

/// What an instruction means for loop nesting.
pub enum Bracket {
    /// It starts a loop.
    Open,
    /// It ends a loop.
    Close,
    /// It is not a loop boundary.
    Other,
}

/// How an instruction changes the nesting depth.
pub open spec fn delta(b: Bracket) -> int {
    match b {
        Bracket::Open => 1,
        Bracket::Close => -1,
        Bracket::Other => 0,
    }
}

/// The nesting depth after the first `i` instructions.
pub open spec fn depth_at(s: Seq<Bracket>, i: int) -> int
    decreases i,
{
    if i <= 0 {
        0
    } else {
        depth_at(s, i - 1) + delta(s[i - 1])
    }
}

/// Some loop end comes before a loop start that it could close.
pub open spec fn closes_early(s: Seq<Bracket>) -> bool {
    exists|i: int| 0 <= i <= s.len() && depth_at(s, i) < 0
}

/// Every loop end closes a loop start before it, and none is left open.
pub open spec fn balanced(s: Seq<Bracket>) -> bool {
    !closes_early(s) && depth_at(s, s.len() as int) == 0
}

/// Scans towards the end from `i`, `depth` loops deep, for the loop end
/// that brings the depth back to zero; `s.len()` when there is none.
pub open spec fn scan_close(s: Seq<Bracket>, i: int, depth: int) -> int
    decreases s.len() - i,
{
    if i < 0 || i >= s.len() {
        s.len() as int
    } else {
        let next = depth + delta(s[i]);
        if next == 0 {
            i
        } else {
            scan_close(s, i + 1, next)
        }
    }
}

/// The loop end that closes the loop start at `i`; `s.len()` when the loop
/// is never closed.
pub open spec fn close_of(s: Seq<Bracket>, i: int) -> int {
    scan_close(s, i, 0)
}

/// Scans towards the start from `i`, `depth` loops deep, for the loop start
/// that brings the depth back to zero; `-1` when there is none.
pub open spec fn scan_open(s: Seq<Bracket>, i: int, depth: int) -> int
    decreases i + 1,
{
    if i < 0 || i >= s.len() {
        -1
    } else {
        let next = depth - delta(s[i]);
        if next == 0 {
            i
        } else {
            scan_open(s, i - 1, next)
        }
    }
}

/// The loop start that the loop end at `i` closes; `-1` when there is none.
pub open spec fn open_of(s: Seq<Bracket>, i: int) -> int {
    scan_open(s, i, 0)
}

/// What a pass towards the end knows of the loop starts it has met and
/// not yet seen closed: `stack` holds them, outermost first; the scan for
/// the partner of each has reached `i`; and a scan towards the start from
/// `i - 1` arrives at the innermost of them at the depth it set out with.
pub open spec fn pairing(s: Seq<Bracket>, i: int, stack: Seq<usize>) -> bool {
    &&& 0 <= i <= s.len()
    &&& forall|t: int|
        0 <= t < stack.len() ==> {
            &&& 0 <= (#[trigger] stack[t]) < i
            &&& s[stack[t] as int] == Bracket::Open
            &&& close_of(s, stack[t] as int) == scan_close(s, i, stack.len() - t)
        }
    &&& forall|t: int, k: int|
        0 <= t < stack.len() - 1 && k >= 1 ==> #[trigger] scan_open(s, stack[t + 1] - 1, k)
            == scan_open(s, stack[t] as int, k)
    &&& forall|k: int|
        stack.len() > 0 && k >= 1 ==> #[trigger] scan_open(s, i - 1, k) == scan_open(
            s,
            stack.last() as int,
            k,
        )
}

/// Whether `stack` holds the index `j`.
pub open spec fn on_stack(stack: Seq<usize>, j: int) -> bool {
    exists|t: int| 0 <= t < stack.len() && #[trigger] stack[t] as int == j
}

/// What a pass over the whole sequence knows after `i` instructions: the
/// pairing, that no loop end came too early, and that the open loop starts
/// are as many as the depth.
pub open spec fn open_stack(s: Seq<Bracket>, i: int, stack: Seq<usize>) -> bool {
    &&& pairing(s, i, stack)
    &&& stack.len() == depth_at(s, i)
    &&& forall|k: int| 0 <= k <= i ==> depth_at(s, k) >= 0
    &&& forall|j: int|
        0 <= j < i && #[trigger] s[j] == Bracket::Open ==> close_of(s, j) < i || on_stack(stack, j)
}

/// A scan towards the end never ends before the place it set out from.
pub proof fn lemma_scan_close_range(s: Seq<Bracket>, i: int, depth: int)
    requires
        0 <= i,
    ensures
        i <= scan_close(s, i, depth) <= s.len() || (i > s.len() && scan_close(s, i, depth)
            == s.len()),
    decreases s.len() - i,
{
    if i < s.len() && depth + delta(s[i]) != 0 {
        lemma_scan_close_range(s, i + 1, depth + delta(s[i]));
    }
}

/// A scan towards the start never ends after the place it set out from.
pub proof fn lemma_scan_open_range(s: Seq<Bracket>, i: int, depth: int)
    requires
        -1 <= i < s.len(),
    ensures
        -1 <= scan_open(s, i, depth) <= i,
    decreases i + 1,
{
    if 0 <= i && depth - delta(s[i]) != 0 {
        lemma_scan_open_range(s, i - 1, depth - delta(s[i]));
    }
}

pub proof fn lemma_pairing_open(s: Seq<Bracket>, i: int, stack: Seq<usize>)
    requires
        pairing(s, i, stack),
        i < s.len(),
        i <= usize::MAX,
        s[i] == Bracket::Open,
    ensures
        pairing(s, i + 1, stack.push(i as usize)),
{
    let next = stack.push(i as usize);
    assert forall|t: int| 0 <= t < next.len() implies {
        &&& 0 <= (#[trigger] next[t]) < i + 1
        &&& s[next[t] as int] == Bracket::Open
        &&& close_of(s, next[t] as int) == scan_close(s, i + 1, next.len() - t)
    } by {
        if t < stack.len() {
            assert(next[t] == stack[t]);
        }
    }
    assert forall|t: int, k: int| 0 <= t < next.len() - 1 && k >= 1 implies #[trigger] scan_open(
        s,
        next[t + 1] - 1,
        k,
    ) == scan_open(s, next[t] as int, k) by {
        if t + 1 < stack.len() {
            assert(next[t] == stack[t]);
            assert(next[t + 1] == stack[t + 1]);
        } else {
            assert(next[t] == stack.last());
            assert(next[t + 1] == i);
        }
    }
}

pub proof fn lemma_pairing_other(s: Seq<Bracket>, i: int, stack: Seq<usize>)
    requires
        pairing(s, i, stack),
        i < s.len(),
        s[i] == Bracket::Other,
    ensures
        pairing(s, i + 1, stack),
{
    assert forall|t: int| 0 <= t < stack.len() implies {
        &&& 0 <= (#[trigger] stack[t]) < i + 1
        &&& s[stack[t] as int] == Bracket::Open
        &&& close_of(s, stack[t] as int) == scan_close(s, i + 1, stack.len() - t)
    } by {
    }
    assert forall|k: int| stack.len() > 0 && k >= 1 implies #[trigger] scan_open(s, i, k)
        == scan_open(s, stack.last() as int, k) by {
        assert(scan_open(s, i, k) == scan_open(s, i - 1, k));
    }
}

/// A loop end met with loop starts open closes the innermost of them, and
/// that one is what a scan towards the start finds.
pub proof fn lemma_pairing_close(s: Seq<Bracket>, i: int, stack: Seq<usize>)
    requires
        pairing(s, i, stack),
        i < s.len(),
        s[i] == Bracket::Close,
        stack.len() > 0,
    ensures
        close_of(s, stack.last() as int) == i,
        open_of(s, i) == stack.last(),
        pairing(s, i + 1, stack.drop_last()),
{
    let next = stack.drop_last();
    let top = stack.last() as int;
    assert(stack[stack.len() - 1] == stack.last());
    assert(scan_open(s, i - 1, 1) == scan_open(s, top, 1));
    assert forall|t: int| 0 <= t < next.len() implies {
        &&& 0 <= (#[trigger] next[t]) < i + 1
        &&& s[next[t] as int] == Bracket::Open
        &&& close_of(s, next[t] as int) == scan_close(s, i + 1, next.len() - t)
    } by {
        assert(next[t] == stack[t]);
    }
    assert forall|t: int, k: int| 0 <= t < next.len() - 1 && k >= 1 implies #[trigger] scan_open(
        s,
        next[t + 1] - 1,
        k,
    ) == scan_open(s, next[t] as int, k) by {
        assert(next[t] == stack[t]);
        assert(next[t + 1] == stack[t + 1]);
    }
    assert forall|k: int| next.len() > 0 && k >= 1 implies #[trigger] scan_open(s, i, k)
        == scan_open(s, next.last() as int, k) by {
        assert(scan_open(s, i, k) == scan_open(s, i - 1, k + 1));
        assert(scan_open(s, i - 1, k + 1) == scan_open(s, top, k + 1));
        assert(scan_open(s, top, k + 1) == scan_open(s, top - 1, k));
        let t = stack.len() - 2;
        assert(stack[t + 1] == stack.last());
        assert(scan_open(s, stack[t + 1] - 1, k) == scan_open(s, stack[t] as int, k));
        assert(next.last() == stack[t]);
    }
}

pub proof fn lemma_open_stack_open(s: Seq<Bracket>, i: int, stack: Seq<usize>)
    requires
        open_stack(s, i, stack),
        i < s.len(),
        i <= usize::MAX,
        s[i] == Bracket::Open,
    ensures
        open_stack(s, i + 1, stack.push(i as usize)),
{
    lemma_pairing_open(s, i, stack);
    assert forall|k: int| 0 <= k <= i + 1 implies depth_at(s, k) >= 0 by {
        if k == i + 1 {
            assert(depth_at(s, i) >= 0);
        }
    }
    let next = stack.push(i as usize);
    assert forall|j: int| 0 <= j < i + 1 && #[trigger] s[j] == Bracket::Open implies close_of(s, j)
        < i + 1 || on_stack(next, j) by {
        if j == i {
            assert(next[stack.len() as int] as int == j);
        } else if close_of(s, j) >= i {
            assert(on_stack(stack, j));
            let t = choose|t: int| 0 <= t < stack.len() && #[trigger] stack[t] as int == j;
            assert(next[t] as int == j);
        }
    }
}

pub proof fn lemma_open_stack_other(s: Seq<Bracket>, i: int, stack: Seq<usize>)
    requires
        open_stack(s, i, stack),
        i < s.len(),
        s[i] == Bracket::Other,
    ensures
        open_stack(s, i + 1, stack),
{
    lemma_pairing_other(s, i, stack);
    assert forall|k: int| 0 <= k <= i + 1 implies depth_at(s, k) >= 0 by {
        if k == i + 1 {
            assert(depth_at(s, i) >= 0);
        }
    }
    assert forall|j: int| 0 <= j < i + 1 && #[trigger] s[j] == Bracket::Open implies close_of(s, j)
        < i + 1 || on_stack(stack, j) by {
    }
}

/// A loop end met with loop starts open closes the innermost of them.
pub proof fn lemma_open_stack_close(s: Seq<Bracket>, i: int, stack: Seq<usize>)
    requires
        open_stack(s, i, stack),
        i < s.len(),
        s[i] == Bracket::Close,
        stack.len() > 0,
    ensures
        close_of(s, stack.last() as int) == i,
        open_of(s, i) == stack.last(),
        open_stack(s, i + 1, stack.drop_last()),
{
    lemma_pairing_close(s, i, stack);
    assert forall|k: int| 0 <= k <= i + 1 implies depth_at(s, k) >= 0 by {
        if k == i + 1 {
            assert(depth_at(s, i) >= 1);
        }
    }
    let next = stack.drop_last();
    assert forall|j: int| 0 <= j < i + 1 && #[trigger] s[j] == Bracket::Open implies close_of(s, j)
        < i + 1 || on_stack(next, j) by {
        if close_of(s, j) >= i + 1 {
            assert(on_stack(stack, j));
            let t = choose|t: int| 0 <= t < stack.len() && #[trigger] stack[t] as int == j;
            if t == stack.len() - 1 {
                assert(stack[t] == stack.last());
            } else {
                assert(next[t] as int == j);
            }
        }
    }
}

/// A loop end met with no loop start open comes too early.
pub proof fn lemma_open_stack_close_early(s: Seq<Bracket>, i: int, stack: Seq<usize>)
    requires
        open_stack(s, i, stack),
        i < s.len(),
        s[i] == Bracket::Close,
        stack.len() == 0,
    ensures
        closes_early(s),
{
    assert(depth_at(s, i + 1) < 0);
}

/// At the end of the pass the sequence is balanced exactly when no loop
/// start is left open.
pub proof fn lemma_open_stack_end(s: Seq<Bracket>, stack: Seq<usize>)
    requires
        open_stack(s, s.len() as int, stack),
    ensures
        !closes_early(s),
        balanced(s) <==> stack.len() == 0,
        depth_at(s, s.len() as int) == stack.len(),
        stack.len() == 0 ==> forall|j: int|
            0 <= j < s.len() && #[trigger] s[j] == Bracket::Open ==> close_of(s, j) < s.len(),
{
}

/// In a pass that has come to `i`, the partner of a loop start lies before
/// `i` only if the loop start has been closed: one still open, or not yet
/// met, has its partner at `i` or later.
pub proof fn lemma_close_after(s: Seq<Bracket>, i: int, stack: Seq<usize>, j: int)
    requires
        pairing(s, i, stack),
        0 <= j < s.len(),
        s[j] == Bracket::Open,
    ensures
        close_of(s, j) > j,
        on_stack(stack, j) ==> close_of(s, j) >= i,
{
    lemma_scan_close_range(s, j + 1, 1);
    if on_stack(stack, j) {
        let t = choose|t: int| 0 <= t < stack.len() && #[trigger] stack[t] as int == j;
        lemma_scan_close_range(s, i, stack.len() - t);
    }
}

/// One step of a pass closes at most one loop: the partner of a loop start
/// is the instruction at `i` exactly when that instruction is a loop end
/// and the loop start is the innermost one open.
pub proof fn lemma_closed_step(s: Seq<Bracket>, i: int, stack: Seq<usize>, j: int)
    requires
        open_stack(s, i, stack),
        i < s.len(),
        i <= usize::MAX,
        s[i] == Bracket::Close ==> stack.len() > 0,
        0 <= j < s.len(),
        s[j] == Bracket::Open,
    ensures
        close_of(s, j) == i <==> (s[i] == Bracket::Close && j == stack.last()),
{
    let next = match s[i] {
        Bracket::Open => stack.push(i as usize),
        Bracket::Close => stack.drop_last(),
        Bracket::Other => stack,
    };
    match s[i] {
        Bracket::Open => {
            lemma_pairing_open(s, i, stack);
        },
        Bracket::Close => {
            lemma_pairing_close(s, i, stack);
        },
        Bracket::Other => {
            lemma_pairing_other(s, i, stack);
        },
    }
    lemma_close_after(s, i + 1, next, j);
    if j < i && close_of(s, j) >= i {
        assert(on_stack(stack, j));
        let t = choose|t: int| 0 <= t < stack.len() && #[trigger] stack[t] as int == j;
        if s[i] == Bracket::Close && t == stack.len() - 1 {
            assert(stack[t] == stack.last());
        } else {
            assert(next[t] as int == j);
            assert(on_stack(next, j));
        }
    }
}

/// What a pass towards the start knows of the loop ends it has met and
/// not yet seen opened: `stack` holds them, outermost first; the scan for
/// the partner of each has reached `i`; and a scan towards the end from
/// `i + 1` arrives at the innermost of them at the depth it set out with.
pub open spec fn pairing_back(s: Seq<Bracket>, i: int, stack: Seq<usize>) -> bool {
    &&& -1 <= i < s.len()
    &&& forall|t: int|
        0 <= t < stack.len() ==> {
            &&& i < (#[trigger] stack[t]) < s.len()
            &&& s[stack[t] as int] == Bracket::Close
            &&& open_of(s, stack[t] as int) == scan_open(s, i, stack.len() - t)
        }
    &&& forall|t: int, k: int|
        0 <= t < stack.len() - 1 && k >= 1 ==> #[trigger] scan_close(s, stack[t + 1] + 1, k)
            == scan_close(s, stack[t] as int, k)
    &&& forall|k: int|
        stack.len() > 0 && k >= 1 ==> #[trigger] scan_close(s, i + 1, k) == scan_close(
            s,
            stack.last() as int,
            k,
        )
}

pub proof fn lemma_pairing_back_close(s: Seq<Bracket>, i: int, stack: Seq<usize>)
    requires
        pairing_back(s, i, stack),
        0 <= i <= usize::MAX,
        s[i] == Bracket::Close,
    ensures
        pairing_back(s, i - 1, stack.push(i as usize)),
{
    let next = stack.push(i as usize);
    assert forall|t: int| 0 <= t < next.len() implies {
        &&& i - 1 < (#[trigger] next[t]) < s.len()
        &&& s[next[t] as int] == Bracket::Close
        &&& open_of(s, next[t] as int) == scan_open(s, i - 1, next.len() - t)
    } by {
        if t < stack.len() {
            assert(next[t] == stack[t]);
        }
    }
    assert forall|t: int, k: int| 0 <= t < next.len() - 1 && k >= 1 implies #[trigger] scan_close(
        s,
        next[t + 1] + 1,
        k,
    ) == scan_close(s, next[t] as int, k) by {
        if t + 1 < stack.len() {
            assert(next[t] == stack[t]);
            assert(next[t + 1] == stack[t + 1]);
        } else {
            assert(next[t] == stack.last());
            assert(next[t + 1] == i);
        }
    }
}

pub proof fn lemma_pairing_back_other(s: Seq<Bracket>, i: int, stack: Seq<usize>)
    requires
        pairing_back(s, i, stack),
        0 <= i,
        s[i] == Bracket::Other,
    ensures
        pairing_back(s, i - 1, stack),
{
    assert forall|t: int| 0 <= t < stack.len() implies {
        &&& i - 1 < (#[trigger] stack[t]) < s.len()
        &&& s[stack[t] as int] == Bracket::Close
        &&& open_of(s, stack[t] as int) == scan_open(s, i - 1, stack.len() - t)
    } by {
    }
    assert forall|k: int| stack.len() > 0 && k >= 1 implies #[trigger] scan_close(s, i, k)
        == scan_close(s, stack.last() as int, k) by {
        assert(scan_close(s, i, k) == scan_close(s, i + 1, k));
    }
}

/// A loop start met with loop ends open opens the innermost of them, and
/// that one is what a scan towards the end finds.
pub proof fn lemma_pairing_back_open(s: Seq<Bracket>, i: int, stack: Seq<usize>)
    requires
        pairing_back(s, i, stack),
        0 <= i,
        s[i] == Bracket::Open,
        stack.len() > 0,
    ensures
        open_of(s, stack.last() as int) == i,
        close_of(s, i) == stack.last(),
        pairing_back(s, i - 1, stack.drop_last()),
{
    let next = stack.drop_last();
    let top = stack.last() as int;
    assert(stack[stack.len() - 1] == stack.last());
    assert(scan_close(s, i + 1, 1) == scan_close(s, top, 1));
    assert forall|t: int| 0 <= t < next.len() implies {
        &&& i - 1 < (#[trigger] next[t]) < s.len()
        &&& s[next[t] as int] == Bracket::Close
        &&& open_of(s, next[t] as int) == scan_open(s, i - 1, next.len() - t)
    } by {
        assert(next[t] == stack[t]);
    }
    assert forall|t: int, k: int| 0 <= t < next.len() - 1 && k >= 1 implies #[trigger] scan_close(
        s,
        next[t + 1] + 1,
        k,
    ) == scan_close(s, next[t] as int, k) by {
        assert(next[t] == stack[t]);
        assert(next[t + 1] == stack[t + 1]);
    }
    assert forall|k: int| next.len() > 0 && k >= 1 implies #[trigger] scan_close(s, i, k)
        == scan_close(s, next.last() as int, k) by {
        assert(scan_close(s, i, k) == scan_close(s, i + 1, k + 1));
        assert(scan_close(s, i + 1, k + 1) == scan_close(s, top, k + 1));
        assert(scan_close(s, top, k + 1) == scan_close(s, top + 1, k));
        let t = stack.len() - 2;
        assert(stack[t + 1] == stack.last());
        assert(scan_close(s, stack[t + 1] + 1, k) == scan_close(s, stack[t] as int, k));
        assert(next.last() == stack[t]);
    }
}

/// The loop starts still open after the first `i` instructions,
/// outermost first.
pub open spec fn stack_at(s: Seq<Bracket>, i: int) -> Seq<usize>
    decreases i,
{
    if i <= 0 {
        Seq::empty()
    } else {
        let before = stack_at(s, i - 1);
        match s[i - 1] {
            Bracket::Open => before.push((i - 1) as usize),
            Bracket::Close => before.drop_last(),
            Bracket::Other => before,
        }
    }
}

/// In a sequence in which no loop end comes too early, the loop starts
/// still open are what a pass knows.
pub proof fn lemma_stack_at(s: Seq<Bracket>, i: int)
    requires
        0 <= i <= s.len(),
        s.len() <= usize::MAX,
        !closes_early(s),
    ensures
        open_stack(s, i, stack_at(s, i)),
    decreases i,
{
    if i > 0 {
        lemma_stack_at(s, i - 1);
        let before = stack_at(s, i - 1);
        match s[i - 1] {
            Bracket::Open => {
                lemma_open_stack_open(s, i - 1, before);
            },
            Bracket::Close => {
                assert(depth_at(s, i) >= 0);
                assert(depth_at(s, i) == depth_at(s, i - 1) + delta(s[i - 1]));
                lemma_open_stack_close(s, i - 1, before);
            },
            Bracket::Other => {
                lemma_open_stack_other(s, i - 1, before);
            },
        }
    }
}

/// In a balanced sequence every loop boundary has its partner: a loop
/// start its loop end behind it, a loop end its loop start before it.
pub proof fn lemma_balanced_partners(s: Seq<Bracket>)
    requires
        balanced(s),
        s.len() <= usize::MAX,
    ensures
        forall|j: int|
            0 <= j < s.len() && #[trigger] s[j] == Bracket::Open ==> j < close_of(s, j)
                < s.len(),
        forall|j: int|
            0 <= j < s.len() && #[trigger] s[j] == Bracket::Close ==> 0 <= open_of(s, j) < j,
{
    lemma_stack_at(s, s.len() as int);
    lemma_open_stack_end(s, stack_at(s, s.len() as int));
    assert forall|j: int| 0 <= j < s.len() && #[trigger] s[j] == Bracket::Open implies j
        < close_of(s, j) < s.len() by {
        lemma_scan_close_range(s, j + 1, 1);
    }
    assert forall|j: int| 0 <= j < s.len() && #[trigger] s[j] == Bracket::Close implies 0
        <= open_of(s, j) < j by {
        lemma_stack_at(s, j);
        assert(depth_at(s, j + 1) >= 0);
        assert(depth_at(s, j + 1) == depth_at(s, j) + delta(s[j]));
        lemma_open_stack_close(s, j, stack_at(s, j));
    }
}

} // verus!
