//! Lowering of the loop tree to a flat executable stream with resolved
//! jumps and a table of the distinct fused loops.

use crate::ir::{lemma_nodes_take, muls_ok, nodes, ITree, MulArg, Node};
use std::ops::Range;
use vstd::prelude::*;

verus! {

/// One instruction of the executable stream.
#[derive(Debug, Clone, Copy, PartialEq, Eq, Structural)]
pub enum Executable {
    Zero,
    Inc(u32),
    Dec(u32),
    IncPtr(u32),
    DecPtr(u32),
    /// The start of a loop with batched output; its operand is the index
    /// of the matching end.
    WLStart(u32),
    /// The end of a loop with batched output; its operand is the index of
    /// the matching start.
    WLEnd(u32),
    /// A loop start; its operand is the index of the matching end.
    LStart(u32),
    /// A loop end; its operand is the index of the matching start.
    LEnd(u32),
    Read,
    Write,
    /// A fused loop; its operand is the index of its recipe.
    Multiply(u32),
}

/// The recipe of a fused loop, as a mathematical value: the least and the
/// greatest offset the loop reaches, and its terms.
pub struct Recipe {
    pub lo: int,
    pub hi: int,
    pub args: Seq<MulArg>,
}

/// The recipe of a fused loop.
#[derive(Debug, PartialEq, Eq)]
pub struct DistinctMultiply(pub Range<isize>, pub Vec<MulArg>);

impl View for DistinctMultiply {
    type V = Recipe;

    open spec fn view(&self) -> Recipe {
        Recipe { lo: self.0.start as int, hi: self.0.end as int, args: self.1@ }
    }
}

/// The values of a table of recipes.
pub open spec fn recipes(s: Seq<DistinctMultiply>) -> Seq<Recipe> {
    Seq::new(s.len(), |i: int| s[i]@)
}

impl DistinctMultiply {
    /// Whether two recipes have the same range and the same terms.
    pub fn same(&self, other: &Self) -> (r: bool)
        ensures
            r == (self@ == other@),
    {
        if self.0.start != other.0.start || self.0.end != other.0.end {
            return false;
        }
        if self.1.len() != other.1.len() {
            return false;
        }
        let mut i: usize = 0;
        while i < self.1.len()
            invariant
                i <= self.1.len(),
                self.1@.len() == other.1@.len(),
                forall|k: int| 0 <= k < i ==> self.1@[k] == other.1@[k],
            decreases self.1.len() - i,
        {
            let a = self.1[i];
            let b = other.1[i];
            if a.offset != b.offset || a.change != b.change {
                return false;
            }
            i = i + 1;
        }
        proof {
            assert(self.1@ =~= other.1@);
        }
        true
    }
}

/// The index of the first recipe equal to `r`, or the length of the table
/// when there is none.
pub open spec fn index_of(table: Seq<Recipe>, r: Recipe) -> int
    decreases table.len(),
{
    if table.len() == 0 {
        0
    } else {
        let before = index_of(table.drop_last(), r);
        if before < table.len() - 1 {
            before
        } else if table.last() == r {
            table.len() - 1
        } else {
            table.len() as int
        }
    }
}

/// Where `index_of` points: at the first equal recipe, or behind the table.
pub proof fn lemma_index_of(table: Seq<Recipe>, r: Recipe)
    ensures
        0 <= index_of(table, r) <= table.len(),
        index_of(table, r) < table.len() ==> table[index_of(table, r)] == r,
        forall|k: int| 0 <= k < index_of(table, r) ==> table[k] != r,
    decreases table.len(),
{
    if table.len() > 0 {
        lemma_index_of(table.drop_last(), r);
        assert forall|k: int| 0 <= k < index_of(table, r) implies table[k] != r by {
            if k < table.len() - 1 {
                assert(table.drop_last()[k] == table[k]);
            }
        }
        if index_of(table.drop_last(), r) < table.len() - 1 {
            assert(table.drop_last()[index_of(table.drop_last(), r)] == table[index_of(
                table.drop_last(),
                r,
            )]);
        }
    }
}

/// The table of the distinct recipes met so far, in the order in which
/// they were first met.
#[derive(Debug)]
pub struct MultiplyCache(pub Vec<DistinctMultiply>);

impl MultiplyCache {
    /// No recipe occurs twice.
    pub open spec fn wf(&self) -> bool {
        forall|i: int, j: int|
            0 <= i < j < self.0@.len() ==> (#[trigger] self.0@[i])@ != (#[trigger] self.0@[j])@
    }

    /// An empty table.
    pub fn default() -> (r: Self)
        ensures
            r.0@.len() == 0,
            r.wf(),
    {
        MultiplyCache(Vec::new())
    }

    /// The index of `dm` in the table; a recipe not yet in the table is
    /// appended. The index is reduced to 32 bits.
    pub fn insert(&mut self, dm: DistinctMultiply) -> (r: u32)
        ensures
            r as int == index_of(recipes(old(self).0@), dm@) % 0x1_0000_0000,
            recipes(final(self).0@) == with_recipe(recipes(old(self).0@), dm@),
            old(self).wf() ==> final(self).wf(),
    {
        let ghost table = recipes(self.0@);
        let mut i: usize = 0;
        proof {
            assert(table.take(0) =~= Seq::<Recipe>::empty());
        }
        while i < self.0.len()
            invariant
                i <= self.0.len(),
                *self == *old(self),
                table == recipes(self.0@),
                index_of(table.take(i as int), dm@) == i,
            decreases self.0.len() - i,
        {
            proof {
                assert(table.take(i + 1).drop_last() =~= table.take(i as int));
            }
            if self.0[i].same(&dm) {
                proof {
                    lemma_index_of_front(table, dm@, i + 1);
                }
                return (i as u64 % 0x1_0000_0000) as u32;
            }
            i = i + 1;
        }
        proof {
            assert(table.take(i as int) =~= table);
            lemma_index_of(table, dm@);
        }
        let idx = (self.0.len() as u64 % 0x1_0000_0000) as u32;
        self.0.push(dm);
        proof {
            assert(recipes(self.0@) =~= table.push(dm@));
            if old(self).wf() {
                assert forall|a: int, b: int| 0 <= a < b < self.0@.len() implies (
                #[trigger] self.0@[a])@ != (#[trigger] self.0@[b])@ by {
                    if b < table.len() {
                        assert(self.0@[a] == old(self).0@[a]);
                        assert(self.0@[b] == old(self).0@[b]);
                    } else {
                        assert(table[a] == self.0@[a]@);
                        assert(self.0@[b]@ == dm@);
                    }
                }
            }
        }
        idx
    }
}

/// The table with `r` in it: appended, unless it was there already.
pub open spec fn with_recipe(table: Seq<Recipe>, r: Recipe) -> Seq<Recipe> {
    if index_of(table, r) < table.len() {
        table
    } else {
        table.push(r)
    }
}

/// A recipe found in a front of the table is found there in the table.
pub proof fn lemma_index_of_front(table: Seq<Recipe>, r: Recipe, n: int)
    requires
        0 <= n <= table.len(),
        index_of(table.take(n), r) < n,
    ensures
        index_of(table, r) == index_of(table.take(n), r),
    decreases table.len() - n,
{
    if n < table.len() {
        assert(table.take(n + 1).drop_last() =~= table.take(n));
        lemma_index_of_front(table, r, n + 1);
    } else {
        assert(table.take(n) =~= table);
    }
}

/// A stream under construction together with its table of recipes.
pub struct Lowered {
    pub stream: Seq<Executable>,
    pub table: Seq<Recipe>,
}

/// The stream and the table after one more node. A loop, an `If` or a
/// write loop is its body between a start and an end of its own that
/// point at each other; an `If` whose body leaves nothing in the stream
/// leaves nothing itself. A fused loop is one instruction that points at
/// its recipe in the table.
pub open spec fn lower_node(l: Lowered, n: Node) -> Lowered
    decreases n,
{
    match n {
        Node::Zero => Lowered { stream: l.stream.push(Executable::Zero), ..l },
        Node::Inc(by) => Lowered { stream: l.stream.push(Executable::Inc(by)), ..l },
        Node::Dec(by) => Lowered { stream: l.stream.push(Executable::Dec(by)), ..l },
        Node::IncPtr(by) => Lowered {
            stream: l.stream.push(Executable::IncPtr(low32(by as int))),
            ..l
        },
        Node::DecPtr(by) => Lowered {
            stream: l.stream.push(Executable::DecPtr(low32(by as int))),
            ..l
        },
        Node::Read => Lowered { stream: l.stream.push(Executable::Read), ..l },
        Node::Write => Lowered { stream: l.stream.push(Executable::Write), ..l },
        Node::Mul(lo, hi, args) => {
            let r = Recipe { lo, hi, args };
            Lowered {
                stream: l.stream.push(Executable::Multiply(low32(index_of(l.table, r)))),
                table: with_recipe(l.table, r),
            }
        },
        Node::Loop(children) => {
            let s_idx = l.stream.len() as int;
            let body = lower(
                Lowered { stream: l.stream.push(Executable::LStart(0)), ..l },
                children,
            );
            Lowered {
                stream: body.stream.push(Executable::LEnd(low32(s_idx))).update(
                    s_idx,
                    Executable::LStart(low32(body.stream.len() as int)),
                ),
                ..body
            }
        },
        Node::WriteLoop(children) => {
            let s_idx = l.stream.len() as int;
            let body = lower(
                Lowered { stream: l.stream.push(Executable::WLStart(0)), ..l },
                children,
            );
            Lowered {
                stream: body.stream.push(Executable::WLEnd(low32(s_idx))).update(
                    s_idx,
                    Executable::WLStart(low32(body.stream.len() as int)),
                ),
                ..body
            }
        },
        Node::If(children) => {
            let s_idx = l.stream.len() as int;
            let body = lower(
                Lowered { stream: l.stream.push(Executable::LStart(0)), ..l },
                children,
            );
            if body.stream.len() - 1 == s_idx {
                Lowered { stream: body.stream.drop_last(), ..body }
            } else {
                Lowered {
                    stream: body.stream.push(Executable::LEnd(low32(s_idx))).update(
                        s_idx,
                        Executable::LStart(low32(body.stream.len() as int)),
                    ),
                    ..body
                }
            }
        },
    }
}

/// The stream and the table after a sequence of nodes.
pub open spec fn lower(l: Lowered, s: Seq<Node>) -> Lowered
    decreases s,
{
    if s.len() == 0 {
        l
    } else {
        lower_node(lower(l, s.drop_last()), s.last())
    }
}

/// An index or a run length reduced to 32 bits.
pub open spec fn low32(v: int) -> u32 {
    (v % 0x1_0000_0000) as u32
}

/// Lowering never shortens what was there.
pub proof fn lemma_lower_grows(l: Lowered, s: Seq<Node>)
    ensures
        lower(l, s).stream.len() >= l.stream.len(),
    decreases s, 1int,
{
    if s.len() > 0 {
        lemma_lower_grows(l, s.drop_last());
        lemma_lower_node_grows(lower(l, s.drop_last()), s.last());
    }
}

/// Lowering a node never shortens what was there.
pub proof fn lemma_lower_node_grows(l: Lowered, n: Node)
    ensures
        lower_node(l, n).stream.len() >= l.stream.len(),
    decreases n, 0int,
{
    match n {
        Node::Loop(children) => {
            lemma_lower_grows(
                Lowered { stream: l.stream.push(Executable::LStart(0)), ..l },
                children,
            );
        },
        Node::WriteLoop(children) => {
            lemma_lower_grows(
                Lowered { stream: l.stream.push(Executable::WLStart(0)), ..l },
                children,
            );
        },
        Node::If(children) => {
            lemma_lower_grows(
                Lowered { stream: l.stream.push(Executable::LStart(0)), ..l },
                children,
            );
        },
        _ => {},
    }
}

/// Lowering enters no more recipes in the table than it adds
/// instructions to the stream.
pub proof fn lemma_lower_table(l: Lowered, s: Seq<Node>)
    ensures
        lower(l, s).table.len() - l.table.len() <= lower(l, s).stream.len() - l.stream.len(),
    decreases s, 1int,
{
    if s.len() > 0 {
        lemma_lower_table(l, s.drop_last());
        lemma_lower_node_table(lower(l, s.drop_last()), s.last());
    }
}

/// Lowering a node enters no more recipes in the table than it adds
/// instructions to the stream.
pub proof fn lemma_lower_node_table(l: Lowered, n: Node)
    ensures
        lower_node(l, n).table.len() - l.table.len() <= lower_node(l, n).stream.len()
            - l.stream.len(),
    decreases n, 0int,
{
    match n {
        Node::Loop(children) => {
            lemma_lower_table(
                Lowered { stream: l.stream.push(Executable::LStart(0)), ..l },
                children,
            );
            lemma_lower_grows(
                Lowered { stream: l.stream.push(Executable::LStart(0)), ..l },
                children,
            );
        },
        Node::WriteLoop(children) => {
            lemma_lower_table(
                Lowered { stream: l.stream.push(Executable::WLStart(0)), ..l },
                children,
            );
            lemma_lower_grows(
                Lowered { stream: l.stream.push(Executable::WLStart(0)), ..l },
                children,
            );
        },
        Node::If(children) => {
            lemma_lower_table(
                Lowered { stream: l.stream.push(Executable::LStart(0)), ..l },
                children,
            );
            lemma_lower_grows(
                Lowered { stream: l.stream.push(Executable::LStart(0)), ..l },
                children,
            );
        },
        _ => {},
    }
}

/// Whether every fused loop of the stream points into the table and
/// every term of every recipe lies within the recipe's range.
pub open spec fn lowered_ok(l: Lowered) -> bool {
    &&& forall|k: int|
        0 <= k < l.stream.len() ==> (#[trigger] l.stream[k] matches Executable::Multiply(i) ==> i
            < l.table.len())
    &&& forall|i: int|
        0 <= i < l.table.len() ==> forall|k: int|
            0 <= k < (#[trigger] l.table[i]).args.len() ==> l.table[i].lo <= (
            #[trigger] l.table[i].args[k]).offset <= l.table[i].hi
}

/// Lowering a tree that is in order gives a stream that is in order.
pub proof fn lemma_lower_ok(l: Lowered, s: Seq<Node>)
    requires
        lowered_ok(l),
        muls_ok(s),
    ensures
        lowered_ok(lower(l, s)),
    decreases s, 1int,
{
    if s.len() > 0 {
        lemma_lower_ok(l, s.drop_last());
        lemma_lower_node_ok(lower(l, s.drop_last()), s.last());
    }
}

/// Lowering a node that is in order keeps a stream in order.
pub proof fn lemma_lower_node_ok(l: Lowered, n: Node)
    requires
        lowered_ok(l),
        match n {
            Node::Mul(lo, hi, args) => forall|k: int|
                0 <= k < args.len() ==> lo <= (#[trigger] args[k]).offset <= hi,
            Node::Loop(children) => muls_ok(children),
            Node::If(children) => muls_ok(children),
            Node::WriteLoop(children) => muls_ok(children),
            _ => true,
        },
    ensures
        lowered_ok(lower_node(l, n)),
    decreases n, 0int,
{
    match n {
        Node::Mul(lo, hi, args) => {
            let r = Recipe { lo, hi, args };
            lemma_index_of(l.table, r);
            let out = lower_node(l, n);
            assert forall|i: int| 0 <= i < out.table.len() implies forall|k: int|
                0 <= k < (#[trigger] out.table[i]).args.len() ==> out.table[i].lo <= (
                #[trigger] out.table[i].args[k]).offset <= out.table[i].hi by {
                if i < l.table.len() {
                    assert(out.table[i] == l.table[i]);
                }
            }
        },
        Node::Loop(children) => {
            let opened = Lowered { stream: l.stream.push(Executable::LStart(0)), ..l };
            lemma_lower_ok(opened, children);
            lemma_lower_grows(opened, children);
        },
        Node::WriteLoop(children) => {
            let opened = Lowered { stream: l.stream.push(Executable::WLStart(0)), ..l };
            lemma_lower_ok(opened, children);
            lemma_lower_grows(opened, children);
        },
        Node::If(children) => {
            let opened = Lowered { stream: l.stream.push(Executable::LStart(0)), ..l };
            lemma_lower_ok(opened, children);
            lemma_lower_grows(opened, children);
        },
        _ => {},
    }
}

fn to_low32(v: usize) -> (r: u32)
    ensures
        r == low32(v as int),
{
    (v as u64 % 0x1_0000_0000) as u32
}

impl ITree {
    /// Lowers the nodes of `this` behind what `stream` holds, entering
    /// their recipes in `cache`.
    pub fn synth_inner(this: &[Self], stream: &mut Vec<Executable>, cache: &mut MultiplyCache)
        ensures
            (Lowered { stream: final(stream)@, table: recipes(final(cache).0@) }) == lower(
                Lowered { stream: old(stream)@, table: recipes(old(cache).0@) },
                nodes(this@),
            ),
            old(cache).wf() ==> final(cache).wf(),
        decreases this@,
    {
        let ghost start = Lowered { stream: stream@, table: recipes(cache.0@) };
        let mut i: usize = 0;
        proof {
            assert(this@.take(0) =~= Seq::<ITree>::empty());
        }
        while i < this.len()
            invariant
                i <= this.len(),
                start == (Lowered { stream: old(stream)@, table: recipes(old(cache).0@) }),
                (Lowered { stream: stream@, table: recipes(cache.0@) }) == lower(
                    start,
                    nodes(this@.take(i as int)),
                ),
                old(cache).wf() ==> cache.wf(),
            decreases this.len() - i,
        {
            let ghost here = Lowered { stream: stream@, table: recipes(cache.0@) };
            proof {
                lemma_nodes_take(this@, i as int);
            }
            match &this[i] {
                ITree::Zero => stream.push(Executable::Zero),
                ITree::Mul(range, mul_args) => {
                    let dm = DistinctMultiply(range.start..range.end, mul_args.clone());
                    proof {
                        assert(dm.1@ == mul_args@);
                    }
                    let idx = cache.insert(dm);
                    stream.push(Executable::Multiply(idx));
                },
                ITree::Inc(by) => stream.push(Executable::Inc(*by)),
                ITree::Dec(by) => stream.push(Executable::Dec(*by)),
                ITree::IncPtr(by) => stream.push(Executable::IncPtr(to_low32(*by))),
                ITree::DecPtr(by) => stream.push(Executable::DecPtr(to_low32(*by))),
                ITree::Read => stream.push(Executable::Read),
                ITree::Write => stream.push(Executable::Write),
                ITree::Loop(itrees) => {
                    let s_idx = stream.len();
                    stream.push(Executable::LStart(0));
                    proof {
                        lemma_lower_grows(
                            Lowered { stream: stream@, table: recipes(cache.0@) },
                            nodes(itrees@),
                        );
                    }
                    Self::synth_inner(itrees.as_slice(), stream, cache);
                    let e_idx = stream.len();
                    stream.push(Executable::LEnd(to_low32(s_idx)));
                    stream[s_idx] = Executable::LStart(to_low32(e_idx));
                },
                ITree::WriteLoop(itrees) => {
                    let s_idx = stream.len();
                    stream.push(Executable::WLStart(0));
                    proof {
                        lemma_lower_grows(
                            Lowered { stream: stream@, table: recipes(cache.0@) },
                            nodes(itrees@),
                        );
                    }
                    Self::synth_inner(itrees.as_slice(), stream, cache);
                    let e_idx = stream.len();
                    stream.push(Executable::WLEnd(to_low32(s_idx)));
                    stream[s_idx] = Executable::WLStart(to_low32(e_idx));
                },
                ITree::If(itrees) => {
                    let s_idx = stream.len();
                    stream.push(Executable::LStart(0));
                    proof {
                        lemma_lower_grows(
                            Lowered { stream: stream@, table: recipes(cache.0@) },
                            nodes(itrees@),
                        );
                    }
                    Self::synth_inner(itrees.as_slice(), stream, cache);
                    if stream.len() - 1 == s_idx {
                        stream.pop();
                    } else {
                        let e_idx = stream.len();
                        stream.push(Executable::LEnd(to_low32(s_idx)));
                        stream[s_idx] = Executable::LStart(to_low32(e_idx));
                    }
                },
            }
            proof {
                assert((Lowered { stream: stream@, table: recipes(cache.0@) }) == lower_node(
                    here,
                    this@[i as int]@,
                ));
            }
            i = i + 1;
        }
        proof {
            assert(this@.take(i as int) =~= this@);
        }
    }
}

} // verus!
