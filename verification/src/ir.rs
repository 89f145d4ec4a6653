//! The loop-tree intermediate form: tokens with folded runs, the tree of
//! loops built from them, and its rewrite passes.

use crate::brackets::{balanced, closes_early, delta, depth_at, Bracket};
use crate::compiler::{CLOSE, COMMA, DOT, MINUS, OPEN, PLUS, RIGHT};
use crate::error::BfCompError;
use crate::source::{
    byte_run, clearing_loop, is_run_byte, lemma_byte_run_bounds, program_bytes, run_length,
    strip_comments,
};
use std::ops::Range;
use vstd::prelude::*;

verus! {

/// One token of a program: a program byte, a folded run of equal bytes, or
/// a clearing loop.
#[derive(Clone, Copy, Debug, PartialEq, Eq)]
pub enum Token {
    Zero,
    Inc(u32),
    Dec(u32),
    IncPtr(usize),
    DecPtr(usize),
    Read,
    Write,
    LStart,
    LEnd,
}

/// The token for a run of `n` bytes `b`, where `b` is one of `+ - > <`.
/// The run length of a cell token is reduced to 32 bits.
pub open spec fn run_token(b: u8, n: nat) -> Token {
    if b == PLUS {
        Token::Inc((n % 0x1_0000_0000) as u32)
    } else if b == MINUS {
        Token::Dec((n % 0x1_0000_0000) as u32)
    } else if b == RIGHT {
        Token::IncPtr(n as usize)
    } else {
        Token::DecPtr(n as usize)
    }
}

/// The tokens of a comment-free program text.
pub open spec fn tokens(p: Seq<u8>) -> Seq<Token>
    decreases p.len(),
{
    if p.len() == 0 {
        Seq::empty()
    } else if p[0] == DOT {
        seq![Token::Write] + tokens(p.skip(1))
    } else if p[0] == COMMA {
        seq![Token::Read] + tokens(p.skip(1))
    } else if p[0] == OPEN {
        if clearing_loop(p) {
            seq![Token::Zero] + tokens(p.skip(3))
        } else {
            seq![Token::LStart] + tokens(p.skip(1))
        }
    } else if p[0] == CLOSE {
        seq![Token::LEnd] + tokens(p.skip(1))
    } else if is_run_byte(p[0]) {
        let n = byte_run(p);
        proof {
            lemma_byte_run_bounds(p);
        }
        seq![run_token(p[0], n)] + tokens(p.skip(n as int))
    } else {
        tokens(p.skip(1))
    }
}

/// What a token means for loop nesting.
pub open spec fn token_bracket(t: Token) -> Bracket {
    match t {
        Token::LStart => Bracket::Open,
        Token::LEnd => Bracket::Close,
        _ => Bracket::Other,
    }
}

/// The loop nesting of a token sequence.
pub open spec fn token_brackets(s: Seq<Token>) -> Seq<Bracket> {
    Seq::new(s.len(), |i: int| token_bracket(s[i]))
}

impl Token {
    /// Tokenizes a program text: comments are skipped, a run of equal
    /// `+ - > <` becomes one token with its length, a loop whose body is
    /// one `+` or one `-` becomes `Zero`.
    pub fn parse(data: &[u8]) -> (r: Vec<Self>)
        ensures
            r@ == tokens(program_bytes(data@)),
    {
        let valid = strip_comments(data);
        let len = valid.len();
        let mut out: Vec<Token> = Vec::new();
        let mut i: usize = 0;
        proof {
            assert(valid@.skip(0) =~= valid@);
            assert(out@ + tokens(valid@) =~= tokens(valid@));
        }
        while i < len
            invariant
                i <= len,
                len == valid@.len(),
                forall|k: int| 0 <= k < valid@.len() ==> crate::source::is_program(
                    #[trigger] valid@[k],
                ),
                out@ + tokens(valid@.skip(i as int)) == tokens(valid@),
            decreases len - i,
        {
            let byte = valid[i];
            let ghost tail = valid@.skip(i as int);
            let ghost done = out@;
            let token: Token;
            let step: usize;
            proof {
                assert(tail[0] == byte);
                assert(crate::source::is_program(valid@[i as int]));
            }
            if byte == DOT {
                token = Token::Write;
                step = 1;
            } else if byte == COMMA {
                token = Token::Read;
                step = 1;
            } else if byte == OPEN {
                if len - i >= 3 && (valid[i + 1] == PLUS || valid[i + 1] == MINUS) && valid[i + 2]
                    == CLOSE {
                    token = Token::Zero;
                    step = 3;
                } else {
                    token = Token::LStart;
                    step = 1;
                }
            } else if byte == CLOSE {
                token = Token::LEnd;
                step = 1;
            } else {
                let count = run_length(valid.as_slice(), i);
                step = count;
                if byte == PLUS {
                    token = Token::Inc((count as u64 % 0x1_0000_0000) as u32);
                } else if byte == MINUS {
                    token = Token::Dec((count as u64 % 0x1_0000_0000) as u32);
                } else if byte == RIGHT {
                    token = Token::IncPtr(count);
                } else {
                    token = Token::DecPtr(count);
                }
            }
            out.push(token);
            proof {
                assert(tail.skip(step as int) =~= valid@.skip(i + step));
                assert(tokens(tail) =~= seq![token] + tokens(valid@.skip(i + step)));
                assert(done.push(token) + tokens(valid@.skip(i + step)) =~= done + tokens(tail));
            }
            i = i + step;
        }
        proof {
            assert(valid@.skip(len as int) =~= Seq::<u8>::empty());
            assert(out@ =~= out@ + tokens(valid@.skip(len as int)));
        }
        out
    }
}

/// One node of the loop tree, as a mathematical value.
pub enum Node {
    Zero,
    /// A fused multiply loop: the least and the greatest offset its body
    /// reaches, and its terms.
    Mul(int, int, Seq<MulArg>),
    Inc(u32),
    Dec(u32),
    IncPtr(usize),
    DecPtr(usize),
    Read,
    Write,
    Loop(Seq<Node>),
    /// A loop known to run at most once.
    If(Seq<Node>),
    /// A loop whose output is batched.
    WriteLoop(Seq<Node>),
}

/// One term of a fused multiply loop: `change` is added to the cell at
/// `offset` from the head once for each unit the head cell held.
#[derive(Hash, Eq, PartialEq, Debug, Clone, Copy, Structural)]
pub struct MulArg {
    pub offset: isize,
    pub change: i64,
}

/// One node of the loop tree.
#[derive(Debug, PartialEq, Eq)]
pub enum ITree {
    Zero,
    Mul(Range<isize>, Vec<MulArg>),
    Inc(u32),
    Dec(u32),
    IncPtr(usize),
    DecPtr(usize),
    Read,
    Write,
    Loop(Vec<ITree>),
    If(Vec<ITree>),
    WriteLoop(Vec<ITree>),
}

impl View for ITree {
    type V = Node;

    open spec fn view(&self) -> Node
        decreases self,
    {
        match self {
            ITree::Zero => Node::Zero,
            ITree::Mul(range, args) => Node::Mul(range.start as int, range.end as int, args@),
            ITree::Inc(by) => Node::Inc(*by),
            ITree::Dec(by) => Node::Dec(*by),
            ITree::IncPtr(by) => Node::IncPtr(*by),
            ITree::DecPtr(by) => Node::DecPtr(*by),
            ITree::Read => Node::Read,
            ITree::Write => Node::Write,
            ITree::Loop(children) => Node::Loop(nodes(children@)),
            ITree::If(children) => Node::If(nodes(children@)),
            ITree::WriteLoop(children) => Node::WriteLoop(nodes(children@)),
        }
    }
}

/// The mathematical value of a sequence of tree nodes.
pub open spec fn nodes(s: Seq<ITree>) -> Seq<Node>
    decreases s,
{
    if s.len() == 0 {
        Seq::empty()
    } else {
        nodes(s.drop_last()).push(s.last()@)
    }
}

/// The value of a sequence of nodes is the sequence of their values.
pub proof fn lemma_nodes(s: Seq<ITree>)
    ensures
        nodes(s).len() == s.len(),
        forall|i: int| 0 <= i < s.len() ==> (#[trigger] nodes(s)[i]) == s[i]@,
    decreases s.len(),
{
    if s.len() > 0 {
        lemma_nodes(s.drop_last());
        assert(nodes(s) == nodes(s.drop_last()).push(s.last()@));
        assert forall|i: int| 0 <= i < s.len() implies (#[trigger] nodes(s)[i]) == s[i]@ by {
            if i < s.len() - 1 {
                assert(s.drop_last()[i] == s[i]);
                assert(nodes(s.drop_last())[i] == s.drop_last()[i]@);
            }
        }
    } else {
        assert(nodes(s) =~= Seq::<Node>::empty());
    }
}

/// The value of a front of a sequence is the front of its value, and one
/// node more in the front is one value more behind it.
pub proof fn lemma_nodes_take(s: Seq<ITree>, i: int)
    requires
        0 <= i <= s.len(),
    ensures
        nodes(s.take(i)) == nodes(s).take(i),
        i < s.len() ==> nodes(s.take(i + 1)) == nodes(s.take(i)).push(s[i]@) && nodes(
            s.take(i + 1),
        ).drop_last() == nodes(s.take(i)) && nodes(s.take(i + 1)).last() == s[i]@,
{
    lemma_nodes(s);
    lemma_nodes(s.take(i));
    assert(nodes(s.take(i)) =~= nodes(s).take(i));
    if i < s.len() {
        lemma_nodes(s.take(i + 1));
        assert(nodes(s.take(i + 1)) =~= nodes(s.take(i)).push(s[i]@));
        assert(nodes(s.take(i)).push(s[i]@).drop_last() =~= nodes(s.take(i)));
    }
}

/// Appending a node appends its value.
pub proof fn lemma_nodes_push(s: Seq<ITree>, node: ITree)
    ensures
        nodes(s.push(node)) == nodes(s).push(node@),
{
    assert(s.push(node).drop_last() =~= s);
}

/// The tokens a tree stands for: each loop is its body between a loop
/// start and a loop end. Nodes that only a rewrite makes stand for none.
pub open spec fn flatten(s: Seq<Node>) -> Seq<Token>
    decreases s,
{
    if s.len() == 0 {
        Seq::empty()
    } else {
        flatten(s.drop_last()) + match s.last() {
            Node::Zero => seq![Token::Zero],
            Node::Inc(by) => seq![Token::Inc(by)],
            Node::Dec(by) => seq![Token::Dec(by)],
            Node::IncPtr(by) => seq![Token::IncPtr(by)],
            Node::DecPtr(by) => seq![Token::DecPtr(by)],
            Node::Read => seq![Token::Read],
            Node::Write => seq![Token::Write],
            Node::Loop(children) => seq![Token::LStart] + flatten(children) + seq![Token::LEnd],
            Node::Mul(_, _, _) => Seq::empty(),
            Node::If(_) => Seq::empty(),
            Node::WriteLoop(_) => Seq::empty(),
        }
    }
}

/// Whether a tree holds only what a token sequence can stand for: no node
/// that only a rewrite makes.
pub open spec fn plain(s: Seq<Node>) -> bool
    decreases s,
{
    if s.len() == 0 {
        true
    } else {
        plain(s.drop_last()) && match s.last() {
            Node::Loop(children) => plain(children),
            Node::Mul(_, _, _) => false,
            Node::If(_) => false,
            Node::WriteLoop(_) => false,
            _ => true,
        }
    }
}

/// The tokens read so far, given the loops still open, outermost first,
/// and the body of the innermost loop as far as it has been read.
pub open spec fn open_flatten(frames: Seq<Vec<ITree>>, cur: Seq<ITree>) -> Seq<Token>
    decreases frames.len(),
{
    if frames.len() == 0 {
        flatten(nodes(cur))
    } else {
        open_flatten(frames.drop_last(), frames.last()@) + seq![Token::LStart] + flatten(
            nodes(cur),
        )
    }
}

/// Whether all the loops still open and the innermost body are plain.
pub open spec fn open_plain(frames: Seq<Vec<ITree>>, cur: Seq<ITree>) -> bool
    decreases frames.len(),
{
    if frames.len() == 0 {
        plain(nodes(cur))
    } else {
        open_plain(frames.drop_last(), frames.last()@) && plain(nodes(cur))
    }
}

impl Token {
    /// Builds the loop tree of a token sequence.
    ///
    /// Fails with `LoopEndBeforeLoopStart` when a loop end has no loop
    /// start before it, and with `LoopCountMismatch` when a loop start is
    /// never closed.
    pub fn to_tree(this: &[Self]) -> (r: Result<Vec<ITree>, BfCompError>)
        ensures
            match r {
                Ok(tree) => {
                    &&& balanced(token_brackets(this@))
                    &&& flatten(nodes(tree@)) == this@
                    &&& plain(nodes(tree@))
                },
                Err(e) => if closes_early(token_brackets(this@)) {
                    e == BfCompError::LoopEndBeforeLoopStart
                } else {
                    e == BfCompError::LoopCountMismatch && !balanced(token_brackets(this@))
                },
            },
    {
        let ghost kinds = token_brackets(this@);
        let mut frames: Vec<Vec<ITree>> = Vec::new();
        let mut cur: Vec<ITree> = Vec::new();
        let mut i: usize = 0;
        proof {
            assert(this@.take(0) =~= Seq::<Token>::empty());
        }
        while i < this.len()
            invariant
                i <= this.len(),
                kinds == token_brackets(this@),
                frames@.len() == depth_at(kinds, i as int),
                forall|k: int| 0 <= k <= i ==> depth_at(kinds, k) >= 0,
                open_flatten(frames@, cur@) == this@.take(i as int),
                open_plain(frames@, cur@),
            decreases this.len() - i,
        {
            let tok = this[i];
            let ghost old_frames = frames@;
            let ghost old_cur = cur@;
            proof {
                assert(this@.take(i + 1) =~= this@.take(i as int).push(tok));
                assert(depth_at(kinds, i + 1) == depth_at(kinds, i as int) + delta(kinds[i as int]));
            }
            match tok {
                Token::LStart => {
                    frames.push(cur);
                    cur = Vec::new();
                    proof {
                        assert(frames@.drop_last() =~= old_frames);
                        assert(frames@.last()@ == old_cur);
                        assert(nodes(cur@) =~= Seq::<Node>::empty());
                        assert(open_flatten(frames@, cur@) =~= this@.take(i + 1));
                    }
                },
                Token::LEnd => {
                    match frames.pop() {
                        Some(parent) => {
                            let ghost body = cur@;
                            let mut parent = parent;
                            let ghost parent_old = parent@;
                            parent.push(ITree::Loop(cur));
                            cur = parent;
                            proof {
                                assert(old_frames.drop_last() =~= frames@);
                                assert(old_frames.last()@ == parent_old);
                                lemma_nodes_push(parent_old, cur@.last());
                                assert(cur@ =~= parent_old.push(cur@.last()));
                                assert(nodes(cur@).drop_last() =~= nodes(parent_old));
                                assert(nodes(cur@).last() == Node::Loop(nodes(body)));
                                assert(flatten(nodes(cur@)) =~= flatten(nodes(parent_old))
                                    + seq![Token::LStart] + flatten(nodes(body)) + seq![
                                    Token::LEnd,
                                ]);
                                lemma_open_flatten_append(
                                    frames@,
                                    parent_old,
                                    cur@,
                                    seq![Token::LStart] + flatten(nodes(body)) + seq![Token::LEnd],
                                );
                                assert(open_flatten(frames@, cur@) =~= this@.take(i + 1));
                                lemma_open_plain_step(frames@, parent_old, cur@);
                            }
                        },
                        None => {
                            proof {
                                assert(depth_at(kinds, i + 1) < 0);
                            }
                            return Err(BfCompError::LoopEndBeforeLoopStart);
                        },
                    }
                },
                _ => {
                    let node = match tok {
                        Token::Zero => ITree::Zero,
                        Token::Inc(by) => ITree::Inc(by),
                        Token::Dec(by) => ITree::Dec(by),
                        Token::IncPtr(by) => ITree::IncPtr(by),
                        Token::DecPtr(by) => ITree::DecPtr(by),
                        Token::Read => ITree::Read,
                        _ => ITree::Write,
                    };
                    cur.push(node);
                    proof {
                        lemma_nodes_push(old_cur, cur@.last());
                        assert(cur@ =~= old_cur.push(cur@.last()));
                        assert(nodes(cur@).drop_last() =~= nodes(old_cur));
                        assert(flatten(nodes(cur@)) =~= flatten(nodes(old_cur)) + seq![tok]);
                        lemma_open_flatten_append(frames@, old_cur, cur@, seq![tok]);
                        assert(open_flatten(frames@, cur@) =~= this@.take(i + 1));
                        lemma_open_plain_step(frames@, old_cur, cur@);
                    }
                },
            }
            i = i + 1;
        }
        proof {
            assert(this@.take(i as int) =~= this@);
        }
        if frames.len() != 0 {
            return Err(BfCompError::LoopCountMismatch);
        }
        Ok(cur)
    }
}

/// Tokens appended to the innermost body are appended to the whole.
pub proof fn lemma_open_flatten_append(
    frames: Seq<Vec<ITree>>,
    cur: Seq<ITree>,
    next: Seq<ITree>,
    more: Seq<Token>,
)
    requires
        flatten(nodes(next)) == flatten(nodes(cur)) + more,
    ensures
        open_flatten(frames, next) == open_flatten(frames, cur) + more,
{
    if frames.len() == 0 {
    } else {
        assert(open_flatten(frames, next) =~= open_flatten(frames, cur) + more);
    }
}

/// A plain innermost body in place of another keeps the whole plain.
pub proof fn lemma_open_plain_step(frames: Seq<Vec<ITree>>, cur: Seq<ITree>, next: Seq<ITree>)
    requires
        open_plain(frames, cur),
        plain(nodes(next)),
    ensures
        open_plain(frames, next),
{
}

/// Whether a node is no loop of its own.
pub open spec fn terminates(n: Node) -> bool {
    !(n is Loop || n is WriteLoop)
}

/// Whether a loop body does nothing but step the head cell once.
pub open spec fn zero_in_loop(c: Seq<Node>) -> bool {
    c.len() == 1 && (c[0] == Node::Inc(1) || c[0] == Node::Dec(1))
}

/// The number of nodes in a body, counting those inside its `If` nodes.
pub open spec fn nested_len(s: Seq<Node>) -> nat
    decreases s,
{
    if s.len() == 0 {
        0
    } else {
        nested_len(s.drop_last()) + 1 + match s.last() {
            Node::If(children) => nested_len(children),
            _ => 0,
        }
    }
}

/// Whether a node neither loops nor reads, and holds no node that does.
pub open spec fn quiet_node(n: Node) -> bool
    decreases n, 0int,
{
    match n {
        Node::Loop(_) => false,
        Node::WriteLoop(_) => false,
        Node::Read => false,
        Node::If(children) => quiet(children),
        _ => true,
    }
}

/// Whether nothing in a body loops or reads, the bodies of its `If`
/// nodes included.
pub open spec fn quiet(s: Seq<Node>) -> bool
    decreases s, 1int,
{
    s.len() == 0 || (quiet(s.drop_last()) && quiet_node(s.last()))
}

/// A body that is quiet has a quiet front.
pub proof fn lemma_quiet_front(s: Seq<Node>, n: int)
    requires
        quiet(s),
        0 <= n <= s.len(),
    ensures
        quiet(s.take(n)),
    decreases s.len(),
{
    if n == s.len() {
        assert(s.take(n) =~= s);
    } else {
        lemma_quiet_front(s.drop_last(), n);
        assert(s.drop_last().take(n) =~= s.take(n));
    }
}

/// Whether a loop body qualifies for batched output: fewer than 32 nodes,
/// counted with those inside `If` nodes; no loop and no read anywhere in
/// it, the bodies of its `If` nodes included; and at least one write
/// among its own nodes.
pub open spec fn is_writeloop(c: Seq<Node>) -> bool {
    &&& nested_len(c) < 32
    &&& quiet(c)
    &&& exists|i: int| 0 <= i < c.len() && #[trigger] c[i] is Write
}

/// The scratch tape on which a loop body is tried out: 64 cells, the head,
/// and the least and greatest offset the head has reached from cell 32.
pub struct Sim {
    pub cells: Seq<int>,
    pub idx: int,
    pub lo: int,
    pub hi: int,
}

/// The scratch tape before the body: all zero, the head on cell 32.
pub open spec fn sim_start() -> Sim {
    Sim { cells: Seq::new(64, |i: int| 0int), idx: 32, lo: 0, hi: 0 }
}

/// One node tried out on the scratch tape; `None` when the node is not a
/// cell or head step, when a cell leaves the range of `i64`, or when the
/// head leaves the scratch tape.
pub open spec fn sim_node(s: Sim, n: Node) -> Option<Sim> {
    match n {
        Node::Inc(by) => {
            let v = s.cells[s.idx] + by;
            if v > i64::MAX {
                None
            } else {
                Some(Sim { cells: s.cells.update(s.idx, v), ..s })
            }
        },
        Node::Dec(by) => {
            let v = s.cells[s.idx] - by;
            if v < i64::MIN {
                None
            } else {
                Some(Sim { cells: s.cells.update(s.idx, v), ..s })
            }
        },
        Node::IncPtr(by) => {
            let p = s.idx + by;
            if p >= 64 {
                None
            } else {
                Some(
                    Sim {
                        idx: p,
                        hi: if p - 32 > s.hi {
                            p - 32
                        } else {
                            s.hi
                        },
                        ..s
                    },
                )
            }
        },
        Node::DecPtr(by) => {
            let p = s.idx - by;
            if p < 0 {
                None
            } else {
                Some(
                    Sim {
                        idx: p,
                        lo: if p - 32 < s.lo {
                            p - 32
                        } else {
                            s.lo
                        },
                        ..s
                    },
                )
            }
        },
        _ => None,
    }
}

/// A body tried out on the scratch tape, node by node.
pub open spec fn sim(body: Seq<Node>) -> Option<Sim>
    decreases body.len(),
{
    if body.len() == 0 {
        Some(sim_start())
    } else {
        match sim(body.drop_last()) {
            Some(s) => sim_node(s, body.last()),
            None => None,
        }
    }
}

/// One term for each of the first `upto` scratch cells that is not zero,
/// cell 32 left out, in tape order.
pub open spec fn sim_args(cells: Seq<int>, upto: int) -> Seq<MulArg>
    decreases upto,
{
    if upto <= 0 {
        Seq::empty()
    } else {
        let rest = sim_args(cells, upto - 1);
        let i = upto - 1;
        if cells[i] != 0 && i != 32 {
            rest.push(MulArg { offset: (i - 32) as isize, change: cells[i] as i64 })
        } else {
            rest
        }
    }
}

/// The fused form of a loop body, if it has one: the body must consist of
/// cell and head steps only, bring the head back to where it started, and
/// leave the head cell one lower.
pub open spec fn multiply_of(body: Seq<Node>) -> Option<(int, int, Seq<MulArg>)> {
    match sim(body) {
        Some(s) => if s.idx == 32 && s.cells[32] == -1 {
            Some((s.lo, s.hi, sim_args(s.cells, 64)))
        } else {
            None
        },
        None => None,
    }
}

/// The scratch tape stays in shape: 64 cells within `i64`, the head on
/// it, and the reached offsets around zero and on the tape.
pub open spec fn sim_ok(s: Sim) -> bool {
    &&& s.cells.len() == 64
    &&& 0 <= s.idx < 64
    &&& -32 <= s.lo <= 0 <= s.hi <= 31
    &&& s.lo <= s.idx - 32 <= s.hi
    &&& forall|i: int| 0 <= i < 64 ==> i64::MIN <= #[trigger] s.cells[i] <= i64::MAX
    &&& forall|i: int| 0 <= i < 64 && #[trigger] s.cells[i] != 0 ==> s.lo <= i - 32 <= s.hi
}

pub proof fn lemma_sim_ok(body: Seq<Node>)
    ensures
        sim(body) matches Some(s) ==> sim_ok(s),
    decreases body.len(),
{
    if body.len() > 0 {
        lemma_sim_ok(body.drop_last());
    }
}

/// Every term of a fused loop lies within the reached offsets.
pub proof fn lemma_sim_args_within(s: Sim, upto: int)
    requires
        sim_ok(s),
        0 <= upto <= 64,
    ensures
        forall|k: int|
            0 <= k < sim_args(s.cells, upto).len() ==> s.lo <= (#[trigger] sim_args(
                s.cells,
                upto,
            )[k]).offset <= s.hi,
    decreases upto,
{
    if upto > 0 {
        lemma_sim_args_within(s, upto - 1);
        let rest = sim_args(s.cells, upto - 1);
        let all = sim_args(s.cells, upto);
        assert forall|k: int| 0 <= k < all.len() implies s.lo <= (#[trigger] all[k]).offset
            <= s.hi by {
            if k < rest.len() {
                assert(all[k] == rest[k]);
            } else {
                assert(s.cells[upto - 1] != 0);
            }
        }
    }
}

impl ITree {
    /// Whether the node is no loop of its own.
    pub fn terminates(&self) -> (r: bool)
        ensures
            r == terminates(self@),
    {
        match self {
            ITree::Loop(_) | ITree::WriteLoop(_) => false,
            _ => true,
        }
    }

    /// Whether a loop body does nothing but step the head cell once.
    pub fn zero_in_loop(this: &[Self]) -> (r: bool)
        ensures
            r == zero_in_loop(nodes(this@)),
    {
        proof {
            lemma_nodes(this@);
        }
        if this.len() != 1 {
            return false;
        }
        match &this[0] {
            ITree::Inc(by) => *by == 1,
            ITree::Dec(by) => *by == 1,
            _ => false,
        }
    }

    /// The number of nodes in a body, counting those inside its `If`
    /// nodes; `usize::MAX` when the count does not fit.
    pub fn terminating_nested_len(this: &[Self]) -> (r: usize)
        ensures
            r as nat == if nested_len(nodes(this@)) > usize::MAX {
                usize::MAX as nat
            } else {
                nested_len(nodes(this@))
            },
        decreases this@,
    {
        let mut total: usize = 0;
        let mut i: usize = 0;
        proof {
            assert(this@.take(0) =~= Seq::<ITree>::empty());
        }
        while i < this.len()
            invariant
                i <= this.len(),
                total as nat == if nested_len(nodes(this@.take(i as int))) > usize::MAX {
                    usize::MAX as nat
                } else {
                    nested_len(nodes(this@.take(i as int)))
                },
            decreases this.len() - i,
        {
            proof {
                lemma_nodes_take(this@, i as int);
            }
            let inner: usize = match &this[i] {
                ITree::If(children) => Self::terminating_nested_len(children.as_slice()),
                _ => 0,
            };
            total = total.saturating_add(1).saturating_add(inner);
            i = i + 1;
        }
        proof {
            assert(this@.take(i as int) =~= this@);
        }
        total
    }

    /// Whether nothing in a body loops or reads, the bodies of its `If`
    /// nodes included.
    pub fn is_quiet(this: &[Self]) -> (r: bool)
        ensures
            r == quiet(nodes(this@)),
        decreases this@,
    {
        let mut i: usize = 0;
        proof {
            assert(this@.take(0) =~= Seq::<ITree>::empty());
        }
        while i < this.len()
            invariant
                i <= this.len(),
                quiet(nodes(this@.take(i as int))),
            decreases this.len() - i,
        {
            proof {
                lemma_nodes_take(this@, i as int);
            }
            let ok = match &this[i] {
                ITree::Loop(_) => false,
                ITree::WriteLoop(_) => false,
                ITree::Read => false,
                ITree::If(children) => Self::is_quiet(children.as_slice()),
                _ => true,
            };
            proof {
                assert(ok == quiet_node(this@[i as int]@));
                assert(quiet(nodes(this@.take(i + 1))) == (quiet(nodes(this@.take(i as int)))
                    && quiet_node(this@[i as int]@)));
            }
            if !ok {
                proof {
                    lemma_nodes(this@);
                    if quiet(nodes(this@)) {
                        lemma_quiet_front(nodes(this@), i + 1);
                        lemma_nodes_take(this@, i + 1);
                        assert(quiet_node(nodes(this@.take(i + 1)).last()));
                    }
                }
                return false;
            }
            i = i + 1;
        }
        proof {
            assert(this@.take(i as int) =~= this@);
        }
        true
    }

    /// Whether a loop body qualifies for batched output.
    pub fn is_writeloop(this: &[Self]) -> (r: bool)
        ensures
            r == is_writeloop(nodes(this@)),
    {
        proof {
            lemma_nodes(this@);
        }
        if Self::terminating_nested_len(this) >= 32 {
            return false;
        }
        if !Self::is_quiet(this) {
            return false;
        }
        let mut writes = false;
        let mut i: usize = 0;
        while i < this.len()
            invariant
                i <= this.len(),
                nodes(this@).len() == this@.len(),
                forall|k: int| 0 <= k < this@.len() ==> (#[trigger] nodes(this@)[k]) == this@[k]@,
                writes == (exists|k: int| 0 <= k < i && #[trigger] nodes(this@)[k] is Write),
            decreases this.len() - i,
        {
            let ghost n = nodes(this@)[i as int];
            match &this[i] {
                ITree::Write => {
                    writes = true;
                },
                _ => {
                    assert(!(n is Write));
                },
            }
            i = i + 1;
        }
        writes
    }

    /// Tries a loop body out on a scratch tape and gives its fused form,
    /// if it has one: the least and greatest offset the body reaches, and
    /// one term for each cell other than the head cell that it changes.
    pub fn as_multiply(this: &[Self]) -> (r: Option<(Range<isize>, Vec<MulArg>)>)
        ensures
            match r {
                Some((range, args)) => multiply_of(nodes(this@)) == Some(
                    (range.start as int, range.end as int, args@),
                ) && -32 <= range.start <= 0 <= range.end <= 31 && forall|k: int|
                    0 <= k < args@.len() ==> range.start <= (#[trigger] args@[k]).offset
                        <= range.end,
                None => multiply_of(nodes(this@)) is None,
            },
    {
        let mut minivm: Vec<i64> = Vec::new();
        let mut z: usize = 0;
        while z < 64
            invariant
                z <= 64,
                minivm@.len() == z,
                forall|k: int| 0 <= k < z ==> minivm@[k] == 0,
            decreases 64 - z,
        {
            minivm.push(0);
            z = z + 1;
        }
        let mut idx: usize = 32;
        let mut lo: isize = 0;
        let mut hi: isize = 0;
        let mut i: usize = 0;
        proof {
            lemma_nodes(this@);
            assert(this@.take(0) =~= Seq::<ITree>::empty());
            assert(Seq::new(64, |k: int| minivm@[k] as int) =~= sim_start().cells);
        }
        while i < this.len()
            invariant
                i <= this.len(),
                minivm@.len() == 64,
                sim(nodes(this@.take(i as int))) == Some(
                    Sim {
                        cells: Seq::new(64, |k: int| minivm@[k] as int),
                        idx: idx as int,
                        lo: lo as int,
                        hi: hi as int,
                    },
                ),
            decreases this.len() - i,
        {
            let ghost before = Sim {
                cells: Seq::new(64, |k: int| minivm@[k] as int),
                idx: idx as int,
                lo: lo as int,
                hi: hi as int,
            };
            proof {
                lemma_nodes_take(this@, i as int);
                lemma_nodes_take(this@, i + 1);
                lemma_nodes(this@);
                lemma_sim_ok(nodes(this@.take(i as int)));
                lemma_sim_none(nodes(this@.take(i + 1)), nodes(this@), i + 1);
            }
            match &this[i] {
                ITree::Inc(by) => {
                    match minivm[idx].checked_add(*by as i64) {
                        Some(inc) => {
                            minivm[idx] = inc;
                        },
                        None => {
                            return None;
                        },
                    }
                },
                ITree::Dec(by) => {
                    match minivm[idx].checked_sub(*by as i64) {
                        Some(dec) => {
                            minivm[idx] = dec;
                        },
                        None => {
                            return None;
                        },
                    }
                },
                ITree::IncPtr(by) => {
                    if *by >= 64 - idx {
                        return None;
                    }
                    idx = idx + *by;
                    if idx as isize - 32 > hi {
                        hi = idx as isize - 32;
                    }
                },
                ITree::DecPtr(by) => {
                    if *by > idx {
                        return None;
                    }
                    idx = idx - *by;
                    if (idx as isize - 32) < lo {
                        lo = idx as isize - 32;
                    }
                },
                _ => {
                    return None;
                },
            }
            proof {
                let after = Sim {
                    cells: Seq::new(64, |k: int| minivm@[k] as int),
                    idx: idx as int,
                    lo: lo as int,
                    hi: hi as int,
                };
                assert(sim_node(before, this@[i as int]@) matches Some(s) && s.cells =~= after.cells
                    && s.idx == after.idx && s.lo == after.lo && s.hi == after.hi);
            }
            i = i + 1;
        }
        proof {
            assert(this@.take(i as int) =~= this@);
            lemma_sim_ok(nodes(this@));
        }
        let ghost end = Sim {
            cells: Seq::new(64, |k: int| minivm@[k] as int),
            idx: idx as int,
            lo: lo as int,
            hi: hi as int,
        };
        if idx == 32 && minivm[32] == -1 {
            let mut out: Vec<MulArg> = Vec::new();
            let mut k: usize = 0;
            while k < 64
                invariant
                    k <= 64,
                    minivm@.len() == 64,
                    end.cells == Seq::new(64, |j: int| minivm@[j] as int),
                    out@ == sim_args(end.cells, k as int),
                decreases 64 - k,
            {
                let cell = minivm[k];
                if cell != 0 && k != 32 {
                    out.push(MulArg { offset: k as isize - 32, change: cell });
                }
                k = k + 1;
            }
            proof {
                lemma_sim_args_within(end, 64);
            }
            Some((lo..hi, out))
        } else {
            None
        }
    }
}

/// A body whose front cannot be tried out cannot be tried out.
pub proof fn lemma_sim_none(front: Seq<Node>, body: Seq<Node>, n: int)
    requires
        0 <= n <= body.len(),
        front == body.take(n),
    ensures
        sim(front) is None ==> sim(body) is None,
    decreases body.len() - n,
{
    if n < body.len() {
        assert(body.take(n + 1).drop_last() =~= body.take(n));
        lemma_sim_none(body.take(n + 1), body, n + 1);
    } else {
        assert(body.take(n) =~= body);
    }
}


/// A loop that only steps the head cell once becomes `Zero`; any other loop
/// is searched for such loops.
pub open spec fn zero_node(n: Node) -> Node
    decreases n,
{
    match n {
        Node::Loop(c) => if zero_in_loop(c) {
            Node::Zero
        } else {
            Node::Loop(zero_rewritten(c))
        },
        other => other,
    }
}

/// The tree with every such loop replaced.
pub open spec fn zero_rewritten(s: Seq<Node>) -> Seq<Node>
    decreases s,
{
    if s.len() == 0 {
        Seq::empty()
    } else {
        zero_rewritten(s.drop_last()).push(zero_node(s.last()))
    }
}

/// The pass works node by node.
pub proof fn lemma_zero_rewritten(s: Seq<Node>)
    ensures
        zero_rewritten(s).len() == s.len(),
        forall|i: int| 0 <= i < s.len() ==> (#[trigger] zero_rewritten(s)[i]) == zero_node(s[i]),
    decreases s.len(),
{
    if s.len() > 0 {
        lemma_zero_rewritten(s.drop_last());
        assert(zero_rewritten(s) == zero_rewritten(s.drop_last()).push(zero_node(s.last())));
        assert forall|i: int| 0 <= i < s.len() implies (#[trigger] zero_rewritten(s)[i]) == zero_node(
            s[i],
        ) by {
            if i < s.len() - 1 {
                assert(s.drop_last()[i] == s[i]);
                assert(zero_rewritten(s.drop_last())[i] == zero_node(s.drop_last()[i]));
            }
        }
    } else {
        assert(zero_rewritten(s) =~= Seq::<Node>::empty());
    }
}

/// Replaces every loop whose body is one `Inc(1)` or one `Dec(1)` by
/// `Zero`.
pub fn rewrite_zero(tree: &mut Vec<ITree>)
    ensures
        nodes(final(tree)@) == zero_rewritten(nodes(old(tree)@)),
    decreases old(tree)@,
{
    let ghost orig = tree@;
    let len = tree.len();
    let mut i: usize = 0;
    while i < len
        invariant
            i <= len,
            orig == old(tree)@,
            len == orig.len(),
            tree@.len() == len,
            forall|j: int| i <= j < len ==> tree@[j] == orig[j],
            forall|j: int| 0 <= j < i ==> (#[trigger] tree@[j])@ == zero_node(orig[j]@),
        decreases len - i,
    {
        let mut node = ITree::Zero;
        core::mem::swap(&mut tree[i], &mut node);
        assert(node == orig[i as int]);
        let rewritten = match node {
            ITree::Loop(children) => {
                let mut children = children;
                if ITree::zero_in_loop(children.as_slice()) {
                    ITree::Zero
                } else {
                    rewrite_zero(&mut children);
                    ITree::Loop(children)
                }
            },
            other => other,
        };
        tree[i] = rewritten;
        i = i + 1;
    }
    proof {
        lemma_nodes(tree@);
        lemma_nodes(orig);
        lemma_zero_rewritten(nodes(orig));
        assert(nodes(tree@) =~= zero_rewritten(nodes(orig)));
    }
}

/// A loop whose body, once searched itself, ends in `Zero` becomes an `If`.
pub open spec fn if_node(n: Node) -> Node
    decreases n,
{
    match n {
        Node::Loop(c) => {
            let inner = if_rewritten(c);
            if inner.len() > 0 && inner.last() is Zero {
                Node::If(inner)
            } else {
                Node::Loop(inner)
            }
        },
        other => other,
    }
}

/// The tree with every such loop replaced, innermost first.
pub open spec fn if_rewritten(s: Seq<Node>) -> Seq<Node>
    decreases s,
{
    if s.len() == 0 {
        Seq::empty()
    } else {
        if_rewritten(s.drop_last()).push(if_node(s.last()))
    }
}

/// The pass works node by node.
pub proof fn lemma_if_rewritten(s: Seq<Node>)
    ensures
        if_rewritten(s).len() == s.len(),
        forall|i: int| 0 <= i < s.len() ==> (#[trigger] if_rewritten(s)[i]) == if_node(s[i]),
    decreases s.len(),
{
    if s.len() > 0 {
        lemma_if_rewritten(s.drop_last());
        assert(if_rewritten(s) == if_rewritten(s.drop_last()).push(if_node(s.last())));
        assert forall|i: int| 0 <= i < s.len() implies (#[trigger] if_rewritten(s)[i]) == if_node(
            s[i],
        ) by {
            if i < s.len() - 1 {
                assert(s.drop_last()[i] == s[i]);
                assert(if_rewritten(s.drop_last())[i] == if_node(s.drop_last()[i]));
            }
        }
    } else {
        assert(if_rewritten(s) =~= Seq::<Node>::empty());
    }
}

/// Turns every loop whose body ends in `Zero` into an `If`, innermost
/// loops first.
pub fn find_if_conditions(tree: &mut Vec<ITree>)
    ensures
        nodes(final(tree)@) == if_rewritten(nodes(old(tree)@)),
    decreases old(tree)@,
{
    let ghost orig = tree@;
    let len = tree.len();
    let mut i: usize = 0;
    while i < len
        invariant
            i <= len,
            orig == old(tree)@,
            len == orig.len(),
            tree@.len() == len,
            forall|j: int| i <= j < len ==> tree@[j] == orig[j],
            forall|j: int| 0 <= j < i ==> (#[trigger] tree@[j])@ == if_node(orig[j]@),
        decreases len - i,
    {
        let mut node = ITree::Zero;
        core::mem::swap(&mut tree[i], &mut node);
        assert(node == orig[i as int]);
        let rewritten = match node {
            ITree::Loop(children) => {
                let mut children = children;
                find_if_conditions(&mut children);
                proof {
                    lemma_nodes(children@);
                }
                let ends_in_zero = children.len() > 0 && is_zero_node(
                    &children[children.len() - 1],
                );
                if ends_in_zero {
                    ITree::If(children)
                } else {
                    ITree::Loop(children)
                }
            },
            other => other,
        };
        tree[i] = rewritten;
        i = i + 1;
    }
    proof {
        lemma_nodes(tree@);
        lemma_nodes(orig);
        lemma_if_rewritten(nodes(orig));
        assert(nodes(tree@) =~= if_rewritten(nodes(orig)));
    }
}

/// A loop whose body has a fused form becomes that form; any other loop is
/// searched for such loops.
pub open spec fn mul_node(n: Node) -> Node
    decreases n,
{
    match n {
        Node::Loop(c) => match multiply_of(c) {
            Some((lo, hi, args)) => Node::Mul(lo, hi, args),
            None => Node::Loop(mul_rewritten(c)),
        },
        other => other,
    }
}

/// The tree with every such loop replaced.
pub open spec fn mul_rewritten(s: Seq<Node>) -> Seq<Node>
    decreases s,
{
    if s.len() == 0 {
        Seq::empty()
    } else {
        mul_rewritten(s.drop_last()).push(mul_node(s.last()))
    }
}

/// The pass works node by node.
pub proof fn lemma_mul_rewritten(s: Seq<Node>)
    ensures
        mul_rewritten(s).len() == s.len(),
        forall|i: int| 0 <= i < s.len() ==> (#[trigger] mul_rewritten(s)[i]) == mul_node(s[i]),
    decreases s.len(),
{
    if s.len() > 0 {
        lemma_mul_rewritten(s.drop_last());
        assert(mul_rewritten(s) == mul_rewritten(s.drop_last()).push(mul_node(s.last())));
        assert forall|i: int| 0 <= i < s.len() implies (#[trigger] mul_rewritten(s)[i]) == mul_node(
            s[i],
        ) by {
            if i < s.len() - 1 {
                assert(s.drop_last()[i] == s[i]);
                assert(mul_rewritten(s.drop_last())[i] == mul_node(s.drop_last()[i]));
            }
        }
    } else {
        assert(mul_rewritten(s) =~= Seq::<Node>::empty());
    }
}

/// Replaces every loop whose body has a fused form by a `Mul` node.
pub fn rewrite_multiply(tree: &mut Vec<ITree>)
    ensures
        nodes(final(tree)@) == mul_rewritten(nodes(old(tree)@)),
    decreases old(tree)@,
{
    let ghost orig = tree@;
    let len = tree.len();
    let mut i: usize = 0;
    while i < len
        invariant
            i <= len,
            orig == old(tree)@,
            len == orig.len(),
            tree@.len() == len,
            forall|j: int| i <= j < len ==> tree@[j] == orig[j],
            forall|j: int| 0 <= j < i ==> (#[trigger] tree@[j])@ == mul_node(orig[j]@),
        decreases len - i,
    {
        let mut node = ITree::Zero;
        core::mem::swap(&mut tree[i], &mut node);
        assert(node == orig[i as int]);
        let rewritten = match node {
            ITree::Loop(children) => {
                let mut children = children;
                match ITree::as_multiply(children.as_slice()) {
                    Some(mulargs) => ITree::Mul(mulargs.0, mulargs.1),
                    None => {
                        rewrite_multiply(&mut children);
                        ITree::Loop(children)
                    },
                }
            },
            other => other,
        };
        tree[i] = rewritten;
        i = i + 1;
    }
    proof {
        lemma_nodes(tree@);
        lemma_nodes(orig);
        lemma_mul_rewritten(nodes(orig));
        assert(nodes(tree@) =~= mul_rewritten(nodes(orig)));
    }
}

/// A loop whose body qualifies for batched output becomes a `WriteLoop`
/// with the same body; any other loop is searched for such loops.
pub open spec fn wl_node(n: Node) -> Node
    decreases n,
{
    match n {
        Node::Loop(c) => if is_writeloop(c) {
            Node::WriteLoop(c)
        } else {
            Node::Loop(wl_rewritten(c))
        },
        other => other,
    }
}

/// The tree with every such loop replaced.
pub open spec fn wl_rewritten(s: Seq<Node>) -> Seq<Node>
    decreases s,
{
    if s.len() == 0 {
        Seq::empty()
    } else {
        wl_rewritten(s.drop_last()).push(wl_node(s.last()))
    }
}

/// The pass works node by node.
pub proof fn lemma_wl_rewritten(s: Seq<Node>)
    ensures
        wl_rewritten(s).len() == s.len(),
        forall|i: int| 0 <= i < s.len() ==> (#[trigger] wl_rewritten(s)[i]) == wl_node(s[i]),
    decreases s.len(),
{
    if s.len() > 0 {
        lemma_wl_rewritten(s.drop_last());
        assert(wl_rewritten(s) == wl_rewritten(s.drop_last()).push(wl_node(s.last())));
        assert forall|i: int| 0 <= i < s.len() implies (#[trigger] wl_rewritten(s)[i]) == wl_node(
            s[i],
        ) by {
            if i < s.len() - 1 {
                assert(s.drop_last()[i] == s[i]);
                assert(wl_rewritten(s.drop_last())[i] == wl_node(s.drop_last()[i]));
            }
        }
    } else {
        assert(wl_rewritten(s) =~= Seq::<Node>::empty());
    }
}

/// Turns every loop whose body qualifies for batched output into a
/// `WriteLoop`.
pub fn rewrite_write_loops(tree: &mut Vec<ITree>)
    ensures
        nodes(final(tree)@) == wl_rewritten(nodes(old(tree)@)),
    decreases old(tree)@,
{
    let ghost orig = tree@;
    let len = tree.len();
    let mut i: usize = 0;
    while i < len
        invariant
            i <= len,
            orig == old(tree)@,
            len == orig.len(),
            tree@.len() == len,
            forall|j: int| i <= j < len ==> tree@[j] == orig[j],
            forall|j: int| 0 <= j < i ==> (#[trigger] tree@[j])@ == wl_node(orig[j]@),
        decreases len - i,
    {
        let mut node = ITree::Zero;
        core::mem::swap(&mut tree[i], &mut node);
        assert(node == orig[i as int]);
        let rewritten = match node {
            ITree::Loop(children) => {
                let mut children = children;
                if ITree::is_writeloop(children.as_slice()) {
                    ITree::WriteLoop(children)
                } else {
                    rewrite_write_loops(&mut children);
                    ITree::Loop(children)
                }
            },
            other => other,
        };
        tree[i] = rewritten;
        i = i + 1;
    }
    proof {
        lemma_nodes(tree@);
        lemma_nodes(orig);
        lemma_wl_rewritten(nodes(orig));
        assert(nodes(tree@) =~= wl_rewritten(nodes(orig)));
    }
}

fn is_zero_node(node: &ITree) -> (r: bool)
    ensures
        r == (node@ is Zero),
{
    match node {
        ITree::Zero => true,
        _ => false,
    }
}

/// Whether every term of every fused loop in the tree lies within the
/// offsets the loop is said to reach.
pub open spec fn muls_ok(s: Seq<Node>) -> bool
    decreases s,
{
    if s.len() == 0 {
        true
    } else {
        muls_ok(s.drop_last()) && match s.last() {
            Node::Mul(lo, hi, args) => forall|k: int|
                0 <= k < args.len() ==> lo <= (#[trigger] args[k]).offset <= hi,
            Node::Loop(children) => muls_ok(children),
            Node::If(children) => muls_ok(children),
            Node::WriteLoop(children) => muls_ok(children),
            _ => true,
        }
    }
}

/// A tree built from tokens holds no fused loop, so it is in order.
pub proof fn lemma_plain_muls_ok(s: Seq<Node>)
    requires
        plain(s),
    ensures
        muls_ok(s),
    decreases s,
{
    if s.len() > 0 {
        lemma_plain_muls_ok(s.drop_last());
        match s.last() {
            Node::Loop(children) => {
                lemma_plain_muls_ok(children);
            },
            _ => {},
        }
    }
}

/// Replacing clearing loops keeps a tree in order.
pub proof fn lemma_zero_rewritten_muls_ok(s: Seq<Node>)
    requires
        muls_ok(s),
    ensures
        muls_ok(zero_rewritten(s)),
    decreases s,
{
    if s.len() > 0 {
        lemma_zero_rewritten_muls_ok(s.drop_last());
        let r = zero_rewritten(s);
        assert(r == zero_rewritten(s.drop_last()).push(zero_node(s.last())));
        assert(r.drop_last() =~= zero_rewritten(s.drop_last()));
        assert(r.last() == zero_node(s.last()));
        assert(r.len() > 0);
        match s.last() {
            Node::Loop(children) => {
                if !zero_in_loop(children) {
                    lemma_zero_rewritten_muls_ok(children);
                }
            },
            _ => {},
        }
    }
}

/// Finding the loops that run at most once keeps a tree in order.
pub proof fn lemma_if_rewritten_muls_ok(s: Seq<Node>)
    requires
        muls_ok(s),
    ensures
        muls_ok(if_rewritten(s)),
    decreases s,
{
    if s.len() > 0 {
        lemma_if_rewritten_muls_ok(s.drop_last());
        let r = if_rewritten(s);
        assert(r == if_rewritten(s.drop_last()).push(if_node(s.last())));
        assert(r.drop_last() =~= if_rewritten(s.drop_last()));
        assert(r.last() == if_node(s.last()));
        assert(r.len() > 0);
        match s.last() {
            Node::Loop(children) => {
                lemma_if_rewritten_muls_ok(children);
            },
            _ => {},
        }
    }
}

/// Marking the loops with batched output keeps a tree in order.
pub proof fn lemma_wl_rewritten_muls_ok(s: Seq<Node>)
    requires
        muls_ok(s),
    ensures
        muls_ok(wl_rewritten(s)),
    decreases s,
{
    if s.len() > 0 {
        lemma_wl_rewritten_muls_ok(s.drop_last());
        let r = wl_rewritten(s);
        assert(r == wl_rewritten(s.drop_last()).push(wl_node(s.last())));
        assert(r.drop_last() =~= wl_rewritten(s.drop_last()));
        assert(r.last() == wl_node(s.last()));
        assert(r.len() > 0);
        match s.last() {
            Node::Loop(children) => {
                if !is_writeloop(children) {
                    lemma_wl_rewritten_muls_ok(children);
                }
            },
            _ => {},
        }
    }
}

/// Fusing multiply loops keeps a tree in order: the terms of a fused
/// loop lie within the offsets its body reaches.
pub proof fn lemma_mul_rewritten_muls_ok(s: Seq<Node>)
    requires
        muls_ok(s),
    ensures
        muls_ok(mul_rewritten(s)),
    decreases s,
{
    if s.len() > 0 {
        lemma_mul_rewritten_muls_ok(s.drop_last());
        let r = mul_rewritten(s);
        assert(r == mul_rewritten(s.drop_last()).push(mul_node(s.last())));
        assert(r.drop_last() =~= mul_rewritten(s.drop_last()));
        assert(r.last() == mul_node(s.last()));
        assert(r.len() > 0);
        match s.last() {
            Node::Loop(children) => {
                match multiply_of(children) {
                    Some(fused) => {
                        lemma_sim_ok(children);
                        lemma_sim_args_within(sim(children).unwrap(), 64);
                    },
                    None => {
                        lemma_mul_rewritten_muls_ok(children);
                    },
                }
            },
            _ => {},
        }
    }
}

} // verus!
