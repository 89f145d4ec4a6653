//! An optimizing compiler and a family of interpreters for the eight-token
//! tape language, with machine-checked contracts.
//!
//! Every executor works on a [`state::BfState`], whose abstract value is a
//! [`state::Machine`]: a bounded tape, a head position, the bytes still to
//! be read and the bytes written so far. Reading and writing happen in
//! memory; a front end carries the bytes to and from the outside world
//! between the steps or slices of a run.
//!
//! The program forms, each with its compiler and its interpreter:
//! - [`compiler`] and [`interpreter`]: the direct stream, one instruction
//!   for each token, run with or without an instruction budget;
//! - [`ir`], [`lower`] and [`stream`]: the loop tree with its rewrite
//!   passes, lowered to the executable stream with fused multiply loops
//!   and batched output;
//! - [`minibit`]: the compact bytecode;
//! - [`direct`]: the program text itself.
//!
//! [`c_source`] renders the direct stream as C, and [`consteval`] runs a
//! program at compile time to put what it has done into that source.
//!
//! What holds across the forms is proved in [`agree`], [`agree_bytecode`]
//! and [`agree_tree`] (the interpreters write the same bytes), [`folding`]
//! (a folded run does what its bytes do), [`multiply`] (a fused loop does
//! what its loop does), [`stream`] and [`batching`] (batching keeps the
//! order of the output), over the abstract machine of [`machine`], the
//! refinement of [`simulate`], the meaning of trees of [`tree_sem`] and
//! the tokens of [`agree_tokens`].

pub mod agree;
pub mod agree_bytecode;
pub mod agree_tokens;
pub mod agree_tree;
pub mod batching;
pub mod brackets;
pub mod c_source;
pub mod cell;
pub mod compiler;
pub mod consteval;
pub mod direct;
pub mod error;
pub mod folding;
pub mod interpreter;
pub mod ir;
pub mod lower;
pub mod machine;
pub mod minibit;
pub mod multiply;
pub mod simulate;
pub mod source;
pub mod state;
pub mod stream;
pub mod tree_sem;
