//! Matching a large batch of strex patterns against one haystack.
//!
//! A strex is a sequence of literal words with gaps (`.*`) between them,
//! where a parenthesised group can offer alternatives. A batch of such
//! patterns is compiled into one set: a literal matcher over all the words,
//! and small state machines, the chains, that track the order in which the
//! words of each pattern are seen. Scanning a haystack against the set tells
//! which patterns match it.
//!
//! A scan sees every occurrence of every word, by the offset at which the
//! occurrence starts. Each word that is seen sets off the jobs that the
//! patterns attached to it, the job attached last first: a job starts a
//! chain, moves a chain one step on, or reports a pattern. Of the words that
//! start at one offset, the jobs that start a chain run after all the
//! others, so that a chain is moved on only by a word that starts later than
//! the word that started it. A chain that is started again while it is live
//! goes back to its first step.
//!
//! The modules, from the data to the laws:
//!
//! - `hir`, `parser`, `roundtrip`: pattern trees, their grammar, and the
//!   proof that parsing undoes printing;
//! - `program`, `builder`, `lowering`: the compiled form and how trees are
//!   lowered into it;
//! - `machine`, `steady`: what a scan does, and what holds in each of its
//!   states;
//! - `automaton`, `stream`, `scan`: the literal matcher and the order of its
//!   hits;
//! - `set`: compiling a batch and matching a haystack;
//! - `pieces`, `parts`, `relocate`, `order`, `wide`, `gap`, `inside`, `splice`,
//!   `laws`, `sources`: what holds of every set and every haystack;
//! - `range`, `text`: reading numbers and characters.

pub mod automaton;
pub mod builder;
pub mod gap;
pub mod hir;
pub mod inside;
pub mod laws;
pub mod lowering;
pub mod machine;
pub mod order;
pub mod parser;
pub mod parts;
pub mod pieces;
pub mod program;
pub mod range;
pub mod relocate;
pub mod roundtrip;
pub mod scan;
pub mod set;
pub mod sources;
pub mod splice;
pub mod steady;
pub mod stream;
pub mod text;
pub mod wide;

pub use crate::builder::StrexSetBuilder;
pub use crate::hir::StrexHir;
pub use crate::program::{Chain, ChainId, CompileError, StepId, StrexId, WordId, WordJob};
pub use crate::range::parse_range;
pub use crate::set::StrexSet;
