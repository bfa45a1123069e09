//! The compiled form of a set of patterns: words, the jobs attached to them,
//! and the chains those jobs drive. This file holds the data and the rules by
//! which a pattern tree is lowered into it.

use crate::hir::Hir;
use vstd::prelude::*;

verus! {

/// A position within a chain. A chain is at step 1 once its first part has
/// been seen.
#[derive(Debug, Clone, Copy, PartialEq, Eq, Hash, Structural)]
pub struct StepId(pub usize);

/// Names one chain of a compiled set.
#[derive(Debug, Clone, Copy, PartialEq, Eq, Hash, Structural)]
pub struct ChainId(pub usize);

/// Names one pattern of a set: its index in the sequence the set was
/// compiled from.
#[derive(Debug, Clone, Copy, PartialEq, Eq, Hash, Structural)]
pub struct StrexId(pub usize);

/// Names one distinct literal word of a compiled set.
#[derive(Debug, Clone, Copy, PartialEq, Eq, Hash, Structural)]
pub struct WordId(pub usize);

/// Why a batch of patterns was refused.
#[derive(Debug, Clone, Copy, PartialEq, Eq, Structural)]
pub enum CompileError {
    /// A source text is not in the grammar.
    ParseError,
    /// A pattern, an alternative or the head of a concatenation is a bare gap,
    /// or a concatenation has no parts: it would match anything.
    UnconditionalPattern,
    /// A literal without characters.
    EmptyLiteral,
    /// The literal matcher refused the word list.
    AutomatonBuildError,
}

/// What to do when a word is seen or a chain completes.
#[derive(Debug, Clone, Copy)]
#[allow(inconsistent_fields)]
pub enum WordJob {
    /// Report the pattern.
    DoMatch { id: StrexId },
    /// Put the chain at step 1, if the chain named in `pre_condition` (when
    /// there is one) is at the step given with it.
    StartChain { id: ChainId, pre_condition: Option<(ChainId, StepId)> },
    /// Move the chain from `step` to the step after it.
    StepChain { id: ChainId, step: StepId },
}

/// The state machine of one concatenation.
#[derive(Debug)]
pub struct Chain {
    /// The chains made for concatenations nested in this one.
    pub sub_chains: Vec<ChainId>,
    /// The step at which the chain is complete.
    pub final_step: StepId,
    /// The job to run when the chain completes.
    pub result: WordJob,
}

/// The mathematical form of a [`Chain`].
pub struct ChainSpec {
    pub sub_chains: Seq<ChainId>,
    pub final_step: StepId,
    pub result: WordJob,
}

impl View for Chain {
    type V = ChainSpec;

    open spec fn view(&self) -> ChainSpec {
        ChainSpec { sub_chains: self.sub_chains@, final_step: self.final_step, result: self.result }
    }
}

/// The mathematical forms of a list of chains.
pub open spec fn chain_views(chains: Seq<Chain>) -> Seq<ChainSpec> {
    Seq::new(chains.len(), |i: int| chains[i]@)
}

/// The contents of a list of job lists.
pub open spec fn job_lists(lists: Seq<Vec<WordJob>>) -> Seq<Seq<WordJob>> {
    Seq::new(lists.len(), |i: int| lists[i]@)
}

/// The mathematical form of a compiled set.
pub struct Program {
    /// How many patterns have been given an id.
    pub count: nat,
    pub chains: Seq<ChainSpec>,
    /// The distinct words; a `WordId` is an index into this list.
    pub words: Seq<Seq<char>>,
    /// For each word, its jobs in the order in which they were attached.
    pub word_jobs: Seq<Seq<WordJob>>,
}

/// The set without patterns.
pub open spec fn empty_program() -> Program {
    Program { count: 0, chains: Seq::empty(), words: Seq::empty(), word_jobs: Seq::empty() }
}

/// The chain that a job acts on, if it acts on one.
pub open spec fn job_chain(job: WordJob) -> Option<ChainId> {
    match job {
        WordJob::DoMatch { .. } => None,
        WordJob::StartChain { id, .. } => Some(id),
        WordJob::StepChain { id, .. } => Some(id),
    }
}

/// The chain that the job acts on, if any, is a chain of `p`.
pub open spec fn job_in(p: Program, job: WordJob) -> bool {
    job_chain(job) matches Some(id) ==> id.0 < p.chains.len()
}

/// A job refers only to what the program holds, and a step job names a step
/// that its chain passes through before it completes.
pub open spec fn job_ok(p: Program, job: WordJob) -> bool {
    match job {
        WordJob::DoMatch { id } => id.0 < p.count,
        WordJob::StartChain { id, pre_condition } => {
            &&& id.0 < p.chains.len()
            &&& pre_condition matches Some((parent, _)) ==> parent.0 < p.chains.len()
        },
        WordJob::StepChain { id, step } => {
            &&& id.0 < p.chains.len()
            &&& 1 <= step.0 < p.chains[id.0 as int].final_step.0
        },
    }
}

/// Chain `c` completes into a job on an earlier chain or into a match, and
/// its sub-chains are later chains.
pub open spec fn chain_ok(p: Program, c: int) -> bool {
    let chain = p.chains[c];
    &&& 1 <= chain.final_step.0
    &&& job_ok(p, chain.result)
    &&& job_chain(chain.result) matches Some(parent) ==> parent.0 < c
    &&& forall|k: int|
        0 <= k < chain.sub_chains.len() ==> c < (#[trigger] chain.sub_chains[k]).0
            < p.chains.len()
}

impl Program {
    /// The invariant of a compiled set: every word is listed once and is not
    /// empty, and every job and chain refers only to what exists.
    pub open spec fn wf(self) -> bool {
        &&& self.word_jobs.len() == self.words.len()
        &&& self.words.no_duplicates()
        &&& forall|w: int| 0 <= w < self.words.len() ==> (#[trigger] self.words[w]).len() > 0
        &&& forall|w: int, k: int|
            0 <= w < self.word_jobs.len() && 0 <= k < self.word_jobs[w].len() ==> job_ok(
                self,
                #[trigger] self.word_jobs[w][k],
            )
        &&& forall|c: int| 0 <= c < self.chains.len() ==> #[trigger] chain_ok(self, c)
    }

    /// Each word is listed once and has a job list.
    pub open spec fn words_ok(self) -> bool {
        self.word_jobs.len() == self.words.len() && self.words.no_duplicates()
    }

    /// `other` is this program after more lowering: nothing that was there
    /// has changed, lists have only grown at their ends, and no pattern id
    /// was handed out.
    pub open spec fn grows_to(self, other: Program) -> bool {
        &&& other.count == self.count
        &&& self.chains.len() <= other.chains.len()
        &&& forall|c: int|
            0 <= c < self.chains.len() ==> {
                &&& (#[trigger] other.chains[c]).final_step == self.chains[c].final_step
                &&& other.chains[c].result == self.chains[c].result
                &&& self.chains[c].sub_chains.is_prefix_of(other.chains[c].sub_chains)
            }
        &&& self.words.is_prefix_of(other.words)
        &&& self.word_jobs.len() <= other.word_jobs.len()
        &&& forall|w: int|
            0 <= w < self.word_jobs.len() ==> self.word_jobs[w].is_prefix_of(
                #[trigger] other.word_jobs[w],
            )
    }
}

/// The first index at which `w` stands in `words`, if it stands there.
pub open spec fn position(words: Seq<Seq<char>>, w: Seq<char>) -> Option<int>
    decreases words.len(),
{
    if words.len() == 0 {
        None
    } else {
        match position(words.drop_last(), w) {
            Some(i) => Some(i),
            None => if words.last() == w {
                Some(words.len() - 1)
            } else {
                None
            },
        }
    }
}

/// The program in which `w` has an id, and that id: the one it had, or a new
/// one at the end of the list, with no jobs yet.
pub open spec fn intern(p: Program, w: Seq<char>) -> (Program, int) {
    match position(p.words, w) {
        Some(i) => (p, i),
        None => (
            Program { words: p.words.push(w), word_jobs: p.word_jobs.push(Seq::empty()), ..p },
            p.words.len() as int,
        ),
    }
}

/// The program after `job` was put at the end of the job list of `w`.
pub open spec fn attach(p: Program, w: Seq<char>, job: WordJob) -> Program {
    let (q, id) = intern(p, w);
    Program { word_jobs: q.word_jobs.update(id, q.word_jobs[id].push(job)), ..q }
}

/// How many trees of `xs` are not the gap.
pub open spec fn count_non_wild(xs: Seq<Hir>) -> nat
    decreases xs.len(),
{
    if xs.len() == 0 {
        0
    } else {
        count_non_wild(xs.drop_first()) + if xs[0] is Wild {
            0nat
        } else {
            1nat
        }
    }
}

/// The program with one more chain, which completes into `result` after
/// `steps` steps past its start, and which is listed as a sub-chain of the
/// chain that `result` acts on. The chain is at step 1 once it has started,
/// so its final step is `steps + 1`.
pub open spec fn open_chain(p: Program, steps: nat, result: WordJob) -> Program {
    let id = ChainId(p.chains.len() as usize);
    let chain = ChainSpec {
        sub_chains: Seq::empty(),
        final_step: StepId((steps + 1) as usize),
        result,
    };
    let chains = p.chains.push(chain);
    match job_chain(result) {
        Some(parent) => {
            let old = chains[parent.0 as int];
            Program {
                chains: chains.update(
                    parent.0 as int,
                    ChainSpec { sub_chains: old.sub_chains.push(id), ..old },
                ),
                ..p
            }
        },
        None => Program { chains, ..p },
    }
}

/// The first reason for which a tree cannot be lowered, going through it
/// left to right; `None` for a tree that can.
pub open spec fn lower_error(h: Hir) -> Option<CompileError>
    decreases h,
{
    match h {
        Hir::Literal(w) => if w.len() == 0 {
            Some(CompileError::EmptyLiteral)
        } else {
            None
        },
        Hir::Or(xs) => lower_error_any(xs),
        Hir::Concat(xs) => if xs.len() == 0 {
            Some(CompileError::UnconditionalPattern)
        } else {
            match lower_error(xs[0]) {
                Some(e) => Some(e),
                None => lower_error_tail(xs.drop_first()),
            }
        },
        Hir::Wild => Some(CompileError::UnconditionalPattern),
    }
}

/// The first error among alternatives.
pub open spec fn lower_error_any(xs: Seq<Hir>) -> Option<CompileError>
    decreases xs,
{
    if xs.len() == 0 {
        None
    } else {
        match lower_error(xs[0]) {
            Some(e) => Some(e),
            None => lower_error_any(xs.drop_first()),
        }
    }
}

/// The first error among the parts of a concatenation after its head, where
/// a gap is in order.
pub open spec fn lower_error_tail(xs: Seq<Hir>) -> Option<CompileError>
    decreases xs,
{
    if xs.len() == 0 {
        None
    } else if xs[0] is Wild {
        lower_error_tail(xs.drop_first())
    } else {
        match lower_error(xs[0]) {
            Some(e) => Some(e),
            None => lower_error_tail(xs.drop_first()),
        }
    }
}

/// The program after the tree `h` was lowered into `p` with `result` as the
/// job to run when `h` has been seen.
///
/// A literal gets the job attached to its word. The alternatives of an
/// alternation are each lowered with the same job. A concatenation opens a
/// chain: its head starts the chain, each later part that is not a gap moves
/// it one step on, and the chain completes into `result`.
pub open spec fn lower(p: Program, h: Hir, result: WordJob) -> Program
    decreases h,
{
    match h {
        Hir::Literal(w) => attach(p, w, result),
        Hir::Or(xs) => lower_each(p, xs, result),
        Hir::Concat(xs) => if xs.len() == 0 {
            p
        } else {
            let id = ChainId(p.chains.len() as usize);
            let opened = open_chain(p, count_non_wild(xs.drop_first()), result);
            let started = lower(
                opened,
                xs[0],
                WordJob::StartChain { id, pre_condition: None },
            );
            lower_steps(started, xs.drop_first(), id, 1)
        },
        Hir::Wild => p,
    }
}

/// The program after each tree of `xs` was lowered with `result`, left to
/// right.
pub open spec fn lower_each(p: Program, xs: Seq<Hir>, result: WordJob) -> Program
    decreases xs,
{
    if xs.len() == 0 {
        p
    } else {
        lower_each(lower(p, xs[0], result), xs.drop_first(), result)
    }
}

/// The program after the parts `xs` of a concatenation were lowered as steps
/// of chain `id`, the first part that is not a gap as step `step`.
pub open spec fn lower_steps(p: Program, xs: Seq<Hir>, id: ChainId, step: nat) -> Program
    decreases xs,
{
    if xs.len() == 0 {
        p
    } else if xs[0] is Wild {
        lower_steps(p, xs.drop_first(), id, step)
    } else {
        lower_steps(
            lower(p, xs[0], WordJob::StepChain { id, step: StepId(step as usize) }),
            xs.drop_first(),
            id,
            step + 1,
        )
    }
}

/// The program after one more pattern was added: the pattern gets the next
/// id, and its tree is lowered to report that id.
pub open spec fn add_pattern(p: Program, h: Hir) -> Program {
    lower(
        Program { count: p.count + 1, ..p },
        h,
        WordJob::DoMatch { id: StrexId(p.count as usize) },
    )
}

} // verus!
