//! Lowering keeps a program well formed.

use crate::builder::{
    lemma_attach, lemma_count_non_wild_bound, lemma_grows_trans, lemma_next_id, lemma_open_chain,
};
use crate::hir::{tree_fits, Hir};
use crate::program::{
    add_pattern, count_non_wild, empty_program, job_ok, lower, lower_each, lower_error,
    lower_error_any, lower_error_tail, lower_steps, open_chain, ChainId, Program, StepId, StrexId,
    WordJob,
};
use crate::relocate::{
    aligned, lemma_lower_each_shape, lemma_lower_shape, lemma_lower_steps_shape,
    lemma_open_chain_jobs,
};
use vstd::prelude::*;

verus! {

/// Lowering a tree that can be lowered, with a valid job, into a well-formed
/// program gives a well-formed program in which nothing that was there has
/// changed.
pub proof fn lemma_lower_wf(p: Program, h: Hir, result: WordJob)
    requires
        p.wf(),
        lower_error(h) is None,
        tree_fits(h),
        job_ok(p, result),
        lower(p, h, result).chains.len() <= usize::MAX,
    ensures
        lower(p, h, result).wf(),
        p.grows_to(lower(p, h, result)),
    decreases h, 0int,
{
    match h {
        Hir::Literal(w) => {
            lemma_attach(p, w, result);
        },
        Hir::Or(xs) => {
            lemma_lower_each_wf(p, xs, result);
        },
        Hir::Concat(xs) => {
            let rest = xs.drop_first();
            let steps = count_non_wild(rest);
            let id = ChainId(p.chains.len() as usize);
            let opened = open_chain(p, steps, result);
            let start = WordJob::StartChain { id, pre_condition: None };
            let started = lower(opened, xs[0], start);
            lemma_count_non_wild_bound(rest);
            lemma_open_chain_jobs(p, steps, result);
            lemma_lower_shape(opened, xs[0], start);
            lemma_lower_steps_shape(started, rest, id, 1);
            lemma_open_chain(p, steps, result);
            lemma_lower_wf(opened, xs[0], start);
            assert forall|i: int| 0 <= i < rest.len() implies tree_fits(#[trigger] rest[i]) by {
                assert(rest[i] == xs[i + 1]);
            }
            lemma_lower_steps_wf(started, rest, id, 1);
            lemma_grows_trans(p, opened, started);
            lemma_grows_trans(p, started, lower_steps(started, rest, id, 1));
        },
        Hir::Wild => {},
    }
}

pub proof fn lemma_lower_each_wf(p: Program, xs: Seq<Hir>, result: WordJob)
    requires
        p.wf(),
        lower_error_any(xs) is None,
        forall|i: int| 0 <= i < xs.len() ==> tree_fits(#[trigger] xs[i]),
        job_ok(p, result),
        lower_each(p, xs, result).chains.len() <= usize::MAX,
    ensures
        lower_each(p, xs, result).wf(),
        p.grows_to(lower_each(p, xs, result)),
    decreases xs, 1int,
{
    if xs.len() > 0 {
        let next = lower(p, xs[0], result);
        let rest = xs.drop_first();
        lemma_lower_shape(p, xs[0], result);
        lemma_lower_each_shape(next, rest, result);
        lemma_lower_wf(p, xs[0], result);
        assert forall|i: int| 0 <= i < rest.len() implies tree_fits(#[trigger] rest[i]) by {
            assert(rest[i] == xs[i + 1]);
        }
        lemma_lower_each_wf(next, rest, result);
        lemma_grows_trans(p, next, lower_each(next, rest, result));
    }
}

pub proof fn lemma_lower_steps_wf(p: Program, xs: Seq<Hir>, id: ChainId, step: nat)
    requires
        p.wf(),
        lower_error_tail(xs) is None,
        forall|i: int| 0 <= i < xs.len() ==> tree_fits(#[trigger] xs[i]),
        id.0 < p.chains.len(),
        1 <= step,
        p.chains[id.0 as int].final_step.0 == step + count_non_wild(xs),
        lower_steps(p, xs, id, step).chains.len() <= usize::MAX,
    ensures
        lower_steps(p, xs, id, step).wf(),
        p.grows_to(lower_steps(p, xs, id, step)),
    decreases xs, 1int,
{
    if xs.len() > 0 {
        let rest = xs.drop_first();
        assert forall|i: int| 0 <= i < rest.len() implies tree_fits(#[trigger] rest[i]) by {
            assert(rest[i] == xs[i + 1]);
        }
        if xs[0] is Wild {
            lemma_lower_steps_wf(p, rest, id, step);
        } else {
            let job = WordJob::StepChain { id, step: StepId(step as usize) };
            let next = lower(p, xs[0], job);
            lemma_lower_shape(p, xs[0], job);
            lemma_lower_steps_shape(next, rest, id, step + 1);
            lemma_lower_wf(p, xs[0], job);
            lemma_lower_steps_wf(next, rest, id, step + 1);
            lemma_grows_trans(p, next, lower_steps(next, rest, id, step + 1));
        }
    }
}

/// The program of a list of trees: each tree is added as one pattern, in
/// order.
pub open spec fn program_of(trees: Seq<Hir>) -> Program
    decreases trees.len(),
{
    if trees.len() == 0 {
        empty_program()
    } else {
        add_pattern(program_of(trees.drop_last()), trees.last())
    }
}

/// The program of one pattern.
pub open spec fn single(h: Hir) -> Program {
    add_pattern(empty_program(), h)
}

/// Each tree of the list can be lowered and fits.
pub open spec fn trees_ok(trees: Seq<Hir>) -> bool {
    forall|k: int|
        0 <= k < trees.len() ==> lower_error(#[trigger] trees[k]) is None && tree_fits(trees[k])
}

/// The program with one more pattern id handed out.
pub open spec fn with_next_id(p: Program) -> Program {
    Program { count: p.count + 1, ..p }
}

/// Adding a pattern that can be lowered to a well-formed program gives a
/// well-formed program with one pattern more.
pub proof fn lemma_add_pattern_wf(p: Program, h: Hir)
    requires
        p.wf(),
        lower_error(h) is None,
        tree_fits(h),
        p.count < usize::MAX,
        add_pattern(p, h).chains.len() <= usize::MAX,
    ensures
        add_pattern(p, h).wf(),
        add_pattern(p, h).count == p.count + 1,
        p.chains.len() <= add_pattern(p, h).chains.len(),
        with_next_id(p).wf(),
{
    lemma_next_id(p);
    lemma_lower_wf(with_next_id(p), h, WordJob::DoMatch { id: StrexId(p.count as usize) });
}

/// The program of trees that can be lowered is well formed, has one pattern
/// for each tree, and so is the program of each shorter list of them.
pub proof fn lemma_program_of_wf(trees: Seq<Hir>)
    requires
        trees_ok(trees),
        trees.len() <= usize::MAX,
        program_of(trees).chains.len() <= usize::MAX,
    ensures
        program_of(trees).wf(),
        program_of(trees).count == trees.len(),
    decreases trees.len(),
{
    if trees.len() > 0 {
        let front = trees.drop_last();
        let before = program_of(front);
        assert(trees_ok(front)) by {
            assert forall|k: int| 0 <= k < front.len() implies lower_error(#[trigger] front[k])
                is None && tree_fits(front[k]) by {
                assert(front[k] == trees[k]);
            }
        }
        lemma_program_of_len(front);
        lemma_lower_shape(
            with_next_id(before),
            trees.last(),
            WordJob::DoMatch { id: StrexId(before.count as usize) },
        );
        lemma_program_of_wf(front);
        lemma_add_pattern_wf(before, trees.last());
    }
}

/// The program of a list of trees has a job list for each word.
pub proof fn lemma_program_of_len(trees: Seq<Hir>)
    ensures
        aligned(program_of(trees)),
    decreases trees.len(),
{
    if trees.len() > 0 {
        let before = program_of(trees.drop_last());
        lemma_program_of_len(trees.drop_last());
        lemma_lower_shape(
            with_next_id(before),
            trees.last(),
            WordJob::DoMatch { id: StrexId(before.count as usize) },
        );
    }
}

} // verus!
