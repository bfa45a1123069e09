//! Lowering a tree into a program that is made of two parts adds to the
//! high part what lowering the tree into the high part alone would add.

use crate::builder::lemma_position;
use crate::hir::Hir;
use crate::parts::{jobs_of, joined, shift_chain, shift_id, shift_job, shift_jobs};
use crate::program::{
    attach, count_non_wild, intern, job_chain, job_in, lower, lower_each, lower_steps, open_chain,
    position, ChainId, ChainSpec, Program, StepId, WordJob,
};
use vstd::prelude::*;

verus! {

/// Each word has a job list.
pub open spec fn aligned(p: Program) -> bool {
    p.word_jobs.len() == p.words.len()
}

/// `q` has the pattern count of `p`, a job list for each word, and no fewer
/// chains than `p`.
pub open spec fn shaped_like(p: Program, q: Program) -> bool {
    q.count == p.count && aligned(q) && p.chains.len() <= q.chains.len()
}

proof fn lemma_position_push(words: Seq<Seq<char>>, w: Seq<char>, t: Seq<char>)
    ensures
        position(words.push(w), t) == match position(words, t) {
            Some(i) => Some(i),
            None => if w == t {
                Some(words.len() as int)
            } else {
                None
            },
        },
{
    assert(words.push(w).drop_last() =~= words);
}

/// Attaching a job adds it to the jobs of the word and changes nothing else.
pub proof fn lemma_attach_jobs(p: Program, w: Seq<char>, job: WordJob)
    requires
        aligned(p),
    ensures
        shaped_like(p, attach(p, w, job)),
        attach(p, w, job).chains == p.chains,
        forall|t: Seq<char>| #[trigger]
            jobs_of(attach(p, w, job), t) == if t == w {
                jobs_of(p, w).push(job)
            } else {
                jobs_of(p, t)
            },
{
    let (q, id) = intern(p, w);
    let r = attach(p, w, job);
    lemma_position(p.words, w);
    assert forall|t: Seq<char>| #[trigger]
        jobs_of(r, t) == if t == w {
            jobs_of(p, w).push(job)
        } else {
            jobs_of(p, t)
        } by {
        lemma_position(p.words, t);
        if position(p.words, w) is None {
            lemma_position_push(p.words, w, t);
        }
    }
}

/// Opening a chain adds one chain and changes no job.
pub proof fn lemma_open_chain_jobs(p: Program, steps: nat, result: WordJob)
    requires
        aligned(p),
        job_in(p, result),
    ensures
        shaped_like(p, open_chain(p, steps, result)),
        open_chain(p, steps, result).chains.len() == p.chains.len() + 1,
        forall|t: Seq<char>| #[trigger]
            jobs_of(open_chain(p, steps, result), t) == jobs_of(p, t),
{
}

/// Lowering keeps the pattern count, keeps a job list for each word, and
/// takes no chain away.
pub proof fn lemma_lower_shape(p: Program, h: Hir, result: WordJob)
    requires
        aligned(p),
        job_in(p, result),
    ensures
        shaped_like(p, lower(p, h, result)),
    decreases h, 0int,
{
    match h {
        Hir::Literal(w) => {
            lemma_attach_jobs(p, w, result);
        },
        Hir::Or(xs) => {
            lemma_lower_each_shape(p, xs, result);
        },
        Hir::Concat(xs) => {
            if xs.len() > 0 {
                let id = ChainId(p.chains.len() as usize);
                let opened = open_chain(p, count_non_wild(xs.drop_first()), result);
                lemma_open_chain_jobs(p, count_non_wild(xs.drop_first()), result);
                let start = WordJob::StartChain { id, pre_condition: None };
                lemma_lower_shape(opened, xs[0], start);
                lemma_lower_steps_shape(lower(opened, xs[0], start), xs.drop_first(), id, 1);
            }
        },
        Hir::Wild => {},
    }
}

pub proof fn lemma_lower_each_shape(p: Program, xs: Seq<Hir>, result: WordJob)
    requires
        aligned(p),
        job_in(p, result),
    ensures
        shaped_like(p, lower_each(p, xs, result)),
    decreases xs, 1int,
{
    if xs.len() > 0 {
        lemma_lower_shape(p, xs[0], result);
        lemma_lower_each_shape(lower(p, xs[0], result), xs.drop_first(), result);
    }
}

pub proof fn lemma_lower_steps_shape(p: Program, xs: Seq<Hir>, id: ChainId, step: nat)
    requires
        aligned(p),
        id.0 < p.chains.len(),
    ensures
        shaped_like(p, lower_steps(p, xs, id, step)),
    decreases xs, 1int,
{
    if xs.len() > 0 {
        if xs[0] is Wild {
            lemma_lower_steps_shape(p, xs.drop_first(), id, step);
        } else {
            let job = WordJob::StepChain { id, step: StepId(step as usize) };
            lemma_lower_shape(p, xs[0], job);
            lemma_lower_steps_shape(lower(p, xs[0], job), xs.drop_first(), id, step + 1);
        }
    }
}

/// What a lowering step of the two programs starts from: the whole is made
/// of the low part and the high part, each word of each has a job list, and
/// the job given to the whole is the job given to the high part, moved up.
pub open spec fn paired(p: Program, low: Program, high: Program, c: nat) -> bool {
    joined(p, low, high, c) && aligned(p) && aligned(high)
}

proof fn lemma_attach_paired(
    p: Program,
    low: Program,
    high: Program,
    c: nat,
    w: Seq<char>,
    job: WordJob,
)
    requires
        paired(p, low, high, c),
    ensures
        paired(
            attach(p, w, shift_job(job, low.chains.len(), c)),
            low,
            attach(high, w, job),
            c,
        ),
{
    let a = low.chains.len();
    let moved = shift_job(job, a, c);
    let p2 = attach(p, w, moved);
    let h2 = attach(high, w, job);
    lemma_attach_jobs(p, w, moved);
    lemma_attach_jobs(high, w, job);
    assert forall|t: Seq<char>| #[trigger]
        jobs_of(p2, t) == jobs_of(low, t) + shift_jobs(jobs_of(h2, t), a, c) by {
        assert(jobs_of(p, t) == jobs_of(low, t) + shift_jobs(jobs_of(high, t), a, c));
        if t == w {
            assert(jobs_of(p, w).push(moved) =~= jobs_of(low, w) + shift_jobs(
                jobs_of(high, w).push(job),
                a,
                c,
            ));
        }
    }
    assert forall|i: int| 0 <= i < h2.chains.len() implies p2.chains[a + i] == shift_chain(
        #[trigger] h2.chains[i],
        a,
        c,
    ) by {
        assert(p.chains[a + i] == shift_chain(high.chains[i], a, c));
    }
}

proof fn lemma_open_chain_paired(
    p: Program,
    low: Program,
    high: Program,
    c: nat,
    steps: nat,
    result: WordJob,
)
    requires
        paired(p, low, high, c),
        job_in(high, result),
        p.chains.len() < usize::MAX,
    ensures
        paired(
            open_chain(p, steps, shift_job(result, low.chains.len(), c)),
            low,
            open_chain(high, steps, result),
            c,
        ),
        open_chain(high, steps, result).chains.len() == high.chains.len() + 1,
{
    let a = low.chains.len();
    let moved = shift_job(result, a, c);
    let p2 = open_chain(p, steps, moved);
    let h2 = open_chain(high, steps, result);
    lemma_open_chain_jobs(p, steps, moved);
    lemma_open_chain_jobs(high, steps, result);
    let id_h = ChainId(high.chains.len() as usize);
    let id_p = ChainId(p.chains.len() as usize);
    assert(id_p == shift_id(id_h, a));
    let new_h = ChainSpec {
        sub_chains: Seq::empty(),
        final_step: StepId((steps + 1) as usize),
        result,
    };
    let new_p = ChainSpec {
        sub_chains: Seq::empty(),
        final_step: StepId((steps + 1) as usize),
        result: moved,
    };
    assert(shift_chain(new_h, a, c).sub_chains =~= new_p.sub_chains);
    assert(shift_chain(new_h, a, c) == new_p);
    assert forall|i: int| 0 <= i < a implies #[trigger] p2.chains[i] == low.chains[i] by {
        assert(p.chains[i] == low.chains[i]);
    }
    assert forall|i: int| 0 <= i < h2.chains.len() implies p2.chains[a + i] == shift_chain(
        #[trigger] h2.chains[i],
        a,
        c,
    ) by {
        if i < high.chains.len() {
            assert(p.chains[a + i] == shift_chain(high.chains[i], a, c));
        }
        match job_chain(result) {
            Some(parent) => {
                if i == parent.0 {
                    let old_h = high.chains.push(new_h)[i];
                    let old_p = p.chains.push(new_p)[a + i];
                    assert(old_p == shift_chain(old_h, a, c));
                    assert(shift_chain(h2.chains[i], a, c).sub_chains =~= old_p.sub_chains.push(
                        id_p,
                    ));
                }
            },
            None => {},
        }
    }
    assert forall|t: Seq<char>| #[trigger]
        jobs_of(p2, t) == jobs_of(low, t) + shift_jobs(jobs_of(h2, t), a, c) by {
        assert(jobs_of(p, t) == jobs_of(low, t) + shift_jobs(jobs_of(high, t), a, c));
    }
}

/// Lowering a tree into the whole and into the high part keeps the whole
/// made of the low part and the high part.
pub proof fn lemma_lower_paired(
    p: Program,
    low: Program,
    high: Program,
    c: nat,
    h: Hir,
    result: WordJob,
)
    requires
        paired(p, low, high, c),
        job_in(high, result),
        lower(p, h, shift_job(result, low.chains.len(), c)).chains.len() <= usize::MAX,
    ensures
        paired(
            lower(p, h, shift_job(result, low.chains.len(), c)),
            low,
            lower(high, h, result),
            c,
        ),
    decreases h, 0int,
{
    let a = low.chains.len();
    let moved = shift_job(result, a, c);
    match h {
        Hir::Literal(w) => {
            lemma_attach_paired(p, low, high, c, w, result);
        },
        Hir::Or(xs) => {
            lemma_lower_each_paired(p, low, high, c, xs, result);
        },
        Hir::Concat(xs) => {
            if xs.len() > 0 {
                let steps = count_non_wild(xs.drop_first());
                let id_h = ChainId(high.chains.len() as usize);
                let id_p = ChainId(p.chains.len() as usize);
                let opened_p = open_chain(p, steps, moved);
                let opened_h = open_chain(high, steps, result);
                let start_h = WordJob::StartChain { id: id_h, pre_condition: None };
                let start_p = WordJob::StartChain { id: id_p, pre_condition: None };
                let started_p = lower(opened_p, xs[0], start_p);
                let started_h = lower(opened_h, xs[0], start_h);
                // nothing takes chains away, so the chain that is opened fits
                lemma_open_chain_jobs(p, steps, moved);
                lemma_lower_shape(opened_p, xs[0], start_p);
                lemma_lower_steps_shape(started_p, xs.drop_first(), id_p, 1);
                lemma_open_chain_paired(p, low, high, c, steps, result);
                assert(start_p == shift_job(start_h, a, c));
                lemma_lower_paired(opened_p, low, opened_h, c, xs[0], start_h);
                lemma_open_chain_jobs(high, steps, result);
                lemma_lower_shape(opened_h, xs[0], start_h);
                lemma_lower_steps_paired(
                    started_p,
                    low,
                    started_h,
                    c,
                    xs.drop_first(),
                    id_h,
                    1,
                );
            }
        },
        Hir::Wild => {},
    }
}

pub proof fn lemma_lower_each_paired(
    p: Program,
    low: Program,
    high: Program,
    c: nat,
    xs: Seq<Hir>,
    result: WordJob,
)
    requires
        paired(p, low, high, c),
        job_in(high, result),
        lower_each(p, xs, shift_job(result, low.chains.len(), c)).chains.len() <= usize::MAX,
    ensures
        paired(
            lower_each(p, xs, shift_job(result, low.chains.len(), c)),
            low,
            lower_each(high, xs, result),
            c,
        ),
    decreases xs, 1int,
{
    let a = low.chains.len();
    let moved = shift_job(result, a, c);
    if xs.len() > 0 {
        let p2 = lower(p, xs[0], moved);
        lemma_lower_shape(p, xs[0], moved);
        lemma_lower_each_shape(p2, xs.drop_first(), moved);
        lemma_lower_paired(p, low, high, c, xs[0], result);
        lemma_lower_shape(high, xs[0], result);
        lemma_lower_each_paired(p2, low, lower(high, xs[0], result), c, xs.drop_first(), result);
    }
}

pub proof fn lemma_lower_steps_paired(
    p: Program,
    low: Program,
    high: Program,
    c: nat,
    xs: Seq<Hir>,
    id: ChainId,
    step: nat,
)
    requires
        paired(p, low, high, c),
        id.0 < high.chains.len(),
        lower_steps(p, xs, shift_id(id, low.chains.len()), step).chains.len() <= usize::MAX,
    ensures
        paired(
            lower_steps(p, xs, shift_id(id, low.chains.len()), step),
            low,
            lower_steps(high, xs, id, step),
            c,
        ),
    decreases xs, 1int,
{
    let a = low.chains.len();
    if xs.len() > 0 {
        if xs[0] is Wild {
            lemma_lower_steps_paired(p, low, high, c, xs.drop_first(), id, step);
        } else {
            let job_h = WordJob::StepChain { id, step: StepId(step as usize) };
            let job_p = WordJob::StepChain { id: shift_id(id, a), step: StepId(step as usize) };
            assert(job_p == shift_job(job_h, a, c));
            let p2 = lower(p, xs[0], job_p);
            lemma_lower_shape(p, xs[0], job_p);
            lemma_lower_steps_shape(p2, xs.drop_first(), shift_id(id, a), step + 1);
            lemma_lower_paired(p, low, high, c, xs[0], job_h);
            lemma_lower_shape(high, xs[0], job_h);
            lemma_lower_steps_paired(
                p2,
                low,
                lower(high, xs[0], job_h),
                c,
                xs.drop_first(),
                id,
                step + 1,
            );
        }
    }
}

} // verus!
