//! The invariant of a scan: every live chain stands at a step from 1 on and
//! before its final step, in every state that a scan goes through.

use crate::machine::{select, 
    apply_job, apply_jobs, enter, job_rank, kill, kill_subs, run, state_ok, RunState,
};
use crate::program::{chain_ok, job_ok, ChainId, Program, WordJob};
use vstd::prelude::*;

verus! {

/// Every entry of `small` is an entry of `big`.
pub open spec fn within(small: Map<usize, usize>, big: Map<usize, usize>) -> bool {
    forall|c: usize| #[trigger]
        small.contains_key(c) ==> big.contains_key(c) && small[c] == big[c]
}

/// Killing a chain takes entries away and changes none.
pub proof fn lemma_kill_within(p: Program, states: Map<usize, usize>, c: usize)
    ensures
        within(kill(p, states, c), states),
        c < p.chains.len() ==> !kill(p, states, c).contains_key(c),
    decreases p.chains.len() - c, 1int, 0int,
{
    if c < p.chains.len() && states.contains_key(c) {
        lemma_kill_subs_within(p, states.remove(c), c, 0);
    }
}

/// Killing sub-chains takes entries away and changes none.
pub proof fn lemma_kill_subs_within(p: Program, states: Map<usize, usize>, c: usize, k: int)
    ensures
        within(kill_subs(p, states, c, k), states),
    decreases p.chains.len() - c, 0int, p.chains[c as int].sub_chains.len() - k,
{
    if c < p.chains.len() && 0 <= k < p.chains[c as int].sub_chains.len() {
        let sub = p.chains[c as int].sub_chains[k].0;
        let next = if c < sub < p.chains.len() {
            kill(p, states, sub)
        } else {
            states
        };
        if c < sub < p.chains.len() {
            lemma_kill_within(p, states, sub);
        }
        lemma_kill_subs_within(p, next, c, k + 1);
    }
}

/// A chain that gets to a step from 1 on and not past its final step leaves
/// the state in order.
pub proof fn lemma_enter_ok(p: Program, st: RunState, id: ChainId, step: usize)
    requires
        p.wf(),
        state_ok(p, st),
        id.0 < p.chains.len(),
        1 <= step <= p.chains[id.0 as int].final_step.0,
    ensures
        state_ok(p, enter(p, st, id, step)),
    decreases id.0 + 1, 0int,
{
    assert(chain_ok(p, id.0 as int));
    if step == p.chains[id.0 as int].final_step.0 {
        let entered = st.states.insert(id.0, step);
        lemma_kill_within(p, entered, id.0);
        let retired = RunState { states: kill(p, entered, id.0), ..st };
        assert(state_ok(p, retired)) by {
            assert forall|c: usize| #[trigger] retired.states.contains_key(c) implies c
                < p.chains.len() && 1 <= retired.states[c] < p.chains[c as int].final_step.0 by {
                assert(entered.contains_key(c));
                assert(c != id.0);
                assert(st.states.contains_key(c));
            }
        }
        let result = p.chains[id.0 as int].result;
        if job_rank(result) <= id.0 {
            lemma_apply_job_ok(p, retired, result);
        }
    }
}

/// A valid job leaves the state in order.
pub proof fn lemma_apply_job_ok(p: Program, st: RunState, job: WordJob)
    requires
        p.wf(),
        state_ok(p, st),
        job_ok(p, job),
    ensures
        state_ok(p, apply_job(p, st, job)),
    decreases job_rank(job), 1int,
{
    match job {
        WordJob::DoMatch { id } => {},
        WordJob::StartChain { id, pre_condition } => {
            assert(chain_ok(p, id.0 as int));
            lemma_enter_ok(p, st, id, 1);
        },
        WordJob::StepChain { id, step } => {
            if st.states.contains_key(id.0) && st.states[id.0] == step.0 {
                lemma_enter_ok(p, st, id, (step.0 + 1) as usize);
            }
        },
    }
}

/// The jobs of a word leave the state in order.
pub proof fn lemma_apply_jobs_ok(p: Program, st: RunState, jobs: Seq<WordJob>)
    requires
        p.wf(),
        state_ok(p, st),
        forall|k: int| 0 <= k < jobs.len() ==> job_ok(p, #[trigger] jobs[k]),
    ensures
        state_ok(p, apply_jobs(p, st, jobs)),
    decreases jobs.len(),
{
    if jobs.len() > 0 {
        lemma_apply_job_ok(p, st, jobs.last());
        let rest = jobs.drop_last();
        assert forall|k: int| 0 <= k < rest.len() implies job_ok(p, #[trigger] rest[k]) by {
            assert(rest[k] == jobs[k]);
        }
        lemma_apply_jobs_ok(p, apply_job(p, st, jobs.last()), rest);
    }
}

/// Each job that is selected from a list of valid jobs is valid.
pub proof fn lemma_select_ok(p: Program, jobs: Seq<WordJob>, starting: bool)
    requires
        forall|k: int| 0 <= k < jobs.len() ==> job_ok(p, #[trigger] jobs[k]),
    ensures
        forall|k: int|
            0 <= k < select(jobs, starting).len() ==> job_ok(
                p,
                #[trigger] select(jobs, starting)[k],
            ),
    decreases jobs.len(),
{
    if jobs.len() > 0 {
        let rest = jobs.drop_last();
        assert forall|k: int| 0 <= k < rest.len() implies job_ok(p, #[trigger] rest[k]) by {
            assert(rest[k] == jobs[k]);
        }
        lemma_select_ok(p, rest, starting);
        assert(job_ok(p, jobs[jobs.len() - 1]));
        let all = select(jobs, starting);
        let before = select(rest, starting);
        assert forall|k: int| 0 <= k < all.len() implies job_ok(p, #[trigger] all[k]) by {
            if k < before.len() {
                assert(all[k] == before[k]);
            }
        }
    }
}

/// A scan of a well-formed program keeps its state in order: whatever words
/// it sees, every live chain stands at a step from 1 on and before its final
/// step, and only patterns of the program are reported.
pub proof fn lemma_run_ok(p: Program, st: RunState, stream: Seq<(usize, bool)>)
    requires
        p.wf(),
        state_ok(p, st),
    ensures
        state_ok(p, run(p, st, stream)),
    decreases stream.len(),
{
    if stream.len() > 0 {
        let (w, starting) = stream[0];
        if w < p.word_jobs.len() {
            let all = p.word_jobs[w as int];
            assert forall|k: int| 0 <= k < all.len() implies job_ok(p, #[trigger] all[k]) by {
                assert(job_ok(p, p.word_jobs[w as int][k]));
            }
            lemma_select_ok(p, all, starting);
            lemma_apply_jobs_ok(p, st, select(all, starting));
        }
        let next = if w < p.word_jobs.len() {
            apply_jobs(p, st, select(p.word_jobs[w as int], starting))
        } else {
            st
        };
        lemma_run_ok(p, next, stream.drop_first());
    }
}

} // verus!
