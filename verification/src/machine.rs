//! What a scan does: the state of the chains, and how the jobs of the words
//! that are seen change it.

use crate::program::{job_chain, ChainId, Program, WordJob};
use vstd::prelude::*;

verus! {

/// The state of one scan.
pub struct RunState {
    /// The live chains, each with the step it is at. A chain that is not in
    /// the map is not active.
    pub states: Map<usize, usize>,
    /// The patterns reported so far.
    pub matches: Set<usize>,
}

/// The state in which a scan starts: no chain is live, nothing has matched.
pub open spec fn initial_state() -> RunState {
    RunState { states: Map::empty(), matches: Set::empty() }
}

/// A number that gets smaller from a chain to the job it completes into.
pub open spec fn job_rank(job: WordJob) -> nat {
    match job_chain(job) {
        Some(id) => (id.0 + 1) as nat,
        None => 0,
    }
}

/// The live chains after chain `c` was killed: a chain that is not live is
/// left alone; a live one is taken out, and then each of its sub-chains is
/// killed in turn.
pub open spec fn kill(p: Program, states: Map<usize, usize>, c: usize) -> Map<usize, usize>
    decreases p.chains.len() - c, 1int, 0int,
{
    if c < p.chains.len() && states.contains_key(c) {
        kill_subs(p, states.remove(c), c, 0)
    } else {
        states
    }
}

/// The live chains after the sub-chains of `c` from the `k`-th on were
/// killed.
pub open spec fn kill_subs(p: Program, states: Map<usize, usize>, c: usize, k: int) -> Map<
    usize,
    usize,
>
    decreases p.chains.len() - c, 0int, p.chains[c as int].sub_chains.len() - k,
{
    if c < p.chains.len() && 0 <= k < p.chains[c as int].sub_chains.len() {
        let sub = p.chains[c as int].sub_chains[k].0;
        let next = if c < sub < p.chains.len() {
            kill(p, states, sub)
        } else {
            states
        };
        kill_subs(p, next, c, k + 1)
    } else {
        states
    }
}

/// The state after `job` was run.
///
/// A match job reports its pattern. A start job puts its chain at step 1,
/// whatever step it was at, unless its pre-condition names a chain that is
/// not at the step given. A step job moves its chain one step on if the
/// chain is at the step that the job names, and does nothing otherwise.
pub open spec fn apply_job(p: Program, st: RunState, job: WordJob) -> RunState
    decreases job_rank(job), 1int,
{
    match job {
        WordJob::DoMatch { id } => RunState { matches: st.matches.insert(id.0), ..st },
        WordJob::StartChain { id, pre_condition } => {
            let ready = match pre_condition {
                Some((parent, step)) => st.states.contains_key(parent.0) && st.states[parent.0]
                    == step.0,
                None => true,
            };
            if ready {
                enter(p, st, id, 1)
            } else {
                st
            }
        },
        WordJob::StepChain { id, step } => if st.states.contains_key(id.0) && st.states[id.0]
            == step.0 && step.0 < usize::MAX {
            enter(p, st, id, (step.0 + 1) as usize)
        } else {
            st
        },
    }
}

/// The state after chain `id` got to `step`. At its final step the chain is
/// retired: it is killed, and the job it completes into is run on the state
/// that this leaves. At any other step the step is recorded.
pub open spec fn enter(p: Program, st: RunState, id: ChainId, step: usize) -> RunState
    decreases id.0 + 1, 0int,
{
    if id.0 < p.chains.len() && step == p.chains[id.0 as int].final_step.0 {
        let retired = RunState { states: kill(p, st.states.insert(id.0, step), id.0), ..st };
        let result = p.chains[id.0 as int].result;
        if job_rank(result) <= id.0 {
            apply_job(p, retired, result)
        } else {
            retired
        }
    } else {
        RunState { states: st.states.insert(id.0, step), ..st }
    }
}

/// The state after the jobs of one word were run, the job attached last
/// first. A pattern attaches its jobs from left to right, so of two jobs
/// that one pattern has on one word the one that stands further along in the
/// pattern runs first, and one occurrence of a word never serves as two
/// parts of a pattern: the second `a` of `aba` completes `a.*b.*a` before it
/// starts it again, and one `bb` is not both the second and the third part
/// of `aab.*bb.*bb`.
pub open spec fn apply_jobs(p: Program, st: RunState, jobs: Seq<WordJob>) -> RunState
    decreases jobs.len(),
{
    if jobs.len() == 0 {
        st
    } else {
        apply_jobs(p, apply_job(p, st, jobs.last()), jobs.drop_last())
    }
}

/// The job starts a chain.
pub open spec fn starts(job: WordJob) -> bool {
    job is StartChain
}

/// The jobs of the list that start a chain, or those that do not, in the
/// order of the list.
pub open spec fn select(jobs: Seq<WordJob>, starting: bool) -> Seq<WordJob>
    decreases jobs.len(),
{
    if jobs.len() == 0 {
        Seq::empty()
    } else if starts(jobs.last()) == starting {
        select(jobs.drop_last(), starting).push(jobs.last())
    } else {
        select(jobs.drop_last(), starting)
    }
}

/// The state after the entries of `stream` were seen in order. An entry
/// names a word and tells which of its jobs run: those that start a chain,
/// or the others. A number that names no word changes nothing.
///
/// A scan sees each word that starts at an offset twice: first all those
/// words for their jobs that move a chain on or report a pattern, then all
/// of them for their jobs that start a chain. So a chain that a word starts
/// is moved on only by a word that starts at a later offset.
pub open spec fn run(p: Program, st: RunState, stream: Seq<(usize, bool)>) -> RunState
    decreases stream.len(),
{
    if stream.len() == 0 {
        st
    } else {
        let (w, starting) = stream[0];
        let next = if w < p.word_jobs.len() {
            apply_jobs(p, st, select(p.word_jobs[w as int], starting))
        } else {
            st
        };
        run(p, next, stream.drop_first())
    }
}

/// A list of words as entries of a stream, all for their starting jobs or
/// all for the others.
pub open spec fn half(ws: Seq<usize>, starting: bool) -> Seq<(usize, bool)> {
    Seq::new(ws.len(), |i: int| (ws[i], starting))
}

/// Every live chain exists and stands at a step from 1 on and before its
/// final step, and every reported pattern exists.
pub open spec fn state_ok(p: Program, st: RunState) -> bool {
    &&& forall|c: usize| #[trigger]
        st.states.contains_key(c) ==> c < p.chains.len() && 1 <= st.states[c]
            < p.chains[c as int].final_step.0
    &&& forall|m: usize| #[trigger] st.matches.contains(m) ==> m < p.count
}

} // verus!
