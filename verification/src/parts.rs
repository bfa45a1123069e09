//! A program made of two parts that do not touch each other: a low part,
//! whose chains come first, and a high part, whose chains follow and whose
//! pattern ids are moved up by a fixed amount. A scan of the whole is the
//! two scans of the parts side by side.

use crate::machine::{apply_job, apply_jobs, enter, job_rank, kill, kill_subs, state_ok, RunState};
use crate::program::{chain_ok, job_ok, position, ChainId, ChainSpec, Program, StrexId, WordJob};
use crate::steady::{lemma_apply_job_ok, lemma_kill_within};
use vstd::prelude::*;

verus! {

/// The chain id moved up by `a`.
pub open spec fn shift_id(id: ChainId, a: nat) -> ChainId {
    ChainId((id.0 + a) as usize)
}

/// The job with its chain moved up by `a` and its pattern moved up by `c`.
pub open spec fn shift_job(job: WordJob, a: nat, c: nat) -> WordJob {
    match job {
        WordJob::DoMatch { id } => WordJob::DoMatch { id: StrexId((id.0 + c) as usize) },
        WordJob::StartChain { id, pre_condition } => WordJob::StartChain {
            id: shift_id(id, a),
            pre_condition: match pre_condition {
                Some((parent, step)) => Some((shift_id(parent, a), step)),
                None => None,
            },
        },
        WordJob::StepChain { id, step } => WordJob::StepChain { id: shift_id(id, a), step },
    }
}

/// Each job of the list moved up.
pub open spec fn shift_jobs(jobs: Seq<WordJob>, a: nat, c: nat) -> Seq<WordJob> {
    Seq::new(jobs.len(), |i: int| shift_job(jobs[i], a, c))
}

/// The chain with all that it names moved up.
pub open spec fn shift_chain(chain: ChainSpec, a: nat, c: nat) -> ChainSpec {
    ChainSpec {
        sub_chains: Seq::new(chain.sub_chains.len(), |i: int| shift_id(chain.sub_chains[i], a)),
        final_step: chain.final_step,
        result: shift_job(chain.result, a, c),
    }
}

/// The jobs that a program has for the word `t`; none where it does not hold
/// the word.
pub open spec fn jobs_of(p: Program, t: Seq<char>) -> Seq<WordJob> {
    match position(p.words, t) {
        Some(w) => p.word_jobs[w],
        None => Seq::empty(),
    }
}

/// `p` is made of `low` and, moved up by the number of chains of `low` and
/// by `c` patterns, of `high`: its chains are those of `low` and then those
/// of `high`, and for each word its jobs are those of `low` and then those of
/// `high`.
pub open spec fn joined(p: Program, low: Program, high: Program, c: nat) -> bool {
    let a = low.chains.len();
    &&& p.chains.len() == a + high.chains.len()
    &&& p.chains.len() <= usize::MAX
    &&& p.count <= usize::MAX
    &&& low.count <= p.count
    &&& c + high.count <= p.count
    &&& forall|i: int| 0 <= i < a ==> #[trigger] p.chains[i] == low.chains[i]
    &&& forall|i: int|
        0 <= i < high.chains.len() ==> p.chains[a + i] == shift_chain(
            #[trigger] high.chains[i],
            a,
            c,
        )
    &&& forall|t: Seq<char>| #[trigger]
        jobs_of(p, t) == jobs_of(low, t) + shift_jobs(jobs_of(high, t), a, c)
}

/// The live chains of the whole: those of the low part, and those of the
/// high part moved up by `a`.
pub open spec fn join_states(sl: Map<usize, usize>, sh: Map<usize, usize>, a: nat) -> Map<
    usize,
    usize,
> {
    Map::new(
        |k: usize|
            if k < a {
                sl.contains_key(k)
            } else {
                sh.contains_key((k - a) as usize)
            },
        |k: usize|
            if k < a {
                sl[k]
            } else {
                sh[(k - a) as usize]
            },
    )
}

/// The patterns reported by the whole: those of the low part, and those of
/// the high part moved up by `c`.
pub open spec fn join_matches(ml: Set<usize>, mh: Set<usize>, c: nat) -> Set<usize> {
    Set::new(|m: usize| ml.contains(m) || (m >= c && mh.contains((m - c) as usize)))
}

/// The state of the whole, given those of the parts.
pub open spec fn join(sl: RunState, sh: RunState, a: nat, c: nat) -> RunState {
    RunState {
        states: join_states(sl.states, sh.states, a),
        matches: join_matches(sl.matches, sh.matches, c),
    }
}

/// Killing a chain of the high part in the whole kills it in the high part.
proof fn lemma_kill_high(
    p: Program,
    low: Program,
    high: Program,
    c: nat,
    sl: Map<usize, usize>,
    sh: Map<usize, usize>,
    x: usize,
)
    requires
        joined(p, low, high, c),
        high.wf(),
        x < high.chains.len(),
        forall|k: usize| #[trigger] sh.contains_key(k) ==> k < high.chains.len(),
    ensures
        kill(p, join_states(sl, sh, low.chains.len()), (x + low.chains.len()) as usize)
            == join_states(sl, kill(high, sh, x), low.chains.len()),
    decreases high.chains.len() - x, 1int, 0int,
{
    let a = low.chains.len();
    let xa = (x + a) as usize;
    let whole = join_states(sl, sh, a);
    assert(whole.contains_key(xa) == sh.contains_key(x));
    if sh.contains_key(x) {
        assert(whole.remove(xa) =~= join_states(sl, sh.remove(x), a));
        lemma_kill_subs_high(p, low, high, c, sl, sh.remove(x), x, 0);
    }
}

proof fn lemma_kill_subs_high(
    p: Program,
    low: Program,
    high: Program,
    c: nat,
    sl: Map<usize, usize>,
    sh: Map<usize, usize>,
    x: usize,
    k: int,
)
    requires
        joined(p, low, high, c),
        high.wf(),
        x < high.chains.len(),
        0 <= k,
        forall|k: usize| #[trigger] sh.contains_key(k) ==> k < high.chains.len(),
    ensures
        kill_subs(p, join_states(sl, sh, low.chains.len()), (x + low.chains.len()) as usize, k)
            == join_states(sl, kill_subs(high, sh, x, k), low.chains.len()),
    decreases high.chains.len() - x, 0int, high.chains[x as int].sub_chains.len() - k,
{
    let a = low.chains.len();
    let xa = (x + a) as usize;
    let subs = high.chains[x as int].sub_chains;
    assert(p.chains[a + x] == shift_chain(high.chains[x as int], a, c));
    assert(p.chains[xa as int].sub_chains.len() == subs.len());
    if k < subs.len() {
        assert(chain_ok(high, x as int));
        let sub = subs[k].0;
        assert(p.chains[xa as int].sub_chains[k] == shift_id(subs[k], a));
        let sub_a = (sub + a) as usize;
        assert(x < sub < high.chains.len());
        lemma_kill_high(p, low, high, c, sl, sh, sub);
        lemma_kill_within(high, sh, sub);
        lemma_kill_subs_high(p, low, high, c, sl, kill(high, sh, sub), x, k + 1);
    }
}

/// Killing a chain of the low part in the whole kills it in the low part.
proof fn lemma_kill_low(
    p: Program,
    low: Program,
    high: Program,
    c: nat,
    sl: Map<usize, usize>,
    sh: Map<usize, usize>,
    x: usize,
)
    requires
        joined(p, low, high, c),
        low.wf(),
        x < low.chains.len(),
    ensures
        kill(p, join_states(sl, sh, low.chains.len()), x) == join_states(
            kill(low, sl, x),
            sh,
            low.chains.len(),
        ),
    decreases low.chains.len() - x, 1int, 0int,
{
    let a = low.chains.len();
    let whole = join_states(sl, sh, a);
    assert(whole.contains_key(x) == sl.contains_key(x));
    if sl.contains_key(x) {
        assert(whole.remove(x) =~= join_states(sl.remove(x), sh, a));
        lemma_kill_subs_low(p, low, high, c, sl.remove(x), sh, x, 0);
    }
}

proof fn lemma_kill_subs_low(
    p: Program,
    low: Program,
    high: Program,
    c: nat,
    sl: Map<usize, usize>,
    sh: Map<usize, usize>,
    x: usize,
    k: int,
)
    requires
        joined(p, low, high, c),
        low.wf(),
        x < low.chains.len(),
        0 <= k,
    ensures
        kill_subs(p, join_states(sl, sh, low.chains.len()), x, k) == join_states(
            kill_subs(low, sl, x, k),
            sh,
            low.chains.len(),
        ),
    decreases low.chains.len() - x, 0int, low.chains[x as int].sub_chains.len() - k,
{
    let subs = low.chains[x as int].sub_chains;
    assert(p.chains[x as int] == low.chains[x as int]);
    if k < subs.len() {
        assert(chain_ok(low, x as int));
        let sub = subs[k].0;
        assert(x < sub < low.chains.len());
        lemma_kill_low(p, low, high, c, sl, sh, sub);
        lemma_kill_subs_low(p, low, high, c, kill(low, sl, sub), sh, x, k + 1);
    }
}

/// The states of the two parts are in order, each for its part.
pub open spec fn parts_ok(low: Program, high: Program, sl: RunState, sh: RunState) -> bool {
    low.wf() && high.wf() && state_ok(low, sl) && state_ok(high, sh)
}

/// A chain of the high part that gets to a step in the whole gets to it in
/// the high part.
proof fn lemma_enter_high(
    p: Program,
    low: Program,
    high: Program,
    c: nat,
    sl: RunState,
    sh: RunState,
    id: ChainId,
    step: usize,
)
    requires
        joined(p, low, high, c),
        parts_ok(low, high, sl, sh),
        id.0 < high.chains.len(),
        1 <= step <= high.chains[id.0 as int].final_step.0,
    ensures
        enter(p, join(sl, sh, low.chains.len(), c), shift_id(id, low.chains.len()), step) == join(
            sl,
            enter(high, sh, id, step),
            low.chains.len(),
            c,
        ),
    decreases id.0 + 1, 0int,
{
    let a = low.chains.len();
    let ida = shift_id(id, a);
    let whole = join(sl, sh, a, c);
    assert(p.chains[a + id.0] == shift_chain(high.chains[id.0 as int], a, c));
    assert(chain_ok(high, id.0 as int));
    let entered_h = sh.states.insert(id.0, step);
    assert(whole.states.insert(ida.0, step) =~= join_states(sl.states, entered_h, a));
    if step == high.chains[id.0 as int].final_step.0 {
        lemma_kill_high(p, low, high, c, sl.states, entered_h, id.0);
        let retired_h = RunState { states: kill(high, entered_h, id.0), ..sh };
        let retired = RunState { states: kill(p, whole.states.insert(ida.0, step), ida.0), ..whole };
        assert(retired == join(sl, retired_h, a, c));
        let result = high.chains[id.0 as int].result;
        assert(p.chains[ida.0 as int].result == shift_job(result, a, c));
        assert(job_rank(shift_job(result, a, c)) <= ida.0 <==> job_rank(result) <= id.0);
        if job_rank(result) <= id.0 {
            assert(state_ok(high, retired_h)) by {
                lemma_kill_within(high, entered_h, id.0);
                assert forall|k: usize| #[trigger] retired_h.states.contains_key(k) implies k
                    < high.chains.len() && 1 <= retired_h.states[k]
                    < high.chains[k as int].final_step.0 by {
                    assert(entered_h.contains_key(k));
                    assert(k != id.0);
                    assert(sh.states.contains_key(k));
                }
            }
            lemma_job_high(p, low, high, c, sl, retired_h, result);
        }
    }
}

/// A job of the high part run in the whole runs in the high part.
proof fn lemma_job_high(
    p: Program,
    low: Program,
    high: Program,
    c: nat,
    sl: RunState,
    sh: RunState,
    job: WordJob,
)
    requires
        joined(p, low, high, c),
        parts_ok(low, high, sl, sh),
        job_ok(high, job),
    ensures
        apply_job(p, join(sl, sh, low.chains.len(), c), shift_job(job, low.chains.len(), c))
            == join(sl, apply_job(high, sh, job), low.chains.len(), c),
    decreases job_rank(job), 1int,
{
    let a = low.chains.len();
    let whole = join(sl, sh, a, c);
    match job {
        WordJob::DoMatch { id } => {
            let m = (id.0 + c) as usize;
            assert(whole.matches.insert(m) =~= join_matches(
                sl.matches,
                sh.matches.insert(id.0),
                c,
            ));
        },
        WordJob::StartChain { id, pre_condition } => {
            assert(chain_ok(high, id.0 as int));
            match pre_condition {
                Some((parent, step)) => {
                    let pa = shift_id(parent, a);
                    assert(whole.states.contains_key(pa.0) == sh.states.contains_key(parent.0));
                },
                None => {},
            }
            lemma_enter_high(p, low, high, c, sl, sh, id, 1);
        },
        WordJob::StepChain { id, step } => {
            let ida = shift_id(id, a);
            assert(whole.states.contains_key(ida.0) == sh.states.contains_key(id.0));
            if sh.states.contains_key(id.0) && sh.states[id.0] == step.0 {
                lemma_enter_high(p, low, high, c, sl, sh, id, (step.0 + 1) as usize);
            }
        },
    }
}

/// A chain of the low part that gets to a step in the whole gets to it in
/// the low part.
proof fn lemma_enter_low(
    p: Program,
    low: Program,
    high: Program,
    c: nat,
    sl: RunState,
    sh: RunState,
    id: ChainId,
    step: usize,
)
    requires
        joined(p, low, high, c),
        parts_ok(low, high, sl, sh),
        id.0 < low.chains.len(),
        1 <= step <= low.chains[id.0 as int].final_step.0,
    ensures
        enter(p, join(sl, sh, low.chains.len(), c), id, step) == join(
            enter(low, sl, id, step),
            sh,
            low.chains.len(),
            c,
        ),
    decreases id.0 + 1, 0int,
{
    let a = low.chains.len();
    let whole = join(sl, sh, a, c);
    assert(p.chains[id.0 as int] == low.chains[id.0 as int]);
    assert(chain_ok(low, id.0 as int));
    let entered_l = sl.states.insert(id.0, step);
    assert(whole.states.insert(id.0, step) =~= join_states(entered_l, sh.states, a));
    if step == low.chains[id.0 as int].final_step.0 {
        lemma_kill_low(p, low, high, c, entered_l, sh.states, id.0);
        let retired_l = RunState { states: kill(low, entered_l, id.0), ..sl };
        let retired = RunState { states: kill(p, whole.states.insert(id.0, step), id.0), ..whole };
        assert(retired == join(retired_l, sh, a, c));
        let result = low.chains[id.0 as int].result;
        if job_rank(result) <= id.0 {
            assert(state_ok(low, retired_l)) by {
                lemma_kill_within(low, entered_l, id.0);
                assert forall|k: usize| #[trigger] retired_l.states.contains_key(k) implies k
                    < low.chains.len() && 1 <= retired_l.states[k]
                    < low.chains[k as int].final_step.0 by {
                    assert(entered_l.contains_key(k));
                    assert(k != id.0);
                    assert(sl.states.contains_key(k));
                }
            }
            lemma_job_low(p, low, high, c, retired_l, sh, result);
        }
    }
}

/// A job of the low part run in the whole runs in the low part.
proof fn lemma_job_low(
    p: Program,
    low: Program,
    high: Program,
    c: nat,
    sl: RunState,
    sh: RunState,
    job: WordJob,
)
    requires
        joined(p, low, high, c),
        parts_ok(low, high, sl, sh),
        job_ok(low, job),
    ensures
        apply_job(p, join(sl, sh, low.chains.len(), c), job) == join(
            apply_job(low, sl, job),
            sh,
            low.chains.len(),
            c,
        ),
    decreases job_rank(job), 1int,
{
    let a = low.chains.len();
    let whole = join(sl, sh, a, c);
    match job {
        WordJob::DoMatch { id } => {
            assert(whole.matches.insert(id.0) =~= join_matches(
                sl.matches.insert(id.0),
                sh.matches,
                c,
            ));
        },
        WordJob::StartChain { id, pre_condition } => {
            assert(chain_ok(low, id.0 as int));
            match pre_condition {
                Some((parent, step)) => {
                    assert(whole.states.contains_key(parent.0) == sl.states.contains_key(
                        parent.0,
                    ));
                },
                None => {},
            }
            lemma_enter_low(p, low, high, c, sl, sh, id, 1);
        },
        WordJob::StepChain { id, step } => {
            assert(whole.states.contains_key(id.0) == sl.states.contains_key(id.0));
            if sl.states.contains_key(id.0) && sl.states[id.0] == step.0 {
                lemma_enter_low(p, low, high, c, sl, sh, id, (step.0 + 1) as usize);
            }
        },
    }
}

/// Every job of the list is a valid job of `p`.
pub open spec fn jobs_ok(p: Program, jobs: Seq<WordJob>) -> bool {
    forall|k: int| 0 <= k < jobs.len() ==> job_ok(p, #[trigger] jobs[k])
}

proof fn lemma_jobs_high(
    p: Program,
    low: Program,
    high: Program,
    c: nat,
    sl: RunState,
    sh: RunState,
    jobs: Seq<WordJob>,
)
    requires
        joined(p, low, high, c),
        parts_ok(low, high, sl, sh),
        jobs_ok(high, jobs),
    ensures
        apply_jobs(p, join(sl, sh, low.chains.len(), c), shift_jobs(jobs, low.chains.len(), c))
            == join(sl, apply_jobs(high, sh, jobs), low.chains.len(), c),
        state_ok(high, apply_jobs(high, sh, jobs)),
    decreases jobs.len(),
{
    let a = low.chains.len();
    if jobs.len() > 0 {
        let shifted = shift_jobs(jobs, a, c);
        assert(shifted.last() == shift_job(jobs.last(), a, c));
        assert(shifted.drop_last() =~= shift_jobs(jobs.drop_last(), a, c));
        lemma_job_high(p, low, high, c, sl, sh, jobs.last());
        lemma_apply_job_ok(high, sh, jobs.last());
        assert(jobs_ok(high, jobs.drop_last())) by {
            assert forall|k: int| 0 <= k < jobs.drop_last().len() implies job_ok(
                high,
                #[trigger] jobs.drop_last()[k],
            ) by {
                assert(jobs.drop_last()[k] == jobs[k]);
            }
        }
        lemma_jobs_high(p, low, high, c, sl, apply_job(high, sh, jobs.last()), jobs.drop_last());
    }
}

proof fn lemma_jobs_low(
    p: Program,
    low: Program,
    high: Program,
    c: nat,
    sl: RunState,
    sh: RunState,
    jobs: Seq<WordJob>,
)
    requires
        joined(p, low, high, c),
        parts_ok(low, high, sl, sh),
        jobs_ok(low, jobs),
    ensures
        apply_jobs(p, join(sl, sh, low.chains.len(), c), jobs) == join(
            apply_jobs(low, sl, jobs),
            sh,
            low.chains.len(),
            c,
        ),
        state_ok(low, apply_jobs(low, sl, jobs)),
    decreases jobs.len(),
{
    if jobs.len() > 0 {
        lemma_job_low(p, low, high, c, sl, sh, jobs.last());
        lemma_apply_job_ok(low, sl, jobs.last());
        assert(jobs_ok(low, jobs.drop_last())) by {
            assert forall|k: int| 0 <= k < jobs.drop_last().len() implies job_ok(
                low,
                #[trigger] jobs.drop_last()[k],
            ) by {
                assert(jobs.drop_last()[k] == jobs[k]);
            }
        }
        lemma_jobs_low(p, low, high, c, apply_job(low, sl, jobs.last()), sh, jobs.drop_last());
    }
}

/// Running first a list and then another, newest first, is running the two
/// put together with the second list in front.
pub proof fn lemma_apply_jobs_concat(p: Program, st: RunState, front: Seq<WordJob>, back: Seq<WordJob>)
    ensures
        apply_jobs(p, st, front + back) == apply_jobs(p, apply_jobs(p, st, back), front),
    decreases back.len(),
{
    if back.len() == 0 {
        assert(front + back =~= front);
    } else {
        let all = front + back;
        assert(all.last() == back.last());
        assert(all.drop_last() =~= front + back.drop_last());
        lemma_apply_jobs_concat(p, apply_job(p, st, back.last()), front, back.drop_last());
    }
}

/// The jobs of one word, run in the whole, are the jobs that each part has
/// for the word, run in the part.
pub proof fn lemma_word_in_parts(
    p: Program,
    low: Program,
    high: Program,
    c: nat,
    sl: RunState,
    sh: RunState,
    jl: Seq<WordJob>,
    jh: Seq<WordJob>,
)
    requires
        joined(p, low, high, c),
        parts_ok(low, high, sl, sh),
        jobs_ok(low, jl),
        jobs_ok(high, jh),
    ensures
        apply_jobs(p, join(sl, sh, low.chains.len(), c), jl + shift_jobs(jh, low.chains.len(), c))
            == join(apply_jobs(low, sl, jl), apply_jobs(high, sh, jh), low.chains.len(), c),
        parts_ok(low, high, apply_jobs(low, sl, jl), apply_jobs(high, sh, jh)),
{
    let a = low.chains.len();
    lemma_apply_jobs_concat(p, join(sl, sh, a, c), jl, shift_jobs(jh, a, c));
    lemma_jobs_high(p, low, high, c, sl, sh, jh);
    lemma_jobs_low(p, low, high, c, sl, apply_jobs(high, sh, jh), jl);
}

} // verus!
