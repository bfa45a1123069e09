//! A compiled set of patterns and the scan of a haystack against it.

use aho_corasick::{AhoCorasick, BuildError};
use crate::automaton::{
    automaton_builds, automaton_is_standard, automaton_words, build_automaton, encodings,
    find_overlapping, lemma_encodings,
};
use crate::builder::StrexSetBuilder;
use crate::hir::StrexHir;
use crate::machine::{
    apply_job, apply_jobs, enter, initial_state, job_rank, kill, kill_subs, run, select, starts,
    state_ok, RunState,
};
use crate::parser::parse_text;
use crate::pieces::{lemma_scan_is_matched, matched};
use crate::program::{
    add_pattern, chain_ok, chain_views, empty_program, job_lists, job_ok, lower_error, Chain,
    ChainId, CompileError, Program, StrexId, WordJob,
};
use crate::scan::{lemma_by_start_is_scan_order, scan_order};
use crate::steady::{lemma_apply_job_ok, lemma_run_ok};
use crate::stream::order_by_start;
use std::collections::{HashMap, HashSet};
use vstd::prelude::*;
use vstd::string::*;

verus! {

broadcast use vstd::std_specs::hash::group_hash_axioms;

/// A compiled set of patterns. It does not change once it is built.
pub struct StrexSet {
    aho: AhoCorasick,
    count: usize,
    chains: Vec<Chain>,
    word_jobs: Vec<Vec<WordJob>>,
    words: Ghost<Seq<Seq<char>>>,
}

impl View for StrexSet {
    type V = Program;

    closed spec fn view(&self) -> Program {
        Program {
            count: self.count as nat,
            chains: chain_views(self.chains@),
            words: self.words@,
            word_jobs: job_lists(self.word_jobs@),
        }
    }
}

/// The program that a batch of source texts compiles to, or the reason for
/// which the first text that cannot be compiled is refused.
pub open spec fn compile(sources: Seq<Seq<char>>) -> Result<Program, CompileError>
    decreases sources.len(),
{
    if sources.len() == 0 {
        Ok(empty_program())
    } else {
        match compile(sources.drop_last()) {
            Err(e) => Err(e),
            Ok(p) => match parse_text(sources.last()) {
                None => Err(CompileError::ParseError),
                Some(h) => match lower_error(h) {
                    Some(e) => Err(e),
                    None => Ok(add_pattern(p, h)),
                },
            },
        }
    }
}

/// The contents of a list of source texts.
pub open spec fn sources(strexes: Seq<&str>) -> Seq<Seq<char>> {
    Seq::new(strexes.len(), |i: int| strexes[i]@)
}

/// The ids below `count` that are in `matches`, in rising order.
pub open spec fn reported(matches: Set<usize>, count: nat) -> Seq<StrexId>
    decreases count,
{
    if count == 0 {
        Seq::empty()
    } else if matches.contains((count - 1) as usize) {
        reported(matches, (count - 1) as nat).push(StrexId((count - 1) as usize))
    } else {
        reported(matches, (count - 1) as nat)
    }
}

/// The reported ids rise, so that none is listed twice, and they are the
/// ids below `count` that are in `matches`.
pub proof fn lemma_reported(matches: Set<usize>, count: nat)
    requires
        count <= usize::MAX,
    ensures
        forall|i: int, j: int|
            0 <= i < j < reported(matches, count).len() ==> (#[trigger] reported(
                matches,
                count,
            )[i]).0 < (#[trigger] reported(matches, count)[j]).0,
        forall|i: int|
            0 <= i < reported(matches, count).len() ==> (#[trigger] reported(matches, count)[i]).0
                < count && matches.contains(reported(matches, count)[i].0),
        forall|m: usize|
            m < count && matches.contains(m) ==> #[trigger] reported(matches, count).contains(
                StrexId(m),
            ),
    decreases count,
{
    if count > 0 {
        let before = reported(matches, (count - 1) as nat);
        let all = reported(matches, count);
        lemma_reported(matches, (count - 1) as nat);
        let last = (count - 1) as usize;
        assert forall|m: usize| m < count && matches.contains(m) implies #[trigger] all.contains(
            StrexId(m),
        ) by {
            if m < count - 1 {
                assert(before.contains(StrexId(m)));
                let i = choose|i: int| 0 <= i < before.len() && before[i] == StrexId(m);
                assert(all[i] == StrexId(m));
            } else {
                assert(all[before.len() as int] == StrexId(m));
            }
        }
    }
}

/// Whether a job starts a chain.
fn is_start(job: WordJob) -> (res: bool)
    ensures
        res == starts(job),
{
    match job {
        WordJob::StartChain { .. } => true,
        _ => false,
    }
}

/// The state of one scan against a set.
pub struct ChainState<'a> {
    strex_set: &'a StrexSet,
    matches: HashSet<usize>,
    states: HashMap<usize, usize>,
}

impl<'a> View for ChainState<'a> {
    type V = RunState;

    closed spec fn view(&self) -> RunState {
        RunState { states: self.states@, matches: self.matches@ }
    }
}

impl<'a> ChainState<'a> {
    /// The set that the scan runs against.
    pub closed spec fn set(&self) -> &'a StrexSet {
        self.strex_set
    }

    /// Kills `chain` and, if it was live, its sub-chains.
    fn kill_chain(&mut self, chain: ChainId)
        requires
            old(self).set().wf(),
            chain.0 < old(self).set()@.chains.len(),
        ensures
            final(self).set() == old(self).set(),
            final(self)@ == (RunState {
                states: kill(old(self).set()@, old(self)@.states, chain.0),
                ..old(self)@
            }),
        decreases old(self).set()@.chains.len() - chain.0,
    {
        let set = self.strex_set;
        if self.states.remove(&chain.0).is_some() {
            let subs = &set.chains[chain.0].sub_chains;
            assert(chain_ok(set@, chain.0 as int));
            assert(subs@ == set@.chains[chain.0 as int].sub_chains);
            let ghost target = kill_subs(set@, self.states@, chain.0, 0);
            let mut k: usize = 0;
            while k < subs.len()
                invariant
                    k <= subs.len(),
                    set == self.strex_set,
                    set == old(self).strex_set,
                    set.wf(),
                    chain.0 < set@.chains.len(),
                    subs@ == set@.chains[chain.0 as int].sub_chains,
                    chain_ok(set@, chain.0 as int),
                    self@.matches == old(self)@.matches,
                    kill_subs(set@, self.states@, chain.0, k as int) == target,
                decreases subs.len() - k,
            {
                let sub = subs[k];
                assert(sub == set@.chains[chain.0 as int].sub_chains[k as int]);
                self.kill_chain(sub);
                k += 1;
            }
            assert(self@.states == target);
            assert(old(self)@.states.contains_key(chain.0));
        } else {
            assert(!old(self)@.states.contains_key(chain.0));
            assert(self@.states =~= old(self)@.states);
        }
    }

    /// Records that `chain` got to `step`, or retires it if that is its
    /// final step.
    fn enter(&mut self, chain: ChainId, step: usize)
        requires
            old(self).set().wf(),
            chain.0 < old(self).set()@.chains.len(),
        ensures
            final(self).set() == old(self).set(),
            final(self)@ == enter(old(self).set()@, old(self)@, chain, step),
        decreases chain.0 + 1, 0int,
    {
        let set = self.strex_set;
        assert(chain_ok(set@, chain.0 as int));
        self.states.insert(chain.0, step);
        if step == set.chains[chain.0].final_step.0 {
            self.kill_chain(chain);
            self.do_word_job(set.chains[chain.0].result);
        }
    }

    /// Moves `chain`, which is live, one step on.
    fn do_step(&mut self, chain: ChainId)
        requires
            old(self).set().wf(),
            chain.0 < old(self).set()@.chains.len(),
            old(self)@.states.contains_key(chain.0),
            old(self)@.states[chain.0] < usize::MAX,
        ensures
            final(self).set() == old(self).set(),
            final(self)@ == enter(
                old(self).set()@,
                old(self)@,
                chain,
                (old(self)@.states[chain.0] + 1) as usize,
            ),
        decreases chain.0 + 1, 1int,
    {
        let step = *self.states.get(&chain.0).unwrap();
        self.enter(chain, step + 1);
    }

    /// Runs one job. A state in which every live chain stands before its
    /// final step is left as such a state.
    pub fn do_word_job(&mut self, word_job: WordJob)
        requires
            old(self).set().wf(),
            job_ok(old(self).set()@, word_job),
        ensures
            final(self).set() == old(self).set(),
            final(self)@ == apply_job(old(self).set()@, old(self)@, word_job),
            state_ok(old(self).set()@, old(self)@) ==> state_ok(final(self).set()@, final(self)@),
        decreases job_rank(word_job), 2int,
    {
        proof {
            if state_ok(self.set()@, self@) {
                lemma_apply_job_ok(self.set()@, self@, word_job);
            }
        }
        match word_job {
            WordJob::DoMatch { id } => {
                self.matches.insert(id.0);
            },
            WordJob::StartChain { id, pre_condition } => {
                if let Some((chain, step)) = pre_condition {
                    match self.states.get(&chain.0) {
                        Some(at) => {
                            if *at != step.0 {
                                return ;
                            }
                        },
                        None => {
                            return ;
                        },
                    }
                }
                self.enter(id, 1);
            },
            WordJob::StepChain { id, step } => {
                let at_step = match self.states.get(&id.0) {
                    Some(at) => *at == step.0,
                    None => false,
                };
                if at_step {
                    self.do_step(id);
                }
            },
        }
    }

    /// The patterns reported so far, in rising order of their ids.
    pub fn reported(&self) -> (res: Vec<StrexId>)
        ensures
            res@ == reported(self@.matches, self.set()@.count),
    {
        let count = self.strex_set.count;
        let mut res: Vec<StrexId> = Vec::new();
        let mut i: usize = 0;
        while i < count
            invariant
                i <= count,
                res@ == reported(self@.matches, i as nat),
            decreases count - i,
        {
            if self.matches.contains(&i) {
                res.push(StrexId(i));
            }
            i += 1;
        }
        res
    }
}

impl StrexSet {
    /// The invariant of a set: its program is well formed, and its automaton
    /// searches for the program's words.
    pub closed spec fn wf(&self) -> bool {
        &&& self@.wf()
        &&& automaton_words(self.aho) == encodings(self@.words)
        &&& automaton_is_standard(self.aho)
    }

    /// The program of a set is well formed and can be held in memory.
    pub proof fn lemma_program_wf(&self)
        requires
            self.wf(),
        ensures
            self@.wf(),
            self@.count <= usize::MAX,
            self@.chains.len() <= usize::MAX,
            self@.words.len() <= usize::MAX,
    {
        assert(self@.words.len() == self.word_jobs.len());
        assert(self@.chains.len() == self.chains.len());
    }

    /// Makes a set of what a builder holds and of the automaton that was
    /// built for the builder's words, if one was.
    pub fn from_builder(builder: StrexSetBuilder, automaton: Result<AhoCorasick, BuildError>) -> (res:
        Result<StrexSet, CompileError>)
        requires
            builder@.wf(),
            automaton matches Ok(ac) ==> automaton_words(ac) == encodings(builder@.words)
                && automaton_is_standard(ac),
        ensures
            match automaton {
                Ok(_) => res matches Ok(set) && set@ == builder@ && set.wf(),
                Err(_) => res matches Err(e) && e == CompileError::AutomatonBuildError,
            },
    {
        match automaton {
            Ok(aho) => {
                let ghost words = builder@.words;
                let (count, chains, word_jobs) = builder.into_parts();
                Ok(StrexSet { aho, count, chains, word_jobs, words: Ghost(words) })
            },
            Err(_) => Err(CompileError::AutomatonBuildError),
        }
    }

    /// Compiles a batch of patterns. The pattern at index `i` gets the id
    /// `i`. One pattern that cannot be compiled fails the batch, with the
    /// error of the first such pattern. A batch whose patterns all compile
    /// gives a set exactly if the literal matcher builds an automaton for
    /// its words.
    pub fn new(strexes: &[&str]) -> (res: Result<StrexSet, CompileError>)
        ensures
            match compile(sources(strexes@)) {
                Err(e) => res matches Err(got) && got == e,
                Ok(p) => (res is Ok <==> automaton_builds(encodings(p.words))) && match res {
                    Ok(set) => set@ == p && set.wf() && set@.count == strexes@.len(),
                    Err(e) => e == CompileError::AutomatonBuildError,
                },
            },
    {
        let mut builder = StrexSetBuilder::new();
        let ghost all = sources(strexes@);
        let mut i: usize = 0;
        while i < strexes.len()
            invariant
                i <= strexes.len(),
                all == sources(strexes@),
                builder@.wf(),
                builder.indexed(),
                builder@.count == i,
                compile(all.take(i as int)) == Ok::<Program, CompileError>(builder@),
            decreases strexes.len() - i,
        {
            assert(all.take(i + 1).drop_last() =~= all.take(i as int));
            assert(all.take(i + 1).last() == strexes[i as int]@);
            proof {
                lemma_compile_prefix_error(all, i + 1);
            }
            match StrexHir::parse(strexes[i]) {
                None => {
                    return Err(CompileError::ParseError);
                },
                Some(hir) => {
                    match builder.add_strex(&hir) {
                        Err(e) => {
                            return Err(e);
                        },
                        Ok(_) => {},
                    }
                },
            }
            i += 1;
        }
        assert(all.take(i as int) =~= all);
        StrexSet::build(builder)
    }

    /// Builds the automaton for the words of a builder and makes a set of
    /// it and of what the builder holds.
    pub fn build(builder: StrexSetBuilder) -> (res: Result<StrexSet, CompileError>)
        requires
            builder@.wf(),
        ensures
            res is Ok <==> automaton_builds(encodings(builder@.words)),
            match res {
                Ok(set) => set@ == builder@ && set.wf(),
                Err(e) => e == CompileError::AutomatonBuildError,
            },
    {
        let automaton = build_automaton(builder.words());
        StrexSet::from_builder(builder, automaton)
    }

    /// A scan that has seen nothing yet.
    pub fn new_state(&self) -> (res: ChainState<'_>)
        ensures
            res.set() == self,
            res@ == initial_state(),
    {
        let res = ChainState { strex_set: self, matches: HashSet::new(), states: HashMap::new() };
        assert(res@.states =~= Map::empty());
        assert(res@.matches =~= Set::empty());
        res
    }

    /// How many patterns the set was compiled from.
    pub fn len(&self) -> (n: usize)
        ensures
            n == self@.count,
    {
        self.count
    }

    /// The patterns that a scan reports after it has seen the entries of
    /// `stream` in order, in rising order of their ids. An entry names a
    /// word and tells whether its jobs that start a chain run, or its other
    /// jobs. A number that names no word of the set is passed over.
    pub fn matches_of(&self, stream: &Vec<(usize, bool)>) -> (res: Vec<StrexId>)
        requires
            self.wf(),
        ensures
            res@ == reported(run(self@, initial_state(), stream@).matches, self@.count),
            forall|i: int, j: int| 0 <= i < j < res.len() ==> res[i].0 < res[j].0,
            forall|m: usize|
                res@.contains(StrexId(m)) <==> run(
                    self@,
                    initial_state(),
                    stream@,
                ).matches.contains(m),
    {
        proof {
            let found = run(self@, initial_state(), stream@).matches;
            lemma_reported(found, self@.count);
            lemma_run_ok(self@, initial_state(), stream@);
            let all = reported(found, self@.count);
            assert forall|m: usize| all.contains(StrexId(m)) <==> found.contains(m) by {
                if all.contains(StrexId(m)) {
                    let i = choose|i: int| 0 <= i < all.len() && all[i] == StrexId(m);
                    assert(found.contains(all[i].0));
                }
            }
        }
        let mut chain_state = self.new_state();
        let ghost target = run(self@, initial_state(), stream@);
        assert(stream@.skip(0) =~= stream@);
        let mut i: usize = 0;
        while i < stream.len()
            invariant
                i <= stream.len(),
                self.wf(),
                chain_state.set() == self,
                run(self@, chain_state@, stream@.skip(i as int)) == target,
            decreases stream.len() - i,
        {
            let (word, starting) = stream[i];
            assert(stream@.skip(i as int).drop_first() =~= stream@.skip(i + 1));
            assert(stream@.skip(i as int)[0] == (word, starting));
            if word < self.word_jobs.len() {
                let jobs = &self.word_jobs[word];
                assert(jobs@ == self@.word_jobs[word as int]);
                let ghost after = apply_jobs(self@, chain_state@, select(jobs@, starting));
                let mut k: usize = jobs.len();
                assert(jobs@.take(k as int) =~= jobs@);
                while k > 0
                    invariant
                        k <= jobs.len(),
                        self.wf(),
                        chain_state.set() == self,
                        word < self@.word_jobs.len(),
                        jobs@ == self@.word_jobs[word as int],
                        apply_jobs(self@, chain_state@, select(jobs@.take(k as int), starting))
                            == after,
                    decreases k,
                {
                    k -= 1;
                    let job = jobs[k];
                    proof {
                        let upto = jobs@.take(k + 1);
                        assert(upto.drop_last() =~= jobs@.take(k as int));
                        assert(upto.last() == job);
                        let rest = select(jobs@.take(k as int), starting);
                        if starts(job) == starting {
                            assert(select(upto, starting) == rest.push(job));
                            assert(rest.push(job).last() == job);
                            assert(rest.push(job).drop_last() =~= rest);
                        }
                        assert(job_ok(self@, self@.word_jobs[word as int][k as int]));
                    }
                    if is_start(job) == starting {
                        chain_state.do_word_job(job);
                    }
                }
                assert(jobs@.take(0) =~= Seq::<WordJob>::empty());
            }
            i += 1;
        }
        assert(stream@.skip(i as int) =~= Seq::<(usize, bool)>::empty());
        chain_state.reported()
    }

    /// The patterns that match `haystack`, in rising order of their ids.
    ///
    /// Every occurrence of every word of the set in the bytes of the
    /// haystack is one hit. A scan sees the hits by the offset at which they
    /// start. Of the words that start at one offset it first runs the jobs
    /// that move a chain on or report a pattern, then those that start a
    /// chain, in each round the shorter word first.
    pub fn matches(&self, haystack: &str) -> (res: Vec<StrexId>)
        requires
            self.wf(),
        ensures
            res@ == reported(
                run(
                    self@,
                    initial_state(),
                    scan_order(encodings(self@.words), haystack.spec_bytes()),
                ).matches,
                self@.count,
            ),
            res@ == reported(matched(self@, haystack.spec_bytes()), self@.count),
            forall|i: int, j: int| 0 <= i < j < res.len() ==> res[i].0 < res[j].0,
            forall|m: usize|
                res@.contains(StrexId(m)) <==> matched(self@, haystack.spec_bytes()).contains(m),
    {
        let hits = find_overlapping(&self.aho, haystack);
        let stream = order_by_start(&hits, haystack.as_bytes().len());
        proof {
            lemma_encodings(self@.words);
            assert(self@.words.len() == self.word_jobs.len());
            lemma_by_start_is_scan_order(
                encodings(self@.words),
                haystack.spec_bytes(),
                hits@,
                haystack.spec_bytes().len() as int,
            );
            lemma_scan_is_matched(self@, haystack.spec_bytes());
        }
        self.matches_of(&stream)
    }
}

/// A batch whose first `k` texts are refused is refused, for the same
/// reason.
pub proof fn lemma_compile_prefix_error(all: Seq<Seq<char>>, k: int)
    requires
        0 <= k <= all.len(),
    ensures
        compile(all.take(k)) matches Err(e) ==> compile(all) == Err::<Program, CompileError>(e),
    decreases all.len() - k,
{
    if k < all.len() {
        assert(all.take(k + 1).drop_last() =~= all.take(k));
        lemma_compile_prefix_error(all, k + 1);
    } else {
        assert(all.take(k) =~= all);
    }
}

} // verus!
