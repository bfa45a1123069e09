//! Lowering pattern trees into a program, one pattern after the other.

use crate::hir::{lemma_view_concat, lemma_view_or, texts, views, Hir, StrexHir};
use crate::program::{
    add_pattern, attach, chain_ok, count_non_wild, empty_program, intern, job_in, job_ok, lower,
    lower_each, lower_error, lower_error_any, lower_error_tail, lower_steps, open_chain, position,
    chain_views, job_lists, Chain, ChainId, CompileError, Program, StepId, StrexId, WordId,
    WordJob,
};
use std::collections::HashMap;
use vstd::prelude::*;
use vstd::string::*;

verus! {

broadcast use vstd::std_specs::hash::group_hash_axioms;

/// A program under construction.
pub struct StrexSetBuilder {
    count: usize,
    chains: Vec<Chain>,
    words: Vec<String>,
    /// For each key, the ids of the words that have it.
    word_to_id: HashMap<u64, Vec<usize>>,
    word_jobs: Vec<Vec<WordJob>>,
}

/// The key of a word after one more character.
pub open spec fn mix(key: u64, c: char) -> u64 {
    ((key % 0x1_0000_0000) * 31 + c as u32) as u64
}

/// The key under which a word is looked up. Equal words have one key.
pub open spec fn word_key(w: Seq<char>) -> u64
    decreases w.len(),
{
    if w.len() == 0 {
        0
    } else {
        mix(word_key(w.drop_last()), w.last())
    }
}

/// The index finds every word: each word is listed under its key, and what
/// is listed under a key is the id of a word.
pub open spec fn index_finds(words: Seq<Seq<char>>, index: Map<u64, Vec<usize>>) -> bool {
    &&& forall|i: int|
        0 <= i < words.len() ==> index.contains_key(#[trigger] word_key(words[i]))
            && index[word_key(words[i])]@.contains(i as usize)
    &&& forall|key: u64, j: int|
        index.contains_key(key) && 0 <= j < index[key]@.len() ==> (#[trigger] index[key]@[j])
            < words.len()
}

/// Computes the key of a word.
fn key_of(word: &str) -> (key: u64)
    ensures
        key == word_key(word@),
{
    let ghost text = word@;
    let mut key: u64 = 0;
    for c in it: word.chars()
        invariant
            it.seq() == text,
            key == word_key(text.take(it.index() as int)),
    {
        proof {
            let i = it.index() as int;
            assert(text.take(i + 1).drop_last() =~= text.take(i));
            assert(text.take(i + 1).last() == c);
            vstd::utf8::char_is_scalar(c);
        }
        let code = c as u32;
        key = (key % 0x1_0000_0000) * 31 + code as u64;
    }
    proof {
        assert(text.take(text.len() as int) =~= text);
    }
    key
}

/// Looks for `word` among the words whose ids are listed in `bucket`.
fn find_in(bucket: &Vec<usize>, words: &Vec<String>, word: &String) -> (res: Option<usize>)
    requires
        forall|j: int| 0 <= j < bucket.len() ==> (#[trigger] bucket[j]) < words.len(),
    ensures
        match res {
            Some(i) => i < words.len() && words[i as int]@ == word@,
            None => forall|j: int|
                0 <= j < bucket.len() ==> words[(#[trigger] bucket[j]) as int]@ != word@,
        },
{
    let mut k: usize = 0;
    while k < bucket.len()
        invariant
            k <= bucket.len(),
            forall|j: int| 0 <= j < bucket.len() ==> (#[trigger] bucket[j]) < words.len(),
            forall|j: int| 0 <= j < k ==> words[(#[trigger] bucket[j]) as int]@ != word@,
        decreases bucket.len() - k,
    {
        let i = bucket[k];
        if words[i] == *word {
            return Some(i);
        }
        k += 1;
    }
    None
}

impl View for StrexSetBuilder {
    type V = Program;

    closed spec fn view(&self) -> Program {
        Program {
            count: self.count as nat,
            chains: chain_views(self.chains@),
            words: texts(self.words@),
            word_jobs: job_lists(self.word_jobs@),
        }
    }
}

impl Default for StrexSetBuilder {
    fn default() -> (res: Self)
        ensures
            res@ == empty_program(),
            res@.wf(),
            res.indexed(),
    {
        StrexSetBuilder::new()
    }
}

/// What `position` finds lies in the list, holds the word, and is the first
/// place that does; what it does not find is not in the list.
pub proof fn lemma_position(words: Seq<Seq<char>>, w: Seq<char>)
    ensures
        match position(words, w) {
            Some(i) => 0 <= i < words.len() && words[i] == w && forall|j: int|
                0 <= j < i ==> words[j] != w,
            None => forall|j: int| 0 <= j < words.len() ==> words[j] != w,
        },
    decreases words.len(),
{
    if words.len() > 0 {
        let front = words.drop_last();
        lemma_position(front, w);
        assert forall|j: int| 0 <= j < front.len() implies front[j] == words[j] by {}
    }
}

/// A word found in the first `k` words is found at the same place in the
/// whole list.
pub proof fn lemma_position_prefix(words: Seq<Seq<char>>, k: int, w: Seq<char>)
    requires
        0 <= k <= words.len(),
        position(words.take(k), w) is Some,
    ensures
        position(words, w) == position(words.take(k), w),
    decreases words.len() - k,
{
    if k < words.len() {
        assert(words.take(k + 1).drop_last() =~= words.take(k));
        lemma_position_prefix(words, k + 1, w);
    } else {
        assert(words.take(k) =~= words);
    }
}

/// Attaching a valid job to a word that is not empty keeps the program well
/// formed and changes nothing that was there.
pub proof fn lemma_attach(p: Program, w: Seq<char>, job: WordJob)
    requires
        p.wf(),
        w.len() > 0,
        job_ok(p, job),
    ensures
        attach(p, w, job).wf(),
        p.grows_to(attach(p, w, job)),
        attach(p, w, job).chains == p.chains,
{
    lemma_position(p.words, w);
    let (q, id) = intern(p, w);
    let r = attach(p, w, job);
    assert(q.wf()) by {
        assert forall|c: int| 0 <= c < q.chains.len() implies #[trigger] chain_ok(q, c) by {
            assert(chain_ok(p, c));
        }
    }
    assert forall|x: int, k: int|
        0 <= x < r.word_jobs.len() && 0 <= k < r.word_jobs[x].len() implies job_ok(
        r,
        #[trigger] r.word_jobs[x][k],
    ) by {
        if x == id && k == q.word_jobs[id].len() {
        } else {
            assert(r.word_jobs[x][k] == q.word_jobs[x][k]);
            assert(job_ok(q, q.word_jobs[x][k]));
        }
    }
    assert forall|c: int| 0 <= c < r.chains.len() implies #[trigger] chain_ok(r, c) by {
        assert(chain_ok(p, c));
    }
}

/// Opening a chain for a valid result job keeps the program well formed,
/// changes nothing that was there but the sub-chain list of the parent, and
/// makes every step below the new chain's last a valid step of it.
pub proof fn lemma_open_chain(p: Program, steps: nat, result: WordJob)
    requires
        p.wf(),
        job_ok(p, result),
        p.chains.len() < usize::MAX,
        steps < usize::MAX,
    ensures
        open_chain(p, steps, result).wf(),
        p.grows_to(open_chain(p, steps, result)),
        open_chain(p, steps, result).chains.len() == p.chains.len() + 1,
        open_chain(p, steps, result).chains[p.chains.len() as int].final_step.0 == steps + 1,
{
    let q = open_chain(p, steps, result);
    let id = p.chains.len() as int;
    assert forall|c: int| 0 <= c < q.chains.len() implies #[trigger] chain_ok(q, c) by {
        if c < id {
            assert(chain_ok(p, c));
            let chain = q.chains[c];
            assert forall|k: int| 0 <= k < chain.sub_chains.len() implies c < (
            #[trigger] chain.sub_chains[k]).0 < q.chains.len() by {
                if k < p.chains[c].sub_chains.len() {
                    assert(chain.sub_chains[k] == p.chains[c].sub_chains[k]);
                }
            }
        }
    }
    assert forall|x: int, k: int|
        0 <= x < q.word_jobs.len() && 0 <= k < q.word_jobs[x].len() implies job_ok(
        q,
        #[trigger] q.word_jobs[x][k],
    ) by {
        assert(job_ok(p, p.word_jobs[x][k]));
    }
}

/// Growth is transitive.
pub proof fn lemma_grows_trans(a: Program, b: Program, c: Program)
    requires
        a.grows_to(b),
        b.grows_to(c),
    ensures
        a.grows_to(c),
{
    assert forall|w: int| 0 <= w < a.word_jobs.len() implies a.word_jobs[w].is_prefix_of(
        #[trigger] c.word_jobs[w],
    ) by {
        assert(a.word_jobs[w].is_prefix_of(b.word_jobs[w]));
        assert(b.word_jobs[w].is_prefix_of(c.word_jobs[w]));
    }
    assert forall|x: int| 0 <= x < a.chains.len() implies {
        &&& (#[trigger] c.chains[x]).final_step == a.chains[x].final_step
        &&& c.chains[x].result == a.chains[x].result
        &&& a.chains[x].sub_chains.is_prefix_of(c.chains[x].sub_chains)
    } by {
        assert(b.chains[x].final_step == a.chains[x].final_step);
        assert(a.chains[x].sub_chains.is_prefix_of(b.chains[x].sub_chains));
        assert(b.chains[x].sub_chains.is_prefix_of(c.chains[x].sub_chains));
    }
}

/// No more trees are counted than there are.
pub proof fn lemma_count_non_wild_bound(xs: Seq<Hir>)
    ensures
        count_non_wild(xs) <= xs.len(),
    decreases xs.len(),
{
    if xs.len() > 0 {
        lemma_count_non_wild_bound(xs.drop_first());
    }
}

/// Handing out one more pattern id keeps the program well formed.
pub proof fn lemma_next_id(p: Program)
    requires
        p.wf(),
    ensures
        (Program { count: p.count + 1, ..p }).wf(),
        job_ok(
            Program { count: p.count + 1, ..p },
            WordJob::DoMatch { id: StrexId(p.count as usize) },
        ) <== p.count < usize::MAX,
{
    let q = Program { count: p.count + 1, ..p };
    assert forall|c: int| 0 <= c < q.chains.len() implies #[trigger] chain_ok(q, c) by {
        assert(chain_ok(p, c));
    }
    assert forall|x: int, k: int|
        0 <= x < q.word_jobs.len() && 0 <= k < q.word_jobs[x].len() implies job_ok(
        q,
        #[trigger] q.word_jobs[x][k],
    ) by {
        assert(job_ok(p, p.word_jobs[x][k]));
    }
}

/// The first reason for which `strex` cannot be lowered, if there is one.
pub fn check_strex(strex: &StrexHir) -> (res: Option<CompileError>)
    ensures
        res == lower_error(strex@),
    decreases strex,
{
    match strex {
        StrexHir::Literal(lit) => {
            if lit.as_str().is_empty() {
                Some(CompileError::EmptyLiteral)
            } else {
                None
            }
        },
        StrexHir::Or(items) => {
            proof {
                lemma_view_or(*strex);
            }
            let ghost xs = views(items@);
            assert(xs.skip(0) =~= xs);
            let mut i: usize = 0;
            while i < items.len()
                invariant
                    i <= items.len(),
                    xs == views(items@),
                    decreases_to!(strex => items),
                    strex@ == Hir::Or(xs),
                    lower_error_any(xs) == lower_error_any(xs.skip(i as int)),
                decreases items.len() - i,
            {
                assert(xs.skip(i as int).drop_first() =~= xs.skip(i + 1));
                assert(xs.skip(i as int)[0] == items[i as int]@);
                match check_strex(&items[i]) {
                    Some(e) => {
                        return Some(e);
                    },
                    None => {},
                }
                i += 1;
            }
            None
        },
        StrexHir::Concat(items) => {
            proof {
                lemma_view_concat(*strex);
            }
            let ghost xs = views(items@);
            if items.len() == 0 {
                return Some(CompileError::UnconditionalPattern);
            }
            assert(xs[0] == items[0]@);
            match check_strex(&items[0]) {
                Some(e) => {
                    return Some(e);
                },
                None => {},
            }
            assert(xs.drop_first() =~= xs.skip(1));
            let mut i: usize = 1;
            while i < items.len()
                invariant
                    1 <= i <= items.len(),
                    xs == views(items@),
                    decreases_to!(strex => items),
                    strex@ == Hir::Concat(xs),
                    lower_error(xs[0]) is None,
                    lower_error_tail(xs.drop_first()) == lower_error_tail(xs.skip(i as int)),
                decreases items.len() - i,
            {
                assert(xs.skip(i as int).drop_first() =~= xs.skip(i + 1));
                assert(xs.skip(i as int)[0] == items[i as int]@);
                match &items[i] {
                    StrexHir::Wild => {},
                    part => {
                        match check_strex(part) {
                            Some(e) => {
                                return Some(e);
                            },
                            None => {},
                        }
                    },
                }
                i += 1;
            }
            None
        },
        StrexHir::Wild => Some(CompileError::UnconditionalPattern),
    }
}

/// How many parts after the head of a concatenation are not a gap.
fn count_steps(items: &Vec<StrexHir>) -> (n: usize)
    requires
        items.len() > 0,
    ensures
        n == count_non_wild(views(items@).drop_first()),
        n < items.len(),
{
    let ghost xs = views(items@);
    assert(xs.drop_first() =~= xs.skip(1));
    let mut n: usize = 0;
    let mut i: usize = 1;
    while i < items.len()
        invariant
            1 <= i <= items.len(),
            xs == views(items@),
            n < i,
            n + count_non_wild(xs.skip(i as int)) == count_non_wild(xs.drop_first()),
        decreases items.len() - i,
    {
        assert(xs.skip(i as int).drop_first() =~= xs.skip(i + 1));
        assert(xs.skip(i as int)[0] == items[i as int]@);
        match &items[i] {
            StrexHir::Wild => {},
            _ => {
                n += 1;
            },
        }
        i += 1;
    }
    n
}

impl StrexSetBuilder {
    /// The index by which words are looked up finds every word.
    pub closed spec fn indexed(&self) -> bool {
        index_finds(texts(self.words@), self.word_to_id@)
    }

    /// A builder that holds nothing yet.
    pub fn new() -> (res: Self)
        ensures
            res@ == empty_program(),
            res@.wf(),
            res.indexed(),
    {
        let res = StrexSetBuilder {
            count: 0,
            chains: Vec::new(),
            words: Vec::new(),
            word_to_id: HashMap::new(),
            word_jobs: Vec::new(),
        };
        assert(res@.chains =~= Seq::empty());
        assert(res@.words =~= Seq::empty());
        assert(res@.word_jobs =~= Seq::empty());
        res
    }

    /// The id of `word`: the one it has, or a new one.
    pub fn word_id(&mut self, word: String) -> (id: WordId)
        requires
            old(self)@.words_ok(),
            old(self).indexed(),
        ensures
            (final(self)@, id.0 as int) == intern(old(self)@, word@),
            final(self)@.words_ok(),
            final(self).indexed(),
            old(self)@.grows_to(final(self)@),
            id.0 < final(self)@.words.len(),
            final(self)@.words[id.0 as int] == word@,
            old(self)@.wf() && word@.len() > 0 ==> final(self)@.wf(),
    {
        let ghost words = texts(self.words@);
        proof {
            lemma_position(words, word@);
        }
        let key = key_of(word.as_str());
        let found = match self.word_to_id.get(&key) {
            Some(bucket) => {
                assert(bucket == self.word_to_id@[key]);
                assert forall|j: int| 0 <= j < bucket.len() implies (#[trigger] bucket[j])
                    < self.words.len() by {
                    assert(self.word_to_id@[key]@[j] < words.len());
                }
                find_in(bucket, &self.words, &word)
            },
            None => None,
        };
        match found {
            Some(i) => {
                assert(words[i as int] == word@);
                return WordId(i);
            },
            None => {},
        }
        assert(position(words, word@) is None) by {
            if position(words, word@) is Some {
                let i = position(words, word@).unwrap();
                assert(word_key(words[i]) == key);
                let bucket = self.word_to_id@[key];
                assert(bucket@.contains(i as usize));
                let j = choose|j: int| 0 <= j < bucket@.len() && bucket@[j] == i as usize;
                assert(self.words[bucket[j] as int]@ == words[i]);
            }
        }
        let id = WordId(self.words.len());
        self.words.push(word);
        self.word_jobs.push(Vec::new());
        let ghost index = self.word_to_id@;
        let mut bucket = match self.word_to_id.remove(&key) {
            Some(bucket) => bucket,
            None => Vec::new(),
        };
        let ghost listed = bucket@;
        bucket.push(id.0);
        self.word_to_id.insert(key, bucket);
        proof {
            let q = intern(old(self)@, word@).0;
            assert(self@.words =~= q.words);
            assert(self@.word_jobs =~= q.word_jobs);
            assert(self@.chains =~= q.chains);
            if old(self)@.wf() && word@.len() > 0 {
                assert(q.wf()) by {
                    assert forall|c: int| 0 <= c < q.chains.len() implies #[trigger] chain_ok(
                        q,
                        c,
                    ) by {
                        assert(chain_ok(old(self)@, c));
                    }
                    assert forall|x: int, k: int|
                        0 <= x < q.word_jobs.len() && 0 <= k < q.word_jobs[x].len() implies job_ok(
                        q,
                        #[trigger] q.word_jobs[x][k],
                    ) by {
                        assert(job_ok(old(self)@, old(self)@.word_jobs[x][k]));
                    }
                }
            }
            let all = texts(self.words@);
            let after = self.word_to_id@;
            assert(index.contains_key(key) ==> listed == index[key]@);
            assert forall|i: int| 0 <= i < all.len() implies after.contains_key(
                #[trigger] word_key(all[i]),
            ) && after[word_key(all[i])]@.contains(i as usize) by {
                if i < words.len() {
                    assert(all[i] == words[i]);
                    let k = word_key(words[i]);
                    assert(index.contains_key(k) && index[k]@.contains(i as usize));
                    if k == key {
                        let j = choose|j: int| 0 <= j < listed.len() && listed[j] == i as usize;
                        assert(after[key]@[j] == i as usize);
                    }
                } else {
                    assert(all[i] == word@);
                    assert(after[key]@[listed.len() as int] == i as usize);
                }
            }
            assert forall|k: u64, j: int|
                after.contains_key(k) && 0 <= j < after[k]@.len() implies (#[trigger] after[k]@[j])
                < all.len() by {
                if k == key {
                    if j < listed.len() {
                        assert(index[key]@[j] < words.len());
                    }
                } else {
                    assert(index.contains_key(k));
                    assert(index[k]@[j] < words.len());
                }
            }
        }
        id
    }

    /// Puts `chain` at the end of the chain list and returns its id.
    pub fn add_chain(&mut self, chain: Chain) -> (id: ChainId)
        ensures
            final(self).indexed() == old(self).indexed(),
            id.0 == old(self)@.chains.len(),
            old(self)@.chains.len() < usize::MAX,
            final(self)@ == (Program {
                chains: old(self)@.chains.push(chain@),
                ..old(self)@
            }),
            old(self)@.grows_to(final(self)@),
            old(self)@.wf() && chain@.sub_chains.len() == 0 && 1 <= chain.final_step.0 && job_ok(
                old(self)@,
                chain.result,
            ) ==> final(self)@.wf(),
    {
        let id = ChainId(self.chains.len());
        let ghost added = chain@;
        self.chains.push(chain);
        assert(self.chains.len() == id.0 + 1);
        proof {
            let p = old(self)@;
            let q = Program { chains: p.chains.push(added), ..p };
            assert(self@.chains =~= q.chains);
            assert(self@.word_jobs =~= q.word_jobs);
            if p.wf() && added.sub_chains.len() == 0 && 1 <= added.final_step.0 && job_ok(
                p,
                added.result,
            ) {
                assert forall|c: int| 0 <= c < q.chains.len() implies #[trigger] chain_ok(q, c) by {
                    if c < p.chains.len() {
                        assert(chain_ok(p, c));
                    }
                }
                assert forall|x: int, k: int|
                    0 <= x < q.word_jobs.len() && 0 <= k < q.word_jobs[x].len() implies job_ok(
                    q,
                    #[trigger] q.word_jobs[x][k],
                ) by {
                    assert(job_ok(p, p.word_jobs[x][k]));
                }
            }
        }
        id
    }

    /// Lowers `strex` with `result` as the job to run when it has been seen.
    /// The program stays well formed where `result` is a valid job of it: a
    /// job that reports a pattern is valid once the pattern has its id.
    pub fn add_strex_base(&mut self, strex: &StrexHir, result: WordJob)
        requires
            old(self)@.words_ok(),
            old(self).indexed(),
            lower_error(strex@) is None,
            job_in(old(self)@, result),
        ensures
            final(self)@ == lower(old(self)@, strex@, result),
            final(self)@.words_ok(),
            final(self).indexed(),
            old(self)@.chains.len() <= final(self)@.chains.len(),
            old(self)@.wf() && job_ok(old(self)@, result) ==> final(self)@.wf() && old(
                self,
            )@.grows_to(final(self)@),
        decreases strex,
    {
        let ghost valid = old(self)@.wf() && job_ok(old(self)@, result);
        match strex {
            StrexHir::Literal(lit) => {
                let word_id = self.word_id(lit.clone());
                self.word_jobs[word_id.0].push(result);
                proof {
                    let r = attach(old(self)@, lit@, result);
                    assert(self@.word_jobs =~= r.word_jobs);
                    assert(self@.chains =~= r.chains);
                    if valid {
                        lemma_attach(old(self)@, lit@, result);
                    }
                }
            },
            StrexHir::Or(items) => {
                proof {
                    lemma_view_or(*strex);
                }
                let ghost xs = views(items@);
                assert(xs.skip(0) =~= xs);
                let mut i: usize = 0;
                while i < items.len()
                    invariant
                        i <= items.len(),
                        xs == views(items@),
                        decreases_to!(strex => items),
                        valid == (old(self)@.wf() && job_ok(old(self)@, result)),
                        self@.words_ok(),
                        self.indexed(),
                        old(self)@.chains.len() <= self@.chains.len(),
                        job_in(old(self)@, result),
                        valid ==> self@.wf() && old(self)@.grows_to(self@) && job_ok(self@, result),
                        lower_error_any(xs.skip(i as int)) is None,
                        lower_each(self@, xs.skip(i as int), result) == lower_each(
                            old(self)@,
                            xs,
                            result,
                        ),
                    decreases items.len() - i,
                {
                    assert(xs.skip(i as int).drop_first() =~= xs.skip(i + 1));
                    assert(xs.skip(i as int)[0] == items[i as int]@);
                    let ghost before = self@;
                    self.add_strex_base(&items[i], result);
                    proof {
                        if valid {
                            lemma_grows_trans(old(self)@, before, self@);
                        }
                    }
                    i += 1;
                }
            },
            StrexHir::Concat(items) => {
                proof {
                    lemma_view_concat(*strex);
                }
                let ghost xs = views(items@);
                let steps = count_steps(items);
                let id = self.add_chain(
                    Chain { sub_chains: Vec::new(), final_step: StepId(steps + 1), result },
                );
                match result {
                    WordJob::DoMatch { .. } => {},
                    WordJob::StartChain { id: parent, .. } => {
                        self.chains[parent.0].sub_chains.push(id);
                    },
                    WordJob::StepChain { id: parent, .. } => {
                        self.chains[parent.0].sub_chains.push(id);
                    },
                }
                let ghost opened = open_chain(old(self)@, steps as nat, result);
                proof {
                    assert(self@.chains =~= opened.chains);
                    assert(self@.word_jobs =~= opened.word_jobs);
                    assert(self@ == opened);
                    if valid {
                        lemma_open_chain(old(self)@, steps as nat, result);
                    }
                    assert(xs[0] == items[0]@);
                    assert(xs.drop_first() =~= xs.skip(1));
                }
                self.add_strex_base(&items[0], WordJob::StartChain { id, pre_condition: None });
                let ghost started = self@;
                proof {
                    if valid {
                        lemma_grows_trans(old(self)@, opened, started);
                    }
                }
                let mut step: usize = 1;
                let mut i: usize = 1;
                while i < items.len()
                    invariant
                        1 <= i <= items.len(),
                        xs == views(items@),
                        decreases_to!(strex => items),
                        valid == (old(self)@.wf() && job_ok(old(self)@, result)),
                        self@.words_ok(),
                        self.indexed(),
                        old(self)@.chains.len() <= self@.chains.len(),
                        id.0 < self@.chains.len(),
                        valid ==> self@.wf() && old(self)@.grows_to(self@)
                            && self@.chains[id.0 as int].final_step.0 == steps + 1,
                        1 <= step,
                        steps < usize::MAX,
                        step + count_non_wild(xs.skip(i as int)) == steps + 1,
                        lower_error_tail(xs.skip(i as int)) is None,
                        lower_steps(self@, xs.skip(i as int), id, step as nat) == lower_steps(
                            started,
                            xs.drop_first(),
                            id,
                            1,
                        ),
                    decreases items.len() - i,
                {
                    assert(xs.skip(i as int).drop_first() =~= xs.skip(i + 1));
                    assert(xs.skip(i as int)[0] == items[i as int]@);
                    match &items[i] {
                        StrexHir::Wild => {},
                        part => {
                            let ghost before = self@;
                            self.add_strex_base(part, WordJob::StepChain { id, step: StepId(step) });
                            proof {
                                if valid {
                                    lemma_grows_trans(old(self)@, before, self@);
                                }
                            }
                            step += 1;
                        },
                    }
                    i += 1;
                }
            },
            StrexHir::Wild => {},
        }
    }

    /// Gives `strex` the next pattern id and lowers it to report that id.
    /// A tree that cannot be lowered is refused, and nothing changes.
    pub fn add_strex(&mut self, strex: &StrexHir) -> (res: Result<StrexId, CompileError>)
        requires
            old(self)@.wf(),
            old(self).indexed(),
            old(self)@.count < usize::MAX,
        ensures
            final(self)@.wf(),
            final(self).indexed(),
            match lower_error(strex@) {
                Some(e) => res == Err::<StrexId, CompileError>(e) && final(self)@ == old(self)@,
                None => res == Ok::<StrexId, CompileError>(StrexId(old(self)@.count as usize))
                    && final(self)@ == add_pattern(old(self)@, strex@) && final(self)@.count
                    == old(self)@.count + 1,
            },
    {
        match check_strex(strex) {
            Some(e) => Err(e),
            None => {
                let match_id = StrexId(self.count);
                self.count += 1;
                proof {
                    lemma_next_id(old(self)@);
                    assert(self@.chains =~= old(self)@.chains);
                    assert(self@.word_jobs =~= old(self)@.word_jobs);
                }
                self.add_strex_base(strex, WordJob::DoMatch { id: match_id });
                Ok(match_id)
            },
        }
    }

    /// How many patterns have been added.
    pub fn count(&self) -> (n: usize)
        ensures
            n == self@.count,
    {
        self.count
    }

    /// The distinct words, in the order of their ids.
    pub fn words(&self) -> (res: &Vec<String>)
        ensures
            texts(res@) == self@.words,
    {
        &self.words
    }

    /// Takes the builder apart: the number of patterns, the chains, and the
    /// job list of each word.
    pub fn into_parts(self) -> (res: (usize, Vec<Chain>, Vec<Vec<WordJob>>))
        ensures
            res.0 == self@.count,
            chain_views(res.1@) == self@.chains,
            job_lists(res.2@) == self@.word_jobs,
    {
        (self.count, self.chains, self.word_jobs)
    }
}

} // verus!
