//! When a pattern without nested concatenations matches: an alternation of
//! words, and two such alternations with a gap between them.

use crate::automaton::occurs_at;
use crate::hir::{tree_fits, words_of, words_of_all, Hir};
use crate::lowering::{lemma_add_pattern_wf, single, with_next_id};
use crate::machine::{
    apply_job, apply_jobs, enter, initial_state, job_rank, kill, kill_subs, select, starts,
    state_ok, RunState,
};
use crate::order::{
    among, among_pair, in_order, lemma_among_upto, lemma_encoding_not_empty, lemma_pair_upto,
    lemma_piece_is,
};
use crate::parts::jobs_of;
use crate::pieces::{
    jobs_at, jobs_for, lemma_jobs_at, lemma_select_concat, matched, piece_text, pieces,
    run_pieces,
};
use crate::program::{
    count_non_wild, empty_program, lower, lower_each, lower_error, lower_error_any,
    lower_error_tail, lower_steps, open_chain, ChainId, Program, StepId, StrexId, WordJob,
};
use crate::relocate::{aligned, lemma_attach_jobs, lemma_open_chain_jobs};
use crate::steady::lemma_apply_job_ok;
use vstd::prelude::*;
use vstd::utf8::encode_utf8;

verus! {

/// The job that reports pattern 0.
pub open spec fn report() -> WordJob {
    WordJob::DoMatch { id: StrexId(0) }
}

/// The job that starts chain 0.
pub open spec fn start0() -> WordJob {
    WordJob::StartChain { id: ChainId(0), pre_condition: None }
}

/// The job that moves chain 0 on from step 1.
pub open spec fn step0() -> WordJob {
    WordJob::StepChain { id: ChainId(0), step: StepId(1) }
}

/// Chain 0 is live.
pub open spec fn live(st: RunState) -> bool {
    st.states.contains_key(0)
}

/// The jobs of a list of one job are that job.
proof fn lemma_apply_one(p: Program, st: RunState, job: WordJob)
    ensures
        apply_jobs(p, st, seq![job]) == apply_job(p, st, job),
{
    let one = seq![job];
    assert(one.last() == job);
    assert(one.drop_last() =~= Seq::<WordJob>::empty());
    let after = apply_job(p, st, job);
    assert(apply_jobs(p, after, Seq::<WordJob>::empty()) == after);
}

/// A tree without concatenations and gaps: a word, or an alternation of
/// such trees.
pub open spec fn flat(h: Hir) -> bool
    decreases h,
{
    match h {
        Hir::Literal(w) => w.len() > 0,
        Hir::Or(xs) => forall|i: int| 0 <= i < xs.len() ==> flat(#[trigger] xs[i]),
        _ => false,
    }
}

/// Two flat trees with a gap between them.
pub open spec fn wide_gap(h0: Hir, h1: Hir) -> Hir {
    Hir::Concat(seq![h0, Hir::Wild, h1])
}

/// How often `t` is listed in `ws`.
pub open spec fn times(ws: Seq<Seq<char>>, t: Seq<char>) -> nat
    decreases ws.len(),
{
    if ws.len() == 0 {
        0
    } else {
        times(ws.drop_first(), t) + if ws[0] == t {
            1nat
        } else {
            0nat
        }
    }
}

/// The list of `n` times the job.
pub open spec fn copies(job: WordJob, n: nat) -> Seq<WordJob> {
    Seq::new(n, |i: int| job)
}

/// The piece is the encoding of a word of the list.
pub open spec fn encodes_one_of(ws: Seq<Seq<char>>, piece: Seq<u8>) -> bool {
    exists|k: int| 0 <= k < ws.len() && piece == encode_utf8(#[trigger] ws[k])
}

proof fn lemma_times_concat(a: Seq<Seq<char>>, b: Seq<Seq<char>>, t: Seq<char>)
    ensures
        times(a + b, t) == times(a, t) + times(b, t),
    decreases a.len(),
{
    if a.len() == 0 {
        assert(a + b =~= b);
    } else {
        assert((a + b)[0] == a[0]);
        assert((a + b).drop_first() =~= a.drop_first() + b);
        lemma_times_concat(a.drop_first(), b, t);
    }
}

/// A text is listed at least once exactly if it stands in the list.
proof fn lemma_times_positive(ws: Seq<Seq<char>>, t: Seq<char>)
    ensures
        times(ws, t) > 0 <==> exists|k: int| 0 <= k < ws.len() && #[trigger] ws[k] == t,
    decreases ws.len(),
{
    if ws.len() > 0 {
        let rest = ws.drop_first();
        lemma_times_positive(rest, t);
        if times(ws, t) > 0 {
            if ws[0] == t {
            } else {
                let k = choose|k: int| 0 <= k < rest.len() && #[trigger] rest[k] == t;
                assert(ws[k + 1] == t);
            }
        }
        if exists|k: int| 0 <= k < ws.len() && #[trigger] ws[k] == t {
            let k = choose|k: int| 0 <= k < ws.len() && #[trigger] ws[k] == t;
            if k > 0 {
                assert(rest[k - 1] == t);
            }
        }
    }
}

proof fn lemma_copies_sum(job: WordJob, m: nat, n: nat)
    ensures
        copies(job, m) + copies(job, n) == copies(job, m + n),
{
    assert(copies(job, m) + copies(job, n) =~= copies(job, m + n));
}

/// A flat tree can be lowered and fits, and each of its words is not empty.
proof fn lemma_flat(h: Hir)
    requires
        flat(h),
    ensures
        lower_error(h) is None,
        tree_fits(h),
        !(h is Wild),
        forall|k: int| 0 <= k < words_of(h).len() ==> (#[trigger] words_of(h)[k]).len() > 0,
    decreases h, 0int,
{
    match h {
        Hir::Literal(w) => {
            assert(words_of(h) == seq![w]);
        },
        Hir::Or(xs) => {
            lemma_flat_all(xs);
            assert(words_of(h) == words_of_all(xs));
        },
        _ => {},
    }
}

proof fn lemma_flat_all(xs: Seq<Hir>)
    requires
        forall|i: int| 0 <= i < xs.len() ==> flat(#[trigger] xs[i]),
    ensures
        lower_error_any(xs) is None,
        forall|i: int| 0 <= i < xs.len() ==> tree_fits(#[trigger] xs[i]),
        forall|k: int|
            0 <= k < words_of_all(xs).len() ==> (#[trigger] words_of_all(xs)[k]).len() > 0,
    decreases xs, 1int,
{
    if xs.len() > 0 {
        let rest = xs.drop_first();
        lemma_flat(xs[0]);
        assert forall|i: int| 0 <= i < rest.len() implies flat(#[trigger] rest[i]) by {
            assert(rest[i] == xs[i + 1]);
        }
        lemma_flat_all(rest);
        assert forall|i: int| 0 <= i < xs.len() implies tree_fits(#[trigger] xs[i]) by {
            if i > 0 {
                assert(rest[i - 1] == xs[i]);
            }
        }
        let all = words_of_all(xs);
        let head = words_of(xs[0]);
        assert forall|k: int| 0 <= k < all.len() implies (#[trigger] all[k]).len() > 0 by {
            if k < head.len() {
                assert(all[k] == head[k]);
            } else {
                assert(all[k] == words_of_all(rest)[k - head.len()]);
            }
        }
    }
}

/// Lowering a flat tree adds no chain, and gives each word one more job for
/// each time that the tree lists it.
proof fn lemma_lower_flat(p: Program, h: Hir, job: WordJob)
    requires
        aligned(p),
        flat(h),
    ensures
        aligned(lower(p, h, job)),
        lower(p, h, job).chains == p.chains,
        lower(p, h, job).count == p.count,
        forall|t: Seq<char>| #[trigger]
            jobs_of(lower(p, h, job), t) == jobs_of(p, t) + copies(job, times(words_of(h), t)),
    decreases h, 0int,
{
    let q = lower(p, h, job);
    match h {
        Hir::Literal(w) => {
            lemma_attach_jobs(p, w, job);
            let ws = words_of(h);
            assert(ws.drop_first() =~= Seq::<Seq<char>>::empty());
            assert forall|t: Seq<char>| #[trigger]
                jobs_of(q, t) == jobs_of(p, t) + copies(job, times(ws, t)) by {
                assert(times(ws.drop_first(), t) == 0);
                if t == w {
                    assert(jobs_of(p, w).push(job) =~= jobs_of(p, w) + copies(job, 1));
                } else {
                    assert(jobs_of(p, t) + copies(job, 0) =~= jobs_of(p, t));
                }
            }
        },
        Hir::Or(xs) => {
            lemma_lower_each_flat(p, xs, job);
        },
        _ => {},
    }
}

proof fn lemma_lower_each_flat(p: Program, xs: Seq<Hir>, job: WordJob)
    requires
        aligned(p),
        forall|i: int| 0 <= i < xs.len() ==> flat(#[trigger] xs[i]),
    ensures
        aligned(lower_each(p, xs, job)),
        lower_each(p, xs, job).chains == p.chains,
        lower_each(p, xs, job).count == p.count,
        forall|t: Seq<char>| #[trigger]
            jobs_of(lower_each(p, xs, job), t) == jobs_of(p, t) + copies(
                job,
                times(words_of_all(xs), t),
            ),
    decreases xs, 1int,
{
    let q = lower_each(p, xs, job);
    if xs.len() == 0 {
        assert forall|t: Seq<char>| #[trigger]
            jobs_of(q, t) == jobs_of(p, t) + copies(job, times(words_of_all(xs), t)) by {
            assert(jobs_of(p, t) + copies(job, 0) =~= jobs_of(p, t));
        }
    } else {
        let rest = xs.drop_first();
        let next = lower(p, xs[0], job);
        lemma_lower_flat(p, xs[0], job);
        assert forall|i: int| 0 <= i < rest.len() implies flat(#[trigger] rest[i]) by {
            assert(rest[i] == xs[i + 1]);
        }
        lemma_lower_each_flat(next, rest, job);
        assert forall|t: Seq<char>| #[trigger]
            jobs_of(q, t) == jobs_of(p, t) + copies(job, times(words_of_all(xs), t)) by {
            let m = times(words_of(xs[0]), t);
            let n = times(words_of_all(rest), t);
            lemma_times_concat(words_of(xs[0]), words_of_all(rest), t);
            lemma_copies_sum(job, m, n);
            assert(jobs_of(next, t) == jobs_of(p, t) + copies(job, m));
            assert(jobs_of(q, t) == jobs_of(next, t) + copies(job, n));
            assert((jobs_of(p, t) + copies(job, m)) + copies(job, n) =~= jobs_of(p, t) + (copies(
                job,
                m,
            ) + copies(job, n)));
        }
    }
}

/// A job that changes nothing when it is run a second time, run any number
/// of times from once on, does what it does when it is run once.
proof fn lemma_copies_once(p: Program, st: RunState, job: WordJob, n: nat)
    requires
        n >= 1,
        forall|x: RunState| #[trigger]
            apply_job(p, apply_job(p, x, job), job) == apply_job(p, x, job),
    ensures
        apply_jobs(p, st, copies(job, n)) == apply_job(p, st, job),
    decreases n,
{
    let list = copies(job, n);
    assert(list.last() == job);
    if n == 1 {
        assert(list =~= seq![job]);
        lemma_apply_one(p, st, job);
    } else {
        assert(list.drop_last() =~= copies(job, (n - 1) as nat));
        lemma_copies_once(p, apply_job(p, st, job), job, (n - 1) as nat);
    }
}

/// Selecting from copies of one job gives them all or none.
proof fn lemma_select_copies(job: WordJob, n: nat, starting: bool)
    ensures
        select(copies(job, n), starting) == if starts(job) == starting {
            copies(job, n)
        } else {
            Seq::<WordJob>::empty()
        },
    decreases n,
{
    let list = copies(job, n);
    if n > 0 {
        assert(list.last() == job);
        assert(list.drop_last() =~= copies(job, (n - 1) as nat));
        lemma_select_copies(job, (n - 1) as nat, starting);
        if starts(job) == starting {
            assert(copies(job, (n - 1) as nat).push(job) =~= list);
        }
    } else {
        assert(list =~= Seq::<WordJob>::empty());
    }
}

/// The entries hold one of the words of the list, for the given kind of
/// job.
pub open spec fn among_any(ps: Seq<(Seq<u8>, bool)>, ws: Seq<Seq<char>>, starting: bool) -> bool
    decreases ps.len(),
{
    ps.len() > 0 && ((ps[0].1 == starting && encodes_one_of(ws, ps[0].0)) || among_any(
        ps.drop_first(),
        ws,
        starting,
    ))
}

/// The entries hold a word of the first list for its starting jobs and,
/// after it, a word of the second for its other jobs.
pub open spec fn among_pair_any(
    ps: Seq<(Seq<u8>, bool)>,
    ws0: Seq<Seq<char>>,
    ws1: Seq<Seq<char>>,
) -> bool
    decreases ps.len(),
{
    ps.len() > 0 && ((ps[0].1 && encodes_one_of(ws0, ps[0].0) && among_any(
        ps.drop_first(),
        ws1,
        false,
    )) || among_pair_any(ps.drop_first(), ws0, ws1))
}

proof fn lemma_among_any(ps: Seq<(Seq<u8>, bool)>, ws: Seq<Seq<char>>, starting: bool)
    ensures
        among_any(ps, ws, starting) <==> exists|k: int|
            0 <= k < ws.len() && among(ps, encode_utf8(#[trigger] ws[k]), starting),
    decreases ps.len(),
{
    if ps.len() > 0 {
        let rest = ps.drop_first();
        lemma_among_any(rest, ws, starting);
        if among_any(ps, ws, starting) {
            if ps[0].1 == starting && encodes_one_of(ws, ps[0].0) {
                let k = choose|k: int|
                    0 <= k < ws.len() && ps[0].0 == encode_utf8(#[trigger] ws[k]);
                assert(ps[0] == (encode_utf8(ws[k]), starting));
                assert(among(ps, encode_utf8(ws[k]), starting));
            } else {
                let k = choose|k: int|
                    0 <= k < ws.len() && among(rest, encode_utf8(#[trigger] ws[k]), starting);
                assert(among(ps, encode_utf8(ws[k]), starting));
            }
        }
        if exists|k: int| 0 <= k < ws.len() && among(ps, encode_utf8(#[trigger] ws[k]), starting) {
            let k = choose|k: int|
                0 <= k < ws.len() && among(ps, encode_utf8(#[trigger] ws[k]), starting);
            if ps[0] == (encode_utf8(ws[k]), starting) {
                assert(encodes_one_of(ws, ps[0].0));
            } else {
                assert(among(rest, encode_utf8(ws[k]), starting));
            }
        }
    }
}

proof fn lemma_among_pair_any(ps: Seq<(Seq<u8>, bool)>, ws0: Seq<Seq<char>>, ws1: Seq<Seq<char>>)
    ensures
        among_pair_any(ps, ws0, ws1) <==> exists|k0: int, k1: int|
            0 <= k0 < ws0.len() && 0 <= k1 < ws1.len() && among_pair(
                ps,
                encode_utf8(#[trigger] ws0[k0]),
                encode_utf8(#[trigger] ws1[k1]),
            ),
    decreases ps.len(),
{
    if ps.len() > 0 {
        let rest = ps.drop_first();
        lemma_among_pair_any(rest, ws0, ws1);
        lemma_among_any(rest, ws1, false);
        if among_pair_any(ps, ws0, ws1) {
            if ps[0].1 && encodes_one_of(ws0, ps[0].0) && among_any(rest, ws1, false) {
                let k0 = choose|k: int|
                    0 <= k < ws0.len() && ps[0].0 == encode_utf8(#[trigger] ws0[k]);
                let k1 = choose|k: int|
                    0 <= k < ws1.len() && among(rest, encode_utf8(#[trigger] ws1[k]), false);
                assert(ps[0] == (encode_utf8(ws0[k0]), true));
                assert(among_pair(ps, encode_utf8(ws0[k0]), encode_utf8(ws1[k1])));
            } else {
                let (k0, k1) = choose|k0: int, k1: int|
                    0 <= k0 < ws0.len() && 0 <= k1 < ws1.len() && among_pair(
                        rest,
                        encode_utf8(#[trigger] ws0[k0]),
                        encode_utf8(#[trigger] ws1[k1]),
                    );
                assert(among_pair(ps, encode_utf8(ws0[k0]), encode_utf8(ws1[k1])));
            }
        }
        if exists|k0: int, k1: int|
            0 <= k0 < ws0.len() && 0 <= k1 < ws1.len() && among_pair(
                ps,
                encode_utf8(#[trigger] ws0[k0]),
                encode_utf8(#[trigger] ws1[k1]),
            ) {
            let (k0, k1) = choose|k0: int, k1: int|
                0 <= k0 < ws0.len() && 0 <= k1 < ws1.len() && among_pair(
                    ps,
                    encode_utf8(#[trigger] ws0[k0]),
                    encode_utf8(#[trigger] ws1[k1]),
                );
            let a = encode_utf8(ws0[k0]);
            let b = encode_utf8(ws1[k1]);
            if ps[0] == (a, true) && among(rest, b, false) {
                assert(encodes_one_of(ws0, ps[0].0));
                assert(among_any(rest, ws1, false));
            } else {
                assert(among_pair(rest, a, b));
            }
        }
    }
}

/// The jobs that a program has for a piece, where each text has as many
/// copies of one job as a list of words lists it, and then as many copies of
/// another as a second list lists it.
proof fn lemma_jobs_at_copies(
    s: Program,
    first: WordJob,
    ws0: Seq<Seq<char>>,
    second: WordJob,
    ws1: Seq<Seq<char>>,
    piece: Seq<u8>,
)
    requires
        s.wf(),
        forall|t: Seq<char>| #[trigger]
            jobs_of(s, t) == copies(first, times(ws0, t)) + copies(second, times(ws1, t)),
    ensures
        exists|m: nat, n: nat|
            #![trigger copies(first, m), copies(second, n)]
            jobs_at(s, piece) == copies(first, m) + copies(second, n) && (m > 0
                <==> encodes_one_of(ws0, piece)) && (n > 0 <==> encodes_one_of(ws1, piece)),
{
    lemma_jobs_at(s, piece);
    match piece_text(piece) {
        Some(t) => {
            lemma_piece_is(piece, t);
            let m = times(ws0, t);
            let n = times(ws1, t);
            lemma_times_positive(ws0, t);
            lemma_times_positive(ws1, t);
            assert(m > 0 <==> encodes_one_of(ws0, piece)) by {
                if m > 0 {
                    let k = choose|k: int| 0 <= k < ws0.len() && #[trigger] ws0[k] == t;
                    assert(piece == encode_utf8(ws0[k]));
                }
                if encodes_one_of(ws0, piece) {
                    let k = choose|k: int|
                        0 <= k < ws0.len() && piece == encode_utf8(#[trigger] ws0[k]);
                    lemma_piece_is(piece, ws0[k]);
                    assert(ws0[k] == t);
                }
            }
            assert(n > 0 <==> encodes_one_of(ws1, piece)) by {
                if n > 0 {
                    let k = choose|k: int| 0 <= k < ws1.len() && #[trigger] ws1[k] == t;
                    assert(piece == encode_utf8(ws1[k]));
                }
                if encodes_one_of(ws1, piece) {
                    let k = choose|k: int|
                        0 <= k < ws1.len() && piece == encode_utf8(#[trigger] ws1[k]);
                    lemma_piece_is(piece, ws1[k]);
                    assert(ws1[k] == t);
                }
            }
            assert(jobs_at(s, piece) == copies(first, m) + copies(second, n));
        },
        None => {
            assert(!encodes_one_of(ws0, piece)) by {
                if encodes_one_of(ws0, piece) {
                    let k = choose|k: int|
                        0 <= k < ws0.len() && piece == encode_utf8(#[trigger] ws0[k]);
                    lemma_piece_is(piece, ws0[k]);
                }
            }
            assert(!encodes_one_of(ws1, piece)) by {
                if encodes_one_of(ws1, piece) {
                    let k = choose|k: int|
                        0 <= k < ws1.len() && piece == encode_utf8(#[trigger] ws1[k]);
                    lemma_piece_is(piece, ws1[k]);
                }
            }
            assert(jobs_at(s, piece) =~= copies(first, 0) + copies(second, 0));
        },
    }
}

/// The program of two flat trees with a gap between them has one chain,
/// which completes at step 2 into the report of the pattern; each word of
/// the first tree starts the chain, each word of the second moves it on.
proof fn lemma_single_wide(h0: Hir, h1: Hir)
    requires
        flat(h0),
        flat(h1),
    ensures
        single(wide_gap(h0, h1)).wf(),
        lower_error(wide_gap(h0, h1)) is None,
        tree_fits(wide_gap(h0, h1)),
        single(wide_gap(h0, h1)).chains.len() == 1,
        single(wide_gap(h0, h1)).chains[0].final_step == StepId(2),
        single(wide_gap(h0, h1)).chains[0].result == report(),
        single(wide_gap(h0, h1)).chains[0].sub_chains.len() == 0,
        forall|t: Seq<char>| #[trigger]
            jobs_of(single(wide_gap(h0, h1)), t) == copies(start0(), times(words_of(h0), t))
                + copies(step0(), times(words_of(h1), t)),
{
    let blank = with_next_id(empty_program());
    let xs = seq![h0, Hir::Wild, h1];
    let tail = xs.drop_first();
    let last = tail.drop_first();
    lemma_flat(h0);
    lemma_flat(h1);
    assert(xs[0] == h0);
    assert(tail[0] == Hir::Wild);
    assert(last[0] == h1);
    assert(last.drop_first() =~= Seq::<Hir>::empty());
    assert(count_non_wild(last.drop_first()) == 0);
    assert(count_non_wild(last) == 1);
    assert(count_non_wild(tail) == 1);
    assert(lower_error_tail(last.drop_first()) is None);
    assert(lower_error_tail(last) is None);
    assert(lower_error_tail(tail) is None);
    assert(lower_error(wide_gap(h0, h1)) is None);
    assert(tree_fits(wide_gap(h0, h1))) by {
        assert forall|i: int| 0 <= i < xs.len() implies tree_fits(#[trigger] xs[i]) by {}
    }
    let id = ChainId(0);
    let opened = open_chain(blank, 1, report());
    let started = lower(opened, h0, start0());
    let stepped = lower(started, h1, step0());
    let s = single(wide_gap(h0, h1));
    lemma_open_chain_jobs(blank, 1, report());
    lemma_lower_flat(opened, h0, start0());
    lemma_lower_flat(started, h1, step0());
    assert(lower_steps(stepped, last.drop_first(), id, 2) == stepped);
    assert(lower_steps(started, last, id, 1) == stepped);
    assert(lower_steps(started, tail, id, 1) == stepped);
    assert(s == stepped);
    lemma_add_pattern_wf(empty_program(), wide_gap(h0, h1));
    assert forall|t: Seq<char>| #[trigger]
        jobs_of(s, t) == copies(start0(), times(words_of(h0), t)) + copies(
            step0(),
            times(words_of(h1), t),
        ) by {
        assert(jobs_of(blank, t) =~= Seq::<WordJob>::empty());
        assert(jobs_of(opened, t) == jobs_of(blank, t));
        assert(jobs_of(s, t) =~= copies(start0(), times(words_of(h0), t)) + copies(
            step0(),
            times(words_of(h1), t),
        ));
    }
}

/// What one entry does to a scan of two flat trees with a gap between
/// them: for its other jobs, a word of the second tree reports the pattern
/// and retires the chain if the chain is live; for its starting jobs, a word
/// of the first tree makes the chain live.
proof fn lemma_wide_step(h0: Hir, h1: Hir, st: RunState, entry: (Seq<u8>, bool))
    requires
        flat(h0),
        flat(h1),
        state_ok(single(wide_gap(h0, h1)), st),
    ensures
        ({
            let s = single(wide_gap(h0, h1));
            let next = apply_jobs(s, st, jobs_for(s, entry));
            let steps = !entry.1 && encodes_one_of(words_of(h1), entry.0);
            let begins = entry.1 && encodes_one_of(words_of(h0), entry.0);
            &&& state_ok(s, next)
            &&& next.matches.contains(0) <==> st.matches.contains(0) || (live(st) && steps)
            &&& live(next) <==> begins || (live(st) && !steps)
        }),
{
    let s = single(wide_gap(h0, h1));
    let piece = entry.0;
    lemma_single_wide(h0, h1);
    lemma_jobs_at_copies(s, start0(), words_of(h0), step0(), words_of(h1), piece);
    let (m, n) = choose|m: nat, n: nat|
        #![trigger copies(start0(), m), copies(step0(), n)]
        jobs_at(s, piece) == copies(start0(), m) + copies(step0(), n) && (m > 0
            <==> encodes_one_of(words_of(h0), piece)) && (n > 0 <==> encodes_one_of(
            words_of(h1),
            piece,
        ));
    lemma_select_concat(copies(start0(), m), copies(step0(), n), entry.1);
    lemma_select_copies(start0(), m, entry.1);
    lemma_select_copies(step0(), n, entry.1);
    let none = Seq::<WordJob>::empty();
    if entry.1 {
        assert(jobs_for(s, entry) =~= copies(start0(), m));
        // a second start puts the chain where it is
        assert forall|x: RunState| #[trigger]
            apply_job(s, apply_job(s, x, start0()), start0()) == apply_job(s, x, start0()) by {
            let once = apply_job(s, x, start0());
            assert(once == enter(s, x, ChainId(0), 1));
            assert(once.states.insert(0, 1) =~= once.states);
        }
        if m > 0 {
            lemma_copies_once(s, st, start0(), m);
            assert(apply_job(s, st, start0()) == enter(s, st, ChainId(0), 1));
            lemma_apply_job_ok(s, st, start0());
        } else {
            assert(copies(start0(), 0) =~= none);
        }
    } else {
        assert(jobs_for(s, entry) =~= copies(step0(), n));
        // a second step finds the chain dead or not at step 1
        assert forall|x: RunState| #[trigger]
            apply_job(s, apply_job(s, x, step0()), step0()) == apply_job(s, x, step0()) by {
            let once = apply_job(s, x, step0());
            if x.states.contains_key(0) && x.states[0] == 1 {
                let entered = x.states.insert(0, 2);
                assert(kill_subs(s, entered.remove(0), 0, 0) == entered.remove(0));
                assert(kill(s, entered, 0) == entered.remove(0));
                assert(job_rank(report()) == 0);
                let retired = RunState { states: entered.remove(0), ..x };
                assert(enter(s, x, ChainId(0), 2) == apply_job(s, retired, report()));
                assert(once == enter(s, x, ChainId(0), 2));
                assert(!once.states.contains_key(0));
            } else {
                assert(once == x);
            }
        }
        if n > 0 {
            lemma_copies_once(s, st, step0(), n);
            lemma_apply_job_ok(s, st, step0());
            if live(st) {
                assert(st.states[0] == 1);
                let entered = st.states.insert(0, 2);
                assert(kill_subs(s, entered.remove(0), 0, 0) == entered.remove(0));
                assert(kill(s, entered, 0) == entered.remove(0));
                let retired = RunState { states: entered.remove(0), ..st };
                assert(job_rank(report()) == 0);
                assert(enter(s, st, ChainId(0), 2) == apply_job(s, retired, report()));
                assert(apply_job(s, st, step0()) == enter(s, st, ChainId(0), 2));
            }
        } else {
            assert(copies(step0(), 0) =~= none);
        }
    }
}

proof fn lemma_wide_run(h0: Hir, h1: Hir, st: RunState, ps: Seq<(Seq<u8>, bool)>)
    requires
        flat(h0),
        flat(h1),
        state_ok(single(wide_gap(h0, h1)), st),
    ensures
        run_pieces(single(wide_gap(h0, h1)), st, ps).matches.contains(0) <==> st.matches.contains(0)
            || (live(st) && among_any(ps, words_of(h1), false)) || among_pair_any(
            ps,
            words_of(h0),
            words_of(h1),
        ),
    decreases ps.len(),
{
    let s = single(wide_gap(h0, h1));
    if ps.len() > 0 {
        lemma_wide_step(h0, h1, st, ps[0]);
        lemma_wide_run(h0, h1, apply_jobs(s, st, jobs_for(s, ps[0])), ps.drop_first());
    }
}

/// Two flat trees with a gap between them match exactly where a word of
/// the first stands at an offset and a word of the second at a later
/// offset.
pub proof fn lemma_wide_gap_matches(h0: Hir, h1: Hir, haystack: Seq<u8>)
    requires
        flat(h0),
        flat(h1),
    ensures
        matched(single(wide_gap(h0, h1)), haystack).contains(0) <==> exists|
            k0: int,
            k1: int,
            i: int,
            j: int,
        |
            0 <= k0 < words_of(h0).len() && 0 <= k1 < words_of(h1).len() && #[trigger] in_order(
                haystack,
                encode_utf8(words_of(h0)[k0]),
                i,
                encode_utf8(words_of(h1)[k1]),
                j,
            ),
{
    let ws0 = words_of(h0);
    let ws1 = words_of(h1);
    let ps = pieces(haystack);
    lemma_single_wide(h0, h1);
    lemma_flat(h0);
    lemma_flat(h1);
    lemma_wide_run(h0, h1, initial_state(), ps);
    lemma_among_pair_any(ps, ws0, ws1);
    if among_pair_any(ps, ws0, ws1) {
        let (k0, k1) = choose|k0: int, k1: int|
            0 <= k0 < ws0.len() && 0 <= k1 < ws1.len() && among_pair(
                ps,
                encode_utf8(#[trigger] ws0[k0]),
                encode_utf8(#[trigger] ws1[k1]),
            );
        let a = encode_utf8(ws0[k0]);
        let b = encode_utf8(ws1[k1]);
        lemma_encoding_not_empty(ws0[k0]);
        lemma_encoding_not_empty(ws1[k1]);
        lemma_pair_upto(haystack, haystack.len() as int, a, b);
        let (i, j) = choose|i: int, j: int|
            j < haystack.len() && #[trigger] in_order(haystack, a, i, b, j);
        assert(in_order(haystack, encode_utf8(ws0[k0]), i, encode_utf8(ws1[k1]), j));
    }
    if exists|k0: int, k1: int, i: int, j: int|
        0 <= k0 < ws0.len() && 0 <= k1 < ws1.len() && #[trigger] in_order(
            haystack,
            encode_utf8(ws0[k0]),
            i,
            encode_utf8(ws1[k1]),
            j,
        ) {
        let (k0, k1, i, j) = choose|k0: int, k1: int, i: int, j: int|
            0 <= k0 < ws0.len() && 0 <= k1 < ws1.len() && #[trigger] in_order(
                haystack,
                encode_utf8(ws0[k0]),
                i,
                encode_utf8(ws1[k1]),
                j,
            );
        let a = encode_utf8(ws0[k0]);
        let b = encode_utf8(ws1[k1]);
        lemma_encoding_not_empty(ws0[k0]);
        lemma_encoding_not_empty(ws1[k1]);
        lemma_pair_upto(haystack, haystack.len() as int, a, b);
        assert(j < haystack.len() && in_order(haystack, a, i, b, j));
        assert(among_pair(ps, encode_utf8(ws0[k0]), encode_utf8(ws1[k1])));
    }
}

/// The program of a flat tree has no chains, and each of its words reports
/// the pattern.
proof fn lemma_single_flat(h: Hir)
    requires
        flat(h),
    ensures
        single(h).wf(),
        single(h).chains.len() == 0,
        forall|t: Seq<char>| #[trigger]
            jobs_of(single(h), t) == copies(report(), times(words_of(h), t)) + copies(
                report(),
                0,
            ),
{
    let blank = with_next_id(empty_program());
    let s = single(h);
    lemma_flat(h);
    lemma_lower_flat(blank, h, report());
    lemma_add_pattern_wf(empty_program(), h);
    assert forall|t: Seq<char>| #[trigger]
        jobs_of(s, t) == copies(report(), times(words_of(h), t)) + copies(report(), 0) by {
        assert(jobs_of(blank, t) =~= Seq::<WordJob>::empty());
        assert(jobs_of(s, t) =~= copies(report(), times(words_of(h), t)) + copies(report(), 0));
    }
}

proof fn lemma_flat_run(h: Hir, st: RunState, ps: Seq<(Seq<u8>, bool)>)
    requires
        flat(h),
    ensures
        run_pieces(single(h), st, ps).matches.contains(0) <==> st.matches.contains(0) || among_any(
            ps,
            words_of(h),
            false,
        ),
    decreases ps.len(),
{
    let s = single(h);
    if ps.len() > 0 {
        let piece = ps[0].0;
        lemma_single_flat(h);
        lemma_jobs_at_copies(s, report(), words_of(h), report(), Seq::empty(), piece);
        let (m, n) = choose|m: nat, n: nat|
            #![trigger copies(report(), m), copies(report(), n)]
            jobs_at(s, piece) == copies(report(), m) + copies(report(), n) && (m > 0
                <==> encodes_one_of(words_of(h), piece)) && (n > 0 <==> encodes_one_of(
                Seq::empty(),
                piece,
            ));
        assert(n == 0);
        assert(copies(report(), m) + copies(report(), 0) =~= copies(report(), m));
        lemma_select_copies(report(), m, ps[0].1);
        let next = apply_jobs(s, st, jobs_for(s, ps[0]));
        assert forall|x: RunState| #[trigger]
            apply_job(s, apply_job(s, x, report()), report()) == apply_job(s, x, report()) by {
            let once = apply_job(s, x, report());
            assert(once.matches.insert(0) =~= once.matches);
        }
        if m > 0 && !ps[0].1 {
            lemma_copies_once(s, st, report(), m);
            assert(next.matches.contains(0));
        } else {
            assert(jobs_for(s, ps[0]) =~= Seq::<WordJob>::empty());
            assert(next == st);
        }
        lemma_flat_run(h, next, ps.drop_first());
    }
}

/// A flat tree matches exactly where one of its words stands somewhere in
/// the haystack.
pub proof fn lemma_flat_matches(h: Hir, haystack: Seq<u8>)
    requires
        flat(h),
    ensures
        matched(single(h), haystack).contains(0) <==> exists|k: int, i: int|
            0 <= k < words_of(h).len() && #[trigger] occurs_at(
                encode_utf8(words_of(h)[k]),
                haystack,
                i,
            ),
{
    let ws = words_of(h);
    let ps = pieces(haystack);
    lemma_flat(h);
    lemma_flat_run(h, initial_state(), ps);
    lemma_among_any(ps, ws, false);
    if among_any(ps, ws, false) {
        let k = choose|k: int|
            0 <= k < ws.len() && among(ps, encode_utf8(#[trigger] ws[k]), false);
        let a = encode_utf8(ws[k]);
        lemma_encoding_not_empty(ws[k]);
        lemma_among_upto(haystack, haystack.len() as int, a, false);
        let i = choose|i: int| i < haystack.len() && #[trigger] occurs_at(a, haystack, i);
        assert(occurs_at(encode_utf8(ws[k]), haystack, i));
    }
    if exists|k: int, i: int|
        0 <= k < ws.len() && #[trigger] occurs_at(encode_utf8(ws[k]), haystack, i) {
        let (k, i) = choose|k: int, i: int|
            0 <= k < ws.len() && #[trigger] occurs_at(encode_utf8(ws[k]), haystack, i);
        let a = encode_utf8(ws[k]);
        lemma_encoding_not_empty(ws[k]);
        lemma_among_upto(haystack, haystack.len() as int, a, false);
        assert(i < haystack.len() && occurs_at(a, haystack, i));
        assert(among(ps, encode_utf8(ws[k]), false));
    }
}

} // verus!
