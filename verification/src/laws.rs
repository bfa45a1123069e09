//! What holds of every set of patterns and every haystack.

use crate::automaton::occurs_at;
use crate::gap::{gap, lemma_gap_matches, lemma_literal_matches};
use crate::hir::{tree_fits, words_of, Hir};
use crate::lowering::{
    lemma_add_pattern_wf, lemma_lower_wf, lemma_program_of_len, lemma_program_of_wf, program_of,
    single, trees_ok, with_next_id,
};
use crate::machine::{
    apply_job, apply_jobs, enter, initial_state, kill, kill_subs, state_ok, RunState,
};
use crate::order::in_order;
use crate::parts::{join, join_matches, jobs_of, shift_job, shift_jobs};
use crate::pieces::{
    jobs_at, jobs_for, lemma_jobs_for_ok, lemma_run_in_parts, matched, pieces, run_pieces,
};
use crate::program::{
    empty_program, lower, lower_each, lower_error, lower_error_any, lower_error_tail, ChainId,
    Program, StrexId, WordJob,
};
use crate::relocate::{
    aligned, lemma_lower_each_shape, lemma_lower_paired, lemma_lower_shape, paired,
};
use crate::steady::lemma_apply_jobs_ok;
use crate::wide::{flat, lemma_flat_matches, lemma_wide_gap_matches, wide_gap};
use vstd::prelude::*;

verus! {

/// Two programs that differ in their pattern count at most.
pub open spec fn same_code(p: Program, q: Program) -> bool {
    p.chains == q.chains && p.words == q.words && p.word_jobs == q.word_jobs
}

proof fn lemma_kill_same_code(p: Program, q: Program, states: Map<usize, usize>, c: usize)
    requires
        same_code(p, q),
    ensures
        kill(p, states, c) == kill(q, states, c),
    decreases p.chains.len() - c, 1int, 0int,
{
    if c < p.chains.len() && states.contains_key(c) {
        lemma_kill_subs_same_code(p, q, states.remove(c), c, 0);
    }
}

proof fn lemma_kill_subs_same_code(
    p: Program,
    q: Program,
    states: Map<usize, usize>,
    c: usize,
    k: int,
)
    requires
        same_code(p, q),
    ensures
        kill_subs(p, states, c, k) == kill_subs(q, states, c, k),
    decreases p.chains.len() - c, 0int, p.chains[c as int].sub_chains.len() - k,
{
    if c < p.chains.len() && 0 <= k < p.chains[c as int].sub_chains.len() {
        let sub = p.chains[c as int].sub_chains[k].0;
        let next = if c < sub < p.chains.len() {
            kill(p, states, sub)
        } else {
            states
        };
        if c < sub < p.chains.len() {
            lemma_kill_same_code(p, q, states, sub);
        }
        lemma_kill_subs_same_code(p, q, next, c, k + 1);
    }
}

proof fn lemma_enter_same_code(p: Program, q: Program, st: RunState, id: ChainId, step: usize)
    requires
        same_code(p, q),
    ensures
        enter(p, st, id, step) == enter(q, st, id, step),
    decreases id.0 + 1, 0int,
{
    if id.0 < p.chains.len() && step == p.chains[id.0 as int].final_step.0 {
        lemma_kill_same_code(p, q, st.states.insert(id.0, step), id.0);
        let retired = RunState { states: kill(p, st.states.insert(id.0, step), id.0), ..st };
        let result = p.chains[id.0 as int].result;
        if crate::machine::job_rank(result) <= id.0 {
            lemma_job_same_code(p, q, retired, result);
        }
    }
}

proof fn lemma_job_same_code(p: Program, q: Program, st: RunState, job: WordJob)
    requires
        same_code(p, q),
    ensures
        apply_job(p, st, job) == apply_job(q, st, job),
    decreases crate::machine::job_rank(job), 1int,
{
    match job {
        WordJob::DoMatch { id } => {},
        WordJob::StartChain { id, pre_condition } => {
            lemma_enter_same_code(p, q, st, id, 1);
        },
        WordJob::StepChain { id, step } => {
            if step.0 < usize::MAX {
                lemma_enter_same_code(p, q, st, id, (step.0 + 1) as usize);
            }
        },
    }
}

proof fn lemma_jobs_same_code(p: Program, q: Program, st: RunState, jobs: Seq<WordJob>)
    requires
        same_code(p, q),
    ensures
        apply_jobs(p, st, jobs) == apply_jobs(q, st, jobs),
    decreases jobs.len(),
{
    if jobs.len() > 0 {
        lemma_job_same_code(p, q, st, jobs.last());
        lemma_jobs_same_code(p, q, apply_job(p, st, jobs.last()), jobs.drop_last());
    }
}

/// A scan does not depend on how many patterns a program counts.
pub proof fn lemma_run_same_code(
    p: Program,
    q: Program,
    st: RunState,
    ps: Seq<(Seq<u8>, bool)>,
)
    requires
        same_code(p, q),
    ensures
        run_pieces(p, st, ps) == run_pieces(q, st, ps),
    decreases ps.len(),
{
    if ps.len() > 0 {
        lemma_jobs_same_code(p, q, st, jobs_for(p, ps[0]));
        lemma_run_same_code(p, q, apply_jobs(p, st, jobs_for(p, ps[0])), ps.drop_first());
    }
}

/// The state of a scan of a well-formed program stays in order.
pub proof fn lemma_run_pieces_ok(p: Program, st: RunState, ps: Seq<(Seq<u8>, bool)>)
    requires
        p.wf(),
        state_ok(p, st),
    ensures
        state_ok(p, run_pieces(p, st, ps)),
    decreases ps.len(),
{
    if ps.len() > 0 {
        lemma_jobs_for_ok(p, ps[0]);
        lemma_apply_jobs_ok(p, st, jobs_for(p, ps[0]));
        lemma_run_pieces_ok(p, apply_jobs(p, st, jobs_for(p, ps[0])), ps.drop_first());
    }
}

/// A scan of a program without words changes nothing.
pub proof fn lemma_run_no_words(p: Program, st: RunState, ps: Seq<(Seq<u8>, bool)>)
    requires
        p.words.len() == 0,
    ensures
        run_pieces(p, st, ps) == st,
    decreases ps.len(),
{
    if ps.len() > 0 {
        assert(jobs_at(p, ps[0].0) =~= Seq::<WordJob>::empty());
        assert(jobs_for(p, ps[0]) =~= Seq::<WordJob>::empty());
        lemma_run_no_words(p, st, ps.drop_first());
    }
}

/// The program without patterns in which one pattern id was handed out.
pub open spec fn blank() -> Program {
    with_next_id(empty_program())
}

/// A program is made of itself and of the blank program.
proof fn lemma_paired_with_blank(p: Program, c: nat)
    requires
        aligned(p),
        p.chains.len() <= usize::MAX,
        p.count <= usize::MAX,
        c + 1 <= p.count,
    ensures
        paired(p, p, blank(), c),
{
    let a = p.chains.len();
    assert forall|t: Seq<char>| #[trigger]
        jobs_of(p, t) == jobs_of(p, t) + shift_jobs(jobs_of(blank(), t), a, c) by {
        assert(jobs_of(blank(), t) =~= Seq::<WordJob>::empty());
        assert(jobs_of(p, t) + shift_jobs(jobs_of(blank(), t), a, c) =~= jobs_of(p, t));
    }
}

/// The state of the whole at the start of a scan is the states of the parts
/// at their start.
proof fn lemma_join_initial(a: nat, c: nat)
    ensures
        join(initial_state(), initial_state(), a, c) == initial_state(),
{
    let whole = join(initial_state(), initial_state(), a, c);
    assert(whole.states =~= initial_state().states);
    assert(whole.matches =~= initial_state().matches);
}

/// What lowering one more tree, to report pattern `c`, adds to what a scan
/// reports: pattern `c`, where the tree alone matches.
proof fn lemma_lower_adds(p: Program, h: Hir, c: nat, haystack: Seq<u8>)
    requires
        p.wf(),
        c + 1 <= p.count <= usize::MAX,
        lower_error(h) is None,
        tree_fits(h),
        lower(p, h, WordJob::DoMatch { id: StrexId(c as usize) }).chains.len() <= usize::MAX,
    ensures
        single(h).wf(),
        single(h).chains.len() <= usize::MAX,
        lower(p, h, WordJob::DoMatch { id: StrexId(c as usize) }).wf(),
        matched(lower(p, h, WordJob::DoMatch { id: StrexId(c as usize) }), haystack)
            == join_matches(matched(p, haystack), matched(single(h), haystack), c),
{
    let report = WordJob::DoMatch { id: StrexId(0) };
    let a = p.chains.len();
    let moved = WordJob::DoMatch { id: StrexId(c as usize) };
    assert(shift_job(report, a, c) == moved);
    let whole = lower(p, h, moved);
    lemma_lower_shape(p, h, moved);
    lemma_paired_with_blank(p, c);
    lemma_lower_paired(p, p, blank(), c, h, report);
    assert(single(h) == lower(blank(), h, report));
    lemma_add_pattern_wf(empty_program(), h);
    lemma_lower_wf(p, h, moved);
    lemma_join_initial(a, c);
    lemma_run_in_parts(
        whole,
        p,
        single(h),
        c,
        initial_state(),
        initial_state(),
        pieces(haystack),
    );
}

/// Whether a pattern of a set matches does not depend on the other patterns
/// of the set: it matches exactly if it matches as the only pattern of a
/// set.
pub proof fn lemma_pattern_alone(trees: Seq<Hir>, k: int, haystack: Seq<u8>)
    requires
        trees_ok(trees),
        trees.len() <= usize::MAX,
        program_of(trees).chains.len() <= usize::MAX,
        0 <= k < trees.len(),
    ensures
        matched(program_of(trees), haystack).contains(k as usize) <==> matched(
            single(trees[k]),
            haystack,
        ).contains(0),
        single(trees[k]).chains.len() <= usize::MAX,
    decreases trees.len(),
{
    let front = trees.drop_last();
    let before = program_of(front);
    let h = trees.last();
    let n = trees.len();
    let next = with_next_id(before);
    let report = WordJob::DoMatch { id: StrexId(before.count as usize) };
    assert(trees_ok(front)) by {
        assert forall|i: int| 0 <= i < front.len() implies lower_error(#[trigger] front[i])
            is None && tree_fits(front[i]) by {
            assert(front[i] == trees[i]);
        }
    }
    lemma_program_of_len(front);
    lemma_lower_shape(next, h, report);
    lemma_program_of_wf(front);
    lemma_add_pattern_wf(before, h);
    lemma_lower_adds(next, h, (n - 1) as nat, haystack);
    lemma_run_same_code(next, before, initial_state(), pieces(haystack));
    lemma_run_pieces_ok(before, initial_state(), pieces(haystack));
    lemma_run_pieces_ok(single(h), initial_state(), pieces(haystack));
    if k < n - 1 {
        lemma_pattern_alone(front, k, haystack);
        assert(front[k] == trees[k]);
    }
}

/// Two patterns of a set that are one and the same tree match together.
pub proof fn lemma_duplicates_match_together(trees: Seq<Hir>, i: int, j: int, haystack: Seq<u8>)
    requires
        trees_ok(trees),
        trees.len() <= usize::MAX,
        program_of(trees).chains.len() <= usize::MAX,
        0 <= i < trees.len(),
        0 <= j < trees.len(),
        trees[i] == trees[j],
    ensures
        matched(program_of(trees), haystack).contains(i as usize) <==> matched(
            program_of(trees),
            haystack,
        ).contains(j as usize),
{
    lemma_pattern_alone(trees, i, haystack);
    lemma_pattern_alone(trees, j, haystack);
}

/// Lowering the alternatives `xs` into a program that reports pattern 0
/// only makes pattern 0 match where it matched before or where one of the
/// alternatives matches alone.
proof fn lemma_alternatives(p: Program, xs: Seq<Hir>, haystack: Seq<u8>)
    requires
        p.wf(),
        p.count == 1,
        lower_error_any(xs) is None,
        forall|i: int| 0 <= i < xs.len() ==> tree_fits(#[trigger] xs[i]),
        lower_each(p, xs, WordJob::DoMatch { id: StrexId(0) }).chains.len() <= usize::MAX,
    ensures
        matched(lower_each(p, xs, WordJob::DoMatch { id: StrexId(0) }), haystack).contains(0) <==> (
        matched(p, haystack).contains(0) || exists|i: int|
            0 <= i < xs.len() && #[trigger] matched(single(xs[i]), haystack).contains(0)),
        forall|i: int| 0 <= i < xs.len() ==> (#[trigger] single(xs[i])).chains.len() <= usize::MAX,
    decreases xs.len(),
{
    let report = WordJob::DoMatch { id: StrexId(0) };
    if xs.len() > 0 {
        let rest = xs.drop_first();
        let next = lower(p, xs[0], report);
        lemma_lower_shape(p, xs[0], report);
        lemma_lower_each_shape(next, rest, report);
        lemma_lower_adds(p, xs[0], 0, haystack);
        assert forall|i: int| 0 <= i < rest.len() implies tree_fits(#[trigger] rest[i]) by {
            assert(rest[i] == xs[i + 1]);
        }
        lemma_alternatives(next, rest, haystack);
        assert forall|i: int| 0 <= i < xs.len() implies (#[trigger] single(xs[i])).chains.len()
            <= usize::MAX by {
            if i > 0 {
                assert(rest[i - 1] == xs[i]);
                assert(single(rest[i - 1]).chains.len() <= usize::MAX);
            }
        }
        let goal = lower_each(p, xs, report);
        if matched(goal, haystack).contains(0) {
            if !matched(p, haystack).contains(0) {
                if matched(single(xs[0]), haystack).contains(0) {
                } else {
                    let i = choose|i: int|
                        0 <= i < rest.len() && #[trigger] matched(
                            single(rest[i]),
                            haystack,
                        ).contains(0);
                    assert(rest[i] == xs[i + 1]);
                    assert(matched(single(xs[i + 1]), haystack).contains(0));
                }
            }
        }
        if exists|i: int|
            0 <= i < xs.len() && #[trigger] matched(single(xs[i]), haystack).contains(0) {
            let i = choose|i: int|
                0 <= i < xs.len() && #[trigger] matched(single(xs[i]), haystack).contains(0);
            if i > 0 {
                assert(rest[i - 1] == xs[i]);
                assert(matched(single(rest[i - 1]), haystack).contains(0));
            }
        }
    }
}

/// An alternation matches exactly if one of its alternatives does.
pub proof fn lemma_alternation(xs: Seq<Hir>, haystack: Seq<u8>)
    requires
        lower_error(Hir::Or(xs)) is None,
        tree_fits(Hir::Or(xs)),
        single(Hir::Or(xs)).chains.len() <= usize::MAX,
    ensures
        matched(single(Hir::Or(xs)), haystack).contains(0) <==> exists|i: int|
            0 <= i < xs.len() && #[trigger] matched(single(xs[i]), haystack).contains(0),
        forall|i: int| 0 <= i < xs.len() ==> (#[trigger] single(xs[i])).chains.len() <= usize::MAX,
{
    crate::builder::lemma_next_id(empty_program());
    lemma_run_no_words(blank(), initial_state(), pieces(haystack));
    lemma_alternatives(blank(), xs, haystack);
}

/// An alternation of two trees that can be lowered can be lowered.
pub proof fn lemma_two_alternatives(a: Hir, b: Hir)
    requires
        lower_error(a) is None,
        lower_error(b) is None,
    ensures
        lower_error(Hir::Or(seq![a, b])) is None,
{
    let both = seq![a, b];
    let tail = both.drop_first();
    assert(both[0] == a);
    assert(tail[0] == b);
    assert(tail.drop_first() =~= Seq::<Hir>::empty());
    assert(lower_error_any(tail.drop_first()) is None);
    assert(lower_error_any(tail) is None);
    assert(lower_error_any(both) is None);
}

/// The two trees in either order, as one alternation, match alike: the set
/// made of `a|b` reports what the set made of `b|a` reports.
pub proof fn lemma_alternation_commutes(a: Hir, b: Hir, haystack: Seq<u8>)
    requires
        lower_error(a) is None,
        lower_error(b) is None,
        tree_fits(a),
        tree_fits(b),
        single(Hir::Or(seq![a, b])).chains.len() <= usize::MAX,
        single(Hir::Or(seq![b, a])).chains.len() <= usize::MAX,
    ensures
        matched(single(Hir::Or(seq![a, b])), haystack) == matched(
            single(Hir::Or(seq![b, a])),
            haystack,
        ),
{
    let ab = seq![a, b];
    let ba = seq![b, a];
    lemma_two_alternatives(a, b);
    lemma_two_alternatives(b, a);
    lemma_alternation(ab, haystack);
    lemma_alternation(ba, haystack);
    let one = matched(single(Hir::Or(ab)), haystack);
    let other = matched(single(Hir::Or(ba)), haystack);
    assert(one.contains(0) <==> other.contains(0)) by {
        if one.contains(0) {
            let i = choose|i: int|
                0 <= i < ab.len() && #[trigger] matched(single(ab[i]), haystack).contains(0);
            assert(ba[1 - i] == ab[i]);
            assert(matched(single(ba[1 - i]), haystack).contains(0));
        }
        if other.contains(0) {
            let i = choose|i: int|
                0 <= i < ba.len() && #[trigger] matched(single(ba[i]), haystack).contains(0);
            assert(ab[1 - i] == ba[i]);
            assert(matched(single(ab[1 - i]), haystack).contains(0));
        }
    }
    lemma_add_pattern_wf(empty_program(), Hir::Or(ab));
    lemma_add_pattern_wf(empty_program(), Hir::Or(ba));
    lemma_run_pieces_ok(single(Hir::Or(ab)), initial_state(), pieces(haystack));
    lemma_run_pieces_ok(single(Hir::Or(ba)), initial_state(), pieces(haystack));
    assert(one =~= other) by {
        assert forall|m: usize| one.contains(m) <==> other.contains(m) by {
            if one.contains(m) {
                assert(m < 1);
            }
            if other.contains(m) {
                assert(m < 1);
            }
        }
    }
}

/// A literal of a set matches exactly where its word stands somewhere in
/// the haystack.
pub proof fn lemma_literal_in_set(trees: Seq<Hir>, k: int, w: Seq<char>, haystack: Seq<u8>)
    requires
        trees_ok(trees),
        trees.len() <= usize::MAX,
        program_of(trees).chains.len() <= usize::MAX,
        0 <= k < trees.len(),
        trees[k] == Hir::Literal(w),
    ensures
        matched(program_of(trees), haystack).contains(k as usize) <==> exists|i: int| #[trigger]
            occurs_at(vstd::utf8::encode_utf8(w), haystack, i),
{
    lemma_pattern_alone(trees, k, haystack);
    lemma_literal_matches(w, haystack);
}

/// Two literals with a gap between them, as a pattern of a set, match
/// exactly where the first word stands at an offset and the second at a
/// later offset.
pub proof fn lemma_gap_in_set(
    trees: Seq<Hir>,
    k: int,
    l1: Seq<char>,
    l2: Seq<char>,
    haystack: Seq<u8>,
)
    requires
        trees_ok(trees),
        trees.len() <= usize::MAX,
        program_of(trees).chains.len() <= usize::MAX,
        0 <= k < trees.len(),
        trees[k] == gap(l1, l2),
    ensures
        matched(program_of(trees), haystack).contains(k as usize) <==> exists|i: int, j: int|
            i < j && #[trigger] occurs_at(vstd::utf8::encode_utf8(l1), haystack, i)
                && #[trigger] occurs_at(vstd::utf8::encode_utf8(l2), haystack, j),
{
    lemma_pattern_alone(trees, k, haystack);
    let xs = trees[k]->Concat_0;
    assert(xs[0] == Hir::Literal(l1));
    assert(xs[2] == Hir::Literal(l2));
    assert(lower_error(xs[0]) is None);
    let tail = xs.drop_first();
    let last = tail.drop_first();
    assert(tail[0] == Hir::Wild);
    assert(last[0] == Hir::Literal(l2));
    assert(lower_error_tail(tail) == lower_error_tail(last));
    assert(l1.len() > 0);
    assert(l2.len() > 0) by {
        if l2.len() == 0 {
            assert(lower_error(last[0]) is Some);
            assert(lower_error_tail(last) is Some);
        }
    }
    lemma_gap_matches(l1, l2, haystack);
}

/// A pattern without nested concatenations: a flat tree, or two flat trees
/// with a gap between them.
pub open spec fn simple(h: Hir) -> bool {
    ||| flat(h)
    ||| exists|h0: Hir, h1: Hir| flat(h0) && flat(h1) && h == #[trigger] wide_gap(h0, h1)
}

/// A simple pattern, or an alternation of plain patterns.
pub open spec fn plain(h: Hir) -> bool
    decreases h,
{
    ||| simple(h)
    ||| h matches Hir::Or(xs) && forall|i: int| 0 <= i < xs.len() ==> plain(#[trigger] xs[i])
}

/// A word that stands in a haystack stands in every haystack that holds the
/// first as a part, further on by what stands before the part.
pub proof fn lemma_occurs_in_whole(
    word: Seq<u8>,
    part: Seq<u8>,
    before: Seq<u8>,
    after: Seq<u8>,
    i: int,
)
    requires
        occurs_at(word, part, i),
    ensures
        occurs_at(word, before + part + after, i + before.len()),
{
    let whole = before + part + after;
    let at = i + before.len();
    assert(whole.subrange(at, at + word.len()) =~= part.subrange(i, i + word.len()));
}

proof fn lemma_simple_in_whole(h: Hir, part: Seq<u8>, before: Seq<u8>, after: Seq<u8>)
    requires
        simple(h),
        matched(single(h), part).contains(0),
    ensures
        matched(single(h), before + part + after).contains(0),
{
    let whole = before + part + after;
    if flat(h) {
        let ws = words_of(h);
        lemma_flat_matches(h, part);
        lemma_flat_matches(h, whole);
        let (k, i) = choose|k: int, i: int|
            0 <= k < ws.len() && #[trigger] occurs_at(vstd::utf8::encode_utf8(ws[k]), part, i);
        lemma_occurs_in_whole(vstd::utf8::encode_utf8(ws[k]), part, before, after, i);
    } else {
        let (h0, h1) = choose|h0: Hir, h1: Hir|
            flat(h0) && flat(h1) && h == #[trigger] wide_gap(h0, h1);
        let ws0 = words_of(h0);
        let ws1 = words_of(h1);
        lemma_wide_gap_matches(h0, h1, part);
        lemma_wide_gap_matches(h0, h1, whole);
        let (k0, k1, i, j) = choose|k0: int, k1: int, i: int, j: int|
            0 <= k0 < ws0.len() && 0 <= k1 < ws1.len() && #[trigger] in_order(
                part,
                vstd::utf8::encode_utf8(ws0[k0]),
                i,
                vstd::utf8::encode_utf8(ws1[k1]),
                j,
            );
        let a = vstd::utf8::encode_utf8(ws0[k0]);
        let b = vstd::utf8::encode_utf8(ws1[k1]);
        lemma_occurs_in_whole(a, part, before, after, i);
        lemma_occurs_in_whole(b, part, before, after, j);
        assert(in_order(whole, a, i + before.len(), b, j + before.len()));
    }
}

/// A plain pattern that matches a haystack matches every haystack that
/// holds the first as a part.
pub proof fn lemma_plain_in_whole(h: Hir, part: Seq<u8>, before: Seq<u8>, after: Seq<u8>)
    requires
        plain(h),
        lower_error(h) is None,
        tree_fits(h),
        single(h).chains.len() <= usize::MAX,
        matched(single(h), part).contains(0),
    ensures
        matched(single(h), before + part + after).contains(0),
    decreases h,
{
    let whole = before + part + after;
    if simple(h) {
        lemma_simple_in_whole(h, part, before, after);
    } else {
        let xs = h->Or_0;
        lemma_alternation(xs, part);
        lemma_alternation(xs, whole);
        let i = choose|i: int|
            0 <= i < xs.len() && #[trigger] matched(single(xs[i]), part).contains(0);
        lemma_error_of_alternative(xs, i);
        lemma_plain_in_whole(xs[i], part, before, after);
    }
}

/// Each alternative of an alternation that can be lowered can be lowered.
pub proof fn lemma_error_of_alternative(xs: Seq<Hir>, i: int)
    requires
        lower_error_any(xs) is None,
        0 <= i < xs.len(),
    ensures
        lower_error(xs[i]) is None,
    decreases xs.len(),
{
    if i > 0 {
        assert(xs.drop_first()[i - 1] == xs[i]);
        lemma_error_of_alternative(xs.drop_first(), i - 1);
    }
}

/// A plain pattern of a set, whatever the other patterns of the set are,
/// that matches a haystack matches every haystack that holds the first as a
/// part.
///
/// This does not hold of every pattern. A later occurrence of the first
/// word of a concatenation puts its chain back at step 1, so a longer
/// haystack can undo what a part of it had reached: `bcx.*a.*c` matches
/// `bcx a bc` and does not match `bcx a bcx`.
pub proof fn lemma_pattern_matches_on(
    trees: Seq<Hir>,
    k: int,
    part: Seq<u8>,
    before: Seq<u8>,
    after: Seq<u8>,
)
    requires
        trees_ok(trees),
        trees.len() <= usize::MAX,
        program_of(trees).chains.len() <= usize::MAX,
        0 <= k < trees.len(),
        plain(trees[k]),
        matched(program_of(trees), part).contains(k as usize),
    ensures
        matched(program_of(trees), before + part + after).contains(k as usize),
{
    let whole = before + part + after;
    lemma_pattern_alone(trees, k, part);
    lemma_pattern_alone(trees, k, whole);
    lemma_plain_in_whole(trees[k], part, before, after);
}

/// Every pattern of a set of plain patterns that matches a haystack matches
/// every haystack that holds the first as a part.
pub proof fn lemma_more_haystack_matches_more(
    trees: Seq<Hir>,
    part: Seq<u8>,
    before: Seq<u8>,
    after: Seq<u8>,
)
    requires
        trees_ok(trees),
        trees.len() <= usize::MAX,
        program_of(trees).chains.len() <= usize::MAX,
        forall|k: int| 0 <= k < trees.len() ==> plain(#[trigger] trees[k]),
    ensures
        matched(program_of(trees), part).subset_of(
            matched(program_of(trees), before + part + after),
        ),
{
    let p = program_of(trees);
    let whole = before + part + after;
    lemma_program_of_wf(trees);
    lemma_run_pieces_ok(p, initial_state(), pieces(part));
    assert forall|m: usize| matched(p, part).contains(m) implies matched(p, whole).contains(m) by {
        assert(m < trees.len());
        lemma_pattern_matches_on(trees, m as int, part, before, after);
    }
}

} // verus!
