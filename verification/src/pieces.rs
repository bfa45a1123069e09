//! A scan told piece by piece: every piece of the haystack, by the offset at
//! which it starts, sets off the jobs of the word that it is, if it is one:
//! at each offset first the jobs that do not start a chain, then those that
//! do. This says what a scan does without numbering the
//! words, so that two programs can be held against each other.

use crate::automaton::encodings;
use crate::builder::lemma_position;
use crate::machine::{apply_jobs, half, initial_state, run, select, starts, RunState};
use crate::parts::{
    jobs_of, jobs_ok, join, joined, lemma_word_in_parts, parts_ok, shift_job, shift_jobs,
};
use crate::program::{job_ok, position, Program, WordJob};
use crate::relocate::aligned;
use crate::scan::{lemma_word_index, scan_order, scan_upto, word_index, words_from};
use crate::steady::lemma_select_ok;
use vstd::prelude::*;
use vstd::utf8::{decode_utf8, encode_utf8, valid_utf8};

verus! {

/// The jobs that a program has for a piece of haystack: those of the word
/// that the piece is, none where it is no word of the program.
pub open spec fn jobs_at(p: Program, piece: Seq<u8>) -> Seq<WordJob> {
    match word_index(encodings(p.words), piece) {
        Some(w) => p.word_jobs[w],
        None => Seq::empty(),
    }
}

/// The jobs of one kind that a program has for a piece.
pub open spec fn jobs_for(p: Program, entry: (Seq<u8>, bool)) -> Seq<WordJob> {
    select(jobs_at(p, entry.0), entry.1)
}

/// The state after the jobs of each entry were run, entry by entry. An
/// entry is a piece, and tells which of its jobs run: those that start a
/// chain, or the others.
pub open spec fn run_pieces(p: Program, st: RunState, pieces: Seq<(Seq<u8>, bool)>) -> RunState
    decreases pieces.len(),
{
    if pieces.len() == 0 {
        st
    } else {
        run_pieces(p, apply_jobs(p, st, jobs_for(p, pieces[0])), pieces.drop_first())
    }
}

/// The pieces of at most `len` bytes that start at `start`, the shorter
/// first.
pub open spec fn pieces_from(haystack: Seq<u8>, start: int, len: int) -> Seq<Seq<u8>>
    decreases len,
{
    if len <= 0 {
        Seq::empty()
    } else {
        let shorter = pieces_from(haystack, start, len - 1);
        if 0 <= start && start + len <= haystack.len() {
            shorter.push(haystack.subrange(start, start + len))
        } else {
            shorter
        }
    }
}

/// A list of pieces as entries, all for their starting jobs or all for the
/// others.
pub open spec fn half_pieces(ps: Seq<Seq<u8>>, starting: bool) -> Seq<(Seq<u8>, bool)> {
    Seq::new(ps.len(), |i: int| (ps[i], starting))
}

/// The entries of the pieces that start below `limit`, by the offset at
/// which they start; those of one offset first for the jobs that do not
/// start a chain, then for those that do.
pub open spec fn pieces_upto(haystack: Seq<u8>, limit: int) -> Seq<(Seq<u8>, bool)>
    decreases limit,
{
    if limit <= 0 {
        Seq::empty()
    } else {
        let here = pieces_from(haystack, limit - 1, haystack.len() - (limit - 1));
        pieces_upto(haystack, limit - 1) + half_pieces(here, false) + half_pieces(here, true)
    }
}

/// All the pieces of a haystack, in the order in which a scan sees them.
pub open spec fn pieces(haystack: Seq<u8>) -> Seq<(Seq<u8>, bool)> {
    pieces_upto(haystack, haystack.len() as int)
}

/// The patterns of a program that match a haystack.
pub open spec fn matched(p: Program, haystack: Seq<u8>) -> Set<usize> {
    run_pieces(p, initial_state(), pieces(haystack)).matches
}

/// Seeing one stream and then another is seeing the two as one.
pub proof fn lemma_run_concat(
    p: Program,
    st: RunState,
    a: Seq<(usize, bool)>,
    b: Seq<(usize, bool)>,
)
    ensures
        run(p, st, a + b) == run(p, run(p, st, a), b),
    decreases a.len(),
{
    if a.len() == 0 {
        assert(a + b =~= b);
    } else {
        let (w, starting) = a[0];
        let next = if w < p.word_jobs.len() {
            apply_jobs(p, st, select(p.word_jobs[w as int], starting))
        } else {
            st
        };
        assert((a + b)[0] == a[0]);
        assert((a + b).drop_first() =~= a.drop_first() + b);
        lemma_run_concat(p, next, a.drop_first(), b);
    }
}

/// Seeing some pieces and then others is seeing them all in a row.
pub proof fn lemma_run_pieces_concat(
    p: Program,
    st: RunState,
    a: Seq<(Seq<u8>, bool)>,
    b: Seq<(Seq<u8>, bool)>,
)
    ensures
        run_pieces(p, st, a + b) == run_pieces(p, run_pieces(p, st, a), b),
    decreases a.len(),
{
    if a.len() == 0 {
        assert(a + b =~= b);
    } else {
        assert((a + b)[0] == a[0]);
        assert((a + b).drop_first() =~= a.drop_first() + b);
        lemma_run_pieces_concat(p, apply_jobs(p, st, jobs_for(p, a[0])), a.drop_first(), b);
    }
}

/// Seeing one piece is running its jobs.
pub proof fn lemma_run_pieces_one(p: Program, st: RunState, entry: (Seq<u8>, bool))
    ensures
        run_pieces(p, st, seq![entry]) == apply_jobs(p, st, jobs_for(p, entry)),
{
    let one = seq![entry];
    let after = apply_jobs(p, st, jobs_for(p, entry));
    assert(one[0] == entry);
    assert(one.drop_first() =~= Seq::<(Seq<u8>, bool)>::empty());
    assert(run_pieces(p, after, Seq::<(Seq<u8>, bool)>::empty()) == after);
}

/// Seeing one word is running its jobs.
pub proof fn lemma_run_one(p: Program, st: RunState, w: usize, starting: bool)
    requires
        w < p.word_jobs.len(),
    ensures
        run(p, st, seq![(w, starting)]) == apply_jobs(
            p,
            st,
            select(p.word_jobs[w as int], starting),
        ),
{
    let one = seq![(w, starting)];
    let after = apply_jobs(p, st, select(p.word_jobs[w as int], starting));
    assert(one[0] == (w, starting));
    assert(one.drop_first() =~= Seq::<(usize, bool)>::empty());
    assert(run(p, after, Seq::<(usize, bool)>::empty()) == after);
}

proof fn lemma_bridge_from(
    p: Program,
    st: RunState,
    haystack: Seq<u8>,
    start: int,
    len: int,
    starting: bool,
)
    requires
        aligned(p),
        p.words.len() <= usize::MAX,
    ensures
        run(p, st, half(words_from(encodings(p.words), haystack, start, len), starting))
            == run_pieces(p, st, half_pieces(pieces_from(haystack, start, len), starting)),
    decreases len,
{
    let words = encodings(p.words);
    if len > 0 {
        lemma_bridge_from(p, st, haystack, start, len - 1, starting);
        let shorter = words_from(words, haystack, start, len - 1);
        let shorter_pieces = pieces_from(haystack, start, len - 1);
        let mid = run(p, st, half(shorter, starting));
        if 0 <= start && start + len <= haystack.len() {
            let piece = haystack.subrange(start, start + len);
            lemma_word_index(words, piece);
            assert(half_pieces(shorter_pieces.push(piece), starting) =~= half_pieces(
                shorter_pieces,
                starting,
            ) + seq![(piece, starting)]);
            lemma_run_pieces_concat(
                p,
                st,
                half_pieces(shorter_pieces, starting),
                seq![(piece, starting)],
            );
            lemma_run_pieces_one(p, mid, (piece, starting));
            match word_index(words, piece) {
                Some(w) => {
                    let id = w as usize;
                    assert(half(shorter.push(id), starting) =~= half(shorter, starting) + seq![
                        (id, starting),
                    ]);
                    lemma_run_concat(p, st, half(shorter, starting), seq![(id, starting)]);
                    lemma_run_one(p, mid, id, starting);
                },
                None => {
                    assert(jobs_for(p, (piece, starting)) =~= Seq::<WordJob>::empty());
                },
            }
        }
    } else {
        assert(half(words_from(words, haystack, start, len), starting) =~= Seq::<
            (usize, bool),
        >::empty());
        assert(half_pieces(pieces_from(haystack, start, len), starting) =~= Seq::<
            (Seq<u8>, bool),
        >::empty());
    }
}

proof fn lemma_bridge_upto(p: Program, st: RunState, haystack: Seq<u8>, limit: int)
    requires
        aligned(p),
        p.words.len() <= usize::MAX,
    ensures
        run(p, st, scan_upto(encodings(p.words), haystack, limit)) == run_pieces(
            p,
            st,
            pieces_upto(haystack, limit),
        ),
    decreases limit,
{
    let words = encodings(p.words);
    if limit > 0 {
        let start = limit - 1;
        let len = haystack.len() - start;
        let here = words_from(words, haystack, start, len);
        let here_pieces = pieces_from(haystack, start, len);
        lemma_bridge_upto(p, st, haystack, start);
        let first = run(p, st, scan_upto(words, haystack, start));
        lemma_bridge_from(p, first, haystack, start, len, false);
        let second = run(p, first, half(here, false));
        lemma_bridge_from(p, second, haystack, start, len, true);
        lemma_run_concat(p, st, scan_upto(words, haystack, start), half(here, false));
        lemma_run_concat(
            p,
            st,
            scan_upto(words, haystack, start) + half(here, false),
            half(here, true),
        );
        lemma_run_pieces_concat(
            p,
            st,
            pieces_upto(haystack, start),
            half_pieces(here_pieces, false),
        );
        lemma_run_pieces_concat(
            p,
            st,
            pieces_upto(haystack, start) + half_pieces(here_pieces, false),
            half_pieces(here_pieces, true),
        );
    }
}

/// A scan over the words in scan order reports what the scan told piece by
/// piece reports.
pub proof fn lemma_scan_is_matched(p: Program, haystack: Seq<u8>)
    requires
        aligned(p),
        p.words.len() <= usize::MAX,
    ensures
        run(p, initial_state(), scan_order(encodings(p.words), haystack)).matches == matched(
            p,
            haystack,
        ),
{
    lemma_bridge_upto(p, initial_state(), haystack, haystack.len() as int);
}

/// Selecting from two lists put together is selecting from each.
pub proof fn lemma_select_concat(a: Seq<WordJob>, b: Seq<WordJob>, starting: bool)
    ensures
        select(a + b, starting) == select(a, starting) + select(b, starting),
    decreases b.len(),
{
    if b.len() == 0 {
        assert(a + b =~= a);
        assert(select(a, starting) + select(b, starting) =~= select(a, starting));
    } else {
        let all = a + b;
        assert(all.last() == b.last());
        assert(all.drop_last() =~= a + b.drop_last());
        lemma_select_concat(a, b.drop_last(), starting);
        if starts(b.last()) == starting {
            assert((select(a, starting) + select(b.drop_last(), starting)).push(b.last())
                =~= select(a, starting) + select(b.drop_last(), starting).push(b.last()));
        }
    }
}

/// Selecting from jobs that were moved up is moving up what is selected.
pub proof fn lemma_select_shift(jobs: Seq<WordJob>, a: nat, c: nat, starting: bool)
    ensures
        select(shift_jobs(jobs, a, c), starting) == shift_jobs(select(jobs, starting), a, c),
    decreases jobs.len(),
{
    let moved = shift_jobs(jobs, a, c);
    if jobs.len() == 0 {
        assert(shift_jobs(select(jobs, starting), a, c) =~= Seq::<WordJob>::empty());
    } else {
        assert(moved.last() == shift_job(jobs.last(), a, c));
        assert(moved.drop_last() =~= shift_jobs(jobs.drop_last(), a, c));
        lemma_select_shift(jobs.drop_last(), a, c, starting);
        assert(starts(moved.last()) == starts(jobs.last()));
        if starts(jobs.last()) == starting {
            assert(shift_jobs(select(jobs.drop_last(), starting), a, c).push(moved.last())
                =~= shift_jobs(select(jobs.drop_last(), starting).push(jobs.last()), a, c));
        }
    }
}

/// The text that a piece encodes, if it encodes one.
pub open spec fn piece_text(piece: Seq<u8>) -> Option<Seq<char>> {
    if valid_utf8(piece) {
        Some(decode_utf8(piece))
    } else {
        None
    }
}

/// The jobs for a piece are the jobs for the text that it encodes.
pub proof fn lemma_jobs_at(p: Program, piece: Seq<u8>)
    requires
        aligned(p),
        p.words.no_duplicates(),
    ensures
        jobs_at(p, piece) == match piece_text(piece) {
            Some(t) => jobs_of(p, t),
            None => Seq::empty(),
        },
{
    broadcast use
        vstd::utf8::encode_utf8_decode_utf8,
        vstd::utf8::encode_utf8_valid_utf8,
        vstd::utf8::decode_utf8_encode_utf8,
    ;

    let enc = encodings(p.words);
    lemma_word_index(enc, piece);
    match word_index(enc, piece) {
        Some(w) => {
            assert(enc[w] == encode_utf8(p.words[w]));
            assert(valid_utf8(encode_utf8(p.words[w])));
            assert(decode_utf8(encode_utf8(p.words[w])) == p.words[w]);
            let t = p.words[w];
            lemma_position(p.words, t);
        },
        None => {
            if valid_utf8(piece) {
                let t = decode_utf8(piece);
                assert(encode_utf8(t) == piece);
                lemma_position(p.words, t);
                if position(p.words, t) is Some {
                    let i = position(p.words, t).unwrap();
                    assert(enc[i] == encode_utf8(p.words[i]));
                }
            }
        },
    }
}

/// The jobs that a well-formed program has for a piece are valid jobs.
pub proof fn lemma_jobs_at_ok(p: Program, piece: Seq<u8>)
    requires
        p.wf(),
    ensures
        jobs_ok(p, jobs_at(p, piece)),
{
    let enc = encodings(p.words);
    lemma_word_index(enc, piece);
    match word_index(enc, piece) {
        Some(w) => {
            assert forall|k: int| 0 <= k < p.word_jobs[w].len() implies job_ok(
                p,
                #[trigger] jobs_at(p, piece)[k],
            ) by {
                assert(job_ok(p, p.word_jobs[w][k]));
            }
        },
        None => {},
    }
}

/// The jobs of one kind that a well-formed program has for a piece are
/// valid jobs.
pub proof fn lemma_jobs_for_ok(p: Program, entry: (Seq<u8>, bool))
    requires
        p.wf(),
    ensures
        jobs_ok(p, jobs_for(p, entry)),
{
    lemma_jobs_at_ok(p, entry.0);
    lemma_select_ok(p, jobs_at(p, entry.0), entry.1);
}

/// A scan of a program made of two parts is the two scans of the parts side
/// by side.
pub proof fn lemma_run_in_parts(
    p: Program,
    low: Program,
    high: Program,
    c: nat,
    sl: RunState,
    sh: RunState,
    pieces: Seq<(Seq<u8>, bool)>,
)
    requires
        joined(p, low, high, c),
        parts_ok(low, high, sl, sh),
        aligned(p),
        p.words.no_duplicates(),
    ensures
        run_pieces(p, join(sl, sh, low.chains.len(), c), pieces) == join(
            run_pieces(low, sl, pieces),
            run_pieces(high, sh, pieces),
            low.chains.len(),
            c,
        ),
        parts_ok(low, high, run_pieces(low, sl, pieces), run_pieces(high, sh, pieces)),
    decreases pieces.len(),
{
    if pieces.len() > 0 {
        let piece = pieces[0].0;
        let starting = pieces[0].1;
        let a = low.chains.len();
        lemma_jobs_at(p, piece);
        lemma_jobs_at(low, piece);
        lemma_jobs_at(high, piece);
        lemma_jobs_for_ok(low, pieces[0]);
        lemma_jobs_for_ok(high, pieces[0]);
        let jl = jobs_at(low, piece);
        let jh = jobs_at(high, piece);
        assert(jobs_at(p, piece) == jl + shift_jobs(jh, a, c)) by {
            match piece_text(piece) {
                Some(t) => {
                    assert(jobs_of(p, t) == jobs_of(low, t) + shift_jobs(jobs_of(high, t), a, c));
                },
                None => {
                    assert(jl + shift_jobs(jh, a, c) =~= Seq::<WordJob>::empty());
                },
            }
        }
        lemma_select_concat(jl, shift_jobs(jh, a, c), starting);
        lemma_select_shift(jh, a, c, starting);
        let sel_l = jobs_for(low, pieces[0]);
        let sel_h = jobs_for(high, pieces[0]);
        assert(jobs_for(p, pieces[0]) == sel_l + shift_jobs(sel_h, a, c));
        lemma_word_in_parts(p, low, high, c, sl, sh, sel_l, sel_h);
        lemma_run_in_parts(
            p,
            low,
            high,
            c,
            apply_jobs(low, sl, sel_l),
            apply_jobs(high, sh, sel_h),
            pieces.drop_first(),
        );
    }
}

} // verus!
