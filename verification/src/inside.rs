//! A haystack that holds a part in which all the words stand: what stands
//! before and after the part changes nothing of what a scan reports.

use crate::automaton::{encodings, occurs_at};
use crate::machine::{initial_state, RunState};
use crate::pieces::{
    half_pieces, jobs_at, jobs_for, lemma_run_pieces_concat, lemma_run_pieces_one, matched,
    pieces_from, pieces_upto, run_pieces,
};
use crate::program::{Program, WordJob};
use crate::scan::{lemma_word_index, word_index};
use vstd::prelude::*;

verus! {

/// Every occurrence of a word of the program in the haystack made of
/// `before`, `part` and `after` lies within `part`.
pub open spec fn words_inside(p: Program, part: Seq<u8>, before: Seq<u8>, after: Seq<u8>) -> bool {
    forall|w: int, i: int|
        0 <= w < p.words.len() && #[trigger] occurs_at(
            encodings(p.words)[w],
            before + part + after,
            i,
        ) ==> before.len() <= i && i + encodings(p.words)[w].len() <= before.len() + part.len()
}

/// Where a run of pieces starts.
spec fn clip(m: int, n: int) -> int {
    if m < 0 {
        0
    } else if m > n {
        n
    } else {
        m
    }
}

/// No piece starts before the haystack does, and none is longer than what
/// is left of the haystack.
proof fn lemma_pieces_from_clip(haystack: Seq<u8>, start: int, len: int)
    ensures
        start < 0 ==> pieces_from(haystack, start, len) == Seq::<Seq<u8>>::empty(),
        len >= haystack.len() - start ==> pieces_from(haystack, start, len) == pieces_from(
            haystack,
            start,
            haystack.len() - start,
        ),
    decreases len,
{
    if len > 0 {
        lemma_pieces_from_clip(haystack, start, len - 1);
    }
}

/// The pieces that start at an offset of the whole do to a scan what the
/// pieces that start at that offset of the part do.
proof fn lemma_offset_inside(
    p: Program,
    st: RunState,
    part: Seq<u8>,
    before: Seq<u8>,
    after: Seq<u8>,
    start: int,
    len: int,
    starting: bool,
)
    requires
        words_inside(p, part, before, after),
    ensures
        run_pieces(p, st, half_pieces(pieces_from(before + part + after, start, len), starting))
            == run_pieces(
            p,
            st,
            half_pieces(pieces_from(part, start - before.len(), len), starting),
        ),
    decreases len,
{
    let whole = before + part + after;
    let inner = start - before.len();
    let none = Seq::<(Seq<u8>, bool)>::empty();
    if len > 0 {
        lemma_offset_inside(p, st, part, before, after, start, len - 1, starting);
        let shorter = pieces_from(whole, start, len - 1);
        let shorter_in = pieces_from(part, inner, len - 1);
        let mid = run_pieces(p, st, half_pieces(shorter, starting));
        if 0 <= start && start + len <= whole.len() {
            let piece = whole.subrange(start, start + len);
            assert(half_pieces(shorter.push(piece), starting) =~= half_pieces(shorter, starting)
                + seq![(piece, starting)]);
            lemma_run_pieces_concat(
                p,
                st,
                half_pieces(shorter, starting),
                seq![(piece, starting)],
            );
            lemma_run_pieces_one(p, mid, (piece, starting));
            if 0 <= inner && inner + len <= part.len() {
                let piece_in = part.subrange(inner, inner + len);
                assert(piece_in =~= piece);
                assert(half_pieces(shorter_in.push(piece), starting) =~= half_pieces(
                    shorter_in,
                    starting,
                ) + seq![(piece, starting)]);
                lemma_run_pieces_concat(
                    p,
                    st,
                    half_pieces(shorter_in, starting),
                    seq![(piece, starting)],
                );
            } else {
                let words = encodings(p.words);
                lemma_word_index(words, piece);
                if word_index(words, piece) is Some {
                    let w = word_index(words, piece).unwrap();
                    assert(occurs_at(words[w], whole, start));
                }
                assert(jobs_at(p, piece) =~= Seq::<WordJob>::empty());
                assert(jobs_for(p, (piece, starting)) =~= Seq::<WordJob>::empty());
            }
        }
    } else {
        assert(half_pieces(pieces_from(whole, start, len), starting) =~= none);
        assert(half_pieces(pieces_from(part, inner, len), starting) =~= none);
    }
}

/// The pieces that start below an offset of the whole do to a scan what
/// the pieces of the part that start below that offset do.
proof fn lemma_upto_inside(
    p: Program,
    st: RunState,
    part: Seq<u8>,
    before: Seq<u8>,
    after: Seq<u8>,
    limit: int,
)
    requires
        words_inside(p, part, before, after),
        limit <= (before + part + after).len(),
    ensures
        run_pieces(p, st, pieces_upto(before + part + after, limit)) == run_pieces(
            p,
            st,
            pieces_upto(part, clip(limit - before.len(), part.len() as int)),
        ),
    decreases limit,
{
    let whole = before + part + after;
    let n = part.len() as int;
    if limit > 0 {
        let start = limit - 1;
        let inner = start - before.len();
        let len = whole.len() - start;
        let here = pieces_from(whole, start, len);
        let first = half_pieces(here, false);
        let second = half_pieces(here, true);
        let sofar = pieces_upto(whole, start);
        lemma_upto_inside(p, st, part, before, after, start);
        let a = run_pieces(p, st, sofar);
        lemma_run_pieces_concat(p, st, sofar, first);
        lemma_run_pieces_concat(p, st, sofar + first, second);
        lemma_offset_inside(p, a, part, before, after, start, len, false);
        let b = run_pieces(p, a, first);
        lemma_offset_inside(p, b, part, before, after, start, len, true);
        lemma_pieces_from_clip(part, inner, len);
        let here_in = pieces_from(part, inner, len);
        if 0 <= inner < n {
            let sofar_in = pieces_upto(part, inner);
            assert(here_in == pieces_from(part, inner, n - inner));
            lemma_run_pieces_concat(p, st, sofar_in, half_pieces(here_in, false));
            lemma_run_pieces_concat(
                p,
                st,
                sofar_in + half_pieces(here_in, false),
                half_pieces(here_in, true),
            );
        } else {
            assert(here_in =~= Seq::<Seq<u8>>::empty()) by {
                if inner >= n {
                    assert(pieces_from(part, inner, n - inner) =~= Seq::<Seq<u8>>::empty());
                }
            }
            assert(half_pieces(here_in, false) =~= Seq::<(Seq<u8>, bool)>::empty());
            assert(half_pieces(here_in, true) =~= Seq::<(Seq<u8>, bool)>::empty());
        }
    }
}

/// Where every occurrence of a word of a program lies within one part of a
/// haystack, the program reports for the haystack what it reports for the
/// part: whatever the patterns are, nothing that matches the part is lost.
pub proof fn lemma_words_inside(p: Program, part: Seq<u8>, before: Seq<u8>, after: Seq<u8>)
    requires
        words_inside(p, part, before, after),
    ensures
        matched(p, before + part + after) == matched(p, part),
{
    let whole = before + part + after;
    lemma_upto_inside(p, initial_state(), part, before, after, whole.len() as int);
}

} // verus!
