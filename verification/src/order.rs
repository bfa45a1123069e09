//! Where words stand among the entries that a scan sees, and which of two
//! words it sees first.

use crate::automaton::occurs_at;
use crate::pieces::{half_pieces, piece_text, pieces_from, pieces_upto};
use vstd::prelude::*;
use vstd::utf8::{decode_utf8, encode_utf8, valid_utf8};

verus! {

/// `x` is among the entries, for the given kind of job.
pub open spec fn among(ps: Seq<(Seq<u8>, bool)>, x: Seq<u8>, starting: bool) -> bool
    decreases ps.len(),
{
    ps.len() > 0 && (ps[0] == (x, starting) || among(ps.drop_first(), x, starting))
}

/// `a` is among the entries for its starting jobs, and `b` is among those
/// after it for its other jobs.
pub open spec fn among_pair(ps: Seq<(Seq<u8>, bool)>, a: Seq<u8>, b: Seq<u8>) -> bool
    decreases ps.len(),
{
    ps.len() > 0 && ((ps[0] == (a, true) && among(ps.drop_first(), b, false)) || among_pair(
        ps.drop_first(),
        a,
        b,
    ))
}

pub proof fn lemma_among_concat(
    x: Seq<(Seq<u8>, bool)>,
    y: Seq<(Seq<u8>, bool)>,
    a: Seq<u8>,
    starting: bool,
)
    ensures
        among(x + y, a, starting) <==> among(x, a, starting) || among(y, a, starting),
    decreases x.len(),
{
    if x.len() == 0 {
        assert(x + y =~= y);
    } else {
        assert((x + y)[0] == x[0]);
        assert((x + y).drop_first() =~= x.drop_first() + y);
        lemma_among_concat(x.drop_first(), y, a, starting);
    }
}

proof fn lemma_among_pair_concat(
    x: Seq<(Seq<u8>, bool)>,
    y: Seq<(Seq<u8>, bool)>,
    a: Seq<u8>,
    b: Seq<u8>,
)
    ensures
        among_pair(x + y, a, b) <==> among_pair(x, a, b) || among_pair(y, a, b) || (among(
            x,
            a,
            true,
        ) && among(y, b, false)),
    decreases x.len(),
{
    if x.len() == 0 {
        assert(x + y =~= y);
    } else {
        assert((x + y)[0] == x[0]);
        assert((x + y).drop_first() =~= x.drop_first() + y);
        lemma_among_pair_concat(x.drop_first(), y, a, b);
        lemma_among_concat(x.drop_first(), y, b, false);
    }
}

/// Among the entries of one kind for the pieces of at most `len` bytes that
/// start at `start`, a word is found exactly if it is asked for by that kind
/// and stands there; no two entries of one kind make a pair.
proof fn lemma_half_from(
    haystack: Seq<u8>,
    start: int,
    len: int,
    kind: bool,
    x: Seq<u8>,
    starting: bool,
    b: Seq<u8>,
)
    requires
        0 <= start,
        x.len() > 0,
    ensures
        among(half_pieces(pieces_from(haystack, start, len), kind), x, starting) <==> kind
            == starting && occurs_at(x, haystack, start) && x.len() <= len,
        !among_pair(half_pieces(pieces_from(haystack, start, len), kind), x, b),
    decreases len,
{
    let all = half_pieces(pieces_from(haystack, start, len), kind);
    if len > 0 {
        lemma_half_from(haystack, start, len - 1, kind, x, starting, b);
        lemma_half_from(haystack, start, len - 1, kind, x, true, b);
        let shorter = pieces_from(haystack, start, len - 1);
        if start + len <= haystack.len() {
            let piece = haystack.subrange(start, start + len);
            let one = seq![(piece, kind)];
            assert(all =~= half_pieces(shorter, kind) + one);
            assert(one[0] == (piece, kind));
            assert(one.drop_first() =~= Seq::<(Seq<u8>, bool)>::empty());
            assert(!among(one.drop_first(), x, starting));
            assert(!among(one.drop_first(), b, false));
            assert(!among_pair(one.drop_first(), x, b));
            lemma_among_concat(half_pieces(shorter, kind), one, x, starting);
            lemma_among_pair_concat(half_pieces(shorter, kind), one, x, b);
            assert(piece == x <==> occurs_at(x, haystack, start) && x.len() == len) by {
                if occurs_at(x, haystack, start) && x.len() == len {
                    assert(piece =~= x);
                }
            }
            if among(half_pieces(shorter, kind), x, true) && among(one, b, false) {
                assert(kind == true);
                assert(one[0] == (b, false));
            }
        } else {
            assert(all =~= half_pieces(shorter, kind));
        }
    } else {
        assert(all =~= Seq::<(Seq<u8>, bool)>::empty());
    }
}

/// `a` stands in the haystack at `i`, `b` at `j`, and `a` starts before
/// `b` does.
pub open spec fn in_order(haystack: Seq<u8>, a: Seq<u8>, i: int, b: Seq<u8>, j: int) -> bool {
    occurs_at(a, haystack, i) && occurs_at(b, haystack, j) && i < j
}

/// A word is among what a scan sees below an offset, for either kind of
/// job, exactly if it stands somewhere below that offset.
pub proof fn lemma_among_upto(haystack: Seq<u8>, limit: int, x: Seq<u8>, starting: bool)
    requires
        x.len() > 0,
        limit <= haystack.len(),
    ensures
        among(pieces_upto(haystack, limit), x, starting) <==> exists|i: int|
            i < limit && #[trigger] occurs_at(x, haystack, i),
    decreases limit,
{
    if limit > 0 {
        let start = limit - 1;
        let len = haystack.len() - start;
        let before = pieces_upto(haystack, start);
        let here = pieces_from(haystack, start, len);
        lemma_among_upto(haystack, start, x, starting);
        lemma_half_from(haystack, start, len, false, x, starting, x);
        lemma_half_from(haystack, start, len, true, x, starting, x);
        lemma_among_concat(before, half_pieces(here, false), x, starting);
        lemma_among_concat(before + half_pieces(here, false), half_pieces(here, true), x, starting);
        if among(pieces_upto(haystack, limit), x, starting) {
            if among(before, x, starting) {
                let i = choose|i: int| i < start && #[trigger] occurs_at(x, haystack, i);
                assert(i < limit && occurs_at(x, haystack, i));
            } else {
                assert(occurs_at(x, haystack, start));
            }
        }
        if exists|i: int| i < limit && #[trigger] occurs_at(x, haystack, i) {
            let i = choose|i: int| i < limit && #[trigger] occurs_at(x, haystack, i);
            if i < start {
                assert(among(before, x, starting));
            } else {
                assert(occurs_at(x, haystack, start));
            }
        }
    } else {
        assert forall|i: int| i < limit implies !#[trigger] occurs_at(x, haystack, i) by {}
    }
}

/// Two words make a pair in what a scan sees below an offset exactly if the
/// first stands somewhere and the second stands at a later offset below the
/// limit.
pub proof fn lemma_pair_upto(haystack: Seq<u8>, limit: int, a: Seq<u8>, b: Seq<u8>)
    requires
        a.len() > 0,
        b.len() > 0,
        limit <= haystack.len(),
    ensures
        among_pair(pieces_upto(haystack, limit), a, b) <==> exists|i: int, j: int|
            j < limit && #[trigger] in_order(haystack, a, i, b, j),
    decreases limit,
{
    if limit > 0 {
        let start = limit - 1;
        let len = haystack.len() - start;
        let before = pieces_upto(haystack, start);
        let here = pieces_from(haystack, start, len);
        let first = half_pieces(here, false);
        let second = half_pieces(here, true);
        lemma_pair_upto(haystack, start, a, b);
        lemma_among_upto(haystack, start, a, true);
        lemma_half_from(haystack, start, len, false, b, false, b);
        lemma_half_from(haystack, start, len, false, a, true, b);
        lemma_half_from(haystack, start, len, true, b, false, b);
        lemma_half_from(haystack, start, len, true, a, true, b);
        lemma_among_pair_concat(before, first, a, b);
        lemma_among_pair_concat(before + first, second, a, b);
        if among_pair(pieces_upto(haystack, limit), a, b) {
            if among_pair(before, a, b) {
                let (i, j) = choose|i: int, j: int|
                    j < start && #[trigger] in_order(haystack, a, i, b, j);
                assert(j < limit && in_order(haystack, a, i, b, j));
            } else {
                assert(among(before, a, true) && among(first, b, false));
                let i = choose|i: int| i < start && #[trigger] occurs_at(a, haystack, i);
                assert(in_order(haystack, a, i, b, start));
            }
        }
        if exists|i: int, j: int| j < limit && #[trigger] in_order(haystack, a, i, b, j) {
            let (i, j) = choose|i: int, j: int|
                j < limit && #[trigger] in_order(haystack, a, i, b, j);
            if j < start {
                assert(among_pair(before, a, b));
            } else {
                assert(i < start && occurs_at(a, haystack, i));
                assert(among(before, a, true));
                assert(among(first, b, false));
            }
        }
    } else {
        assert forall|i: int, j: int| j < limit implies !#[trigger] in_order(
            haystack,
            a,
            i,
            b,
            j,
        ) by {}
    }
}

/// A piece is the encoding of a text exactly if it encodes the text.
pub proof fn lemma_piece_is(piece: Seq<u8>, t: Seq<char>)
    ensures
        piece_text(piece) == Some(t) <==> piece == encode_utf8(t),
{
    broadcast use
        vstd::utf8::encode_utf8_decode_utf8,
        vstd::utf8::encode_utf8_valid_utf8,
        vstd::utf8::decode_utf8_encode_utf8,
    ;

    if piece == encode_utf8(t) {
        assert(valid_utf8(encode_utf8(t)));
        assert(decode_utf8(encode_utf8(t)) == t);
    }
    if piece_text(piece) == Some(t) {
        assert(encode_utf8(decode_utf8(piece)) == piece);
    }
}

/// The encoding of a text that is not empty is not empty.
pub proof fn lemma_encoding_not_empty(t: Seq<char>)
    requires
        t.len() > 0,
    ensures
        encode_utf8(t).len() > 0,
{
    broadcast use vstd::utf8::encode_utf8_decode_utf8;

    if encode_utf8(t).len() == 0 {
        assert(encode_utf8(t) =~= Seq::<u8>::empty());
        assert(decode_utf8(Seq::<u8>::empty()).len() == 0);
        assert(decode_utf8(encode_utf8(t)) == t);
    }
}

} // verus!
