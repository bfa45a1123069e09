//! When a literal matches, and when two literals with a gap between them
//! match, told by where the words stand in the haystack.

use crate::automaton::occurs_at;
use crate::hir::{words_of, Hir};
use crate::lowering::single;
use crate::order::in_order;
use crate::pieces::matched;
use crate::wide::{lemma_flat_matches, lemma_wide_gap_matches, wide_gap};
use vstd::prelude::*;
use vstd::utf8::encode_utf8;

verus! {

/// The pattern `l1.*l2`.
pub open spec fn gap(l1: Seq<char>, l2: Seq<char>) -> Hir {
    Hir::Concat(seq![Hir::Literal(l1), Hir::Wild, Hir::Literal(l2)])
}

/// A literal matches exactly where its word stands somewhere in the
/// haystack.
pub proof fn lemma_literal_matches(w: Seq<char>, haystack: Seq<u8>)
    requires
        w.len() > 0,
    ensures
        matched(single(Hir::Literal(w)), haystack).contains(0) <==> exists|i: int| #[trigger]
            occurs_at(encode_utf8(w), haystack, i),
{
    let h = Hir::Literal(w);
    let ws = words_of(h);
    assert(ws == seq![w]);
    lemma_flat_matches(h, haystack);
    if matched(single(h), haystack).contains(0) {
        let (k, i) = choose|k: int, i: int|
            0 <= k < ws.len() && #[trigger] occurs_at(encode_utf8(ws[k]), haystack, i);
        assert(occurs_at(encode_utf8(w), haystack, i));
    }
    if exists|i: int| #[trigger] occurs_at(encode_utf8(w), haystack, i) {
        let i = choose|i: int| #[trigger] occurs_at(encode_utf8(w), haystack, i);
        assert(occurs_at(encode_utf8(ws[0]), haystack, i));
    }
}

/// Two literals with a gap between them match exactly where the first word
/// stands at an offset and the second at a later offset. Two words that
/// start at one offset, the one being the start of the other, do not make
/// the pattern match.
pub proof fn lemma_gap_matches(l1: Seq<char>, l2: Seq<char>, haystack: Seq<u8>)
    requires
        l1.len() > 0,
        l2.len() > 0,
    ensures
        matched(single(gap(l1, l2)), haystack).contains(0) <==> exists|i: int, j: int|
            i < j && #[trigger] occurs_at(encode_utf8(l1), haystack, i) && #[trigger] occurs_at(
                encode_utf8(l2),
                haystack,
                j,
            ),
{
    let a = encode_utf8(l1);
    let b = encode_utf8(l2);
    let h0 = Hir::Literal(l1);
    let h1 = Hir::Literal(l2);
    let ws0 = words_of(h0);
    let ws1 = words_of(h1);
    assert(ws0 == seq![l1]);
    assert(ws1 == seq![l2]);
    assert(gap(l1, l2) == wide_gap(h0, h1));
    lemma_wide_gap_matches(h0, h1, haystack);
    if matched(single(gap(l1, l2)), haystack).contains(0) {
        let (k0, k1, i, j) = choose|k0: int, k1: int, i: int, j: int|
            0 <= k0 < ws0.len() && 0 <= k1 < ws1.len() && #[trigger] in_order(
                haystack,
                encode_utf8(ws0[k0]),
                i,
                encode_utf8(ws1[k1]),
                j,
            );
        assert(i < j && occurs_at(a, haystack, i) && occurs_at(b, haystack, j));
    }
    if exists|i: int, j: int|
        i < j && #[trigger] occurs_at(a, haystack, i) && #[trigger] occurs_at(b, haystack, j) {
        let (i, j) = choose|i: int, j: int|
            i < j && #[trigger] occurs_at(a, haystack, i) && #[trigger] occurs_at(b, haystack, j);
        assert(in_order(haystack, encode_utf8(ws0[0]), i, encode_utf8(ws1[0]), j));
    }
}

} // verus!
