//! From source texts to trees: what the laws of trees say of the texts that
//! a set is compiled from.

use crate::automaton::occurs_at;
use crate::gap::{gap, lemma_gap_matches};
use crate::hir::{is_word, print, tree_fits, wild_text, Hir};
use crate::laws::{
    lemma_alternation_commutes, lemma_duplicates_match_together, lemma_error_of_alternative,
    lemma_more_haystack_matches_more, lemma_pattern_alone, lemma_pattern_matches_on,
    lemma_two_alternatives, plain,
};
use crate::lowering::{program_of, single, trees_ok};
use crate::parser::{lemma_parse_well_formed, lemma_seq_built, parse_text};
use crate::pieces::matched;
use crate::program::{empty_program, lower_error, CompileError, Program};
use crate::roundtrip::{canonical, lemma_parse_print};
use crate::set::compile;
use crate::splice::{is_sequence, lemma_parse_bar, sequence_tree};
use vstd::prelude::*;

verus! {

/// The trees of a batch of source texts.
pub open spec fn parsed(sources: Seq<Seq<char>>) -> Seq<Hir> {
    Seq::new(sources.len(), |i: int| parse_text(sources[i]).unwrap())
}

/// Each text of the batch can be held in memory.
pub open spec fn texts_fit(sources: Seq<Seq<char>>) -> bool {
    sources.len() <= usize::MAX && forall|i: int|
        0 <= i < sources.len() ==> (#[trigger] sources[i]).len() <= usize::MAX
}

/// A batch that compiles compiles to the program of its trees, each of
/// which can be lowered.
pub proof fn lemma_compile_trees(sources: Seq<Seq<char>>)
    requires
        compile(sources) is Ok,
        texts_fit(sources),
    ensures
        compile(sources) == Ok::<Program, CompileError>(program_of(parsed(sources))),
        trees_ok(parsed(sources)),
        forall|k: int| 0 <= k < sources.len() ==> parse_text(#[trigger] sources[k]) is Some,
    decreases sources.len(),
{
    let trees = parsed(sources);
    if sources.len() > 0 {
        let front = sources.drop_last();
        lemma_compile_trees(front);
        assert(trees.drop_last() =~= parsed(front));
        assert(trees.last() == parse_text(sources.last()).unwrap());
        lemma_parse_well_formed(sources.last());
        assert forall|k: int| 0 <= k < trees.len() implies lower_error(#[trigger] trees[k])
            is None && tree_fits(trees[k]) by {
            if k < front.len() {
                assert(trees[k] == parsed(front)[k]);
            }
        }
        assert forall|k: int| 0 <= k < sources.len() implies parse_text(#[trigger] sources[k])
            is Some by {
            if k < front.len() {
                assert(sources[k] == front[k]);
            }
        }
    }
}

/// A pattern of a set matches exactly if it matches as the only pattern of
/// a set, and so two patterns of a set with one and the same text match
/// together.
pub proof fn lemma_duplicate_texts(
    sources: Seq<Seq<char>>,
    i: int,
    j: int,
    haystack: Seq<u8>,
)
    requires
        compile(sources) is Ok,
        texts_fit(sources),
        compile(sources).unwrap().chains.len() <= usize::MAX,
        0 <= i < sources.len(),
        0 <= j < sources.len(),
        sources[i] == sources[j],
    ensures
        compile(seq![sources[i]]) is Ok,
        matched(compile(sources).unwrap(), haystack).contains(i as usize) <==> matched(
            compile(seq![sources[i]]).unwrap(),
            haystack,
        ).contains(0),
        matched(compile(sources).unwrap(), haystack).contains(i as usize) <==> matched(
            compile(sources).unwrap(),
            haystack,
        ).contains(j as usize),
{
    lemma_compile_trees(sources);
    let trees = parsed(sources);
    lemma_pattern_alone(trees, i, haystack);
    lemma_duplicates_match_together(trees, i, j, haystack);
    lemma_compile_one(sources[i]);
}

/// Every pattern of a compiled batch of plain patterns that matches a
/// haystack matches every haystack that holds the first as a part.
pub proof fn lemma_more_haystack_in_text(
    sources: Seq<Seq<char>>,
    part: Seq<u8>,
    before: Seq<u8>,
    after: Seq<u8>,
)
    requires
        compile(sources) is Ok,
        texts_fit(sources),
        compile(sources).unwrap().chains.len() <= usize::MAX,
        forall|k: int| 0 <= k < sources.len() ==> plain(#[trigger] parsed(sources)[k]),
    ensures
        matched(compile(sources).unwrap(), part).subset_of(
            matched(compile(sources).unwrap(), before + part + after),
        ),
{
    lemma_compile_trees(sources);
    lemma_more_haystack_matches_more(parsed(sources), part, before, after);
}

/// A plain pattern of a compiled batch, whatever the other patterns are,
/// that matches a haystack matches every haystack that holds the first as a
/// part.
pub proof fn lemma_pattern_matches_on_in_text(
    sources: Seq<Seq<char>>,
    k: int,
    part: Seq<u8>,
    before: Seq<u8>,
    after: Seq<u8>,
)
    requires
        compile(sources) is Ok,
        texts_fit(sources),
        compile(sources).unwrap().chains.len() <= usize::MAX,
        0 <= k < sources.len(),
        plain(parsed(sources)[k]),
        matched(compile(sources).unwrap(), part).contains(k as usize),
    ensures
        matched(compile(sources).unwrap(), before + part + after).contains(k as usize),
{
    lemma_compile_trees(sources);
    lemma_pattern_matches_on(parsed(sources), k, part, before, after);
}

/// A batch of one text that parses to a tree that can be lowered compiles
/// to the program of that tree.
pub proof fn lemma_compile_one(source: Seq<char>)
    ensures
        parse_text(source) matches Some(h) ==> (lower_error(h) is None ==> compile(seq![source])
            == Ok::<Program, CompileError>(single(h))),
{
    let one = seq![source];
    assert(one.last() == source);
    assert(one.drop_last() =~= Seq::<Seq<char>>::empty());
    assert(compile(one.drop_last()) == Ok::<Program, CompileError>(empty_program()));
}

/// The texts `A|B` and `B|A`, where `A` and `B` are any two texts without a
/// `|` outside parentheses such that `A|B` compiles, compile to sets that
/// report the same for every haystack.
pub proof fn lemma_alternation_commutes_in_text(
    a: Seq<char>,
    b: Seq<char>,
    haystack: Seq<u8>,
)
    requires
        is_sequence(a),
        is_sequence(b),
        a.len() <= usize::MAX,
        b.len() <= usize::MAX,
        compile(seq![a + seq!['|'] + b]) is Ok,
        compile(seq![a + seq!['|'] + b]).unwrap().chains.len() <= usize::MAX,
        single(Hir::Or(seq![sequence_tree(b), sequence_tree(a)])).chains.len() <= usize::MAX,
    ensures
        compile(seq![b + seq!['|'] + a]) is Ok,
        matched(compile(seq![a + seq!['|'] + b]).unwrap(), haystack) == matched(
            compile(seq![b + seq!['|'] + a]).unwrap(),
            haystack,
        ),
{
    let ha = sequence_tree(a);
    let hb = sequence_tree(b);
    let ab = seq![ha, hb];
    lemma_parse_bar(a, b);
    lemma_parse_bar(b, a);
    lemma_seq_built(a, 0);
    lemma_seq_built(b, 0);
    // the text compiles, so its tree can be lowered, and so can each side
    let one = seq![a + seq!['|'] + b];
    assert(one.last() == a + seq!['|'] + b);
    assert(one.drop_last() =~= Seq::<Seq<char>>::empty());
    assert(compile(one.drop_last()) == Ok::<Program, CompileError>(empty_program()));
    assert(lower_error(Hir::Or(ab)) is None);
    assert(ab[0] == ha && ab[1] == hb);
    lemma_error_of_alternative(ab, 0);
    lemma_error_of_alternative(ab, 1);
    lemma_two_alternatives(hb, ha);
    lemma_compile_one(a + seq!['|'] + b);
    lemma_compile_one(b + seq!['|'] + a);
    lemma_alternation_commutes(ha, hb, haystack);
}

/// The text `l1.*l2` of two words compiles, and its pattern matches exactly
/// where the first word stands at an offset and the second at a later
/// offset.
pub proof fn lemma_gap_text(l1: Seq<char>, l2: Seq<char>, haystack: Seq<u8>)
    requires
        is_word(l1),
        is_word(l2),
    ensures
        compile(seq![l1 + wild_text() + l2]) == Ok::<Program, CompileError>(single(gap(l1, l2))),
        matched(single(gap(l1, l2)), haystack).contains(0) <==> exists|i: int, j: int|
            i < j && #[trigger] occurs_at(vstd::utf8::encode_utf8(l1), haystack, i)
                && #[trigger] occurs_at(vstd::utf8::encode_utf8(l2), haystack, j),
{
    let xs = seq![Hir::Literal(l1), Hir::Wild, Hir::Literal(l2)];
    let tail = xs.drop_first();
    let last = tail.drop_first();
    assert(xs[0] == Hir::Literal(l1));
    assert(tail[0] == Hir::Wild);
    assert(last[0] == Hir::Literal(l2));
    assert(last.drop_first() =~= Seq::<Hir>::empty());
    assert(crate::hir::print_all(last.drop_first()) =~= Seq::<char>::empty());
    assert(print(last[0]) == l2);
    assert(crate::hir::print_all(last) == print(last[0]) + crate::hir::print_all(
        last.drop_first(),
    ));
    assert(crate::hir::print_all(last) =~= l2);
    assert(print(tail[0]) == wild_text());
    assert(crate::hir::print_all(tail) == print(tail[0]) + crate::hir::print_all(last));
    assert(crate::hir::print_all(tail) =~= wild_text() + l2);
    assert(crate::hir::print_all(xs) == print(xs[0]) + crate::hir::print_all(tail));
    assert(print(gap(l1, l2)) =~= l1 + wild_text() + l2);
    assert(canonical(gap(l1, l2))) by {
        assert forall|i: int| 0 <= i < xs.len() implies canonical(#[trigger] xs[i]) && !(xs[i]
            is Concat) by {}
    }
    lemma_parse_print(gap(l1, l2));
    assert(crate::program::lower_error_tail(last.drop_first()) is None);
    assert(lower_error(last[0]) is None);
    assert(crate::program::lower_error_tail(last) is None);
    assert(crate::program::lower_error_tail(tail) is None);
    assert(lower_error(xs[0]) is None);
    assert(lower_error(gap(l1, l2)) is None);
    lemma_compile_one(l1 + wild_text() + l2);
    lemma_gap_matches(l1, l2, haystack);
}

} // verus!
