//! The literal matcher: an Aho-Corasick automaton over the words of a set.
//! What this file states about it is taken on trust.

use aho_corasick::{AhoCorasick, BuildError};
use vstd::prelude::*;
use vstd::string::*;

verus! {

/// `aho_corasick::AhoCorasick`, the automaton. Nothing is known of what is
/// in one but what the two names below say.
#[verifier::external_type_specification]
#[verifier::external_body]
pub struct ExAhoCorasick(AhoCorasick);

/// `aho_corasick::BuildError`, the reason for which no automaton was built.
/// Nothing is known of what is in one.
#[verifier::external_type_specification]
#[verifier::external_body]
pub struct ExBuildError(BuildError);

/// The words that an automaton searches for, as bytes, in the order in which
/// they were given when it was built.
pub uninterp spec fn automaton_words(ac: AhoCorasick) -> Seq<Seq<u8>>;

/// Whether an automaton was built with the default configuration: the
/// standard match kind, unanchored search, and bytes compared as they are,
/// without folding case. An overlapping search asks for the first two, and
/// what is said of its hits holds only with the third.
pub uninterp spec fn automaton_is_standard(ac: AhoCorasick) -> bool;

/// Whether `AhoCorasick::new` builds an automaton for a list of words. It
/// does unless the words are so many or so long that its state or pattern
/// numbers run out.
pub uninterp spec fn automaton_builds(words: Seq<Seq<u8>>) -> bool;

/// The encodings of a list of words.
pub open spec fn encodings(words: Seq<Seq<char>>) -> Seq<Seq<u8>> {
    Seq::new(words.len(), |i: int| vstd::utf8::encode_utf8(words[i]))
}

/// `word` stands in `haystack` at offset `start`.
pub open spec fn occurs_at(word: Seq<u8>, haystack: Seq<u8>, start: int) -> bool {
    &&& 0 <= start
    &&& start + word.len() <= haystack.len()
    &&& haystack.subrange(start, start + word.len()) == word
}

/// Where a hit ends.
pub open spec fn hit_end(words: Seq<Seq<u8>>, hit: (usize, usize)) -> int {
    hit.1 + words[hit.0 as int].len()
}

/// `hits` lists the occurrences of `words` in `haystack`: every one of them,
/// each once, nothing else, and none before one that ends earlier.
pub open spec fn is_hit_list(words: Seq<Seq<u8>>, haystack: Seq<u8>, hits: Seq<(usize, usize)>)
    -> bool {
    &&& forall|k: int|
        0 <= k < hits.len() ==> (#[trigger] hits[k]).0 < words.len() && occurs_at(
            words[hits[k].0 as int],
            haystack,
            hits[k].1 as int,
        )
    &&& forall|w: usize, start: usize|
        w < words.len() && occurs_at(words[w as int], haystack, start as int)
            ==> #[trigger] hits.contains((w, start))
    &&& hits.no_duplicates()
    &&& forall|j: int, k: int|
        0 <= j < k < hits.len() ==> hit_end(words, #[trigger] hits[j]) <= hit_end(
            words,
            #[trigger] hits[k],
        )
}

/// Words that differ have encodings that differ, and a word that is not
/// empty has an encoding that is not empty.
pub proof fn lemma_encodings(words: Seq<Seq<char>>)
    requires
        words.no_duplicates(),
        forall|w: int| 0 <= w < words.len() ==> (#[trigger] words[w]).len() > 0,
    ensures
        encodings(words).len() == words.len(),
        encodings(words).no_duplicates(),
        forall|w: int| 0 <= w < words.len() ==> (#[trigger] encodings(words)[w]).len() > 0,
{
    broadcast use vstd::utf8::encode_utf8_decode_utf8;

    let enc = encodings(words);
    assert forall|i: int, j: int| 0 <= i < enc.len() && 0 <= j < enc.len() && i != j implies enc[i]
        != enc[j] by {
        assert(vstd::utf8::decode_utf8(enc[i]) == words[i]);
        assert(vstd::utf8::decode_utf8(enc[j]) == words[j]);
    }
    assert forall|w: int| 0 <= w < words.len() implies (#[trigger] enc[w]).len() > 0 by {
        assert(vstd::utf8::decode_utf8(enc[w]) == words[w]);
        if enc[w].len() == 0 {
            assert(enc[w] =~= Seq::<u8>::empty());
            assert(vstd::utf8::decode_utf8(Seq::<u8>::empty()).len() == 0);
        }
    }
}

/// Calls `AhoCorasick::new` on `words`. Whether an automaton comes back
/// depends on the words alone. One that comes back searches for exactly
/// these words, numbered as in the list, and has the default configuration.
#[verifier::external_body]
pub(crate) fn build_automaton(words: &Vec<String>) -> (res: Result<AhoCorasick, BuildError>)
    ensures
        res is Ok <==> automaton_builds(encodings(crate::hir::texts(words@))),
        res matches Ok(ac) ==> automaton_words(ac) == encodings(crate::hir::texts(words@))
            && automaton_is_standard(ac),
{
    AhoCorasick::new(words)
}

/// Calls `AhoCorasick::find_overlapping_iter` on `haystack` and lists, for
/// each match in the order reported, the index of its word and its start.
/// The search reports every occurrence of every word once, and goes through
/// the haystack from left to right reporting a match when it reaches its
/// end.
#[verifier::external_body]
pub(crate) fn find_overlapping(ac: &AhoCorasick, haystack: &str) -> (res: Vec<(usize, usize)>)
    requires
        automaton_is_standard(*ac),
    ensures
        is_hit_list(automaton_words(*ac), haystack.spec_bytes(), res@),
{
    ac.find_overlapping_iter(haystack).map(|m| (m.pattern().as_usize(), m.start())).collect()
}

} // verus!
