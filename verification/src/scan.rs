//! The order in which a scan sees the words of a haystack, stated without
//! reference to any search: by the offset at which an occurrence starts. The
//! words that start at one offset are seen twice, the shorter first each
//! time: once for their jobs that do not start a chain, then for those that
//! do.

use crate::automaton::{hit_end, is_hit_list, occurs_at};
use crate::machine::half;
use crate::stream::{by_start, words_at};
use vstd::prelude::*;

verus! {

/// The first index at which `text` stands in `words`, if it stands there.
pub open spec fn word_index(words: Seq<Seq<u8>>, text: Seq<u8>) -> Option<int>
    decreases words.len(),
{
    if words.len() == 0 {
        None
    } else {
        match word_index(words.drop_last(), text) {
            Some(i) => Some(i),
            None => if words.last() == text {
                Some(words.len() - 1)
            } else {
                None
            },
        }
    }
}

/// The words of at most `len` bytes that stand in `haystack` at `start`,
/// the shorter first.
pub open spec fn words_from(words: Seq<Seq<u8>>, haystack: Seq<u8>, start: int, len: int) -> Seq<
    usize,
>
    decreases len,
{
    if len <= 0 {
        Seq::empty()
    } else {
        let shorter = words_from(words, haystack, start, len - 1);
        if 0 <= start && start + len <= haystack.len() {
            match word_index(words, haystack.subrange(start, start + len)) {
                Some(w) => shorter.push(w as usize),
                None => shorter,
            }
        } else {
            shorter
        }
    }
}

/// The entries for the words that stand in `haystack` at an offset below
/// `limit`, by offset. The words of one offset, the shorter first, are
/// listed once for their jobs that do not start a chain and then once for
/// those that do.
pub open spec fn scan_upto(words: Seq<Seq<u8>>, haystack: Seq<u8>, limit: int) -> Seq<
    (usize, bool),
>
    decreases limit,
{
    if limit <= 0 {
        Seq::empty()
    } else {
        let here = words_from(words, haystack, limit - 1, haystack.len() - (limit - 1));
        scan_upto(words, haystack, limit - 1) + half(here, false) + half(here, true)
    }
}

/// The words that a scan of `haystack` sees, in the order in which it sees
/// them: two entries for each occurrence of each word, one for each kind of
/// job.
pub open spec fn scan_order(words: Seq<Seq<u8>>, haystack: Seq<u8>) -> Seq<(usize, bool)> {
    scan_upto(words, haystack, haystack.len() as int)
}

/// What `word_index` finds is a place of the text, and the first one; what
/// it does not find stands nowhere in the list.
pub proof fn lemma_word_index(words: Seq<Seq<u8>>, text: Seq<u8>)
    ensures
        match word_index(words, text) {
            Some(i) => 0 <= i < words.len() && words[i] == text && forall|j: int|
                0 <= j < i ==> words[j] != text,
            None => forall|j: int| 0 <= j < words.len() ==> words[j] != text,
        },
    decreases words.len(),
{
    if words.len() > 0 {
        let front = words.drop_last();
        lemma_word_index(front, text);
        assert forall|j: int| 0 <= j < front.len() implies front[j] == words[j] by {}
    }
}

/// The bytes of word `w`, or nothing where `w` names no word.
pub open spec fn word_len(words: Seq<Seq<u8>>, w: usize) -> int {
    if w < words.len() {
        words[w as int].len() as int
    } else {
        0
    }
}

/// `list` names words that stand at `start`, each longer than the one
/// before it.
pub open spec fn rising_at(words: Seq<Seq<u8>>, haystack: Seq<u8>, start: int, list: Seq<usize>)
    -> bool {
    &&& forall|i: int|
        0 <= i < list.len() ==> (#[trigger] list[i]) < words.len() && occurs_at(
            words[list[i] as int],
            haystack,
            start,
        )
    &&& forall|i: int, j: int|
        0 <= i < j < list.len() ==> word_len(words, #[trigger] list[i]) < word_len(
            words,
            #[trigger] list[j],
        )
}

/// Two lists that rise and name the same words are one list.
proof fn lemma_rising_unique(
    words: Seq<Seq<u8>>,
    haystack: Seq<u8>,
    start: int,
    a: Seq<usize>,
    b: Seq<usize>,
)
    requires
        rising_at(words, haystack, start, a),
        rising_at(words, haystack, start, b),
        forall|w: usize| a.contains(w) <==> b.contains(w),
    ensures
        a == b,
    decreases a.len(),
{
    if a.len() == 0 {
        if b.len() > 0 {
            assert(b.contains(b[0]));
        }
        assert(a =~= b);
    } else {
        let x = a.last();
        assert(a.contains(x));
        assert(b.contains(x));
        let kb = choose|k: int| 0 <= k < b.len() && b[k] == x;
        let y = b.last();
        assert(b.contains(y));
        let ka = choose|k: int| 0 <= k < a.len() && a[k] == y;
        // each of x and y is the longest of its list, and stands in the other
        assert(word_len(words, y) <= word_len(words, x)) by {
            if ka < a.len() - 1 {
                assert(word_len(words, a[ka]) < word_len(words, a[a.len() - 1]));
            }
        }
        assert(word_len(words, x) <= word_len(words, y)) by {
            if kb < b.len() - 1 {
                assert(word_len(words, b[kb]) < word_len(words, b[b.len() - 1]));
            }
        }
        assert(kb == b.len() - 1) by {
            if kb < b.len() - 1 {
                assert(word_len(words, b[kb]) < word_len(words, b[b.len() - 1]));
            }
        }
        let a0 = a.drop_last();
        let b0 = b.drop_last();
        assert forall|w: usize| a0.contains(w) <==> b0.contains(w) by {
            if a0.contains(w) {
                let i = choose|i: int| 0 <= i < a0.len() && a0[i] == w;
                assert(a[i] == w);
                assert(word_len(words, a[i]) < word_len(words, a[a.len() - 1]));
                assert(a.contains(w));
                let j = choose|j: int| 0 <= j < b.len() && b[j] == w;
                assert(j < b.len() - 1);
                assert(b0[j] == w);
            }
            if b0.contains(w) {
                let i = choose|i: int| 0 <= i < b0.len() && b0[i] == w;
                assert(b[i] == w);
                assert(word_len(words, b[i]) < word_len(words, b[b.len() - 1]));
                assert(b.contains(w));
                let j = choose|j: int| 0 <= j < a.len() && a[j] == w;
                assert(j < a.len() - 1);
                assert(a0[j] == w);
            }
        }
        assert(rising_at(words, haystack, start, a0)) by {
            assert forall|i: int| 0 <= i < a0.len() implies (#[trigger] a0[i]) < words.len()
                && occurs_at(words[a0[i] as int], haystack, start) by {
                assert(a0[i] == a[i]);
            }
            assert forall|i: int, j: int| 0 <= i < j < a0.len() implies word_len(
                words,
                #[trigger] a0[i],
            ) < word_len(words, #[trigger] a0[j]) by {
                assert(a0[i] == a[i] && a0[j] == a[j]);
            }
        }
        assert(rising_at(words, haystack, start, b0)) by {
            assert forall|i: int| 0 <= i < b0.len() implies (#[trigger] b0[i]) < words.len()
                && occurs_at(words[b0[i] as int], haystack, start) by {
                assert(b0[i] == b[i]);
            }
            assert forall|i: int, j: int| 0 <= i < j < b0.len() implies word_len(
                words,
                #[trigger] b0[i],
            ) < word_len(words, #[trigger] b0[j]) by {
                assert(b0[i] == b[i] && b0[j] == b[j]);
            }
        }
        lemma_rising_unique(words, haystack, start, a0, b0);
        assert(a =~= a0.push(x));
        assert(b =~= b0.push(y));
    }
}

/// The words of at most `len` bytes that stand at `start` are listed by
/// `words_from`, each once, the shorter first.
proof fn lemma_words_from(words: Seq<Seq<u8>>, haystack: Seq<u8>, start: int, len: int)
    requires
        words.no_duplicates(),
        words.len() <= usize::MAX,
        0 <= start,
    ensures
        rising_at(words, haystack, start, words_from(words, haystack, start, len)),
        forall|w: usize|
            words_from(words, haystack, start, len).contains(w) <==> (w < words.len() && occurs_at(
                words[w as int],
                haystack,
                start,
            ) && 0 < words[w as int].len() <= len),
    decreases len,
{
    let list = words_from(words, haystack, start, len);
    if len <= 0 {
        assert forall|w: usize| !list.contains(w) by {}
    } else {
        let shorter = words_from(words, haystack, start, len - 1);
        lemma_words_from(words, haystack, start, len - 1);
        let text = haystack.subrange(start, start + len);
        if start + len <= haystack.len() {
            lemma_word_index(words, text);
        }
        let found = start + len <= haystack.len() && word_index(words, text) is Some;
        if found {
            let x = word_index(words, text).unwrap() as usize;
            assert(list == shorter.push(x));
            assert(words[x as int] == text);
            assert(occurs_at(words[x as int], haystack, start));
            assert forall|i: int| 0 <= i < shorter.len() implies word_len(
                words,
                #[trigger] shorter[i],
            ) < word_len(words, x) by {
                assert(shorter.contains(shorter[i]));
            }
            assert forall|w: usize| list.contains(w) <==> (w < words.len() && occurs_at(
                words[w as int],
                haystack,
                start,
            ) && 0 < words[w as int].len() <= len) by {
                if list.contains(w) {
                    let i = choose|i: int| 0 <= i < list.len() && list[i] == w;
                    if i < shorter.len() {
                        assert(shorter[i] == w);
                        assert(shorter.contains(w));
                    }
                }
                if w < words.len() && occurs_at(words[w as int], haystack, start) && 0
                    < words[w as int].len() <= len {
                    if words[w as int].len() == len {
                        assert(words[w as int] == text);
                        assert(w == x);
                        assert(list[shorter.len() as int] == w);
                    } else {
                        assert(shorter.contains(w));
                        let i = choose|i: int| 0 <= i < shorter.len() && shorter[i] == w;
                        assert(list[i] == w);
                    }
                }
            }
        } else {
            assert(list == shorter);
            assert forall|w: usize|
                w < words.len() && occurs_at(words[w as int], haystack, start)
                    && words[w as int].len() == len implies false by {
                assert(words[w as int] == text);
            }
        }
    }
}

/// The hits of a hit list that start at `start` are listed by `words_at`,
/// each once, the shorter first.
proof fn lemma_words_at(
    words: Seq<Seq<u8>>,
    haystack: Seq<u8>,
    hits: Seq<(usize, usize)>,
    start: int,
    k: int,
)
    requires
        words.no_duplicates(),
        is_hit_list(words, haystack, hits),
        0 <= k <= hits.len(),
        0 <= start,
    ensures
        rising_at(words, haystack, start, words_at(hits.take(k), start)),
        forall|w: usize|
            words_at(hits.take(k), start).contains(w) <==> exists|j: int|
                0 <= j < k && #[trigger] hits[j] == (w, start as usize) && start <= usize::MAX,
    decreases k,
{
    let list = words_at(hits.take(k), start);
    if k == 0 {
        assert(hits.take(0) =~= Seq::<(usize, usize)>::empty());
        assert forall|w: usize| !list.contains(w) by {}
    } else {
        lemma_words_at(words, haystack, hits, start, k - 1);
        assert(hits.take(k).drop_last() =~= hits.take(k - 1));
        let shorter = words_at(hits.take(k - 1), start);
        let hit = hits[k - 1];
        assert(hits.take(k).last() == hit);
        if hit.1 == start {
            let x = hit.0;
            assert(list == shorter.push(x));
            assert forall|i: int| 0 <= i < shorter.len() implies word_len(
                words,
                #[trigger] shorter[i],
            ) < word_len(words, x) by {
                let w = shorter[i];
                assert(shorter.contains(w));
                let j = choose|j: int|
                    0 <= j < k - 1 && #[trigger] hits[j] == (w, start as usize) && start
                        <= usize::MAX;
                assert(hit_end(words, hits[j]) <= hit_end(words, hits[k - 1]));
                if word_len(words, w) == word_len(words, x) {
                    assert(words[w as int] =~= words[x as int]);
                    assert(w == x);
                    assert(hits[j] == hits[k - 1]);
                }
            }
            assert forall|w: usize|
                list.contains(w) <==> exists|j: int|
                    0 <= j < k && #[trigger] hits[j] == (w, start as usize) && start
                        <= usize::MAX by {
                if list.contains(w) {
                    let i = choose|i: int| 0 <= i < list.len() && list[i] == w;
                    if i < shorter.len() {
                        assert(shorter[i] == w);
                        assert(shorter.contains(w));
                    } else {
                        assert(hits[k - 1] == (w, start as usize));
                    }
                }
                if exists|j: int|
                    0 <= j < k && #[trigger] hits[j] == (w, start as usize) && start
                        <= usize::MAX {
                    let j = choose|j: int|
                        0 <= j < k && #[trigger] hits[j] == (w, start as usize) && start
                            <= usize::MAX;
                    if j < k - 1 {
                        assert(shorter.contains(w));
                        let i = choose|i: int| 0 <= i < shorter.len() && shorter[i] == w;
                        assert(list[i] == w);
                    } else {
                        assert(list[shorter.len() as int] == w);
                    }
                }
            }
        } else {
            assert(list == shorter);
        }
    }
}

/// A hit list put in the order of the starts of its hits is the scan order:
/// whatever search made the list, it is one and the same sequence.
pub proof fn lemma_by_start_is_scan_order(
    words: Seq<Seq<u8>>,
    haystack: Seq<u8>,
    hits: Seq<(usize, usize)>,
    limit: int,
)
    requires
        words.no_duplicates(),
        words.len() <= usize::MAX,
        forall|w: int| 0 <= w < words.len() ==> (#[trigger] words[w]).len() > 0,
        is_hit_list(words, haystack, hits),
        haystack.len() <= usize::MAX,
        limit <= haystack.len(),
    ensures
        by_start(hits, limit) == scan_upto(words, haystack, limit),
    decreases limit,
{
    if limit > 0 {
        lemma_by_start_is_scan_order(words, haystack, hits, limit - 1);
        let start = limit - 1;
        let a = words_at(hits, start);
        let b = words_from(words, haystack, start, haystack.len() - start);
        assert(hits.take(hits.len() as int) =~= hits);
        lemma_words_at(words, haystack, hits, start, hits.len() as int);
        lemma_words_from(words, haystack, start, haystack.len() - start);
        assert forall|w: usize| a.contains(w) <==> b.contains(w) by {
            if a.contains(w) {
                let j = choose|j: int|
                    0 <= j < hits.len() && #[trigger] hits[j] == (w, start as usize);
                assert(occurs_at(words[hits[j].0 as int], haystack, hits[j].1 as int));
            }
            if b.contains(w) {
                assert(hits.contains((w, start as usize)));
            }
        }
        lemma_rising_unique(words, haystack, start, a, b);
    }
}

} // verus!
