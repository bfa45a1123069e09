//! Putting the hits of a search in the order in which a scan sees them: by
//! the offset at which they start.

use crate::machine::half;
use vstd::prelude::*;

verus! {

/// The words of the hits that start at `start`, in the order of the list.
pub open spec fn words_at(hits: Seq<(usize, usize)>, start: int) -> Seq<usize>
    decreases hits.len(),
{
    if hits.len() == 0 {
        Seq::empty()
    } else if hits.last().1 == start {
        words_at(hits.drop_last(), start).push(hits.last().0)
    } else {
        words_at(hits.drop_last(), start)
    }
}

/// The entries for the hits that start before `limit`: those of a smaller
/// start first; the words of one start, in the order of the list, once for
/// their jobs that do not start a chain and then once for those that do.
pub open spec fn by_start(hits: Seq<(usize, usize)>, limit: int) -> Seq<(usize, bool)>
    decreases limit,
{
    if limit <= 0 {
        Seq::empty()
    } else {
        by_start(hits, limit - 1) + half(words_at(hits, limit - 1), false) + half(
            words_at(hits, limit - 1),
            true,
        )
    }
}

/// Appends the words of `bucket` as entries of one kind.
fn push_half(stream: &mut Vec<(usize, bool)>, bucket: &Vec<usize>, starting: bool)
    ensures
        final(stream)@ == old(stream)@ + half(bucket@, starting),
{
    let ghost before = stream@;
    let mut j: usize = 0;
    while j < bucket.len()
        invariant
            j <= bucket.len(),
            stream@ == before + half(bucket@.take(j as int), starting),
        decreases bucket.len() - j,
    {
        stream.push((bucket[j], starting));
        assert(half(bucket@.take(j + 1), starting) =~= half(bucket@.take(j as int), starting).push(
            (bucket@[j as int], starting),
        ));
        j += 1;
    }
    assert(bucket@.take(j as int) =~= bucket@);
    assert(before + half(bucket@.take(0), starting) =~= before) by {
        assert(half(bucket@.take(0), starting) =~= Seq::<(usize, bool)>::empty());
    }
}

/// Orders the words of `hits` by the start of their hit, and lists the words
/// of each start twice: once for the jobs that do not start a chain, and
/// then once for those that do. Hits that start at `limit` or after it are
/// left out.
pub fn order_by_start(hits: &Vec<(usize, usize)>, limit: usize) -> (stream: Vec<(usize, bool)>)
    ensures
        stream@ == by_start(hits@, limit as int),
{
    let mut buckets: Vec<Vec<usize>> = Vec::new();
    let mut s: usize = 0;
    while s < limit
        invariant
            s <= limit,
            buckets.len() == s,
            forall|t: int| 0 <= t < s ==> (#[trigger] buckets[t])@ == Seq::<usize>::empty(),
        decreases limit - s,
    {
        buckets.push(Vec::new());
        s += 1;
    }
    let mut k: usize = 0;
    while k < hits.len()
        invariant
            k <= hits.len(),
            buckets.len() == limit,
            forall|t: int|
                0 <= t < limit ==> (#[trigger] buckets[t])@ == words_at(hits@.take(k as int), t),
        decreases hits.len() - k,
    {
        let (word, start) = hits[k];
        assert(hits@.take(k + 1).drop_last() =~= hits@.take(k as int));
        if start < limit {
            buckets[start].push(word);
        }
        k += 1;
    }
    assert(hits@.take(k as int) =~= hits@);
    let mut stream: Vec<(usize, bool)> = Vec::new();
    let mut s: usize = 0;
    while s < limit
        invariant
            s <= limit,
            buckets.len() == limit,
            forall|t: int| 0 <= t < limit ==> (#[trigger] buckets[t])@ == words_at(hits@, t),
            stream@ == by_start(hits@, s as int),
        decreases limit - s,
    {
        let bucket = &buckets[s];
        push_half(&mut stream, bucket, false);
        push_half(&mut stream, bucket, true);
        s += 1;
    }
    stream
}

} // verus!
