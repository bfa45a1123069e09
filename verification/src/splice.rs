//! Parsing a text that is part of a longer text: what the parser reads from
//! a text it reads from the same text with more before it or after it.

use crate::hir::{is_ident_char, Hir};
use crate::parser::{
    ident_end, lemma_alt_built, lemma_atom_built, lemma_atoms_built, lemma_ident_end,
    lemma_seq_built, parse_alt, parse_alts, parse_atom, parse_atoms, parse_seq, parse_text,
};
use crate::roundtrip::seq_stops;
use vstd::prelude::*;

verus! {

/// A result of the parser with its end moved on by `k`.
pub open spec fn moved(r: Option<(Hir, int)>, k: int) -> Option<(Hir, int)> {
    match r {
        Some((h, end)) => Some((h, end + k)),
        None => None,
    }
}

proof fn lemma_ident_after(pre: Seq<char>, b: Seq<char>, pos: int)
    requires
        0 <= pos <= b.len(),
    ensures
        ident_end(pre + b, pre.len() + pos) == ident_end(b, pos) + pre.len(),
    decreases b.len() - pos,
{
    let s = pre + b;
    if pos < b.len() {
        assert(s[pre.len() + pos] == b[pos]);
        if is_ident_char(b[pos]) {
            lemma_ident_after(pre, b, pos + 1);
        }
    }
}

proof fn lemma_atom_after(pre: Seq<char>, b: Seq<char>, pos: int)
    requires
        0 <= pos <= b.len(),
    ensures
        parse_atom(pre + b, pre.len() + pos) == moved(parse_atom(b, pos), pre.len() as int),
    decreases b.len() - pos, 0int,
{
    let s = pre + b;
    let k = pre.len() as int;
    if pos < b.len() {
        assert(s[k + pos] == b[pos]);
        if b[pos] == '.' {
            if pos + 1 < b.len() {
                assert(s[k + pos + 1] == b[pos + 1]);
            }
        } else if is_ident_char(b[pos]) {
            lemma_ident_after(pre, b, pos);
            lemma_ident_end(b, pos);
            let end = ident_end(b, pos);
            assert(s.subrange(k + pos, k + end) =~= b.subrange(pos, end));
        } else if b[pos] == '(' {
            lemma_alt_after(pre, b, pos + 1);
            lemma_alt_built(b, pos + 1);
            match parse_alt(b, pos + 1) {
                Some((h, next)) => {
                    if next < b.len() {
                        assert(s[k + next] == b[next]);
                    }
                },
                None => {},
            }
        }
    }
}

proof fn lemma_atoms_after(pre: Seq<char>, b: Seq<char>, pos: int)
    requires
        0 <= pos <= b.len(),
    ensures
        parse_atoms(pre + b, pre.len() + pos) == (
            parse_atoms(b, pos).0,
            parse_atoms(b, pos).1 + pre.len(),
        ),
    decreases b.len() - pos, 1int,
{
    lemma_atom_after(pre, b, pos);
    match parse_atom(b, pos) {
        Some((h, next)) => {
            if pos < next <= b.len() {
                lemma_atoms_after(pre, b, next);
            }
        },
        None => {},
    }
}

proof fn lemma_seq_after(pre: Seq<char>, b: Seq<char>, pos: int)
    requires
        0 <= pos <= b.len(),
    ensures
        parse_seq(pre + b, pre.len() + pos) == moved(parse_seq(b, pos), pre.len() as int),
    decreases b.len() - pos, 2int,
{
    lemma_atoms_after(pre, b, pos);
}

proof fn lemma_alts_after(pre: Seq<char>, b: Seq<char>, pos: int)
    requires
        0 <= pos <= b.len(),
    ensures
        parse_alts(pre + b, pre.len() + pos) == match parse_alts(b, pos) {
            Some((items, end)) => Some((items, end + pre.len())),
            None => None,
        },
    decreases b.len() - pos, 3int,
{
    let s = pre + b;
    let k = pre.len() as int;
    lemma_seq_after(pre, b, pos);
    lemma_seq_built(b, pos);
    match parse_seq(b, pos) {
        Some((h, next)) => {
            if next < b.len() {
                assert(s[k + next] == b[next]);
            }
            if pos < next < b.len() && b[next] == '|' {
                lemma_alts_after(pre, b, next + 1);
            }
        },
        None => {},
    }
}

proof fn lemma_alt_after(pre: Seq<char>, b: Seq<char>, pos: int)
    requires
        0 <= pos <= b.len(),
    ensures
        parse_alt(pre + b, pre.len() + pos) == moved(parse_alt(b, pos), pre.len() as int),
    decreases b.len() - pos, 4int,
{
    lemma_alts_after(pre, b, pos);
}

proof fn lemma_ident_before(a: Seq<char>, t: Seq<char>, pos: int)
    requires
        0 <= pos <= a.len(),
        seq_stops(a + t, a.len() as int),
    ensures
        ident_end(a + t, pos) == ident_end(a, pos),
    decreases a.len() - pos,
{
    let s = a + t;
    if pos < a.len() {
        assert(s[pos] == a[pos]);
        if is_ident_char(a[pos]) {
            lemma_ident_before(a, t, pos + 1);
        }
    }
}

proof fn lemma_atom_before(a: Seq<char>, t: Seq<char>, pos: int)
    requires
        0 <= pos <= a.len(),
        seq_stops(a + t, a.len() as int),
        parse_atom(a, pos) is Some,
    ensures
        parse_atom(a + t, pos) == parse_atom(a, pos),
    decreases a.len() - pos, 0int,
{
    let s = a + t;
    assert(s[pos] == a[pos]);
    if a[pos] == '.' {
        assert(s[pos + 1] == a[pos + 1]);
    } else if is_ident_char(a[pos]) {
        lemma_ident_before(a, t, pos);
        lemma_ident_end(a, pos);
        let end = ident_end(a, pos);
        assert(s.subrange(pos, end) =~= a.subrange(pos, end));
    } else if a[pos] == '(' {
        lemma_alt_built(a, pos + 1);
        let (h, next) = parse_alt(a, pos + 1).unwrap();
        lemma_alt_before(a, t, pos + 1);
        assert(s[next] == a[next]);
    }
}

proof fn lemma_atoms_before(a: Seq<char>, t: Seq<char>, pos: int)
    requires
        0 <= pos <= a.len(),
        seq_stops(a + t, a.len() as int),
        seq_stops(a, parse_atoms(a, pos).1),
    ensures
        parse_atoms(a + t, pos) == parse_atoms(a, pos),
    decreases a.len() - pos, 1int,
{
    let s = a + t;
    lemma_atom_built(a, pos);
    match parse_atom(a, pos) {
        Some((h, next)) => {
            lemma_atom_before(a, t, pos);
            lemma_atoms_before(a, t, next);
        },
        None => {
            if pos < a.len() {
                assert(s[pos] == a[pos]);
            }
        },
    }
}

proof fn lemma_seq_before(a: Seq<char>, t: Seq<char>, pos: int)
    requires
        0 <= pos <= a.len(),
        seq_stops(a + t, a.len() as int),
        parse_seq(a, pos) matches Some((h, end)) && seq_stops(a, end),
    ensures
        parse_seq(a + t, pos) == parse_seq(a, pos),
    decreases a.len() - pos, 2int,
{
    lemma_atoms_before(a, t, pos);
}

proof fn lemma_alts_before(a: Seq<char>, t: Seq<char>, pos: int)
    requires
        0 <= pos <= a.len(),
        seq_stops(a + t, a.len() as int),
        parse_alts(a, pos) matches Some((items, end)) && end < a.len() && a[end] == ')',
    ensures
        parse_alts(a + t, pos) == parse_alts(a, pos),
    decreases a.len() - pos, 3int,
{
    let s = a + t;
    lemma_seq_built(a, pos);
    let (h, next) = parse_seq(a, pos).unwrap();
    if pos < next < a.len() && a[next] == '|' {
        lemma_seq_before(a, t, pos);
        lemma_alts_before(a, t, next + 1);
        assert(s[next] == a[next]);
    } else {
        lemma_seq_before(a, t, pos);
        assert(s[next] == a[next]);
    }
}

proof fn lemma_alt_before(a: Seq<char>, t: Seq<char>, pos: int)
    requires
        0 <= pos <= a.len(),
        seq_stops(a + t, a.len() as int),
        parse_alt(a, pos) matches Some((h, end)) && end < a.len() && a[end] == ')',
    ensures
        parse_alt(a + t, pos) == parse_alt(a, pos),
    decreases a.len() - pos, 4int,
{
    lemma_alts_before(a, t, pos);
}

/// The whole of the text is one sequence: it has no `|` outside
/// parentheses.
pub open spec fn is_sequence(a: Seq<char>) -> bool {
    parse_seq(a, 0) matches Some((h, end)) && end == a.len()
}

/// The tree of a text that is one sequence.
pub open spec fn sequence_tree(a: Seq<char>) -> Hir {
    parse_seq(a, 0).unwrap().0
}

/// Two texts that are each one sequence, with a `|` between them, are read
/// as the alternation of the two.
pub proof fn lemma_parse_bar(a: Seq<char>, b: Seq<char>)
    requires
        is_sequence(a),
        is_sequence(b),
    ensures
        parse_text(a + seq!['|'] + b) == Some(Hir::Or(seq![sequence_tree(a), sequence_tree(b)])),
{
    let bar = seq!['|'];
    let t = bar + b;
    let s = a + t;
    assert(s =~= a + bar + b);
    let ha = sequence_tree(a);
    let hb = sequence_tree(b);
    let n = a.len() as int;
    assert(s[n] == '|');
    lemma_atoms_built(a, 0);
    lemma_seq_before(a, t, 0);
    assert(parse_seq(s, 0) == Some((ha, n)));
    let pre = a + bar;
    assert(s =~= pre + b);
    lemma_alts_after(pre, b, 0);
    assert(parse_alts(b, 0) == Some((seq![hb], b.len() as int)));
    assert(parse_alts(s, n + 1) == Some((seq![hb], s.len() as int)));
    assert(0 < n < s.len());
    assert(parse_alts(s, 0) == Some((seq![ha] + seq![hb], s.len() as int)));
    assert(seq![ha] + seq![hb] =~= seq![ha, hb]);
}

} // verus!
