//! Parsing what was printed gives the tree back.

use crate::hir::{is_ident_char, is_word, print, print_all, print_joined, Hir};
use crate::parser::{ident_end, parse_alts, parse_atom, parse_atoms, parse_seq, parse_text};
use vstd::prelude::*;

verus! {

/// The trees that the printed form tells apart: every word is a word of the
/// grammar, an alternation or a concatenation has two parts or more, and a
/// concatenation has no concatenation as a part and no two literals next to
/// each other.
pub open spec fn canonical(h: Hir) -> bool
    decreases h,
{
    match h {
        Hir::Literal(w) => is_word(w),
        Hir::Or(xs) => xs.len() >= 2 && forall|i: int|
            0 <= i < xs.len() ==> canonical(#[trigger] xs[i]),
        Hir::Concat(xs) => xs.len() >= 2 && (forall|i: int|
            0 <= i < xs.len() ==> canonical(#[trigger] xs[i]) && !(xs[i] is Concat)) && (forall|
            i: int,
        |
            0 <= i && i + 1 < xs.len() ==> !((#[trigger] xs[i]) is Literal && xs[i + 1] is Literal)),
        Hir::Wild => true,
    }
}

/// `t` stands in `s` at `pos`.
pub open spec fn stands_at(s: Seq<char>, pos: int, t: Seq<char>) -> bool {
    &&& 0 <= pos
    &&& pos + t.len() <= s.len()
    &&& forall|i: int| 0 <= i < t.len() ==> s[pos + i] == #[trigger] t[i]
}

/// No word character stands at `pos`.
pub open spec fn word_stops(s: Seq<char>, pos: int) -> bool {
    pos >= s.len() || !is_ident_char(s[pos])
}

/// What ends a sequence stands at `pos`: the end of the text, `|` or `)`.
pub open spec fn seq_stops(s: Seq<char>, pos: int) -> bool {
    pos >= s.len() || s[pos] == '|' || s[pos] == ')'
}

/// What ends an alternation stands at `pos`: the end of the text or `)`.
pub open spec fn alt_stops(s: Seq<char>, pos: int) -> bool {
    pos >= s.len() || s[pos] == ')'
}

proof fn lemma_stands_split(s: Seq<char>, pos: int, a: Seq<char>, b: Seq<char>)
    requires
        stands_at(s, pos, a + b),
    ensures
        stands_at(s, pos, a),
        stands_at(s, pos + a.len(), b),
{
    assert forall|i: int| 0 <= i < a.len() implies s[pos + i] == #[trigger] a[i] by {
        assert((a + b)[i] == a[i]);
    }
    assert forall|i: int| 0 <= i < b.len() implies s[pos + a.len() + i] == #[trigger] b[i] by {
        assert((a + b)[a.len() + i] == b[i]);
    }
}

/// The text of a canonical tree is not empty, and it starts with a word
/// character exactly if the tree is a literal or a concatenation that starts
/// with one.
proof fn lemma_print_head(h: Hir)
    requires
        canonical(h),
    ensures
        print(h).len() > 0,
        h is Literal ==> is_ident_char(print(h)[0]),
        h is Wild ==> print(h)[0] == '.',
        h is Or ==> print(h)[0] == '(',
    decreases h,
{
    match h {
        Hir::Concat(xs) => {
            lemma_print_head(xs[0]);
        },
        _ => {},
    }
}

proof fn lemma_ident_run(s: Seq<char>, pos: int, n: int)
    requires
        0 <= pos,
        0 <= n,
        pos + n <= s.len(),
        forall|i: int| pos <= i < pos + n ==> is_ident_char(s[i]),
        word_stops(s, pos + n),
    ensures
        ident_end(s, pos) == pos + n,
    decreases n,
{
    if n > 0 {
        lemma_ident_run(s, pos + 1, n - 1);
    }
}

/// Nothing that ends a sequence starts an atom.
proof fn lemma_no_atom_at_stop(s: Seq<char>, pos: int)
    requires
        seq_stops(s, pos),
    ensures
        parse_atom(s, pos) is None,
{
}

/// The printed form of a canonical tree that is no concatenation is read
/// back as one atom, provided that no word character follows a literal.
proof fn lemma_atom(s: Seq<char>, pos: int, h: Hir)
    requires
        canonical(h),
        !(h is Concat),
        stands_at(s, pos, print(h)),
        h is Literal ==> word_stops(s, pos + print(h).len()),
    ensures
        parse_atom(s, pos) == Some((h, pos + print(h).len())),
    decreases h, 0int,
{
    lemma_print_head(h);
    assert(s[pos + 0] == print(h)[0]);
    match h {
        Hir::Literal(w) => {
            assert forall|i: int| pos <= i < pos + w.len() implies is_ident_char(s[i]) by {
                assert(s[pos + (i - pos)] == w[i - pos]);
            }
            lemma_ident_run(s, pos, w.len() as int);
            assert(s.subrange(pos, pos + w.len()) =~= w) by {
                assert forall|i: int| 0 <= i < w.len() implies s.subrange(pos, pos + w.len())[i]
                    == w[i] by {
                    assert(s[pos + i] == w[i]);
                }
            }
        },
        Hir::Or(xs) => {
            let inner = print_joined(xs);
            lemma_stands_split(s, pos, seq!['('] + inner, seq![')']);
            lemma_stands_split(s, pos, seq!['('], inner);
            let close = pos + 1 + inner.len();
            assert(s[close + 0] == seq![')'][0]);
            assert(xs.skip(0) =~= xs);
            lemma_alts(s, pos + 1, xs, 0);
        },
        Hir::Wild => {
            assert(s[pos + 1] == print(h)[1]);
        },
        Hir::Concat(_) => {},
    }
}

/// The printed parts of a canonical concatenation, from the `k`-th on, are
/// read back as these parts.
proof fn lemma_atoms(s: Seq<char>, pos: int, xs: Seq<Hir>, k: int)
    requires
        0 <= k <= xs.len(),
        forall|i: int| 0 <= i < xs.len() ==> canonical(#[trigger] xs[i]) && !(xs[i] is Concat),
        forall|i: int|
            0 <= i && i + 1 < xs.len() ==> !((#[trigger] xs[i]) is Literal && xs[i + 1] is Literal),
        stands_at(s, pos, print_all(xs.skip(k))),
        seq_stops(s, pos + print_all(xs.skip(k)).len()),
    ensures
        parse_atoms(s, pos) == (xs.skip(k), pos + print_all(xs.skip(k)).len()),
    decreases xs, xs.len() - k,
{
    let rest = xs.skip(k);
    if k == xs.len() {
        assert(rest =~= Seq::<Hir>::empty());
        lemma_no_atom_at_stop(s, pos);
    } else {
        let h = xs[k];
        assert(rest[0] == h);
        assert(rest.drop_first() =~= xs.skip(k + 1));
        let tail = print_all(xs.skip(k + 1));
        lemma_stands_split(s, pos, print(h), tail);
        lemma_print_head(h);
        let next = pos + print(h).len();
        if h is Literal {
            if k + 1 < xs.len() {
                let after = xs[k + 1];
                assert(!(xs[k] is Literal && xs[k + 1] is Literal));
                assert(xs.skip(k + 1)[0] == after);
                lemma_print_head(after);
                assert(tail =~= print(after) + print_all(xs.skip(k + 1).drop_first()));
                assert(s[next + 0] == tail[0]);
            } else {
                assert(xs.skip(k + 1) =~= Seq::<Hir>::empty());
            }
        }
        lemma_atom(s, pos, h);
        lemma_atoms(s, next, xs, k + 1);
        assert(seq![h] + xs.skip(k + 1) =~= rest);
    }
}

/// The printed form of a canonical tree is read back as one sequence, when
/// what follows it ends a sequence.
proof fn lemma_seq(s: Seq<char>, pos: int, h: Hir)
    requires
        canonical(h),
        stands_at(s, pos, print(h)),
        seq_stops(s, pos + print(h).len()),
    ensures
        parse_seq(s, pos) == Some((h, pos + print(h).len())),
    decreases h, 1int,
{
    match h {
        Hir::Concat(xs) => {
            assert(xs.skip(0) =~= xs);
            lemma_atoms(s, pos, xs, 0);
        },
        _ => {
            lemma_print_head(h);
            let end = pos + print(h).len();
            lemma_atom(s, pos, h);
            lemma_no_atom_at_stop(s, end);
            assert(seq![h] + Seq::<Hir>::empty() =~= seq![h]);
        },
    }
}

/// The printed alternatives of a canonical alternation, from the `k`-th on,
/// are read back as these alternatives.
proof fn lemma_alts(s: Seq<char>, pos: int, xs: Seq<Hir>, k: int)
    requires
        0 <= k < xs.len(),
        forall|i: int| 0 <= i < xs.len() ==> canonical(#[trigger] xs[i]),
        stands_at(s, pos, print_joined(xs.skip(k))),
        alt_stops(s, pos + print_joined(xs.skip(k)).len()),
    ensures
        parse_alts(s, pos) == Some((xs.skip(k), pos + print_joined(xs.skip(k)).len())),
    decreases xs, xs.len() - k,
{
    let rest = xs.skip(k);
    let h = xs[k];
    assert(rest[0] == h);
    assert(rest.drop_first() =~= xs.skip(k + 1));
    lemma_print_head(h);
    let next = pos + print(h).len();
    if k + 1 == xs.len() {
        lemma_seq(s, pos, h);
        assert(seq![h] =~= rest);
    } else {
        let tail = print_joined(xs.skip(k + 1));
        lemma_stands_split(s, pos, print(h) + seq!['|'], tail);
        lemma_stands_split(s, pos, print(h), seq!['|']);
        assert(s[next + 0] == seq!['|'][0]);
        lemma_seq(s, pos, h);
        lemma_alts(s, next + 1, xs, k + 1);
        assert(seq![h] + xs.skip(k + 1) =~= rest);
    }
}

/// Parsing the printed form of a canonical tree gives the tree back.
///
/// A tree that is not canonical is not given back: a concatenation within a
/// concatenation is printed without a mark of its own, and two literals
/// next to each other are printed as one word.
pub proof fn lemma_parse_print(h: Hir)
    requires
        canonical(h),
    ensures
        parse_text(print(h)) == Some(h),
{
    let s = print(h);
    lemma_print_head(h);
    lemma_seq(s, 0, h);
    assert(parse_alts(s, 0) == Some((seq![h], s.len() as int)));
}

} // verus!
