//! The grammar of a strex and its parser.
//!
//! ```text
//! alt   := seq ( "|" seq )*
//! seq   := atom+
//! atom  := ".*" | ident | "(" alt ")"
//! ident := [A-Za-z0-9_]+
//! ```
//!
//! A `seq` of one atom is that atom, an `alt` of one `seq` is that `seq`.

use crate::hir::{
    is_ident_char, lemma_view_concat, lemma_view_or, tree_fits, views, well_formed, Hir, StrexHir,
};
use crate::text::collect_chars;
use vstd::prelude::*;
use vstd::string::*;

verus! {

/// Where the run of word characters that starts at `pos` ends.
pub open spec fn ident_end(s: Seq<char>, pos: int) -> int
    decreases s.len() - pos,
{
    if 0 <= pos < s.len() && is_ident_char(s[pos]) {
        ident_end(s, pos + 1)
    } else {
        pos
    }
}

/// The atom that starts at `pos`, and where it ends.
pub open spec fn parse_atom(s: Seq<char>, pos: int) -> Option<(Hir, int)>
    decreases s.len() - pos, 0int,
{
    if pos < 0 || pos >= s.len() {
        None
    } else if s[pos] == '.' {
        if pos + 1 < s.len() && s[pos + 1] == '*' {
            Some((Hir::Wild, pos + 2))
        } else {
            None
        }
    } else if is_ident_char(s[pos]) {
        Some((Hir::Literal(s.subrange(pos, ident_end(s, pos))), ident_end(s, pos)))
    } else if s[pos] == '(' {
        match parse_alt(s, pos + 1) {
            Some((h, next)) => if 0 <= next < s.len() && s[next] == ')' {
                Some((h, next + 1))
            } else {
                None
            },
            None => None,
        }
    } else {
        None
    }
}

/// As many atoms as stand one after the other from `pos` on, and where the
/// last one ends.
pub open spec fn parse_atoms(s: Seq<char>, pos: int) -> (Seq<Hir>, int)
    decreases s.len() - pos, 1int,
{
    match parse_atom(s, pos) {
        Some((h, next)) => if pos < next <= s.len() {
            let (rest, end) = parse_atoms(s, next);
            (seq![h] + rest, end)
        } else {
            (Seq::empty(), pos)
        },
        None => (Seq::empty(), pos),
    }
}

/// The sequence that starts at `pos`: its atoms as a concatenation, or the
/// atom itself where there is one only.
pub open spec fn parse_seq(s: Seq<char>, pos: int) -> Option<(Hir, int)>
    decreases s.len() - pos, 2int,
{
    let (items, end) = parse_atoms(s, pos);
    if items.len() == 0 {
        None
    } else if items.len() == 1 {
        Some((items[0], end))
    } else {
        Some((Hir::Concat(items), end))
    }
}

/// The sequences that stand from `pos` on with a `|` between each two, and
/// where the last one ends. After a `|` a sequence has to follow.
pub open spec fn parse_alts(s: Seq<char>, pos: int) -> Option<(Seq<Hir>, int)>
    decreases s.len() - pos, 3int,
{
    match parse_seq(s, pos) {
        None => None,
        Some((h, next)) => if pos < next < s.len() && s[next] == '|' {
            match parse_alts(s, next + 1) {
                None => None,
                Some((rest, end)) => Some((seq![h] + rest, end)),
            }
        } else {
            Some((seq![h], next))
        },
    }
}

/// The alternation that starts at `pos`: its sequences as an alternation,
/// or the sequence itself where there is one only.
pub open spec fn parse_alt(s: Seq<char>, pos: int) -> Option<(Hir, int)>
    decreases s.len() - pos, 4int,
{
    match parse_alts(s, pos) {
        None => None,
        Some((items, end)) => if items.len() == 1 {
            Some((items[0], end))
        } else {
            Some((Hir::Or(items), end))
        },
    }
}

/// The tree of the source text `s`, if the whole of `s` is an alternation.
pub open spec fn parse_text(s: Seq<char>) -> Option<Hir> {
    match parse_alt(s, 0) {
        Some((h, end)) => if end == s.len() {
            Some(h)
        } else {
            None
        },
        None => None,
    }
}

/// The run of word characters from `pos` on ends within the text, at a
/// character that is not one, and holds word characters only.
pub proof fn lemma_ident_end(s: Seq<char>, pos: int)
    requires
        0 <= pos <= s.len(),
    ensures
        pos <= ident_end(s, pos) <= s.len(),
        ident_end(s, pos) < s.len() ==> !is_ident_char(s[ident_end(s, pos)]),
        forall|i: int| pos <= i < ident_end(s, pos) ==> is_ident_char(s[i]),
    decreases s.len() - pos,
{
    if pos < s.len() && is_ident_char(s[pos]) {
        lemma_ident_end(s, pos + 1);
    }
}

/// What `parse_atom` builds is well formed and ends within the text, and it
/// fits where the text can be held in memory.
pub proof fn lemma_atom_built(s: Seq<char>, pos: int)
    requires
        0 <= pos <= s.len(),
    ensures
        parse_atom(s, pos) matches Some((h, next)) ==> well_formed(h) && pos < next <= s.len() && (
        s.len() <= usize::MAX ==> tree_fits(h)),
    decreases s.len() - pos, 0int,
{
    if pos < s.len() {
        if s[pos] == '.' {
        } else if is_ident_char(s[pos]) {
            lemma_ident_end(s, pos);
            lemma_ident_end(s, pos + 1);
            let end = ident_end(s, pos);
            let word = s.subrange(pos, end);
            assert forall|i: int| 0 <= i < word.len() implies is_ident_char(#[trigger] word[i]) by {
                assert(word[i] == s[pos + i]);
            }
        } else if s[pos] == '(' {
            lemma_alt_built(s, pos + 1);
        }
    }
}

pub proof fn lemma_atoms_built(s: Seq<char>, pos: int)
    requires
        0 <= pos <= s.len(),
    ensures
        ({
            let (items, end) = parse_atoms(s, pos);
            &&& pos <= end <= s.len()
            &&& items.len() <= end - pos
            &&& forall|i: int|
                0 <= i < items.len() ==> well_formed(#[trigger] items[i]) && (s.len()
                    <= usize::MAX ==> tree_fits(items[i]))
        }),
    decreases s.len() - pos, 1int,
{
    lemma_atom_built(s, pos);
    match parse_atom(s, pos) {
        Some((h, next)) => {
            if pos < next <= s.len() {
                lemma_atoms_built(s, next);
            }
        },
        None => {},
    }
}

pub proof fn lemma_seq_built(s: Seq<char>, pos: int)
    requires
        0 <= pos <= s.len(),
    ensures
        parse_seq(s, pos) matches Some((h, next)) ==> well_formed(h) && pos <= next <= s.len() && (
        s.len() <= usize::MAX ==> tree_fits(h)),
    decreases s.len() - pos, 2int,
{
    lemma_atoms_built(s, pos);
}

pub proof fn lemma_alts_built(s: Seq<char>, pos: int)
    requires
        0 <= pos <= s.len(),
    ensures
        parse_alts(s, pos) matches Some((items, end)) ==> pos <= end <= s.len() && items.len() >= 1
            && forall|i: int|
            0 <= i < items.len() ==> well_formed(#[trigger] items[i]) && (s.len() <= usize::MAX
                ==> tree_fits(items[i])),
    decreases s.len() - pos, 3int,
{
    lemma_seq_built(s, pos);
    match parse_seq(s, pos) {
        Some((h, next)) => {
            if pos < next < s.len() && s[next] == '|' {
                lemma_alts_built(s, next + 1);
            }
        },
        None => {},
    }
}

pub proof fn lemma_alt_built(s: Seq<char>, pos: int)
    requires
        0 <= pos <= s.len(),
    ensures
        parse_alt(s, pos) matches Some((h, next)) ==> well_formed(h) && pos <= next <= s.len() && (
        s.len() <= usize::MAX ==> tree_fits(h)),
    decreases s.len() - pos, 4int,
{
    lemma_alts_built(s, pos);
}

/// The tree of a text is well formed: its literals are words, and its
/// alternations and concatenations have two parts or more. The tree of a
/// text that can be held in memory fits.
pub proof fn lemma_parse_well_formed(s: Seq<char>)
    ensures
        parse_text(s) matches Some(h) ==> well_formed(h) && (s.len() <= usize::MAX ==> tree_fits(
            h,
        )),
{
    lemma_alt_built(s, 0);
}

fn is_ident(c: char) -> (res: bool)
    ensures
        res == is_ident_char(c),
{
    ('a' <= c && c <= 'z') || ('A' <= c && c <= 'Z') || ('0' <= c && c <= '9') || c == '_'
}

fn atom_at(text: &str, chars: &Vec<char>, pos: usize) -> (res: Option<(StrexHir, usize)>)
    requires
        chars@ == text@,
        pos <= chars.len(),
    ensures
        match res {
            Some((h, next)) => parse_atom(chars@, pos as int) == Some((h@, next as int)) && pos
                < next <= chars.len(),
            None => parse_atom(chars@, pos as int) is None,
        },
    decreases chars.len() - pos, 0int,
{
    if pos >= chars.len() {
        return None;
    }
    let c = chars[pos];
    if c == '.' {
        if pos + 1 < chars.len() && chars[pos + 1] == '*' {
            Some((StrexHir::Wild, pos + 2))
        } else {
            None
        }
    } else if is_ident(c) {
        let mut end = pos + 1;
        while end < chars.len() && is_ident(chars[end])
            invariant
                pos < end <= chars.len(),
                ident_end(chars@, end as int) == ident_end(chars@, pos as int),
            decreases chars.len() - end,
        {
            end += 1;
        }
        let word = text.substring_char(pos, end).to_owned();
        Some((StrexHir::Literal(word), end))
    } else if c == '(' {
        match alt_at(text, chars, pos + 1) {
            Some((h, next)) => {
                if next < chars.len() && chars[next] == ')' {
                    Some((h, next + 1))
                } else {
                    None
                }
            },
            None => None,
        }
    } else {
        None
    }
}

fn seq_at(text: &str, chars: &Vec<char>, pos: usize) -> (res: Option<(StrexHir, usize)>)
    requires
        chars@ == text@,
        pos <= chars.len(),
    ensures
        match res {
            Some((h, next)) => parse_seq(chars@, pos as int) == Some((h@, next as int)) && pos
                < next <= chars.len(),
            None => parse_seq(chars@, pos as int) is None,
        },
    decreases chars.len() - pos, 2int,
{
    let mut items: Vec<StrexHir> = Vec::new();
    let mut cur = pos;
    let ghost all = parse_atoms(chars@, pos as int);
    assert(views(items@) + all.0 =~= all.0);
    loop
        invariant
            chars@ == text@,
            pos <= cur <= chars.len(),
            cur == pos <==> items.len() == 0,
            all == parse_atoms(chars@, pos as int),
            views(items@) + parse_atoms(chars@, cur as int).0 == all.0,
            parse_atoms(chars@, cur as int).1 == all.1,
        ensures
            pos <= cur <= chars.len(),
            cur == pos <==> items.len() == 0,
            views(items@) == all.0,
            cur == all.1,
        decreases chars.len() - cur,
    {
        match atom_at(text, chars, cur) {
            Some((h, next)) => {
                proof {
                    let rest = parse_atoms(chars@, next as int);
                    assert(views(items@.push(h)) + rest.0 =~= views(items@) + (seq![h@] + rest.0));
                }
                items.push(h);
                cur = next;
            },
            None => {
                assert(views(items@) + Seq::<Hir>::empty() =~= views(items@));
                break ;
            },
        }
    }
    if items.len() == 0 {
        None
    } else if items.len() == 1 {
        let h = items.pop().unwrap();
        assert(h@ == all.0[0]);
        Some((h, cur))
    } else {
        let h = StrexHir::Concat(items);
        proof {
            lemma_view_concat(h);
        }
        Some((h, cur))
    }
}

fn alt_at(text: &str, chars: &Vec<char>, pos: usize) -> (res: Option<(StrexHir, usize)>)
    requires
        chars@ == text@,
        pos <= chars.len(),
    ensures
        match res {
            Some((h, next)) => parse_alt(chars@, pos as int) == Some((h@, next as int)) && pos
                < next <= chars.len(),
            None => parse_alt(chars@, pos as int) is None,
        },
    decreases chars.len() - pos, 4int,
{
    let mut items: Vec<StrexHir> = Vec::new();
    let mut cur = pos;
    let ghost all = parse_alts(chars@, pos as int);
    loop
        invariant_except_break
            match parse_alts(chars@, cur as int) {
                Some((rest, end)) => all == Some((views(items@) + rest, end)),
                None => all is None,
            },
        invariant
            chars@ == text@,
            pos <= cur <= chars.len(),
            cur == pos <==> items.len() == 0,
            all == parse_alts(chars@, pos as int),
        ensures
            pos < cur <= chars.len(),
            items.len() > 0,
            all == Some((views(items@), cur as int)),
        decreases chars.len() - cur,
    {
        match seq_at(text, chars, cur) {
            Some((h, next)) => {
                let ghost before = views(items@);
                items.push(h);
                if next < chars.len() && chars[next] == '|' {
                    proof {
                        match parse_alts(chars@, next + 1) {
                            Some((rest, end)) => {
                                assert(views(items@) + rest =~= before + (seq![h@] + rest));
                            },
                            None => {},
                        }
                    }
                    cur = next + 1;
                } else {
                    assert(views(items@) =~= before + seq![h@]);
                    cur = next;
                    break ;
                }
            },
            None => {
                return None;
            },
        }
    }
    if items.len() == 1 {
        let h = items.pop().unwrap();
        assert(h@ == all.unwrap().0[0]);
        Some((h, cur))
    } else {
        let h = StrexHir::Or(items);
        proof {
            lemma_view_or(h);
        }
        Some((h, cur))
    }
}

impl StrexHir {
    /// Parses a source text. The whole text has to be one alternation. The
    /// tree that comes back is well formed.
    pub fn parse(strex: &str) -> (res: Option<Self>)
        ensures
            match res {
                Some(h) => parse_text(strex@) == Some(h@) && well_formed(h@),
                None => parse_text(strex@) is None,
            },
    {
        proof {
            lemma_parse_well_formed(strex@);
        }
        let chars = collect_chars(strex);
        match alt_at(strex, &chars, 0) {
            Some((h, end)) => {
                if end == chars.len() {
                    Some(h)
                } else {
                    None
                }
            },
            None => None,
        }
    }
}

} // verus!
