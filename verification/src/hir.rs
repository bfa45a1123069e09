//! Pattern trees: the structure of a strex, how it is written out, and the
//! literal words it holds.

use vstd::prelude::*;
use vstd::string::*;

verus! {

/// The mathematical form of a pattern tree.
pub enum Hir {
    /// A word that has to appear verbatim.
    Literal(Seq<char>),
    /// Any one of the alternatives.
    Or(Seq<Hir>),
    /// The parts one after the other.
    Concat(Seq<Hir>),
    /// The unbounded gap `.*`.
    Wild,
}

/// A pattern tree as the parser builds it.
#[derive(Debug, PartialEq, Eq)]
pub enum StrexHir {
    Literal(String),
    Or(Vec<StrexHir>),
    Concat(Vec<StrexHir>),
    Wild,
}

impl View for StrexHir {
    type V = Hir;

    open spec fn view(&self) -> Hir
        decreases self,
    {
        match self {
            StrexHir::Literal(lit) => Hir::Literal(lit@),
            StrexHir::Or(items) => Hir::Or(
                Seq::new(
                    items.len() as nat,
                    |i: int| if 0 <= i < items.len() { items[i]@ } else { Hir::Wild },
                ),
            ),
            StrexHir::Concat(items) => Hir::Concat(
                Seq::new(
                    items.len() as nat,
                    |i: int| if 0 <= i < items.len() { items[i]@ } else { Hir::Wild },
                ),
            ),
            StrexHir::Wild => Hir::Wild,
        }
    }
}

/// The views of a list of trees, in order.
pub open spec fn views(items: Seq<StrexHir>) -> Seq<Hir> {
    Seq::new(items.len(), |i: int| items[i]@)
}

/// The contents of a list of strings, in order.
pub open spec fn texts(items: Seq<String>) -> Seq<Seq<char>> {
    Seq::new(items.len(), |i: int| items[i]@)
}

/// The view of an alternation is the alternation of its children's views.
pub proof fn lemma_view_or(h: StrexHir)
    requires
        h is Or,
    ensures
        h@ == Hir::Or(views(h->Or_0@)),
{
    assert(h@->Or_0 =~= views(h->Or_0@));
}

/// The view of a concatenation is the concatenation of its children's views.
pub proof fn lemma_view_concat(h: StrexHir)
    requires
        h is Concat,
    ensures
        h@ == Hir::Concat(views(h->Concat_0@)),
{
    assert(h@->Concat_0 =~= views(h->Concat_0@));
}

/// The characters a literal word is made of.
pub open spec fn is_ident_char(c: char) -> bool {
    ('a' <= c && c <= 'z') || ('A' <= c && c <= 'Z') || ('0' <= c && c <= '9') || c == '_'
}

/// A literal word as the grammar has it: one word character or more.
pub open spec fn is_word(w: Seq<char>) -> bool {
    w.len() > 0 && forall|i: int| 0 <= i < w.len() ==> is_ident_char(#[trigger] w[i])
}

/// Every literal of the tree is a word, and every alternation and every
/// concatenation has two parts or more.
pub open spec fn well_formed(h: Hir) -> bool
    decreases h,
{
    match h {
        Hir::Literal(w) => is_word(w),
        Hir::Or(xs) => xs.len() >= 2 && forall|i: int|
            0 <= i < xs.len() ==> well_formed(#[trigger] xs[i]),
        Hir::Concat(xs) => xs.len() >= 2 && forall|i: int|
            0 <= i < xs.len() ==> well_formed(#[trigger] xs[i]),
        Hir::Wild => true,
    }
}

/// No concatenation of the tree has more parts than can be counted.
pub open spec fn tree_fits(h: Hir) -> bool
    decreases h,
{
    match h {
        Hir::Literal(_) => true,
        Hir::Or(xs) => forall|i: int| 0 <= i < xs.len() ==> tree_fits(#[trigger] xs[i]),
        Hir::Concat(xs) => xs.len() <= usize::MAX && forall|i: int|
            0 <= i < xs.len() ==> tree_fits(#[trigger] xs[i]),
        Hir::Wild => true,
    }
}

/// A tree that is held in memory fits.
pub proof fn lemma_view_fits(h: StrexHir)
    ensures
        tree_fits(h@),
    decreases h,
{
    match h {
        StrexHir::Or(items) => {
            assert forall|i: int| 0 <= i < items.len() implies tree_fits(
                #[trigger] h@->Or_0[i],
            ) by {
                lemma_view_fits(items[i]);
            }
        },
        StrexHir::Concat(items) => {
            assert forall|i: int| 0 <= i < items.len() implies tree_fits(
                #[trigger] h@->Concat_0[i],
            ) by {
                lemma_view_fits(items[i]);
            }
        },
        _ => {},
    }
}

/// The two characters of the gap.
pub open spec fn wild_text() -> Seq<char> {
    seq!['.', '*']
}

/// The source text of a tree. An alternation is always written in
/// parentheses, a concatenation never.
pub open spec fn print(h: Hir) -> Seq<char>
    decreases h,
{
    match h {
        Hir::Literal(w) => w,
        Hir::Or(xs) => seq!['('] + print_joined(xs) + seq![')'],
        Hir::Concat(xs) => print_all(xs),
        Hir::Wild => wild_text(),
    }
}

/// The texts of `xs` one after the other.
pub open spec fn print_all(xs: Seq<Hir>) -> Seq<char>
    decreases xs,
{
    if xs.len() == 0 {
        Seq::empty()
    } else {
        print(xs[0]) + print_all(xs.drop_first())
    }
}

/// The texts of `xs` with a `|` between each two.
pub open spec fn print_joined(xs: Seq<Hir>) -> Seq<char>
    decreases xs,
{
    if xs.len() == 0 {
        Seq::empty()
    } else if xs.len() == 1 {
        print(xs[0])
    } else {
        print(xs[0]) + seq!['|'] + print_joined(xs.drop_first())
    }
}

/// The literal words of a tree, left to right. A word that occurs twice is
/// listed twice.
pub open spec fn words_of(h: Hir) -> Seq<Seq<char>>
    decreases h,
{
    match h {
        Hir::Literal(w) => seq![w],
        Hir::Or(xs) => words_of_all(xs),
        Hir::Concat(xs) => words_of_all(xs),
        Hir::Wild => Seq::empty(),
    }
}

/// The literal words of each tree of `xs`, left to right.
pub open spec fn words_of_all(xs: Seq<Hir>) -> Seq<Seq<char>>
    decreases xs,
{
    if xs.len() == 0 {
        Seq::empty()
    } else {
        words_of(xs[0]) + words_of_all(xs.drop_first())
    }
}

impl Clone for StrexHir {
    fn clone(&self) -> (res: Self)
        ensures
            res@ == self@,
        decreases self,
    {
        match self {
            StrexHir::Literal(lit) => StrexHir::Literal(lit.clone()),
            StrexHir::Or(items) => {
                let res = StrexHir::Or(clone_items(items));
                proof {
                    lemma_view_or(*self);
                    lemma_view_or(res);
                }
                res
            },
            StrexHir::Concat(items) => {
                let res = StrexHir::Concat(clone_items(items));
                proof {
                    lemma_view_concat(*self);
                    lemma_view_concat(res);
                }
                res
            },
            StrexHir::Wild => StrexHir::Wild,
        }
    }
}

fn clone_items(items: &Vec<StrexHir>) -> (res: Vec<StrexHir>)
    ensures
        views(res@) == views(items@),
    decreases items,
{
    let mut res: Vec<StrexHir> = Vec::new();
    let mut i: usize = 0;
    while i < items.len()
        invariant
            i <= items.len(),
            res.len() == i,
            forall|j: int| 0 <= j < i ==> res[j]@ == items[j]@,
        decreases items.len() - i,
    {
        res.push(items[i].clone());
        i += 1;
    }
    assert(views(res@) =~= views(items@));
    res
}

impl StrexHir {
    /// Writes the tree out as source text.
    pub fn to_string(&self) -> (res: String)
        ensures
            res@ == print(self@),
        decreases self,
    {
        let mut out = String::new();
        self.write_to(&mut out);
        out
    }

    /// Appends the source text of the tree to `out`.
    fn write_to(&self, out: &mut String)
        ensures
            final(out)@ == old(out)@ + print(self@),
        decreases self,
    {
        match self {
            StrexHir::Literal(lit) => {
                out.append(lit.as_str());
            },
            StrexHir::Or(items) => {
                proof {
                    lemma_view_or(*self);
                    reveal_strlit("(");
                    reveal_strlit("|");
                    reveal_strlit(")");
                }
                let ghost xs = views(items@);
                let ghost start = out@;
                out.append("(");
                assert("("@ =~= seq!['(']);
                assert(xs.skip(0) =~= xs);
                assert(out@ + Seq::<char>::empty() =~= start + seq!['(']);
                let mut i: usize = 0;
                while i < items.len()
                    invariant
                        i <= items.len(),
                        xs == views(items@),
                        decreases_to!(self => items),
                        "|"@ == seq!['|'],
                        start + seq!['('] + print_joined(xs) == out@ + (if 0 < i < xs.len() {
                            seq!['|']
                        } else {
                            Seq::empty()
                        }) + print_joined(xs.skip(i as int)),
                    decreases items.len() - i,
                {
                    if i > 0 {
                        out.append("|");
                    }
                    let ghost before = out@;
                    items[i].write_to(out);
                    proof {
                        let rest = xs.skip(i as int);
                        assert(rest[0] == items[i as int]@);
                        assert(rest.drop_first() =~= xs.skip(i + 1));
                        if rest.len() == 1 {
                            assert(print_joined(xs.skip(i + 1)) =~= Seq::<char>::empty());
                            assert(before + print_joined(rest) =~= out@ + Seq::<char>::empty()
                                + print_joined(xs.skip(i + 1)));
                        } else {
                            assert(before + print_joined(rest) =~= out@ + seq!['|'] + print_joined(
                                xs.skip(i + 1),
                            ));
                        }
                    }
                    i += 1;
                }
                proof {
                    assert(xs.skip(i as int) =~= Seq::<Hir>::empty());
                    assert(out@ =~= start + seq!['('] + print_joined(xs));
                }
                out.append(")");
                assert(out@ =~= start + print(self@));
            },
            StrexHir::Concat(items) => {
                proof {
                    lemma_view_concat(*self);
                }
                let ghost xs = views(items@);
                let ghost start = out@;
                assert(xs.skip(0) =~= xs);
                let mut i: usize = 0;
                while i < items.len()
                    invariant
                        i <= items.len(),
                        xs == views(items@),
                        decreases_to!(self => items),
                        start + print_all(xs) == out@ + print_all(xs.skip(i as int)),
                    decreases items.len() - i,
                {
                    let ghost before = out@;
                    items[i].write_to(out);
                    proof {
                        let rest = xs.skip(i as int);
                        assert(rest[0] == items[i as int]@);
                        assert(rest.drop_first() =~= xs.skip(i + 1));
                        assert(before + print_all(rest) =~= out@ + print_all(xs.skip(i + 1)));
                    }
                    i += 1;
                }
                proof {
                    assert(xs.skip(i as int) =~= Seq::<Hir>::empty());
                    assert(out@ =~= start + print_all(xs));
                }
            },
            StrexHir::Wild => {
                proof {
                    reveal_strlit(".*");
                }
                out.append(".*");
                assert(".*"@ =~= wild_text());
            },
        }
    }

    /// The literal words of the tree, left to right.
    pub fn words(&self) -> (res: Vec<String>)
        ensures
            texts(res@) == words_of(self@),
        decreases self,
    {
        let mut out: Vec<String> = Vec::new();
        self.collect_words(&mut out);
        assert(texts(out@) =~= words_of(self@));
        out
    }

    /// Appends the literal words of the tree to `out`.
    fn collect_words(&self, out: &mut Vec<String>)
        ensures
            texts(final(out)@) == texts(old(out)@) + words_of(self@),
        decreases self,
    {
        match self {
            StrexHir::Literal(lit) => {
                out.push(lit.clone());
                assert(texts(out@) =~= texts(old(out)@) + words_of(self@));
            },
            StrexHir::Or(items) => {
                proof {
                    lemma_view_or(*self);
                }
                collect_words_of_all(items, out);
            },
            StrexHir::Concat(items) => {
                proof {
                    lemma_view_concat(*self);
                }
                collect_words_of_all(items, out);
            },
            StrexHir::Wild => {
                assert(texts(out@) =~= texts(old(out)@) + words_of(self@));
            },
        }
    }
}

fn collect_words_of_all(items: &Vec<StrexHir>, out: &mut Vec<String>)
    ensures
        texts(final(out)@) == texts(old(out)@) + words_of_all(views(items@)),
    decreases items,
{
    let ghost xs = views(items@);
    let ghost start = texts(out@);
    assert(xs.skip(0) =~= xs);
    let mut i: usize = 0;
    while i < items.len()
        invariant
            i <= items.len(),
            xs == views(items@),
            start + words_of_all(xs) == texts(out@) + words_of_all(xs.skip(i as int)),
        decreases items.len() - i,
    {
        let ghost before = texts(out@);
        items[i].collect_words(out);
        proof {
            let rest = xs.skip(i as int);
            assert(rest[0] == items[i as int]@);
            assert(rest.drop_first() =~= xs.skip(i + 1));
            assert(before + words_of_all(rest) =~= texts(out@) + words_of_all(xs.skip(i + 1)));
        }
        i += 1;
    }
    proof {
        assert(xs.skip(i as int) =~= Seq::<Hir>::empty());
        assert(texts(out@) =~= start + words_of_all(xs));
    }
}

} // verus!
