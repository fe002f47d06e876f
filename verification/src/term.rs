use vstd::prelude::*;

verus! {

/// Mathematical value of a [`Term`]: the variant together with the character
/// sequence of its payload.
pub enum TermView {
    Terminal(Seq<char>),
    Nonterminal(Seq<char>),
}

/// One symbol of a grammar: either a terminal, which matches a literal
/// fragment of the tokenized input, or a nonterminal, which expands to the
/// alternatives of its production.
#[derive(Clone, Debug, PartialEq, Eq, Hash)]
pub enum Term {
    Terminal(String),
    Nonterminal(String),
}

impl DeepView for Term {
    type V = TermView;

    open spec fn deep_view(&self) -> TermView {
        match self {
            Term::Terminal(s) => TermView::Terminal(s@),
            Term::Nonterminal(s) => TermView::Nonterminal(s@),
        }
    }
}

impl Term {
    /// Structural equality: same variant and same payload characters.
    pub fn equals(&self, other: &Term) -> (r: bool)
        ensures
            r == (self.deep_view() == other.deep_view()),
    {
        match (self, other) {
            (Term::Terminal(a), Term::Terminal(b)) => *a == *b,
            (Term::Nonterminal(a), Term::Nonterminal(b)) => *a == *b,
            _ => false,
        }
    }

    /// A copy whose mathematical value equals this one's.
    pub fn duplicate(&self) -> (r: Term)
        ensures
            r.deep_view() == self.deep_view(),
    {
        match self {
            Term::Terminal(s) => Term::Terminal(s.clone()),
            Term::Nonterminal(s) => Term::Nonterminal(s.clone()),
        }
    }
}

/// Structural equality of two term sequences.
pub fn terms_equal(a: &Vec<Term>, b: &Vec<Term>) -> (r: bool)
    ensures
        r == (a.deep_view() == b.deep_view()),
{
    if a.len() != b.len() {
        proof {
            assert(a.deep_view().len() == a@.len());
            assert(b.deep_view().len() == b@.len());
        }
        return false;
    }
    let mut i: usize = 0;
    while i < a.len()
        invariant
            i <= a.len(),
            a.len() == b.len(),
            a.deep_view().len() == a@.len(),
            b.deep_view().len() == b@.len(),
            forall|j: int| 0 <= j < i ==> a.deep_view()[j] == b.deep_view()[j],
        decreases a.len() - i,
    {
        if !a[i].equals(&b[i]) {
            assert(a.deep_view()[i as int] != b.deep_view()[i as int]);
            return false;
        }
        i += 1;
    }
    proof {
        assert(a.deep_view() =~= b.deep_view());
    }
    true
}

/// A copy of a term sequence with the same mathematical value.
pub fn duplicate_terms(v: &Vec<Term>) -> (r: Vec<Term>)
    ensures
        r.deep_view() == v.deep_view(),
{
    let mut out: Vec<Term> = Vec::new();
    let mut i: usize = 0;
    while i < v.len()
        invariant
            i <= v.len(),
            out.len() == i,
            v.deep_view().len() == v@.len(),
            out.deep_view().len() == out@.len(),
            forall|j: int| 0 <= j < i ==> out.deep_view()[j] == v.deep_view()[j],
        decreases v.len() - i,
    {
        out.push(v[i].duplicate());
        i += 1;
    }
    proof {
        assert(out.deep_view() =~= v.deep_view());
    }
    out
}

} // verus!
