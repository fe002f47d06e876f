use vstd::prelude::*;
use crate::term::{Term, TermView};

verus! {

/// Mathematical value of an [`EarleyProd`].
pub struct ProdView {
    pub lhs: TermView,
    pub rhs: Seq<TermView>,
    pub dot: int,
}

impl ProdView {
    /// The dot lies within the right-hand side; a dot at the very end marks
    /// a completed item.
    pub open spec fn wf(&self) -> bool {
        0 <= self.dot <= self.rhs.len()
    }

    /// The term immediately after the dot, if any.
    pub open spec fn next(&self) -> Option<TermView> {
        if 0 <= self.dot < self.rhs.len() {
            Some(self.rhs[self.dot])
        } else {
            None
        }
    }

    /// The same production with the dot advanced over one term.
    pub open spec fn advanced(&self) -> ProdView {
        ProdView { lhs: self.lhs, rhs: self.rhs, dot: self.dot + 1 }
    }
}

/// A dotted production: a left-hand side, the terms of one alternative, and
/// the number of terms already consumed.
#[derive(Clone, Debug, PartialEq, Eq, Hash)]
pub struct EarleyProd {
    pub lhs: Term,
    pub rhs: Vec<Term>,
    pub dot: usize,
}

impl DeepView for EarleyProd {
    type V = ProdView;

    open spec fn deep_view(&self) -> ProdView {
        ProdView { lhs: self.lhs.deep_view(), rhs: self.rhs.deep_view(), dot: self.dot as int }
    }
}

impl EarleyProd {
    /// Packs the three fields into a dotted production.
    pub fn new(lhs: Term, rhs: Vec<Term>, dot: usize) -> (r: EarleyProd)
        ensures
            r.deep_view() == (ProdView { lhs: lhs.deep_view(), rhs: rhs.deep_view(), dot: dot as int }),
    {
        EarleyProd { lhs, rhs, dot }
    }

    /// The term immediately after the dot, or `None` for a completed item.
    pub fn get_next(&self) -> (r: Option<&Term>)
        ensures
            match r {
                Some(t) => self.deep_view().next() == Some(t.deep_view()),
                None => self.deep_view().next() is None,
            },
    {
        proof {
            assert(self.rhs.deep_view().len() == self.rhs@.len());
        }
        self.rhs.get(self.dot)
    }

    /// Structural equality of all four constituents.
    pub fn equals(&self, other: &EarleyProd) -> (r: bool)
        ensures
            r == (self.deep_view() == other.deep_view()),
    {
        self.dot == other.dot && self.lhs.equals(&other.lhs) && crate::term::terms_equal(&self.rhs, &other.rhs)
    }

    /// A copy whose mathematical value equals this one's.
    pub fn duplicate(&self) -> (r: EarleyProd)
        ensures
            r.deep_view() == self.deep_view(),
    {
        EarleyProd {
            lhs: self.lhs.duplicate(),
            rhs: crate::term::duplicate_terms(&self.rhs),
            dot: self.dot,
        }
    }
}

} // verus!
