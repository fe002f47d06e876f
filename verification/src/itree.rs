//! Intermediate trees: what the forest builder assembles before handing
//! out [`Tree`] values.  Each node and leaf carries the input position it
//! was built at.

use vstd::prelude::*;
use crate::istate::{FStateView, FlippedIState};
use crate::term::{Term, TermView};
use crate::tree::{BranchView, Tree, TreeView};

verus! {

/// Mathematical value of an [`ITree`].
pub struct ITreeView {
    pub root: FStateView,
    pub branches: Seq<IBranchView>,
}

/// Mathematical value of an [`IBranch`].
pub enum IBranchView {
    Nonterminal(int, ITreeView),
    Terminal(int, Seq<char>),
}

/// A reconstructed node: the completed item at its root and the branches
/// built under it, each tagged with its input position.
pub struct ITree {
    pub root: FlippedIState,
    pub branches: Vec<IBranch>,
}

/// One branch of an intermediate tree, tagged with the input position at
/// which it starts.
pub enum IBranch {
    Nonterminal(usize, ITree),
    Terminal(usize, String),
}

/// The mathematical values of a branch sequence, elementwise.
pub open spec fn ibranches_view(bs: Seq<IBranch>) -> Seq<IBranchView>
    decreases bs, bs.len(),
{
    if bs.len() == 0 {
        Seq::empty()
    } else {
        seq![bs[0].deep_view()] + ibranches_view(bs.drop_first())
    }
}

impl DeepView for ITree {
    type V = ITreeView;

    open spec fn deep_view(&self) -> ITreeView
        decreases self,
    {
        ITreeView { root: self.root.deep_view(), branches: ibranches_view(self.branches@) }
    }
}

impl DeepView for IBranch {
    type V = IBranchView;

    open spec fn deep_view(&self) -> IBranchView
        decreases self,
    {
        match self {
            IBranch::Nonterminal(i, t) => IBranchView::Nonterminal(*i as int, t.deep_view()),
            IBranch::Terminal(i, s) => IBranchView::Terminal(*i as int, s@),
        }
    }
}

/// The view sequence is the branch sequence, element by element.
pub proof fn lemma_ibranches_view(bs: Seq<IBranch>)
    ensures
        ibranches_view(bs).len() == bs.len(),
        forall|i: int|
            0 <= i < bs.len() ==> ibranches_view(bs)[i] == (#[trigger] bs[i]).deep_view(),
    decreases bs.len(),
{
    if bs.len() > 0 {
        lemma_ibranches_view(bs.drop_first());
        assert forall|i: int| 0 <= i < bs.len()
            implies ibranches_view(bs)[i] == (#[trigger] bs[i]).deep_view() by {
            assert(ibranches_view(bs) == seq![bs[0].deep_view()] + ibranches_view(
                bs.drop_first(),
            ));
            assert(seq![bs[0].deep_view()].len() == 1);
            if i > 0 {
                assert(bs.drop_first()[i - 1] == bs[i]);
                assert(ibranches_view(bs)[i] == ibranches_view(bs.drop_first())[i - 1]);
                assert(ibranches_view(bs.drop_first())[i - 1] == bs.drop_first()[
                    i - 1
                ].deep_view());
            } else {
                assert(ibranches_view(bs)[0] == bs[0].deep_view());
            }
        }
    }
}

// ---------------------------------------------------------------------------
// Conversion to plain trees
// ---------------------------------------------------------------------------

/// The plain tree an intermediate tree denotes: its positions dropped, its
/// root item written as a single-alternative production.
pub open spec fn tree_of_itree(itv: ITreeView) -> TreeView
    decreases itv, itv.branches.len(),
{
    TreeView {
        production: crate::grammar::ProductionView {
            lhs: itv.root.prod.lhs,
            rhs: seq![crate::grammar::ExpressionView { terms: itv.root.prod.rhs }],
        },
        branches: branches_of_ibranches(itv.branches),
    }
}

/// The plain branches an intermediate branch sequence denotes.
pub open spec fn branches_of_ibranches(bs: Seq<IBranchView>) -> Seq<BranchView>
    decreases bs, bs.len(),
{
    if bs.len() == 0 {
        Seq::empty()
    } else {
        seq![
            match bs[0] {
                IBranchView::Nonterminal(_, t) => BranchView::Nonterminal(tree_of_itree(t)),
                IBranchView::Terminal(_, s) => BranchView::Terminal(s),
            },
        ] + branches_of_ibranches(bs.drop_first())
    }
}

impl ITree {
    /// Drops the auxiliary positions: the root item becomes a
    /// single-alternative production, the branches plain branches.
    pub fn to_tree(&self) -> (r: Tree)
        ensures
            r.deep_view() == tree_of_itree(self.deep_view()),
        decreases self,
    {
        let production = crate::grammar::Production {
            lhs: self.root.prod.lhs.duplicate(),
            rhs: vec![
                crate::grammar::Expression {
                    terms: crate::term::duplicate_terms(&self.root.prod.rhs),
                },
            ],
        };
        let mut branches: Vec<crate::tree::Branch> = Vec::new();
        let mut i: usize = 0;
        while i < self.branches.len()
            invariant
                i <= self.branches@.len(),
                branches@.len() == i,
                forall|j: int|
                    0 <= j < i ==> (#[trigger] branches@[j]).deep_view()
                        == branches_of_ibranches(ibranches_view(self.branches@))[j],
            decreases self.branches@.len() - i, 0nat,
        {
            proof {
                lemma_ibranches_view(self.branches@);
                lemma_branches_of_ibranches(ibranches_view(self.branches@));
            }
            let b = self.branches[i].to_branch();
            proof {
                assert(ibranches_view(self.branches@)[i as int] == self.branches@[
                    i as int
                ].deep_view());
            }
            branches.push(b);
            i += 1;
        }
        let r = Tree { production, branches };
        proof {
            lemma_ibranches_view(self.branches@);
            lemma_branches_of_ibranches(ibranches_view(self.branches@));
            crate::tree::lemma_branches_view(r.branches@);
            assert(r.production.rhs.deep_view() =~= seq![
                crate::grammar::ExpressionView { terms: self.root.prod.rhs.deep_view() },
            ]);
            let target = branches_of_ibranches(ibranches_view(self.branches@));
            assert forall|j: int| 0 <= j < r.branches@.len()
                implies crate::tree::branches_view(r.branches@)[j] == target[j] by {
                assert(crate::tree::branches_view(r.branches@)[j] == r.branches@[j].deep_view());
                assert(r.branches@[j].deep_view() == target[j]);
            }
            assert(r.deep_view().branches =~= tree_of_itree(self.deep_view()).branches);
            assert(r.deep_view().production == tree_of_itree(self.deep_view()).production);
        }
        r
    }
}

impl IBranch {
    /// Drops the auxiliary position of this branch.
    pub fn to_branch(&self) -> (r: crate::tree::Branch)
        ensures
            r.deep_view() == match self.deep_view() {
                IBranchView::Nonterminal(_, t) => BranchView::Nonterminal(tree_of_itree(t)),
                IBranchView::Terminal(_, s) => BranchView::Terminal(s),
            },
        decreases self,
    {
        match self {
            IBranch::Nonterminal(_, t) => crate::tree::Branch::Nonterminal(t.to_tree()),
            IBranch::Terminal(_, s) => crate::tree::Branch::Terminal(s.clone()),
        }
    }
}

/// Converted branches line up with their sources, element by element.
pub proof fn lemma_branches_of_ibranches(bs: Seq<IBranchView>)
    ensures
        branches_of_ibranches(bs).len() == bs.len(),
        forall|i: int|
            0 <= i < bs.len() ==> branches_of_ibranches(bs)[i] == match #[trigger] bs[i] {
                IBranchView::Nonterminal(_, t) => BranchView::Nonterminal(tree_of_itree(t)),
                IBranchView::Terminal(_, s) => BranchView::Terminal(s),
            },
    decreases bs.len(),
{
    if bs.len() > 0 {
        lemma_branches_of_ibranches(bs.drop_first());
        assert forall|i: int| 0 <= i < bs.len()
            implies branches_of_ibranches(bs)[i] == match #[trigger] bs[i] {
            IBranchView::Nonterminal(_, t) => BranchView::Nonterminal(tree_of_itree(t)),
            IBranchView::Terminal(_, s) => BranchView::Terminal(s),
        } by {
            if i > 0 {
                assert(bs.drop_first()[i - 1] == bs[i]);
                assert(branches_of_ibranches(bs)[i] == branches_of_ibranches(bs.drop_first())[
                    i - 1
                ]);
            }
        }
    }
}

// ---------------------------------------------------------------------------
// Branch ordering
// ---------------------------------------------------------------------------

/// The term an intermediate branch stands under.
pub open spec fn ibranch_term(b: IBranchView) -> TermView {
    match b {
        IBranchView::Nonterminal(_, t) => t.root.prod.lhs,
        IBranchView::Terminal(_, s) => TermView::Terminal(s),
    }
}

/// The first branch standing under the given term, if any.
pub open spec fn find_branch(bs: Seq<IBranchView>, t: TermView) -> Option<IBranchView>
    decreases bs.len(),
{
    if bs.len() == 0 {
        None
    } else if ibranch_term(bs[0]) == t {
        Some(bs[0])
    } else {
        find_branch(bs.drop_first(), t)
    }
}

/// For each of the first `i` right-hand-side terms, the first branch
/// standing under it, in term order.
pub open spec fn ordered_branches(
    bs: Seq<IBranchView>,
    rhs: Seq<TermView>,
    i: int,
) -> Seq<IBranchView>
    decreases i,
{
    if i <= 0 {
        Seq::empty()
    } else {
        ordered_branches(bs, rhs, i - 1) + match find_branch(bs, rhs[i - 1]) {
            Some(b) => seq![b],
            None => Seq::empty(),
        }
    }
}

/// When nothing matches before position `j` and position `j` matches, the
/// search returns the branch at `j`.
pub proof fn lemma_find_branch_at(bs: Seq<IBranchView>, t: TermView, j: int)
    requires
        0 <= j < bs.len(),
        forall|m: int| 0 <= m < j ==> ibranch_term(#[trigger] bs[m]) != t,
        ibranch_term(bs[j]) == t,
    ensures
        find_branch(bs, t) == Some(bs[j]),
    decreases j,
{
    if j > 0 {
        lemma_find_branch_at(bs.drop_first(), t, j - 1);
        assert(bs.drop_first()[j - 1] == bs[j]);
    }
}

/// When nothing matches, the search returns nothing.
pub proof fn lemma_find_branch_none(bs: Seq<IBranchView>, t: TermView)
    requires
        forall|m: int| 0 <= m < bs.len() ==> ibranch_term(#[trigger] bs[m]) != t,
    ensures
        find_branch(bs, t) is None,
    decreases bs.len(),
{
    if bs.len() > 0 {
        lemma_find_branch_none(bs.drop_first(), t);
    }
}

/// Whether this branch stands under the given term.
fn ibranch_matches(b: &IBranch, term: &Term) -> (r: bool)
    ensures
        r == (ibranch_term(b.deep_view()) == term.deep_view()),
{
    match b {
        IBranch::Nonterminal(_, t) => t.root.prod.lhs.equals(term),
        IBranch::Terminal(_, s) => match term {
            Term::Terminal(ts) => *s == *ts,
            Term::Nonterminal(_) => false,
        },
    }
}

/// The position of the first branch standing under the given term.
fn find_branch_at(branches: &Vec<IBranch>, term: &Term) -> (r: Option<usize>)
    ensures
        match r {
            Some(j) => j < branches@.len() && find_branch(
                ibranches_view(branches@),
                term.deep_view(),
            ) == Some(branches@[j as int].deep_view()),
            None => find_branch(ibranches_view(branches@), term.deep_view()) is None,
        },
{
    let ghost bs = ibranches_view(branches@);
    proof {
        lemma_ibranches_view(branches@);
    }
    let mut j: usize = 0;
    while j < branches.len()
        invariant
            j <= branches@.len(),
            bs == ibranches_view(branches@),
            bs.len() == branches@.len(),
            forall|m: int| 0 <= m < j ==> ibranch_term(#[trigger] bs[m]) != term.deep_view(),
        decreases branches@.len() - j,
    {
        proof {
            lemma_ibranches_view(branches@);
        }
        if ibranch_matches(&branches[j], term) {
            proof {
                lemma_find_branch_at(bs, term.deep_view(), j as int);
            }
            return Some(j);
        }
        j += 1;
    }
    proof {
        lemma_find_branch_none(bs, term.deep_view());
    }
    None
}

/// A copy of an intermediate tree with the same mathematical value.
pub fn itree_duplicate(t: &ITree) -> (r: ITree)
    ensures
        r.deep_view() == t.deep_view(),
    decreases t,
{
    let root = t.root.duplicate();
    let mut branches: Vec<IBranch> = Vec::new();
    let mut i: usize = 0;
    while i < t.branches.len()
        invariant
            i <= t.branches@.len(),
            branches@.len() == i,
            forall|j: int|
                0 <= j < i ==> (#[trigger] branches@[j]).deep_view() == t.branches@[
                    j
                ].deep_view(),
        decreases t.branches@.len() - i, 0nat,
    {
        let b = ibranch_duplicate(&t.branches[i]);
        branches.push(b);
        i += 1;
    }
    let r = ITree { root, branches };
    proof {
        lemma_ibranches_view(r.branches@);
        lemma_ibranches_view(t.branches@);
        assert forall|j: int| 0 <= j < r.branches@.len()
            implies ibranches_view(r.branches@)[j] == ibranches_view(t.branches@)[j] by {
            assert(ibranches_view(r.branches@)[j] == r.branches@[j].deep_view());
            assert(ibranches_view(t.branches@)[j] == t.branches@[j].deep_view());
        }
        assert(r.deep_view().branches =~= t.deep_view().branches);
    }
    r
}

/// A copy of an intermediate branch with the same mathematical value.
pub fn ibranch_duplicate(b: &IBranch) -> (r: IBranch)
    ensures
        r.deep_view() == b.deep_view(),
    decreases b,
{
    match b {
        IBranch::Nonterminal(i, t) => IBranch::Nonterminal(*i, itree_duplicate(t)),
        IBranch::Terminal(i, s) => IBranch::Terminal(*i, s.clone()),
    }
}

impl ITree {
    /// Re-orders the branches so that the branch at each position stands
    /// under the corresponding right-hand-side term: for each term in
    /// order, the first branch under it; terms with no branch contribute
    /// nothing.
    pub fn order(&mut self)
        ensures
            final(self).root == old(self).root,
            final(self).deep_view().branches == ordered_branches(
                old(self).deep_view().branches,
                old(self).root.deep_view().prod.rhs,
                old(self).root.deep_view().prod.rhs.len() as int,
            ),
    {
        let ghost obs = self.deep_view().branches;
        let ghost rhs = self.root.prod.rhs.deep_view();
        let mut ordered: Vec<IBranch> = Vec::new();
        let mut ti: usize = 0;
        proof {
            assert(rhs.len() == self.root.prod.rhs@.len());
            lemma_ibranches_view(ordered@);
        }
        while ti < self.root.prod.rhs.len()
            invariant
                ti <= rhs.len(),
                rhs == self.root.prod.rhs.deep_view(),
                rhs.len() == self.root.prod.rhs@.len(),
                obs == ibranches_view(self.branches@),
                ibranches_view(ordered@) == ordered_branches(obs, rhs, ti as int),
            decreases rhs.len() - ti,
        {
            let term = &self.root.prod.rhs[ti];
            let ghost prev = ibranches_view(ordered@);
            proof {
                assert(term.deep_view() == rhs[ti as int]);
            }
            match find_branch_at(&self.branches, term) {
                Some(j) => {
                    let b = ibranch_duplicate(&self.branches[j]);
                    let ghost bv = b.deep_view();
                    let ghost oldord = ordered@;
                    ordered.push(b);
                    proof {
                        lemma_ibranches_view(self.branches@);
                        assert(ordered@.drop_last() =~= oldord);
                        assert(ordered@.last().deep_view() == bv);
                        lemma_snoc_ibranches(ordered@, bv);
                        assert(ibranches_view(ordered@) == ibranches_view(oldord) + seq![bv]);
                        assert(ordered_branches(obs, rhs, ti as int + 1) == prev + seq![bv]);
                    }
                },
                None => {
                    proof {
                        assert(ordered_branches(obs, rhs, ti as int + 1) =~= prev);
                    }
                },
            }
            ti += 1;
        }
        self.branches = ordered;
    }
}

/// Appending one branch appends its value to the view sequence.
pub proof fn lemma_snoc_ibranches(bs: Seq<IBranch>, last: IBranchView)
    requires
        bs.len() > 0,
        bs.last().deep_view() == last,
    ensures
        ibranches_view(bs) == ibranches_view(bs.drop_last()) + seq![last],
    decreases bs.len(),
{
    lemma_ibranches_view(bs);
    lemma_ibranches_view(bs.drop_last());
    assert forall|i: int| 0 <= i < bs.len()
        implies ibranches_view(bs)[i] == (ibranches_view(bs.drop_last()) + seq![last])[i] by {
        if i < bs.len() - 1 {
            assert(bs.drop_last()[i] == bs[i]);
        }
    }
    assert(ibranches_view(bs) =~= ibranches_view(bs.drop_last()) + seq![last]);
}

/// The pretty-printer's box-drawing connectors.
pub enum PPChar {
    Last,
    Mid,
    First,
}

impl PPChar {
    /// The connector drawn before a node at this position.
    pub fn get(&self) -> (r: String)
        ensures
            self is Mid ==> r@ == "├─"@,
            !(self is Mid) ==> r@ == "└─"@,
    {
        match self {
            PPChar::Last => String::from_str("└─"),
            PPChar::Mid => String::from_str("├─"),
            PPChar::First => String::from_str("└─"),
        }
    }
}

} // verus!
