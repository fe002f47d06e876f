//! Parse trees: the shape handed to callers after reconstruction.

use vstd::prelude::*;
use crate::grammar::{Production, ProductionView};
use crate::term::TermView;

verus! {

/// Mathematical value of a [`Tree`].
pub struct TreeView {
    pub production: ProductionView,
    pub branches: Seq<BranchView>,
}

/// Mathematical value of a [`Branch`].
pub enum BranchView {
    Nonterminal(TreeView),
    Terminal(Seq<char>),
}

/// One derivation tree: a production with a single alternative, and one
/// branch per term of that alternative, in order.
pub struct Tree {
    pub production: Production,
    pub branches: Vec<Branch>,
}

/// One branch of a tree: a subtree under a nonterminal, or the matched
/// symbol under a terminal.
pub enum Branch {
    Nonterminal(Tree),
    Terminal(String),
}

/// The mathematical values of a branch sequence, elementwise.
pub open spec fn branches_view(bs: Seq<Branch>) -> Seq<BranchView>
    decreases bs, bs.len(),
{
    if bs.len() == 0 {
        Seq::empty()
    } else {
        seq![bs[0].deep_view()] + branches_view(bs.drop_first())
    }
}

impl DeepView for Tree {
    type V = TreeView;

    open spec fn deep_view(&self) -> TreeView
        decreases self,
    {
        TreeView {
            production: self.production.deep_view(),
            branches: branches_view(self.branches@),
        }
    }
}

impl DeepView for Branch {
    type V = BranchView;

    open spec fn deep_view(&self) -> BranchView
        decreases self,
    {
        match self {
            Branch::Nonterminal(t) => BranchView::Nonterminal(t.deep_view()),
            Branch::Terminal(s) => BranchView::Terminal(s@),
        }
    }
}

/// The view sequence is the branch sequence, element by element.
pub proof fn lemma_branches_view(bs: Seq<Branch>)
    ensures
        branches_view(bs).len() == bs.len(),
        forall|i: int| 0 <= i < bs.len() ==> branches_view(bs)[i] == (#[trigger] bs[i]).deep_view(),
    decreases bs.len(),
{
    if bs.len() > 0 {
        lemma_branches_view(bs.drop_first());
        assert forall|i: int| 0 <= i < bs.len()
            implies branches_view(bs)[i] == (#[trigger] bs[i]).deep_view() by {
            assert(branches_view(bs) == seq![bs[0].deep_view()] + branches_view(bs.drop_first()));
            assert(seq![bs[0].deep_view()].len() == 1);
            if i > 0 {
                assert(bs.drop_first()[i - 1] == bs[i]);
                assert(branches_view(bs)[i] == branches_view(bs.drop_first())[i - 1]);
                assert(branches_view(bs.drop_first())[i - 1] == bs.drop_first()[i - 1].deep_view());
            } else {
                assert(branches_view(bs)[0] == bs[0].deep_view());
            }
        }
    }
}

/// The terminal leaves of a tree, in order.
pub open spec fn tree_leaves(tv: TreeView) -> Seq<Seq<char>>
    decreases tv, tv.branches.len(),
{
    branches_leaves(tv.branches)
}

/// The terminal leaves under a branch sequence, in order.
pub open spec fn branches_leaves(bs: Seq<BranchView>) -> Seq<Seq<char>>
    decreases bs, bs.len(),
{
    if bs.len() == 0 {
        Seq::empty()
    } else {
        (match bs[0] {
            BranchView::Nonterminal(t) => tree_leaves(t),
            BranchView::Terminal(s) => seq![s],
        }) + branches_leaves(bs.drop_first())
    }
}

/// The term a branch stands under: the subtree's left-hand side, or the
/// matched terminal.
pub open spec fn branch_term(b: BranchView) -> TermView {
    match b {
        BranchView::Nonterminal(t) => t.production.lhs,
        BranchView::Terminal(s) => TermView::Terminal(s),
    }
}

/// Every node of the tree carries a single-alternative production whose
/// terms govern its branches pointwise.
pub open spec fn tree_aligned(tv: TreeView) -> bool
    decreases tv, tv.branches.len(),
{
    &&& tv.production.rhs.len() == 1
    &&& tv.branches.len() == tv.production.rhs[0].terms.len()
    &&& forall|i: int|
        0 <= i < tv.branches.len() ==> branch_term(#[trigger] tv.branches[i])
            == tv.production.rhs[0].terms[i]
    &&& branches_aligned(tv.branches)
}

/// Every subtree under the branches is aligned.
pub open spec fn branches_aligned(bs: Seq<BranchView>) -> bool
    decreases bs, bs.len(),
{
    if bs.len() == 0 {
        true
    } else {
        (match bs[0] {
            BranchView::Nonterminal(t) => tree_aligned(t),
            BranchView::Terminal(_) => true,
        }) && branches_aligned(bs.drop_first())
    }
}

/// Structural equality of two trees.
pub fn tree_equals(a: &Tree, b: &Tree) -> (r: bool)
    ensures
        r == (a.deep_view() == b.deep_view()),
    decreases a,
{
    proof {
        lemma_branches_view(a.branches@);
        lemma_branches_view(b.branches@);
    }
    let prods_eq = a.production.lhs.equals(&b.production.lhs) && exprs_equal(
        &a.production.rhs,
        &b.production.rhs,
    );
    if !prods_eq {
        return false;
    }
    if a.branches.len() != b.branches.len() {
        proof {
            assert(a.deep_view().branches.len() == a.branches@.len());
            assert(b.deep_view().branches.len() == b.branches@.len());
        }
        return false;
    }
    let mut i: usize = 0;
    while i < a.branches.len()
        invariant
            i <= a.branches@.len(),
            a.branches@.len() == b.branches@.len(),
            a.deep_view().production == b.deep_view().production,
            forall|j: int|
                0 <= j < i ==> a.deep_view().branches[j] == b.deep_view().branches[j],
        decreases a.branches@.len() - i,
    {
        proof {
            lemma_branches_view(a.branches@);
            lemma_branches_view(b.branches@);
        }
        if !branch_equals(&a.branches[i], &b.branches[i]) {
            proof {
                assert(a.deep_view().branches[i as int] != b.deep_view().branches[i as int]);
            }
            return false;
        }
        proof {
            assert(a.deep_view().branches[i as int] == b.deep_view().branches[i as int]);
        }
        i += 1;
    }
    proof {
        lemma_branches_view(a.branches@);
        lemma_branches_view(b.branches@);
        assert(a.deep_view().branches =~= b.deep_view().branches);
    }
    true
}

/// Structural equality of two branches.
pub fn branch_equals(a: &Branch, b: &Branch) -> (r: bool)
    ensures
        r == (a.deep_view() == b.deep_view()),
    decreases a,
{
    match (a, b) {
        (Branch::Nonterminal(t1), Branch::Nonterminal(t2)) => tree_equals(t1, t2),
        (Branch::Terminal(s1), Branch::Terminal(s2)) => *s1 == *s2,
        _ => false,
    }
}

/// Structural equality of two alternative lists.
pub fn exprs_equal(a: &Vec<crate::grammar::Expression>, b: &Vec<crate::grammar::Expression>) -> (r:
    bool)
    ensures
        r == (a.deep_view() == b.deep_view()),
{
    if a.len() != b.len() {
        proof {
            assert(a.deep_view().len() == a@.len());
            assert(b.deep_view().len() == b@.len());
        }
        return false;
    }
    let mut i: usize = 0;
    while i < a.len()
        invariant
            i <= a@.len(),
            a@.len() == b@.len(),
            a.deep_view().len() == a@.len(),
            b.deep_view().len() == b@.len(),
            forall|j: int| 0 <= j < i ==> a.deep_view()[j] == b.deep_view()[j],
        decreases a@.len() - i,
    {
        if !crate::term::terms_equal(&a[i].terms, &b[i].terms) {
            proof {
                assert(a.deep_view()[i as int] != b.deep_view()[i as int]);
            }
            return false;
        }
        proof {
            assert(a.deep_view()[i as int] == b.deep_view()[i as int]);
        }
        i += 1;
    }
    proof {
        assert(a.deep_view() =~= b.deep_view());
    }
    true
}

} // verus!
