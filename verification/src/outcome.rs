//! The result of recognition, and tree reconstruction on acceptance.

use vstd::prelude::*;
use crate::istate::{FStateView, FlippedIState, IState, StateView};
use crate::sets::{seq_insert, FlippedStateSet, StateSet};

verus! {

// ---------------------------------------------------------------------------
// The completed view and its inversion, as mathematics
// ---------------------------------------------------------------------------

/// The completed items among the first `i` items of a set, in set order.
pub open spec fn completed_upto(set: Seq<StateView>, i: int) -> Seq<StateView>
    decreases i,
{
    if i <= 0 {
        Seq::empty()
    } else {
        let prev = completed_upto(set, i - 1);
        if set[i - 1].prod.dot == set[i - 1].prod.rhs.len() {
            seq_insert(prev, set[i - 1])
        } else {
            prev
        }
    }
}

/// The chart reduced to its completed items, set by set.
pub open spec fn completed_sets(chart: Seq<Seq<StateView>>) -> Seq<Seq<StateView>> {
    Seq::new(chart.len(), |i: int| completed_upto(chart[i], chart[i].len() as int))
}

/// Every reduced item is a completed item of its set.
pub proof fn lemma_completed_upto_elems(set: Seq<StateView>, i: int)
    requires
        0 <= i <= set.len(),
    ensures
        forall|x: StateView|
            #[trigger] completed_upto(set, i).contains(x) ==> set.contains(x) && x.prod.dot
                == x.prod.rhs.len(),
        completed_upto(set, i).no_duplicates(),
    decreases i,
{
    if i > 0 {
        lemma_completed_upto_elems(set, i - 1);
        crate::sets::lemma_seq_insert_no_duplicates(completed_upto(set, i - 1), set[i - 1]);
        assert forall|x: StateView| #[trigger] completed_upto(set, i).contains(x)
            implies set.contains(x) && x.prod.dot == x.prod.rhs.len() by {
            if !completed_upto(set, i - 1).contains(x) {
                assert(x == set[i - 1]);
            }
        }
    }
}

/// Filing one completed item under its origin, keyed by its end position.
pub open spec fn flip_insert(
    fc: Seq<Seq<FStateView>>,
    st: StateView,
    endpos: int,
) -> Seq<Seq<FStateView>> {
    if 0 <= st.origin < fc.len() {
        fc.update(st.origin, seq_insert(fc[st.origin], FStateView { end: endpos, prod: st.prod }))
    } else {
        fc
    }
}

/// Filing the first `j` items of one completed set.
pub open spec fn flip_set(
    fc: Seq<Seq<FStateView>>,
    set: Seq<StateView>,
    endpos: int,
    j: int,
) -> Seq<Seq<FStateView>>
    decreases j,
{
    if j <= 0 {
        fc
    } else {
        flip_insert(flip_set(fc, set, endpos, j - 1), set[j - 1], endpos)
    }
}

/// Filing the first `i` completed sets, each keyed by its position.
pub open spec fn flip_upto(
    fc: Seq<Seq<FStateView>>,
    completed: Seq<Seq<StateView>>,
    i: int,
) -> Seq<Seq<FStateView>>
    decreases i,
{
    if i <= 0 {
        fc
    } else {
        flip_set(
            flip_upto(fc, completed, i - 1),
            completed[i - 1],
            i - 1,
            completed[i - 1].len() as int,
        )
    }
}

/// The completed view inverted by start position: set `j` holds, as
/// end-keyed items, every completed item whose derivation began at `j`.
pub open spec fn flipped_chart(completed: Seq<Seq<StateView>>, len: int) -> Seq<Seq<FStateView>> {
    flip_upto(Seq::new(len as nat, |i: int| Seq::<FStateView>::empty()), completed, completed.len() as int)
}

/// Filing items preserves any property of the filed productions: every
/// production in the result was already filed or comes from the set.
pub proof fn lemma_flip_set_prods(
    fc: Seq<Seq<FStateView>>,
    set: Seq<StateView>,
    endpos: int,
    j: int,
    p: spec_fn(crate::prod::ProdView) -> bool,
)
    requires
        0 <= j <= set.len(),
        forall|o: int, x: FStateView|
            0 <= o < fc.len() && #[trigger] fc[o].contains(x) ==> p(x.prod),
        forall|si: int| 0 <= si < set.len() ==> p((#[trigger] set[si]).prod),
    ensures
        flip_set(fc, set, endpos, j).len() == fc.len(),
        forall|o: int, x: FStateView|
            0 <= o < fc.len() && #[trigger] flip_set(fc, set, endpos, j)[o].contains(x) ==> p(
                x.prod,
            ),
    decreases j,
{
    if j > 0 {
        lemma_flip_set_prods(fc, set, endpos, j - 1, p);
        let prev = flip_set(fc, set, endpos, j - 1);
        let cur = flip_insert(prev, set[j - 1], endpos);
        assert forall|o: int, x: FStateView| 0 <= o < fc.len() && #[trigger] cur[o].contains(x)
            implies p(x.prod) by {
            if 0 <= set[j - 1].origin < prev.len() && o == set[j - 1].origin && !prev[o].contains(
                x,
            ) {
                assert(x == FStateView { end: endpos, prod: set[j - 1].prod });
                assert(set.contains(set[j - 1]));
            } else {
                assert(prev[o].contains(x));
            }
        }
    }
}

/// Inverting the completed view preserves any property of the filed
/// productions.
pub proof fn lemma_flip_upto_prods(
    fc: Seq<Seq<FStateView>>,
    completed: Seq<Seq<StateView>>,
    i: int,
    p: spec_fn(crate::prod::ProdView) -> bool,
)
    requires
        0 <= i <= completed.len(),
        forall|o: int, x: FStateView|
            0 <= o < fc.len() && #[trigger] fc[o].contains(x) ==> p(x.prod),
        forall|ci: int, si: int|
            0 <= ci < completed.len() && 0 <= si < completed[ci].len() ==> p(
                (#[trigger] completed[ci][si]).prod,
            ),
    ensures
        flip_upto(fc, completed, i).len() == fc.len(),
        forall|o: int, x: FStateView|
            0 <= o < fc.len() && #[trigger] flip_upto(fc, completed, i)[o].contains(x) ==> p(
                x.prod,
            ),
    decreases i,
{
    if i > 0 {
        lemma_flip_upto_prods(fc, completed, i - 1, p);
        let prev = flip_upto(fc, completed, i - 1);
        assert forall|si: int| 0 <= si < completed[i - 1].len() implies p(
            (#[trigger] completed[i - 1][si]).prod,
        ) by {}
        lemma_flip_set_prods(prev, completed[i - 1], i - 1, completed[i - 1].len() as int, p);
    }
}

/// What tree reconstruction relies on in the inverted view: every set free
/// of duplicates, every item a completed one whose end position lies
/// between its set and the input's end.
pub open spec fn flip_wf(fc: Seq<Seq<FStateView>>, n: int) -> bool {
    &&& fc.len() == n + 1
    &&& forall|o: int| 0 <= o < fc.len() ==> (#[trigger] fc[o]).no_duplicates()
    &&& forall|o: int, x: FStateView|
        0 <= o < fc.len() && #[trigger] fc[o].contains(x) ==> x.prod.wf() && x.prod.dot
            == x.prod.rhs.len() && o <= x.end <= n
}

// ---------------------------------------------------------------------------
// What a reconstructed tree is
// ---------------------------------------------------------------------------

/// A tree built over `input[from ..)` whose root is a completed item of the
/// inverted view: its branches realize the root's right-hand side exactly
/// over `input[from .. root.end)`.
pub open spec fn good_tree(
    tv: crate::itree::ITreeView,
    input: Seq<Seq<char>>,
    from: int,
    fc: Seq<Seq<FStateView>>,
) -> bool
    decreases tv,
{
    &&& tv.root.prod.wf()
    &&& tv.root.prod.dot == tv.root.prod.rhs.len()
    &&& 0 <= from <= tv.root.end <= input.len()
    &&& spans_ok(tv.branches, tv.root.prod.rhs, input, from, tv.root.end, fc)
}

/// The branches realize the terms pointwise and contiguously: each
/// terminal branch matches the input symbol at its position, each
/// nonterminal branch holds a good subtree drawn from the inverted view at
/// its position, and the positions run from `from` to `end`.
pub open spec fn spans_ok(
    bs: Seq<crate::itree::IBranchView>,
    rhs: Seq<crate::term::TermView>,
    input: Seq<Seq<char>>,
    from: int,
    end: int,
    fc: Seq<Seq<FStateView>>,
) -> bool
    decreases bs,
{
    if bs.len() != rhs.len() {
        false
    } else if bs.len() == 0 {
        from == end
    } else {
        match bs[0] {
            crate::itree::IBranchView::Terminal(idx, s) => {
                &&& idx == from
                &&& 0 <= from < input.len()
                &&& input[from] == s
                &&& rhs[0] == crate::term::TermView::Terminal(s)
                &&& spans_ok(bs.drop_first(), rhs.drop_first(), input, from + 1, end, fc)
            },
            crate::itree::IBranchView::Nonterminal(idx, t) => {
                &&& idx == from
                &&& rhs[0] == t.root.prod.lhs
                &&& 0 <= from < fc.len()
                &&& fc[from].contains(t.root)
                &&& good_tree(t, input, from, fc)
                &&& spans_ok(bs.drop_first(), rhs.drop_first(), input, t.root.end, end, fc)
            },
        }
    }
}

/// A plain tree that the builder produced: the image of a good
/// intermediate tree over the whole input, rooted at some witness's
/// production.
pub open spec fn from_witness_tree(
    t: crate::tree::TreeView,
    input: Seq<Seq<char>>,
    fc: Seq<Seq<FStateView>>,
    witnesses: Seq<StateView>,
) -> bool {
    exists|itv: crate::itree::ITreeView|
        #[trigger] crate::itree::tree_of_itree(itv) == t && good_tree(itv, input, 0, fc)
            && exists|w: int| 0 <= w < witnesses.len() && itv.root.prod == witnesses[w].prod
}

/// Appending one realized branch extends the realized span.
pub proof fn lemma_spans_snoc(
    bs: Seq<crate::itree::IBranchView>,
    rhs: Seq<crate::term::TermView>,
    b: crate::itree::IBranchView,
    t: crate::term::TermView,
    input: Seq<Seq<char>>,
    from: int,
    mid: int,
    end2: int,
    fc: Seq<Seq<FStateView>>,
)
    requires
        spans_ok(bs, rhs, input, from, mid, fc),
        match b {
            crate::itree::IBranchView::Terminal(idx, s) => idx == mid && 0 <= mid < input.len()
                && input[mid] == s && t == crate::term::TermView::Terminal(s) && end2 == mid + 1,
            crate::itree::IBranchView::Nonterminal(idx, tr) => idx == mid && t
                == tr.root.prod.lhs && 0 <= mid < fc.len() && fc[mid].contains(tr.root)
                && good_tree(tr, input, mid, fc) && end2 == tr.root.end,
        },
    ensures
        spans_ok(bs.push(b), rhs.push(t), input, from, end2, fc),
    decreases bs.len(),
{
    if bs.len() == 0 {
        assert(from == mid);
        assert(bs.push(b)[0] == b);
        assert(bs.push(b).drop_first() =~= Seq::<crate::itree::IBranchView>::empty());
        assert(rhs.push(t).drop_first() =~= Seq::<crate::term::TermView>::empty());
        match b {
            crate::itree::IBranchView::Terminal(idx, s) => {
                assert(spans_ok(
                    bs.push(b).drop_first(),
                    rhs.push(t).drop_first(),
                    input,
                    mid + 1,
                    end2,
                    fc,
                ));
            },
            crate::itree::IBranchView::Nonterminal(idx, tr) => {
                assert(spans_ok(
                    bs.push(b).drop_first(),
                    rhs.push(t).drop_first(),
                    input,
                    tr.root.end,
                    end2,
                    fc,
                ));
            },
        }
    } else {
        assert(bs.push(b)[0] == bs[0]);
        assert(rhs.push(t)[0] == rhs[0]);
        assert(bs.push(b).drop_first() =~= bs.drop_first().push(b));
        assert(rhs.push(t).drop_first() =~= rhs.drop_first().push(t));
        match bs[0] {
            crate::itree::IBranchView::Terminal(idx, s) => {
                lemma_spans_snoc(
                    bs.drop_first(),
                    rhs.drop_first(),
                    b,
                    t,
                    input,
                    from + 1,
                    mid,
                    end2,
                    fc,
                );
            },
            crate::itree::IBranchView::Nonterminal(idx, tr) => {
                lemma_spans_snoc(
                    bs.drop_first(),
                    rhs.drop_first(),
                    b,
                    t,
                    input,
                    tr.root.end,
                    mid,
                    end2,
                    fc,
                );
            },
        }
    }
}

/// A good tree converts to an aligned plain tree whose terminal leaves are
/// exactly the input between its bounds.
pub proof fn lemma_good_tree_converts(
    tv: crate::itree::ITreeView,
    input: Seq<Seq<char>>,
    from: int,
    fc: Seq<Seq<FStateView>>,
)
    requires
        good_tree(tv, input, from, fc),
    ensures
        crate::tree::tree_aligned(crate::itree::tree_of_itree(tv)),
        crate::tree::tree_leaves(crate::itree::tree_of_itree(tv)) == input.subrange(
            from,
            tv.root.end,
        ),
    decreases tv,
{
    lemma_spans_converts(tv.branches, tv.root.prod.rhs, input, from, tv.root.end, fc);
    lemma_spans_bounds(tv.branches, tv.root.prod.rhs, input, from, tv.root.end, fc);
    let conv = crate::itree::tree_of_itree(tv);
    crate::itree::lemma_branches_of_ibranches(tv.branches);
    assert(conv.production.rhs.len() == 1);
    assert(conv.branches.len() == conv.production.rhs[0].terms.len());
}

/// Realized branches convert to aligned plain branches whose leaves are
/// exactly the input between the bounds.
pub proof fn lemma_spans_converts(
    bs: Seq<crate::itree::IBranchView>,
    rhs: Seq<crate::term::TermView>,
    input: Seq<Seq<char>>,
    from: int,
    end: int,
    fc: Seq<Seq<FStateView>>,
)
    requires
        spans_ok(bs, rhs, input, from, end, fc),
        0 <= from,
        end <= input.len(),
    ensures
        crate::tree::branches_aligned(crate::itree::branches_of_ibranches(bs)),
        crate::tree::branches_leaves(crate::itree::branches_of_ibranches(bs)) == input.subrange(
            from,
            end,
        ),
        forall|i: int|
            0 <= i < bs.len() ==> crate::tree::branch_term(
                #[trigger] crate::itree::branches_of_ibranches(bs)[i],
            ) == rhs[i],
    decreases bs,
{
    crate::itree::lemma_branches_of_ibranches(bs);
    let conv = crate::itree::branches_of_ibranches(bs);
    lemma_spans_bounds(bs, rhs, input, from, end, fc);
    if bs.len() == 0 {
        assert(input.subrange(from, end) =~= Seq::<Seq<char>>::empty());
        assert(crate::tree::branches_leaves(conv) =~= Seq::<Seq<char>>::empty());
    } else {
        crate::itree::lemma_branches_of_ibranches(bs.drop_first());
        let restconv = crate::itree::branches_of_ibranches(bs.drop_first());
        assert(conv.drop_first() =~= restconv);
        match bs[0] {
            crate::itree::IBranchView::Terminal(idx, s) => {
                lemma_spans_bounds(bs.drop_first(), rhs.drop_first(), input, from + 1, end, fc);
                lemma_spans_converts(
                    bs.drop_first(),
                    rhs.drop_first(),
                    input,
                    from + 1,
                    end,
                    fc,
                );
                assert(crate::tree::branches_leaves(conv) == seq![s]
                    + crate::tree::branches_leaves(restconv));
                assert(input.subrange(from, end) =~= seq![input[from]] + input.subrange(
                    from + 1,
                    end,
                ));
                assert(crate::tree::branches_leaves(conv) =~= input.subrange(from, end));
            },
            crate::itree::IBranchView::Nonterminal(idx, t) => {
                assert(good_tree(t, input, from, fc));
                assert(0 <= from <= t.root.end <= input.len());
                lemma_spans_bounds(bs.drop_first(), rhs.drop_first(), input, t.root.end, end, fc);
                lemma_good_tree_converts(t, input, from, fc);
                lemma_spans_converts(
                    bs.drop_first(),
                    rhs.drop_first(),
                    input,
                    t.root.end,
                    end,
                    fc,
                );
                assert(t.root.end <= end) by {
                    lemma_spans_bounds(
                        bs.drop_first(),
                        rhs.drop_first(),
                        input,
                        t.root.end,
                        end,
                        fc,
                    );
                }
                assert(crate::tree::branches_leaves(conv) == crate::tree::tree_leaves(
                    crate::itree::tree_of_itree(t),
                ) + crate::tree::branches_leaves(restconv));
                assert(input.subrange(from, end) =~= input.subrange(from, t.root.end)
                    + input.subrange(t.root.end, end));
                assert(crate::tree::branches_leaves(conv) =~= input.subrange(from, end));
            },
        }
        assert forall|i: int| 0 <= i < bs.len()
            implies crate::tree::branch_term(#[trigger] conv[i]) == rhs[i] by {
            if i > 0 {
                assert(conv[i] == restconv[i - 1]);
                assert(rhs.drop_first()[i - 1] == rhs[i]);
            }
        }
    }
}

/// The positions of a realized span run forward: its start is at or before
/// its end.
pub proof fn lemma_spans_bounds(
    bs: Seq<crate::itree::IBranchView>,
    rhs: Seq<crate::term::TermView>,
    input: Seq<Seq<char>>,
    from: int,
    end: int,
    fc: Seq<Seq<FStateView>>,
)
    requires
        spans_ok(bs, rhs, input, from, end, fc),
    ensures
        from <= end,
    decreases bs,
{
    if bs.len() > 0 {
        match bs[0] {
            crate::itree::IBranchView::Terminal(idx, s) => {
                assert(spans_ok(bs.drop_first(), rhs.drop_first(), input, from + 1, end, fc));
                lemma_spans_bounds(bs.drop_first(), rhs.drop_first(), input, from + 1, end, fc);
            },
            crate::itree::IBranchView::Nonterminal(idx, t) => {
                assert(good_tree(t, input, from, fc));
                assert(from <= t.root.end);
                assert(spans_ok(bs.drop_first(), rhs.drop_first(), input, t.root.end, end, fc));
                lemma_spans_bounds(bs.drop_first(), rhs.drop_first(), input, t.root.end, end, fc);
            },
        }
    } else {
        assert(from == end);
    }
}

// ---------------------------------------------------------------------------
// The pool of items the builder can draw from
// ---------------------------------------------------------------------------

/// One step of the path the builder is on: an item under construction and
/// the position it was taken at.
pub struct PathEntry {
    pub at: usize,
    pub state: FlippedIState,
}

/// Mathematical value of a [`PathEntry`].
pub struct PathView {
    pub at: int,
    pub state: FStateView,
}

impl DeepView for PathEntry {
    type V = PathView;

    open spec fn deep_view(&self) -> PathView {
        PathView { at: self.at as int, state: self.state.deep_view() }
    }
}

/// Every (position, item) pair of the inverted view, as a set.
pub open spec fn pool_set(fc: Seq<Seq<FStateView>>) -> Set<PathView>
    decreases fc.len(),
{
    if fc.len() == 0 {
        Set::empty()
    } else {
        pool_set(fc.drop_last()).union(
            fc.last().map_values(
                |x: FStateView| PathView { at: fc.len() - 1, state: x },
            ).to_set(),
        )
    }
}

/// The pool is finite.
pub proof fn lemma_pool_finite(fc: Seq<Seq<FStateView>>)
    ensures
        pool_set(fc).finite(),
    decreases fc.len(),
{
    broadcast use vstd::seq_lib::seq_to_set_is_finite;

    if fc.len() > 0 {
        lemma_pool_finite(fc.drop_last());
    }
}

/// Every item of every set stands in the pool, paired with its position.
pub proof fn lemma_pool_contains(fc: Seq<Seq<FStateView>>, o: int)
    requires
        0 <= o < fc.len(),
    ensures
        forall|x: FStateView|
            #[trigger] fc[o].contains(x) ==> pool_set(fc).contains(
                PathView { at: o, state: x },
            ),
    decreases fc.len(),
{
    if o == fc.len() - 1 {
        assert forall|x: FStateView| #[trigger] fc[o].contains(x)
            implies pool_set(fc).contains(PathView { at: o, state: x }) by {
            let mapped = fc.last().map_values(
                |y: FStateView| PathView { at: fc.len() - 1, state: y },
            );
            let j = choose|j: int| 0 <= j < fc[o].len() && fc[o][j] == x;
            assert(mapped[j] == PathView { at: o, state: x });
            assert(mapped.contains(PathView { at: o, state: x }));
        }
    } else {
        lemma_pool_contains(fc.drop_last(), o);
        assert(fc.drop_last()[o] == fc[o]);
    }
}

/// A duplicate-free sequence drawn from a finite pool is no longer than
/// the pool.
pub proof fn lemma_nodup_in_pool_bound<A>(s: Seq<A>, pool: Set<A>)
    requires
        s.no_duplicates(),
        pool.finite(),
        forall|x: A| #[trigger] s.contains(x) ==> pool.contains(x),
    ensures
        s.len() <= pool.len(),
{
    s.unique_seq_to_set();
    assert(s.to_set().subset_of(pool));
    vstd::set_lib::lemma_len_subset(s.to_set(), pool);
}

/// The candidates the builder draws at one position: of the first `j`
/// items of the set, in set order, those whose left-hand side is the
/// wanted term, whose end lies under the limit, and which do not stand on
/// the path at this position.
pub open spec fn found_candidates(
    set: Seq<FStateView>,
    t: crate::term::TermView,
    at: int,
    lim: Option<int>,
    anc: Seq<PathView>,
    j: int,
) -> Seq<FStateView>
    decreases j,
{
    if j <= 0 {
        Seq::empty()
    } else {
        found_candidates(set, t, at, lim, anc, j - 1) + (
        if !anc.contains(PathView { at, state: set[j - 1] }) && set[j - 1].prod.lhs == t && (
        match lim {
            Some(l) => set[j - 1].end < l,
            None => true,
        }) {
            seq![set[j - 1]]
        } else {
            Seq::empty()
        })
    }
}

/// The positional limit as a mathematical value.
pub open spec fn lim_view(limit: Option<usize>) -> Option<int> {
    match limit {
        Some(l) => Some(l as int),
        None => None,
    }
}

// ---------------------------------------------------------------------------
// The enumeration, as mathematics
// ---------------------------------------------------------------------------
//
// The builder's result is pinned to the functions below: a derivation is
// grown left to right over the right-hand side, one partial (reached
// position, branches so far) at a time, every candidate item of the
// inverted view branching the enumeration.  The fuel argument bounds the
// recursion depth; the builder always runs with the exact fuel its path
// leaves, namely the number of (position, item) pairs not yet on the path,
// so the bound is never felt: a deeper recursion would have to repeat a
// pair, which the candidate filter forbids.

/// The positional limit the next term imposes, as the builder computes it.
pub open spec fn limit_of(
    rhs: Seq<crate::term::TermView>,
    ti: int,
    n_input: int,
    n_chart: int,
) -> Option<int> {
    if ti + 1 < rhs.len() {
        match rhs[ti + 1] {
            crate::term::TermView::Terminal(_) => Some(n_input),
            crate::term::TermView::Nonterminal(_) => Some(n_chart),
        }
    } else {
        None
    }
}

/// The partials a list of subtrees contributes: each subtree becomes one
/// partial, its branch appended, the position advanced to the candidate's
/// end.
pub open spec fn subtree_partials(
    p: (int, Seq<crate::itree::IBranchView>),
    c: FStateView,
    subs: Seq<crate::itree::ITreeView>,
) -> Seq<(int, Seq<crate::itree::IBranchView>)> {
    Seq::new(
        subs.len(),
        |si: int| (c.end, p.1.push(crate::itree::IBranchView::Nonterminal(p.0, subs[si]))),
    )
}

/// The trees of the partials that land exactly on the root's end.
pub open spec fn collect_trees(
    root: FStateView,
    ps: Seq<(int, Seq<crate::itree::IBranchView>)>,
    pi: int,
) -> Seq<crate::itree::ITreeView>
    decreases pi,
{
    if pi <= 0 {
        Seq::empty()
    } else {
        collect_trees(root, ps, pi - 1) + (if ps[pi - 1].0 == root.end {
            seq![crate::itree::ITreeView { root, branches: ps[pi - 1].1 }]
        } else {
            Seq::empty()
        })
    }
}

/// Every derivation of the root item from position `x`: the partials after
/// all right-hand-side terms, cut down to those that land on the root's
/// end.
pub open spec fn enum_tree(
    input: Seq<Seq<char>>,
    fc: Seq<Seq<FStateView>>,
    x: int,
    root: FStateView,
    anc: Seq<PathView>,
    fuel: nat,
) -> Seq<crate::itree::ITreeView>
    decreases fuel, 4int, 0int,
{
    let finals = enum_partials(input, fc, x, root.prod.rhs, anc, root.prod.rhs.len() as int, fuel);
    collect_trees(root, finals, finals.len() as int)
}

/// The partials after the first `ti` right-hand-side terms.
pub open spec fn enum_partials(
    input: Seq<Seq<char>>,
    fc: Seq<Seq<FStateView>>,
    x: int,
    rhs: Seq<crate::term::TermView>,
    anc: Seq<PathView>,
    ti: int,
    fuel: nat,
) -> Seq<(int, Seq<crate::itree::IBranchView>)>
    decreases fuel, 3int, ti,
{
    if ti <= 0 {
        seq![(x, Seq::<crate::itree::IBranchView>::empty())]
    } else {
        let prev = enum_partials(input, fc, x, rhs, anc, ti - 1, fuel);
        step_partials(
            input,
            fc,
            rhs[ti - 1],
            limit_of(rhs, ti - 1, input.len() as int, fc.len() as int),
            anc,
            prev,
            prev.len() as int,
            fuel,
        )
    }
}

/// One term's pass over the first `pi` partials, in order.
pub open spec fn step_partials(
    input: Seq<Seq<char>>,
    fc: Seq<Seq<FStateView>>,
    term: crate::term::TermView,
    lim: Option<int>,
    anc: Seq<PathView>,
    ps: Seq<(int, Seq<crate::itree::IBranchView>)>,
    pi: int,
    fuel: nat,
) -> Seq<(int, Seq<crate::itree::IBranchView>)>
    decreases fuel, 2int, pi,
{
    if pi <= 0 {
        Seq::empty()
    } else {
        step_partials(input, fc, term, lim, anc, ps, pi - 1, fuel) + term_step(
            input,
            fc,
            term,
            lim,
            anc,
            ps[pi - 1],
            fuel,
        )
    }
}

/// What one term contributes at one partial: the matched symbol for a
/// terminal, or one partial per (candidate, subtree) pair for a
/// nonterminal.
pub open spec fn term_step(
    input: Seq<Seq<char>>,
    fc: Seq<Seq<FStateView>>,
    term: crate::term::TermView,
    lim: Option<int>,
    anc: Seq<PathView>,
    p: (int, Seq<crate::itree::IBranchView>),
    fuel: nat,
) -> Seq<(int, Seq<crate::itree::IBranchView>)>
    decreases fuel, 1int, 0int,
{
    match term {
        crate::term::TermView::Terminal(sym) => if 0 <= p.0 < input.len() && input[p.0] == sym {
            seq![(p.0 + 1, p.1.push(crate::itree::IBranchView::Terminal(p.0, sym)))]
        } else {
            Seq::empty()
        },
        crate::term::TermView::Nonterminal(_) => {
            let cands = if 0 <= p.0 < fc.len() {
                found_candidates(fc[p.0], term, p.0, lim, anc, fc[p.0].len() as int)
            } else {
                Seq::empty()
            };
            cand_steps(input, fc, anc, p, cands, cands.len() as int, fuel)
        },
    }
}

/// The partials the first `ci` candidates contribute, each through every
/// subtree the recursion yields on the extended path.
pub open spec fn cand_steps(
    input: Seq<Seq<char>>,
    fc: Seq<Seq<FStateView>>,
    anc: Seq<PathView>,
    p: (int, Seq<crate::itree::IBranchView>),
    cands: Seq<FStateView>,
    ci: int,
    fuel: nat,
) -> Seq<(int, Seq<crate::itree::IBranchView>)>
    decreases fuel, 0int, ci,
{
    if ci <= 0 {
        Seq::empty()
    } else {
        cand_steps(input, fc, anc, p, cands, ci - 1, fuel) + (if fuel == 0 {
            Seq::empty()
        } else {
            subtree_partials(
                p,
                cands[ci - 1],
                enum_tree(
                    input,
                    fc,
                    p.0,
                    cands[ci - 1],
                    anc.push(PathView { at: p.0, state: cands[ci - 1] }),
                    (fuel - 1) as nat,
                ),
            )
        })
    }
}

/// The mathematical value of the builder's working list.
pub open spec fn partials_view(ps: Seq<(usize, Vec<crate::itree::IBranch>)>) -> Seq<
    (int, Seq<crate::itree::IBranchView>),
> {
    Seq::new(ps.len(), |i: int| (ps[i].0 as int, crate::itree::ibranches_view(ps[i].1@)))
}

/// Folding a list of trees into the forest: each tree is appended unless a
/// structurally equal one is already there.
pub open spec fn dedup_trees(
    acc: Seq<crate::tree::TreeView>,
    ts: Seq<crate::tree::TreeView>,
    k: int,
) -> Seq<crate::tree::TreeView>
    decreases k,
{
    if k <= 0 {
        acc
    } else {
        let prev = dedup_trees(acc, ts, k - 1);
        if prev.contains(ts[k - 1]) {
            prev
        } else {
            prev.push(ts[k - 1])
        }
    }
}

/// The plain trees of one witness: every derivation of its production over
/// the whole input, converted.
pub open spec fn witness_trees(
    input: Seq<Seq<char>>,
    fc: Seq<Seq<FStateView>>,
    w: StateView,
) -> Seq<crate::tree::TreeView> {
    let root = FStateView { end: fc.len() - 1, prod: w.prod };
    let its = enum_tree(
        input,
        fc,
        0,
        root,
        seq![PathView { at: 0, state: root }],
        pool_set(fc).len(),
    );
    Seq::new(its.len(), |k: int| crate::itree::tree_of_itree(its[k]))
}

/// The forest of the first `wi` witnesses, duplicates dropped, first
/// occurrence kept.
pub open spec fn forest_upto(
    input: Seq<Seq<char>>,
    fc: Seq<Seq<FStateView>>,
    ws: Seq<StateView>,
    wi: int,
) -> Seq<crate::tree::TreeView>
    decreases wi,
{
    if wi <= 0 {
        Seq::empty()
    } else {
        let prev = forest_upto(input, fc, ws, wi - 1);
        let ts = witness_trees(input, fc, ws[wi - 1]);
        dedup_trees(prev, ts, ts.len() as int)
    }
}

/// The parse forest of an accepted parse: for each witness in order, every
/// derivation of its production over the whole input, converted to plain
/// trees, with structural duplicates dropped.
pub open spec fn spec_forest(
    chart: Seq<Seq<StateView>>,
    input: Seq<Seq<char>>,
    ws: Seq<StateView>,
) -> Seq<crate::tree::TreeView> {
    let fc = flipped_chart(completed_sets(chart), chart.len() as int);
    forest_upto(input, fc, ws, ws.len() as int)
}

/// Whether a structurally equal tree is already collected.
fn contains_tree(trees: &Vec<crate::tree::Tree>, t: &crate::tree::Tree) -> (r: bool)
    ensures
        r == exists|i: int|
            0 <= i < trees.deep_view().len() && trees.deep_view()[i] == t.deep_view(),
{
    let mut i: usize = 0;
    while i < trees.len()
        invariant
            i <= trees@.len(),
            forall|j: int| 0 <= j < i ==> trees.deep_view()[j] != t.deep_view(),
        decreases trees@.len() - i,
    {
        if crate::tree::tree_equals(&trees[i], t) {
            proof {
                assert(trees.deep_view()[i as int] == t.deep_view());
            }
            return true;
        }
        i += 1;
    }
    false
}

/// Whether the same item at the same position stands on the current path.
fn among(ancestors: &Vec<PathEntry>, at: usize, cand: &FlippedIState) -> (r: bool)
    ensures
        r == ancestors.deep_view().contains(
            PathView { at: at as int, state: cand.deep_view() },
        ),
{
    let mut i: usize = 0;
    while i < ancestors.len()
        invariant
            i <= ancestors@.len(),
            forall|j: int|
                0 <= j < i ==> ancestors.deep_view()[j] != (PathView {
                    at: at as int,
                    state: cand.deep_view(),
                }),
        decreases ancestors@.len() - i,
    {
        if ancestors[i].at == at && ancestors[i].state.equals(cand) {
            proof {
                assert(ancestors.deep_view()[i as int] == (PathView {
                    at: at as int,
                    state: cand.deep_view(),
                }));
            }
            return true;
        }
        i += 1;
    }
    false
}

/// A copy of a branch vector with the same mathematical value.
fn duplicate_ibranches(v: &Vec<crate::itree::IBranch>) -> (r: Vec<crate::itree::IBranch>)
    ensures
        crate::itree::ibranches_view(r@) == crate::itree::ibranches_view(v@),
{
    let mut out: Vec<crate::itree::IBranch> = Vec::new();
    let mut i: usize = 0;
    while i < v.len()
        invariant
            i <= v@.len(),
            out@.len() == i,
            forall|j: int|
                0 <= j < i ==> (#[trigger] out@[j]).deep_view() == v@[j].deep_view(),
        decreases v@.len() - i,
    {
        out.push(crate::itree::ibranch_duplicate(&v[i]));
        i += 1;
    }
    proof {
        crate::itree::lemma_ibranches_view(out@);
        crate::itree::lemma_ibranches_view(v@);
        assert forall|j: int| 0 <= j < out@.len()
            implies crate::itree::ibranches_view(out@)[j] == crate::itree::ibranches_view(v@)[
            j
        ] by {
            assert(crate::itree::ibranches_view(out@)[j] == out@[j].deep_view());
            assert(crate::itree::ibranches_view(v@)[j] == v@[j].deep_view());
        }
        assert(crate::itree::ibranches_view(out@) =~= crate::itree::ibranches_view(v@));
    }
    out
}

/// A copy of a path with the same mathematical value.
fn duplicate_ancestors(v: &Vec<PathEntry>) -> (r: Vec<PathEntry>)
    ensures
        r.deep_view() == v.deep_view(),
{
    let mut out: Vec<PathEntry> = Vec::new();
    let mut i: usize = 0;
    while i < v.len()
        invariant
            i <= v@.len(),
            out@.len() == i,
            forall|j: int| 0 <= j < i ==> out.deep_view()[j] == v.deep_view()[j],
        decreases v@.len() - i,
    {
        out.push(PathEntry { at: v[i].at, state: v[i].state.duplicate() });
        i += 1;
    }
    proof {
        assert(out.deep_view() =~= v.deep_view());
    }
    out
}

/// What a parse returns: the preserved chart and witnesses on acceptance,
/// or plain rejection.  Rejection is a normal outcome, not an error.
#[derive(Clone, Debug, PartialEq, Eq)]
pub enum EarleyOutcome {
    Accepted(EarleyAccepted),
    Rejected,
}

/// An accepted parse: the full chart, the witness items of the final set,
/// and the tokenized input.
#[derive(Clone, Debug, PartialEq, Eq)]
pub struct EarleyAccepted {
    pub chart: Vec<StateSet>,
    pub accepted_states: Vec<IState>,
    pub input: Vec<String>,
}

impl EarleyAccepted {
    /// What the recognizer guarantees of every accepted parse: one chart
    /// set per input symbol plus one, no set holding duplicates, every
    /// item's dot within its production and its origin at or before its
    /// set.
    pub open spec fn wf(&self) -> bool {
        let cv = self.chart.deep_view();
        &&& cv.len() == self.input@.len() + 1
        &&& forall|i: int| 0 <= i < cv.len() ==> (#[trigger] cv[i]).no_duplicates()
        &&& forall|i: int, x: crate::istate::StateView|
            0 <= i < cv.len() && #[trigger] cv[i].contains(x) ==> x.prod.wf() && 0 <= x.origin
                <= i
        &&& forall|w: int|
            0 <= w < self.accepted_states.deep_view().len() ==> {
                let p = (#[trigger] self.accepted_states.deep_view()[w]).prod;
                p.wf() && p.dot == p.rhs.len()
            }
    }

    /// Packs the three constituents of an accepted parse.
    pub fn new(chart: Vec<StateSet>, accepted_states: Vec<IState>, input: Vec<String>) -> (r:
        EarleyAccepted)
        ensures
            r.chart == chart,
            r.accepted_states == accepted_states,
            r.input == input,
    {
        EarleyAccepted { chart, accepted_states, input }
    }

    /// The chart reduced to its completed items, set by set, order kept.
    pub fn get_completed(&self) -> (r: Vec<StateSet>)
        ensures
            r.deep_view() == completed_sets(self.chart.deep_view()),
            forall|i: int| 0 <= i < r@.len() ==> (#[trigger] r@[i]).wf(),
    {
        let ghost cv = self.chart.deep_view();
        let mut only_completed: Vec<StateSet> = Vec::new();
        let mut i: usize = 0;
        while i < self.chart.len()
            invariant
                i <= self.chart@.len(),
                cv == self.chart.deep_view(),
                cv.len() == self.chart@.len(),
                only_completed@.len() == i,
                forall|p: int| 0 <= p < i ==> (#[trigger] only_completed@[p]).wf(),
                forall|p: int|
                    0 <= p < i ==> (#[trigger] only_completed.deep_view()[p]) == completed_upto(
                        cv[p],
                        cv[p].len() as int,
                    ),
            decreases self.chart@.len() - i,
        {
            let state_sets = &self.chart[i];
            let ghost set = cv[i as int];
            let mut reduced = StateSet::new();
            let mut j: usize = 0;
            proof {
                assert(reduced.deep_view() =~= completed_upto(set, 0));
            }
            while j < state_sets.len()
                invariant
                    j <= set.len(),
                    state_sets.deep_view() == set,
                    reduced.wf(),
                    reduced.deep_view() == completed_upto(set, j as int),
                decreases set.len() - j,
            {
                let state = state_sets.get(j);
                proof {
                    assert(state.prod.deep_view().rhs.len() == state.prod.rhs@.len());
                }
                if state.prod.dot == state.prod.rhs.len() {
                    reduced.insert(state.duplicate());
                }
                j += 1;
            }
            let ghost prevsets = only_completed.deep_view();
            let ghost rv = reduced.deep_view();
            only_completed.push(reduced);
            proof {
                assert forall|p: int| 0 <= p < i + 1
                    implies (#[trigger] only_completed.deep_view()[p]) == completed_upto(
                    cv[p],
                    cv[p].len() as int,
                ) by {
                    if p < i {
                        assert(only_completed.deep_view()[p] == prevsets[p]);
                    } else {
                        assert(only_completed.deep_view()[p] == rv);
                    }
                }
            }
            i += 1;
        }
        proof {
            assert(only_completed.deep_view() =~= completed_sets(cv));
        }
        only_completed
    }

    /// The completed view with each set laid out as a plain vector.
    pub fn get_completed_as_vecs(&self) -> (r: Vec<Vec<IState>>)
        ensures
            r.deep_view() == completed_sets(self.chart.deep_view()),
    {
        let only_completed = self.get_completed();
        EarleyAccepted::state_sets_to_vec(only_completed)
    }

    /// Lays the sets of a chart out as plain vectors, order kept.
    fn state_sets_to_vec(chart: Vec<StateSet>) -> (r: Vec<Vec<IState>>)
        ensures
            r.deep_view() == chart.deep_view(),
    {
        let mut out: Vec<Vec<IState>> = Vec::new();
        let mut i: usize = 0;
        while i < chart.len()
            invariant
                i <= chart@.len(),
                out@.len() == i,
                forall|p: int|
                    0 <= p < i ==> (#[trigger] out.deep_view()[p]) == chart.deep_view()[p],
            decreases chart@.len() - i,
        {
            let ghost prevout = out.deep_view();
            let laid = chart[i].as_vec();
            let ghost lv = laid.deep_view();
            out.push(laid);
            proof {
                assert forall|p: int| 0 <= p < i + 1
                    implies (#[trigger] out.deep_view()[p]) == chart.deep_view()[p] by {
                    if p < i {
                        assert(out.deep_view()[p] == prevout[p]);
                    } else {
                        assert(out.deep_view()[p] == lv);
                    }
                }
            }
            i += 1;
        }
        proof {
            assert(out.deep_view() =~= chart.deep_view());
        }
        out
    }

    /// The candidate subtree roots at position `i`: the items of set `i`
    /// whose left-hand side is the wanted term, ending under the limit,
    /// skipping every item already under construction on this path.
    fn find_in_chart(
        &self,
        ancestors: &Vec<PathEntry>,
        term: &crate::term::Term,
        i: usize,
        limit: Option<usize>,
        chart: &Vec<FlippedStateSet>,
    ) -> (r: Vec<FlippedIState>)
        ensures
            (i as int) < chart.deep_view().len() ==> r.deep_view() == found_candidates(
                chart.deep_view()[i as int],
                term.deep_view(),
                i as int,
                lim_view(limit),
                ancestors.deep_view(),
                chart.deep_view()[i as int].len() as int,
            ),
            (i as int) >= chart.deep_view().len() ==> r.deep_view()
                == Seq::<FStateView>::empty(),
            forall|ci: int|
                0 <= ci < r.deep_view().len() ==> {
                    let c = #[trigger] r.deep_view()[ci];
                    &&& (i as int) < chart.deep_view().len()
                    &&& chart.deep_view()[i as int].contains(c)
                    &&& c.prod.lhs == term.deep_view()
                    &&& (limit matches Some(l) ==> c.end < l)
                    &&& !ancestors.deep_view().contains(PathView { at: i as int, state: c })
                },
    {
        let mut candidates: Vec<FlippedIState> = Vec::new();
        if i >= chart.len() {
            proof {
                assert(candidates.deep_view() =~= Seq::<FStateView>::empty());
            }
            return candidates;
        }
        let state_set = &chart[i];
        let ghost set = chart.deep_view()[i as int];
        let ghost anc = ancestors.deep_view();
        let ghost lim = lim_view(limit);
        proof {
            assert(state_set.deep_view() == set);
            assert(candidates.deep_view() =~= Seq::<FStateView>::empty());
        }
        let mut j: usize = 0;
        while j < state_set.len()
            invariant
                j <= set.len(),
                state_set.deep_view() == set,
                set == chart.deep_view()[i as int],
                anc == ancestors.deep_view(),
                lim == lim_view(limit),
                (i as int) < chart.deep_view().len(),
                candidates.deep_view() == found_candidates(
                    set,
                    term.deep_view(),
                    i as int,
                    lim,
                    anc,
                    j as int,
                ),
                forall|ci: int|
                    0 <= ci < candidates.deep_view().len() ==> {
                        let c = #[trigger] candidates.deep_view()[ci];
                        &&& chart.deep_view()[i as int].contains(c)
                        &&& c.prod.lhs == term.deep_view()
                        &&& (limit matches Some(l) ==> c.end < l)
                        &&& !ancestors.deep_view().contains(PathView { at: i as int, state: c })
                    },
            decreases set.len() - j,
        {
            let cand = state_set.get(j);
            let ghost prev = candidates.deep_view();
            let mut kept = false;
            if !among(ancestors, i, cand) && term.equals(&cand.prod.lhs) {
                let keep = match limit {
                    Some(l) => cand.end < l,
                    None => true,
                };
                if keep {
                    kept = true;
                    let ghost cv = cand.deep_view();
                    candidates.push(cand.duplicate());
                    proof {
                        assert(set.contains(cv));
                        assert(candidates.deep_view() =~= prev.push(cv));
                        assert(candidates.deep_view() =~= prev + seq![cv]);
                        assert(found_candidates(set, term.deep_view(), i as int, lim, anc, j as int + 1)
                            == prev + seq![set[j as int]]);
                    }
                }
            }
            if !kept {
                proof {
                    assert(found_candidates(set, term.deep_view(), i as int, lim, anc, j as int + 1)
                        =~= prev);
                }
            }
            j += 1;
        }
        candidates
    }

    /// Enumerates every derivation of the root item over
    /// `input[x .. root.end)`: for each right-hand-side term, left to
    /// right, it extends every partial derivation by every way the term
    /// can consume input at its position, then keeps the derivations that
    /// land exactly on the root's end.  Items already under construction
    /// on this path are skipped, so that cycles adding no terminals cannot
    /// recurse forever.
    #[verifier::loop_isolation(false)]
    fn construct(
        &self,
        x: usize,
        state: &FlippedIState,
        chart: &Vec<FlippedStateSet>,
        ancestors: &Vec<PathEntry>,
    ) -> (r: Vec<crate::itree::ITree>)
        requires
            flip_wf(chart.deep_view(), self.input@.len() as int),
            state.deep_view().prod.wf(),
            state.deep_view().prod.dot == state.deep_view().prod.rhs.len(),
            x as int <= state.deep_view().end <= self.input@.len(),
            ancestors.deep_view().no_duplicates(),
            ancestors@.len() >= 1,
            forall|ai: int|
                1 <= ai < ancestors@.len() ==> pool_set(chart.deep_view()).contains(
                    #[trigger] ancestors.deep_view()[ai],
                ),
        ensures
            r.deep_view() == enum_tree(
                self.input.deep_view(),
                chart.deep_view(),
                x as int,
                state.deep_view(),
                ancestors.deep_view(),
                (pool_set(chart.deep_view()).len() + 1 - ancestors@.len()) as nat,
            ),
            forall|ti: int|
                0 <= ti < r.deep_view().len() ==> (#[trigger] r.deep_view()[ti]).root
                    == state.deep_view() && good_tree(
                    r.deep_view()[ti],
                    self.input.deep_view(),
                    x as int,
                    chart.deep_view(),
                ),
        decreases pool_set(chart.deep_view()).len() + 1 - ancestors@.len(),
    {
        let ghost fcv = chart.deep_view();
        let ghost inputv = self.input.deep_view();
        let ghost rhsv = state.prod.rhs.deep_view();
        let ghost ancv = ancestors.deep_view();
        let ghost fuel = (pool_set(fcv).len() + 1 - ancv.len()) as nat;
        let n = self.input.len();
        proof {
            assert(rhsv.len() == state.prod.rhs@.len());
            assert(inputv.len() == self.input@.len());
            // The fuel equals the path's remaining allowance, which the
            // path invariant keeps non-negative.
            lemma_pool_finite(fcv);
            let dropped = ancv.drop_first();
            assert forall|a1: int, b1: int|
                0 <= a1 < dropped.len() && 0 <= b1 < dropped.len() && a1 != b1
                implies dropped[a1] != dropped[b1] by {
                assert(dropped[a1] == ancv[a1 + 1]);
                assert(dropped[b1] == ancv[b1 + 1]);
            }
            assert forall|y: PathView| #[trigger] dropped.contains(y)
                implies pool_set(fcv).contains(y) by {
                let ai = choose|ai: int| 0 <= ai < dropped.len() && dropped[ai] == y;
                assert(ancv[ai + 1] == y);
            }
            lemma_nodup_in_pool_bound(dropped, pool_set(fcv));
            assert(fuel == pool_set(fcv).len() + 1 - ancv.len());
        }
        let mut partials: Vec<(usize, Vec<crate::itree::IBranch>)> = Vec::new();
        let empty_bs: Vec<crate::itree::IBranch> = Vec::new();
        proof {
            crate::itree::lemma_ibranches_view(empty_bs@);
            assert(rhsv.take(0) =~= Seq::<crate::term::TermView>::empty());
            assert(crate::itree::ibranches_view(empty_bs@)
                =~= Seq::<crate::itree::IBranchView>::empty());
            assert(spans_ok(
                crate::itree::ibranches_view(empty_bs@),
                rhsv.take(0),
                inputv,
                x as int,
                x as int,
                fcv,
            ));
        }
        partials.push((x, empty_bs));
        proof {
            assert(partials_view(partials@) =~= seq![
                (x as int, Seq::<crate::itree::IBranchView>::empty()),
            ]);
            assert(partials_view(partials@) == enum_partials(
                inputv,
                fcv,
                x as int,
                rhsv,
                ancv,
                0,
                fuel,
            ));
        }
        let mut ti: usize = 0;
        while ti < state.prod.rhs.len()
            invariant
                ti <= rhsv.len(),
                partials_view(partials@) == enum_partials(
                    inputv,
                    fcv,
                    x as int,
                    rhsv,
                    ancv,
                    ti as int,
                    fuel,
                ),
                forall|pj: int|
                    0 <= pj < partials@.len() ==> {
                        let p = #[trigger] partials@[pj];
                        &&& x <= p.0 <= n
                        &&& spans_ok(
                            crate::itree::ibranches_view(p.1@),
                            rhsv.take(ti as int),
                            inputv,
                            x as int,
                            p.0 as int,
                            fcv,
                        )
                    },
            decreases rhsv.len() - ti,
        {
            let mut limit: Option<usize> = None;
            if ti + 1 < state.prod.rhs.len() {
                match &state.prod.rhs[ti + 1] {
                    crate::term::Term::Terminal(_) => {
                        limit = Some(self.input.len());
                    },
                    crate::term::Term::Nonterminal(_) => {
                        limit = Some(chart.len());
                    },
                }
            }
            let term = &state.prod.rhs[ti];
            let ghost limv = lim_view(limit);
            let ghost oldpv = partials_view(partials@);
            proof {
                assert(term.deep_view() == rhsv[ti as int]);
                assert(rhsv.take(ti as int + 1) =~= rhsv.take(ti as int).push(rhsv[ti as int]));
                if ti + 1 < state.prod.rhs@.len() {
                    assert(state.prod.rhs@[ti as int + 1].deep_view() == rhsv[ti as int + 1]);
                }
                assert(limv == limit_of(rhsv, ti as int, inputv.len() as int, fcv.len() as int));
                assert(oldpv.len() == partials@.len());
            }
            let mut new_partials: Vec<(usize, Vec<crate::itree::IBranch>)> = Vec::new();
            proof {
                assert(partials_view(new_partials@) =~= Seq::<
                    (int, Seq<crate::itree::IBranchView>),
                >::empty());
            }
            let mut pi: usize = 0;
            while pi < partials.len()
                invariant
                    pi <= partials@.len(),
                    oldpv == partials_view(partials@),
                    oldpv.len() == partials@.len(),
                    limv == limit_of(rhsv, ti as int, inputv.len() as int, fcv.len() as int),
                    partials_view(new_partials@) == step_partials(
                        inputv,
                        fcv,
                        rhsv[ti as int],
                        limv,
                        ancv,
                        oldpv,
                        pi as int,
                        fuel,
                    ),
                    forall|pj: int|
                        0 <= pj < new_partials@.len() ==> {
                            let p = #[trigger] new_partials@[pj];
                            &&& x <= p.0 <= n
                            &&& spans_ok(
                                crate::itree::ibranches_view(p.1@),
                                rhsv.take(ti as int + 1),
                                inputv,
                                x as int,
                                p.0 as int,
                                fcv,
                            )
                        },
                decreases partials@.len() - pi,
            {
                let pos = partials[pi].0;
                let ghost obs = crate::itree::ibranches_view(partials@[pi as int].1@);
                let ghost pspec = oldpv[pi as int];
                let ghost stepbase = partials_view(new_partials@);
                proof {
                    assert(pspec == (pos as int, obs));
                }
                match term {
                    crate::term::Term::Terminal(sym) => {
                        let mut took = false;
                        if pos < self.input.len() {
                            let found = &self.input[pos];
                            if *found == *sym {
                                took = true;
                                let mut bs2 = duplicate_ibranches(&partials[pi].1);
                                let nb = crate::itree::IBranch::Terminal(pos, sym.clone());
                                let ghost nbv = nb.deep_view();
                                let ghost base = crate::itree::ibranches_view(bs2@);
                                let ghost oldbs = bs2@;
                                bs2.push(nb);
                                proof {
                                    assert(bs2@.drop_last() =~= oldbs);
                                    assert(bs2@.last().deep_view() == nbv);
                                    crate::itree::lemma_snoc_ibranches(bs2@, nbv);
                                    assert(base.push(nbv) =~= base + seq![nbv]);
                                    assert(inputv[pos as int] == sym@);
                                    lemma_spans_snoc(
                                        base,
                                        rhsv.take(ti as int),
                                        nbv,
                                        rhsv[ti as int],
                                        inputv,
                                        x as int,
                                        pos as int,
                                        pos as int + 1,
                                        fcv,
                                    );
                                }
                                let ghost bs2v = crate::itree::ibranches_view(bs2@);
                                new_partials.push((pos + 1, bs2));
                                proof {
                                    assert(partials_view(new_partials@) =~= stepbase.push(
                                        (pos as int + 1, bs2v),
                                    ));
                                    assert(term_step(inputv, fcv, rhsv[ti as int], limv, ancv, pspec, fuel)
                                        == seq![(pos as int + 1, obs.push(nbv))]);
                                    assert(partials_view(new_partials@) =~= stepbase + term_step(
                                        inputv,
                                        fcv,
                                        rhsv[ti as int],
                                        limv,
                                        ancv,
                                        pspec,
                                        fuel,
                                    ));
                                }
                            }
                        }
                        if !took {
                            proof {
                                assert(term_step(inputv, fcv, rhsv[ti as int], limv, ancv, pspec, fuel)
                                    =~= Seq::<(int, Seq<crate::itree::IBranchView>)>::empty());
                                assert(partials_view(new_partials@) =~= stepbase + term_step(
                                    inputv,
                                    fcv,
                                    rhsv[ti as int],
                                    limv,
                                    ancv,
                                    pspec,
                                    fuel,
                                ));
                            }
                        }
                    },
                    crate::term::Term::Nonterminal(_) => {
                        let candidates = self.find_in_chart(ancestors, term, pos, limit, chart);
                        let ghost cands = candidates.deep_view();
                        proof {
                            assert((pos as int) < fcv.len());
                            assert(cands == found_candidates(
                                fcv[pos as int],
                                rhsv[ti as int],
                                pos as int,
                                limv,
                                ancv,
                                fcv[pos as int].len() as int,
                            ));
                            assert(term_step(inputv, fcv, rhsv[ti as int], limv, ancv, pspec, fuel)
                                == cand_steps(inputv, fcv, ancv, pspec, cands, cands.len() as int, fuel));
                            assert(partials_view(new_partials@) =~= stepbase + cand_steps(
                                inputv,
                                fcv,
                                ancv,
                                pspec,
                                cands,
                                0,
                                fuel,
                            ));
                        }
                        let mut ci: usize = 0;
                        while ci < candidates.len()
                            invariant
                                ci <= candidates@.len(),
                                cands == candidates.deep_view(),
                                cands.len() == candidates@.len(),
                                pspec == (pos as int, obs),
                                stepbase == step_partials(
                                    inputv,
                                    fcv,
                                    rhsv[ti as int],
                                    limv,
                                    ancv,
                                    oldpv,
                                    pi as int,
                                    fuel,
                                ),
                                partials_view(new_partials@) == stepbase + cand_steps(
                                    inputv,
                                    fcv,
                                    ancv,
                                    pspec,
                                    cands,
                                    ci as int,
                                    fuel,
                                ),
                                forall|pj: int|
                                    0 <= pj < new_partials@.len() ==> {
                                        let p = #[trigger] new_partials@[pj];
                                        &&& x <= p.0 <= n
                                        &&& spans_ok(
                                            crate::itree::ibranches_view(p.1@),
                                            rhsv.take(ti as int + 1),
                                            inputv,
                                            x as int,
                                            p.0 as int,
                                            fcv,
                                        )
                                    },
                            decreases candidates@.len() - ci,
                        {
                            let c = &candidates[ci];
                            let ghost cv = c.deep_view();
                            let ghost pv = PathView { at: pos as int, state: cv };
                            proof {
                                assert(candidates.deep_view()[ci as int] == cv);
                                assert(fcv[pos as int].contains(cv));
                                lemma_pool_contains(fcv, pos as int);
                                lemma_pool_finite(fcv);
                            }
                            let mut anc2 = duplicate_ancestors(ancestors);
                            anc2.push(PathEntry { at: pos, state: c.duplicate() });
                            proof {
                                assert(anc2.deep_view() =~= ancestors.deep_view().push(pv));
                                assert(seq_insert(ancestors.deep_view(), pv)
                                    == ancestors.deep_view().push(pv));
                                crate::sets::lemma_seq_insert_no_duplicates(
                                    ancestors.deep_view(),
                                    pv,
                                );
                                assert(anc2.deep_view().no_duplicates());
                                assert forall|ai: int| 1 <= ai < anc2@.len()
                                    implies pool_set(fcv).contains(
                                    #[trigger] anc2.deep_view()[ai],
                                ) by {
                                    if ai < ancestors@.len() {
                                        assert(anc2.deep_view()[ai]
                                            == ancestors.deep_view()[ai]);
                                    } else {
                                        assert(anc2.deep_view()[ai] == pv);
                                    }
                                }
                                let dropped = anc2.deep_view().drop_first();
                                assert forall|a1: int, b1: int|
                                    0 <= a1 < dropped.len() && 0 <= b1 < dropped.len() && a1
                                        != b1 implies dropped[a1] != dropped[b1] by {
                                    assert(dropped[a1] == anc2.deep_view()[a1 + 1]);
                                    assert(dropped[b1] == anc2.deep_view()[b1 + 1]);
                                }
                                assert forall|y: PathView| #[trigger] dropped.contains(y)
                                    implies pool_set(fcv).contains(y) by {
                                    let ai = choose|ai: int|
                                        0 <= ai < dropped.len() && dropped[ai] == y;
                                    assert(anc2.deep_view()[ai + 1] == y);
                                }
                                lemma_nodup_in_pool_bound(dropped, pool_set(fcv));
                            }
                            let subtrees = self.construct(pos, c, chart, &anc2);
                            let ghost subs = subtrees.deep_view();
                            let ghost candbase = partials_view(new_partials@);
                            proof {
                                assert(anc2.deep_view().len() == ancv.len() + 1);
                                assert(fuel >= 1);
                                assert((pool_set(fcv).len() + 1 - anc2@.len()) as nat == (
                                fuel - 1) as nat);
                                assert(subs == enum_tree(
                                    inputv,
                                    fcv,
                                    pos as int,
                                    cv,
                                    ancv.push(pv),
                                    (fuel - 1) as nat,
                                ));
                                assert(cand_steps(inputv, fcv, ancv, pspec, cands, ci as int + 1, fuel)
                                    == cand_steps(inputv, fcv, ancv, pspec, cands, ci as int, fuel)
                                    + subtree_partials(pspec, cv, subs));
                                assert(subtree_partials(pspec, cv, subs).take(0) =~= Seq::<
                                    (int, Seq<crate::itree::IBranchView>),
                                >::empty());
                                assert(candbase + subtree_partials(pspec, cv, subs).take(0)
                                    =~= candbase);
                            }
                            let mut si: usize = 0;
                            while si < subtrees.len()
                                invariant
                                    si <= subtrees@.len(),
                                    subs == subtrees.deep_view(),
                                    subs.len() == subtrees@.len(),
                                    pspec == (pos as int, obs),
                                    partials_view(new_partials@) == candbase + subtree_partials(
                                        pspec,
                                        cv,
                                        subs,
                                    ).take(si as int),
                                    forall|pj: int|
                                        0 <= pj < new_partials@.len() ==> {
                                            let p = #[trigger] new_partials@[pj];
                                            &&& x <= p.0 <= n
                                            &&& spans_ok(
                                                crate::itree::ibranches_view(p.1@),
                                                rhsv.take(ti as int + 1),
                                                inputv,
                                                x as int,
                                                p.0 as int,
                                                fcv,
                                            )
                                        },
                                decreases subtrees@.len() - si,
                            {
                                let sub = crate::itree::itree_duplicate(&subtrees[si]);
                                let ghost subv = sub.deep_view();
                                proof {
                                    assert(subtrees.deep_view()[si as int] == subv);
                                    assert(subv.root == cv);
                                    assert(good_tree(subv, inputv, pos as int, fcv));
                                }
                                let cend = c.end;
                                let mut bs2 = duplicate_ibranches(&partials[pi].1);
                                let nb = crate::itree::IBranch::Nonterminal(pos, sub);
                                let ghost nbv = nb.deep_view();
                                let ghost base = crate::itree::ibranches_view(bs2@);
                                let ghost oldbs = bs2@;
                                bs2.push(nb);
                                proof {
                                    assert(bs2@.drop_last() =~= oldbs);
                                    assert(bs2@.last().deep_view() == nbv);
                                    crate::itree::lemma_snoc_ibranches(bs2@, nbv);
                                    assert(base.push(nbv) =~= base + seq![nbv]);
                                    lemma_spans_snoc(
                                        base,
                                        rhsv.take(ti as int),
                                        nbv,
                                        rhsv[ti as int],
                                        inputv,
                                        x as int,
                                        pos as int,
                                        cv.end,
                                        fcv,
                                    );
                                }
                                let ghost bs2v = crate::itree::ibranches_view(bs2@);
                                let ghost beforenew = partials_view(new_partials@);
                                new_partials.push((cend, bs2));
                                proof {
                                    assert(partials_view(new_partials@) =~= beforenew.push(
                                        (cv.end, bs2v),
                                    ));
                                    assert(subtree_partials(pspec, cv, subs)[si as int] == (
                                    cv.end, obs.push(nbv)));
                                    assert(subtree_partials(pspec, cv, subs).take(si as int + 1)
                                        =~= subtree_partials(pspec, cv, subs).take(si as int).push(
                                        subtree_partials(pspec, cv, subs)[si as int],
                                    ));
                                    assert(partials_view(new_partials@) =~= candbase
                                        + subtree_partials(pspec, cv, subs).take(si as int + 1));
                                }
                                si += 1;
                            }
                            proof {
                                assert(subtree_partials(pspec, cv, subs).take(subs.len() as int)
                                    =~= subtree_partials(pspec, cv, subs));
                                assert(partials_view(new_partials@) == stepbase + cand_steps(
                                    inputv,
                                    fcv,
                                    ancv,
                                    pspec,
                                    cands,
                                    ci as int + 1,
                                    fuel,
                                ));
                            }
                            ci += 1;
                        }
                        proof {
                            assert(partials_view(new_partials@) =~= stepbase + term_step(
                                inputv,
                                fcv,
                                rhsv[ti as int],
                                limv,
                                ancv,
                                pspec,
                                fuel,
                            ));
                        }
                    },
                }
                proof {
                    assert(step_partials(inputv, fcv, rhsv[ti as int], limv, ancv, oldpv, pi as int + 1, fuel)
                        == stepbase + term_step(inputv, fcv, rhsv[ti as int], limv, ancv, pspec, fuel));
                }
                pi += 1;
            }
            partials = new_partials;
            proof {
                assert(partials_view(partials@) == enum_partials(
                    inputv,
                    fcv,
                    x as int,
                    rhsv,
                    ancv,
                    ti as int + 1,
                    fuel,
                ));
            }
            ti += 1;
        }
        let ghost finalpv = partials_view(partials@);
        let mut trees: Vec<crate::itree::ITree> = Vec::new();
        let mut pi: usize = 0;
        proof {
            assert(rhsv.take(rhsv.len() as int) =~= rhsv);
            assert(finalpv == enum_partials(inputv, fcv, x as int, rhsv, ancv, rhsv.len() as int, fuel));
            assert(trees.deep_view() =~= Seq::<crate::itree::ITreeView>::empty());
            assert(trees.deep_view() == collect_trees(state.deep_view(), finalpv, 0));
        }
        while pi < partials.len()
            invariant
                pi <= partials@.len(),
                finalpv == partials_view(partials@),
                finalpv.len() == partials@.len(),
                trees.deep_view() == collect_trees(state.deep_view(), finalpv, pi as int),
                forall|tj: int|
                    0 <= tj < trees.deep_view().len() ==> (#[trigger] trees.deep_view()[tj]).root
                        == state.deep_view() && good_tree(
                        trees.deep_view()[tj],
                        inputv,
                        x as int,
                        fcv,
                    ),
            decreases partials@.len() - pi,
        {
            proof {
                assert(finalpv[pi as int] == (partials@[pi as int].0 as int, crate::itree::ibranches_view(
                    partials@[pi as int].1@,
                )));
            }
            if partials[pi].0 == state.end {
                let bs = duplicate_ibranches(&partials[pi].1);
                let t = crate::itree::ITree { root: state.duplicate(), branches: bs };
                let ghost prevtrees = trees.deep_view();
                proof {
                    assert(t.deep_view().root == state.deep_view());
                    assert(spans_ok(
                        crate::itree::ibranches_view(t.branches@),
                        rhsv,
                        inputv,
                        x as int,
                        state.deep_view().end,
                        fcv,
                    ));
                    assert(good_tree(t.deep_view(), inputv, x as int, fcv));
                }
                trees.push(t);
                proof {
                    assert(trees.deep_view() =~= prevtrees.push(t.deep_view()));
                    assert(t.deep_view() == (crate::itree::ITreeView {
                        root: state.deep_view(),
                        branches: finalpv[pi as int].1,
                    }));
                    assert(collect_trees(state.deep_view(), finalpv, pi as int + 1)
                        == prevtrees + seq![t.deep_view()]);
                    assert(trees.deep_view() =~= prevtrees + seq![t.deep_view()]);
                }
            } else {
                proof {
                    assert(finalpv[pi as int].0 != state.deep_view().end);
                    assert(collect_trees(state.deep_view(), finalpv, pi as int + 1)
                        =~= collect_trees(state.deep_view(), finalpv, pi as int));
                }
            }
            pi += 1;
        }
        proof {
            assert(state.deep_view().prod.rhs == rhsv);
            assert(trees.deep_view() == collect_trees(state.deep_view(), finalpv, finalpv.len() as int));
            assert(trees.deep_view() == enum_tree(
                inputv,
                fcv,
                x as int,
                state.deep_view(),
                ancv,
                fuel,
            ));
        }
        trees
    }

    /// Reconstructs every distinct parse tree of the accepted input: for
    /// each witness in order, every derivation over the whole input,
    /// converted to plain trees, with structural duplicates dropped and
    /// the first occurrence kept.  Every returned tree is aligned with its
    /// productions, its terminal leaves spell the whole input, and no two
    /// returned trees are structurally equal.
    #[verifier::loop_isolation(false)]
    pub fn parse_forest(&self) -> (r: Result<Vec<crate::tree::Tree>, crate::error::Error>)
        requires
            self.wf(),
        ensures
            r is Ok,
            r matches Ok(trees) ==> trees.deep_view() == spec_forest(
                self.chart.deep_view(),
                self.input.deep_view(),
                self.accepted_states.deep_view(),
            ),
            r matches Ok(trees) ==> {
                let tvs = trees.deep_view();
                &&& forall|i: int, j: int| 0 <= i < j < tvs.len() ==> tvs[i] != tvs[j]
                &&& forall|i: int|
                    0 <= i < tvs.len() ==> crate::tree::tree_aligned(#[trigger] tvs[i])
                        && crate::tree::tree_leaves(tvs[i]) == self.input.deep_view()
                &&& forall|i: int|
                    0 <= i < tvs.len() ==> from_witness_tree(
                        #[trigger] tvs[i],
                        self.input.deep_view(),
                        flipped_chart(
                            completed_sets(self.chart.deep_view()),
                            self.chart.deep_view().len() as int,
                        ),
                        self.accepted_states.deep_view(),
                    )
            },
    {
        let flipped = self.flip_completed();
        let ghost fcv = flipped.deep_view();
        let ghost inputv = self.input.deep_view();
        let ghost wsv = self.accepted_states.deep_view();
        let n_end = flipped.len() - 1;
        proof {
            assert(inputv.len() == self.input@.len());
            assert(n_end == inputv.len());
            assert(n_end as int == fcv.len() - 1);
        }
        let mut trees: Vec<crate::tree::Tree> = Vec::new();
        proof {
            assert(trees.deep_view() =~= Seq::<crate::tree::TreeView>::empty());
            assert(trees.deep_view() == forest_upto(inputv, fcv, wsv, 0));
        }
        let mut wi: usize = 0;
        while wi < self.accepted_states.len()
            invariant
                wi <= self.accepted_states@.len(),
                wsv == self.accepted_states.deep_view(),
                wsv.len() == self.accepted_states@.len(),
                n_end as int == fcv.len() - 1,
                trees.deep_view() == forest_upto(inputv, fcv, wsv, wi as int),
                forall|i: int, j: int|
                    0 <= i < j < trees.deep_view().len() ==> trees.deep_view()[i]
                        != trees.deep_view()[j],
                forall|i: int|
                    0 <= i < trees.deep_view().len() ==> crate::tree::tree_aligned(
                        #[trigger] trees.deep_view()[i],
                    ) && crate::tree::tree_leaves(trees.deep_view()[i]) == inputv,
                forall|i: int|
                    0 <= i < trees.deep_view().len() ==> from_witness_tree(
                        #[trigger] trees.deep_view()[i],
                        inputv,
                        fcv,
                        self.accepted_states.deep_view(),
                    ),
            decreases self.accepted_states@.len() - wi,
        {
            let witness = &self.accepted_states[wi];
            let root = FlippedIState::new(witness.prod.duplicate(), n_end);
            proof {
                assert(witness.deep_view() == self.accepted_states.deep_view()[wi as int]);
                assert(root.deep_view().prod.wf());
            }
            let mut anc: Vec<PathEntry> = Vec::new();
            anc.push(PathEntry { at: 0, state: root.duplicate() });
            proof {
                assert(anc.deep_view() =~= seq![
                    PathView { at: 0, state: root.deep_view() },
                ]);
                assert(anc.deep_view().no_duplicates());
            }
            let itrees = self.construct(0, &root, &flipped, &anc);
            let ghost base_wi = forest_upto(inputv, fcv, wsv, wi as int);
            let ghost wts = witness_trees(inputv, fcv, wsv[wi as int]);
            proof {
                assert(root.deep_view() == (FStateView {
                    end: fcv.len() - 1,
                    prod: wsv[wi as int].prod,
                }));
                assert((pool_set(fcv).len() + 1 - anc@.len()) as nat == pool_set(fcv).len());
                assert(itrees.deep_view() == enum_tree(
                    inputv,
                    fcv,
                    0,
                    root.deep_view(),
                    seq![PathView { at: 0, state: root.deep_view() }],
                    pool_set(fcv).len(),
                ));
                assert(wts.len() == itrees.deep_view().len());
                assert forall|k2: int| 0 <= k2 < wts.len()
                    implies wts[k2] == crate::itree::tree_of_itree(
                    #[trigger] itrees.deep_view()[k2],
                ) by {}
                assert(trees.deep_view() == dedup_trees(base_wi, wts, 0));
            }
            let mut k: usize = 0;
            while k < itrees.len()
                invariant
                    k <= itrees@.len(),
                    wsv == self.accepted_states.deep_view(),
                    base_wi == forest_upto(inputv, fcv, wsv, wi as int),
                    wts == witness_trees(inputv, fcv, wsv[wi as int]),
                    wts.len() == itrees@.len(),
                    forall|k2: int|
                        0 <= k2 < wts.len() ==> wts[k2] == crate::itree::tree_of_itree(
                            #[trigger] itrees.deep_view()[k2],
                        ),
                    trees.deep_view() == dedup_trees(base_wi, wts, k as int),
                    forall|i: int, j: int|
                        0 <= i < j < trees.deep_view().len() ==> trees.deep_view()[i]
                            != trees.deep_view()[j],
                    forall|i: int|
                        0 <= i < trees.deep_view().len() ==> crate::tree::tree_aligned(
                            #[trigger] trees.deep_view()[i],
                        ) && crate::tree::tree_leaves(trees.deep_view()[i]) == inputv,
                    forall|i: int|
                        0 <= i < trees.deep_view().len() ==> from_witness_tree(
                            #[trigger] trees.deep_view()[i],
                            inputv,
                            fcv,
                            self.accepted_states.deep_view(),
                        ),
                    wi < self.accepted_states@.len(),
                    root.deep_view().prod == self.accepted_states.deep_view()[wi as int].prod,
                    forall|ti: int|
                        0 <= ti < itrees.deep_view().len() ==> (#[trigger] itrees.deep_view()[
                            ti
                        ]).root == root.deep_view() && good_tree(
                            itrees.deep_view()[ti],
                            inputv,
                            0,
                            fcv,
                        ),
                decreases itrees@.len() - k,
            {
                let candidate = itrees[k].to_tree();
                let ghost cv = candidate.deep_view();
                let ghost dedup_prev = trees.deep_view();
                proof {
                    let itv = itrees.deep_view()[k as int];
                    assert(good_tree(itv, inputv, 0, fcv));
                    lemma_good_tree_converts(itv, inputv, 0, fcv);
                    assert(itv.root.end == n_end);
                    assert(inputv.subrange(0, itv.root.end) =~= inputv);
                    assert(crate::tree::tree_leaves(cv) == inputv);
                    assert(cv == wts[k as int]);
                }
                if !contains_tree(&trees, &candidate) {
                    let ghost prev = trees.deep_view();
                    trees.push(candidate);
                    proof {
                        assert(trees.deep_view() =~= prev.push(cv));
                        let itv = itrees.deep_view()[k as int];
                        assert(crate::itree::tree_of_itree(itv) == cv && good_tree(
                            itv,
                            inputv,
                            0,
                            fcv,
                        ) && itv.root.prod == self.accepted_states.deep_view()[wi as int].prod);
                        assert(from_witness_tree(
                            cv,
                            inputv,
                            fcv,
                            self.accepted_states.deep_view(),
                        ));
                        assert(!dedup_prev.contains(cv));
                        assert(trees.deep_view() == dedup_trees(base_wi, wts, k as int + 1));
                    }
                } else {
                    proof {
                        assert(dedup_prev.contains(cv));
                        assert(trees.deep_view() == dedup_trees(base_wi, wts, k as int + 1));
                    }
                }
                k += 1;
            }
            proof {
                assert(trees.deep_view() == dedup_trees(base_wi, wts, wts.len() as int));
                assert(trees.deep_view() == forest_upto(inputv, fcv, wsv, wi as int + 1));
            }
            wi += 1;
        }
        proof {
            assert(fcv == flipped_chart(
                completed_sets(self.chart.deep_view()),
                self.chart.deep_view().len() as int,
            ));
            assert(trees.deep_view() == spec_forest(
                self.chart.deep_view(),
                inputv,
                wsv,
            ));
        }
        Ok(trees)
    }

    /// The completed view inverted by start position: set `j` holds every
    /// completed item whose derivation began at `j`, keyed by where it
    /// ended, in chart order.
    pub fn flip_completed(&self) -> (r: Vec<FlippedStateSet>)
        requires
            self.wf(),
        ensures
            r.deep_view() == flipped_chart(
                completed_sets(self.chart.deep_view()),
                self.chart.deep_view().len() as int,
            ),
            flip_wf(r.deep_view(), self.input@.len() as int),
            forall|o: int| 0 <= o < r@.len() ==> (#[trigger] r@[o]).wf(),
    {
        let ghost cv = self.chart.deep_view();
        let ghost n = self.input@.len() as int;
        let completed = self.get_completed();
        let ghost comp = completed.deep_view();
        proof {
            assert(comp.len() == cv.len());
        }
        let mut flipped: Vec<FlippedStateSet> = Vec::new();
        let mut t: usize = 0;
        while t < self.chart.len()
            invariant
                t <= self.chart@.len(),
                cv.len() == self.chart@.len(),
                flipped@.len() == t,
                forall|o: int| 0 <= o < t ==> (#[trigger] flipped@[o]).wf(),
                forall|o: int| 0 <= o < t ==> (#[trigger] flipped.deep_view()[o]).len() == 0,
            decreases self.chart@.len() - t,
        {
            let ghost fpre = flipped.deep_view();
            let fresh = FlippedStateSet::new();
            flipped.push(fresh);
            proof {
                assert forall|o: int| 0 <= o < t + 1
                    implies (#[trigger] flipped.deep_view()[o]).len() == 0 by {
                    if o < t {
                        assert(flipped.deep_view()[o] == fpre[o]);
                    }
                }
            }
            t += 1;
        }
        proof {
            assert(flipped.deep_view() =~~= Seq::new(
                cv.len(),
                |i: int| Seq::<FStateView>::empty(),
            ));
        }
        let mut i: usize = 0;
        while i < completed.len()
            invariant
                i <= comp.len(),
                cv == self.chart.deep_view(),
                self.wf(),
                n == self.input@.len(),
                comp == completed.deep_view(),
                comp == completed_sets(cv),
                comp.len() == cv.len(),
                cv.len() == n + 1,
                completed@.len() == comp.len(),
                flipped@.len() == cv.len(),
                forall|o: int| 0 <= o < flipped@.len() ==> (#[trigger] flipped@[o]).wf(),
                flipped.deep_view() == flip_upto(
                    Seq::new(cv.len(), |p: int| Seq::<FStateView>::empty()),
                    comp,
                    i as int,
                ),
                flip_wf(flipped.deep_view(), n),
            decreases comp.len() - i,
        {
            let state_set = &completed[i];
            let ghost set = comp[i as int];
            let mut j: usize = 0;
            proof {
                assert(flip_set(flipped.deep_view(), set, i as int, 0) == flipped.deep_view());
            }
            let ghost fbase = flipped.deep_view();
            while j < state_set.len()
                invariant
                    j <= set.len(),
                    i < comp.len(),
                    cv == self.chart.deep_view(),
                    self.wf(),
                    n == self.input@.len(),
                    comp == completed_sets(cv),
                    comp.len() == cv.len(),
                    cv.len() == n + 1,
                    set == comp[i as int],
                    state_set.deep_view() == set,
                    flipped@.len() == cv.len(),
                    forall|o: int| 0 <= o < flipped@.len() ==> (#[trigger] flipped@[o]).wf(),
                    flipped.deep_view() == flip_set(fbase, set, i as int, j as int),
                    flip_wf(flipped.deep_view(), n),
                decreases set.len() - j,
            {
                let state = state_set.get(j);
                let ghost fprev = flipped.deep_view();
                proof {
                    // The item is a completed item of chart set `i`, so its
                    // origin lies at or before `i`.
                    lemma_completed_upto_elems(cv[i as int], cv[i as int].len() as int);
                    assert(completed_sets(cv)[i as int] == completed_upto(
                        cv[i as int],
                        cv[i as int].len() as int,
                    ));
                    assert(set.contains(set[j as int]));
                    assert(cv[i as int].contains(set[j as int]));
                    assert(state.deep_view().origin <= i as int);
                }
                let flipped_state = FlippedIState::new(state.prod.duplicate(), i);
                let origin = state.origin;
                proof {
                    assert(flipped.deep_view()[origin as int] == fprev[origin as int]);
                    crate::sets::lemma_seq_insert_no_duplicates(
                        fprev[origin as int],
                        flipped_state.deep_view(),
                    );
                }
                flipped[origin].insert(flipped_state);
                proof {
                    assert(flipped.deep_view() =~= flip_insert(fprev, set[j as int], i as int));
                    assert forall|o: int, x: FStateView|
                        0 <= o < flipped.deep_view().len() && #[trigger] flipped.deep_view()[
                            o
                        ].contains(x) implies x.prod.wf() && x.prod.dot == x.prod.rhs.len() && o
                        <= x.end <= n by {
                        if o == origin as int && !fprev[o].contains(x) {
                            assert(x == flipped_state.deep_view());
                        } else {
                            assert(fprev[o].contains(x));
                        }
                    }
                    assert forall|o: int| 0 <= o < flipped@.len()
                        implies (#[trigger] flipped@[o]).wf() by {
                        assert(flipped.deep_view()[o].no_duplicates());
                    }
                }
                j += 1;
            }
            i += 1;
        }
        flipped
    }
}

} // verus!
