//! Library-wide laws: what holds of every recognition, stated and proved
//! over the mathematical model that the recognizer's contracts pin.

use vstd::prelude::*;
use crate::grammar::GrammarView;
use crate::istate::StateView;
use crate::model::{
    chart_wf, find_witness, lemma_chart_after_props, lemma_find_witness_found, spec_accepted,
    spec_chart, spec_witnesses, start_states, witness_matches, witnesses_prefix,
};
use crate::outcome::EarleyOutcome;

verus! {

/// Chart length: for any grammar and any input the recognizer processes,
/// the chart has exactly one set per input symbol, plus the final set.
pub proof fn lemma_chart_length(g: GrammarView, syms: Seq<Seq<char>>)
    requires
        g.len() > 0,
    ensures
        spec_chart(g, syms).len() == syms.len() + 1,
{
    lemma_chart_after_props(g, syms, syms.len() + 1int);
}

/// Every witness in a prefix search is a final item matching some start
/// item.
proof fn lemma_witnesses_matched(starts: Seq<StateView>, finals: Seq<StateView>, i: int)
    requires
        0 <= i <= starts.len(),
    ensures
        forall|x: StateView|
            #[trigger] witnesses_prefix(starts, finals, i).contains(x) ==> finals.contains(x)
                && exists|s: StateView| starts.contains(s) && witness_matches(x, s),
    decreases i,
{
    if i > 0 {
        lemma_witnesses_matched(starts, finals, i - 1);
        assert forall|x: StateView| #[trigger] witnesses_prefix(starts, finals, i).contains(x)
            implies finals.contains(x) && exists|s: StateView|
            starts.contains(s) && witness_matches(x, s) by {
            let pre = witnesses_prefix(starts, finals, i - 1);
            let whole = witnesses_prefix(starts, finals, i);
            let j = choose|j: int| 0 <= j < whole.len() && whole[j] == x;
            if j < pre.len() {
                assert(pre.contains(x));
            } else {
                assert(find_witness(finals, starts[i - 1]) == Some(x));
                lemma_find_witness_found(finals, starts[i - 1]);
                assert(starts.contains(starts[i - 1]));
                assert(witness_matches(x, starts[i - 1]));
            }
        }
    }
}

/// Acceptance soundness: when the recognizer accepts, the final chart set
/// holds a witness — a completed item with origin 0 whose production is an
/// alternative of the start production.
pub proof fn lemma_acceptance_soundness(g: GrammarView, syms: Seq<Seq<char>>)
    requires
        g.len() > 0,
        spec_accepted(g, syms),
    ensures
        spec_witnesses(g, syms).len() > 0,
        forall|w: StateView|
            #[trigger] spec_witnesses(g, syms).contains(w) ==> spec_chart(g, syms)[
                syms.len() as int
            ].contains(w) && w.origin == 0 && w.prod.dot == w.prod.rhs.len() && exists|s: StateView|
                start_states(g).contains(s) && #[trigger] witness_matches(w, s),
{
    let finals = spec_chart(g, syms)[syms.len() as int];
    lemma_witnesses_matched(start_states(g), finals, start_states(g).len() as int);
    assert forall|w: StateView| #[trigger] spec_witnesses(g, syms).contains(w)
        implies finals.contains(w) && w.origin == 0 && w.prod.dot == w.prod.rhs.len() && exists|
        s: StateView,
    |
        start_states(g).contains(s) && #[trigger] witness_matches(w, s) by {
        let s = choose|s: StateView| start_states(g).contains(s) && witness_matches(w, s);
        assert(witness_matches(w, s));
    }
}

/// Idempotence: recognition is a function of grammar, symbols and nothing
/// else.  Two outcomes of the same grammar over the same symbols agree on
/// acceptance, and accepted ones carry equal charts, witnesses and
/// symbols — so their parse forests are equal too, since the forest is
/// pinned to a function of those three values.
pub proof fn lemma_outcome_deterministic(
    o1: EarleyOutcome,
    o2: EarleyOutcome,
    g: GrammarView,
    syms: Seq<Seq<char>>,
)
    requires
        crate::earley::recognized(o1, g, syms),
        crate::earley::recognized(o2, g, syms),
    ensures
        (o1 is Accepted) == (o2 is Accepted),
        (o1 is Accepted && o2 is Accepted) ==> {
            let a1 = o1->Accepted_0;
            let a2 = o2->Accepted_0;
            &&& a1.chart.deep_view() == a2.chart.deep_view()
            &&& a1.accepted_states.deep_view() == a2.accepted_states.deep_view()
            &&& a1.input.deep_view() == a2.input.deep_view()
            &&& crate::outcome::spec_forest(
                a1.chart.deep_view(),
                a1.input.deep_view(),
                a1.accepted_states.deep_view(),
            ) == crate::outcome::spec_forest(
                a2.chart.deep_view(),
                a2.input.deep_view(),
                a2.accepted_states.deep_view(),
            )
        },
{
}

/// Every node of the tree carries an alternative of the grammar: the node's
/// left-hand side paired with its single right-hand side stands among the
/// grammar's (lhs, alternative) pairs.
pub open spec fn tree_from_grammar(tv: crate::tree::TreeView, g: GrammarView) -> bool
    decreases tv,
{
    &&& tv.production.rhs.len() == 1
    &&& crate::model::grammar_alts(g).contains((tv.production.lhs, tv.production.rhs[0].terms))
    &&& branches_from_grammar(tv.branches, g)
}

/// Every subtree under the branches is drawn from the grammar.
pub open spec fn branches_from_grammar(bs: Seq<crate::tree::BranchView>, g: GrammarView) -> bool
    decreases bs,
{
    if bs.len() == 0 {
        true
    } else {
        (match bs[0] {
            crate::tree::BranchView::Nonterminal(t) => tree_from_grammar(t, g),
            crate::tree::BranchView::Terminal(_) => true,
        }) && branches_from_grammar(bs.drop_first(), g)
    }
}

/// A good tree whose root production and whose candidate items all carry
/// grammar alternatives converts to a tree drawn from the grammar.
proof fn lemma_good_tree_grammar(
    itv: crate::itree::ITreeView,
    input: Seq<Seq<char>>,
    from: int,
    fc: Seq<Seq<crate::istate::FStateView>>,
    g: GrammarView,
)
    requires
        crate::outcome::good_tree(itv, input, from, fc),
        crate::model::grammar_alts(g).contains((itv.root.prod.lhs, itv.root.prod.rhs)),
        forall|o: int, x: crate::istate::FStateView|
            0 <= o < fc.len() && #[trigger] fc[o].contains(x)
                ==> crate::model::grammar_alts(g).contains((x.prod.lhs, x.prod.rhs)),
    ensures
        tree_from_grammar(crate::itree::tree_of_itree(itv), g),
    decreases itv,
{
    lemma_spans_grammar(itv.branches, itv.root.prod.rhs, input, from, itv.root.end, fc, g);
    let conv = crate::itree::tree_of_itree(itv);
    assert(conv.production.rhs[0].terms == itv.root.prod.rhs);
}

/// The branches of a realized span convert to branches drawn from the
/// grammar, provided every candidate item carries a grammar alternative.
proof fn lemma_spans_grammar(
    bs: Seq<crate::itree::IBranchView>,
    rhs: Seq<crate::term::TermView>,
    input: Seq<Seq<char>>,
    from: int,
    end: int,
    fc: Seq<Seq<crate::istate::FStateView>>,
    g: GrammarView,
)
    requires
        crate::outcome::spans_ok(bs, rhs, input, from, end, fc),
        forall|o: int, x: crate::istate::FStateView|
            0 <= o < fc.len() && #[trigger] fc[o].contains(x)
                ==> crate::model::grammar_alts(g).contains((x.prod.lhs, x.prod.rhs)),
    ensures
        branches_from_grammar(crate::itree::branches_of_ibranches(bs), g),
    decreases bs,
{
    crate::itree::lemma_branches_of_ibranches(bs);
    let conv = crate::itree::branches_of_ibranches(bs);
    if bs.len() > 0 {
        crate::itree::lemma_branches_of_ibranches(bs.drop_first());
        assert(conv.drop_first() =~= crate::itree::branches_of_ibranches(bs.drop_first()));
        match bs[0] {
            crate::itree::IBranchView::Terminal(idx, s) => {
                lemma_spans_grammar(
                    bs.drop_first(),
                    rhs.drop_first(),
                    input,
                    from + 1,
                    end,
                    fc,
                    g,
                );
            },
            crate::itree::IBranchView::Nonterminal(idx, t) => {
                assert(fc[from].contains(t.root));
                lemma_good_tree_grammar(t, input, from, fc, g);
                lemma_spans_grammar(
                    bs.drop_first(),
                    rhs.drop_first(),
                    input,
                    t.root.end,
                    end,
                    fc,
                    g,
                );
            },
        }
    }
}

/// Tree–grammar correspondence: every tree the builder returns for an
/// accepted parse is drawn from the grammar — each of its nodes carries one
/// of the grammar's alternatives.
pub proof fn lemma_forest_productions(
    g: GrammarView,
    syms: Seq<Seq<char>>,
    acc: crate::outcome::EarleyAccepted,
    t: crate::tree::TreeView,
)
    requires
        g.len() > 0,
        crate::earley::recognized(EarleyOutcome::Accepted(acc), g, syms),
        crate::outcome::from_witness_tree(
            t,
            acc.input.deep_view(),
            crate::outcome::flipped_chart(
                crate::outcome::completed_sets(acc.chart.deep_view()),
                acc.chart.deep_view().len() as int,
            ),
            acc.accepted_states.deep_view(),
        ),
    ensures
        tree_from_grammar(t, g),
{
    let cv = acc.chart.deep_view();
    let n = syms.len() as int;
    let comp = crate::outcome::completed_sets(cv);
    let fc = crate::outcome::flipped_chart(comp, cv.len() as int);
    let in_alts = |pr: crate::prod::ProdView|
        crate::model::grammar_alts(g).contains((pr.lhs, pr.rhs));

    lemma_chart_well_formed(g, syms);
    assert(cv == spec_chart(g, syms));

    // Every completed item carries a grammar alternative.
    assert forall|ci: int, si: int|
        0 <= ci < comp.len() && 0 <= si < comp[ci].len() implies in_alts(
        (#[trigger] comp[ci][si]).prod,
    ) by {
        crate::outcome::lemma_completed_upto_elems(cv[ci], cv[ci].len() as int);
        assert(comp[ci].contains(comp[ci][si]));
        assert(cv[ci].contains(comp[ci][si]));
    }

    // So does every item of the inverted view.
    let base = Seq::new(cv.len(), |i: int| Seq::<crate::istate::FStateView>::empty());
    crate::outcome::lemma_flip_upto_prods(base, comp, comp.len() as int, in_alts);
    assert forall|o: int, x: crate::istate::FStateView|
        0 <= o < fc.len() && #[trigger] fc[o].contains(x) implies crate::model::grammar_alts(
        g,
    ).contains((x.prod.lhs, x.prod.rhs)) by {
        assert(in_alts(x.prod));
    }

    // The tree is the image of a good intermediate tree rooted at a witness.
    let itv = choose|itv: crate::itree::ITreeView|
        #[trigger] crate::itree::tree_of_itree(itv) == t && crate::outcome::good_tree(
            itv,
            acc.input.deep_view(),
            0,
            fc,
        ) && exists|w: int|
            0 <= w < acc.accepted_states.deep_view().len() && itv.root.prod
                == acc.accepted_states.deep_view()[w].prod;
    let w = choose|w: int|
        0 <= w < acc.accepted_states.deep_view().len() && itv.root.prod
            == acc.accepted_states.deep_view()[w].prod;

    // The witness stands in the final chart set, so its production is a
    // grammar alternative.
    let wv = acc.accepted_states.deep_view()[w];
    crate::model::lemma_witnesses_prefix_elems(
        start_states(g),
        spec_chart(g, syms)[n],
        start_states(g).len() as int,
    );
    assert(spec_witnesses(g, syms).contains(wv));
    assert(spec_chart(g, syms)[n].contains(wv));
    assert(crate::model::grammar_alts(g).contains((itv.root.prod.lhs, itv.root.prod.rhs)));

    lemma_good_tree_grammar(itv, acc.input.deep_view(), 0, fc, g);
}

/// The chart of every recognition is well formed: its sets hold no
/// duplicates and only items drawn from the grammar, each with its origin
/// at or before its set's position.
pub proof fn lemma_chart_well_formed(g: GrammarView, syms: Seq<Seq<char>>)
    requires
        g.len() > 0,
    ensures
        chart_wf(g, syms.len() as int, spec_chart(g, syms)),
{
    lemma_chart_after_props(g, syms, syms.len() + 1int);
}

} // verus!
