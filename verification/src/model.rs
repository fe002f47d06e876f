//! The mathematical model of Earley recognition.
//!
//! The recognizer's contract pins its chart to the value computed here: a
//! fixed point of the Predict, Scan and Complete rules over sequences of
//! items, where each item set is an insertion-ordered sequence without
//! duplicates.  Executable functions mirror these definitions loop by loop.

use vstd::prelude::*;
use crate::grammar::{GrammarView, ProductionView};
use crate::istate::StateView;
use crate::prod::ProdView;
use crate::sets::seq_insert;
use crate::term::TermView;

verus! {

// ---------------------------------------------------------------------------
// Alternatives of a grammar
// ---------------------------------------------------------------------------

/// The dotted items predicted for one production at origin `k`: one item per
/// alternative, dot at the start, in textual order.
pub open spec fn prod_states(p: ProductionView, k: int) -> Seq<StateView> {
    p.rhs.map_values(
        |e: crate::grammar::ExpressionView| StateView {
            origin: k,
            prod: ProdView { lhs: p.lhs, rhs: e.terms, dot: 0 },
        },
    )
}

/// The (lhs, rhs) pairs of the first `i` productions, in textual order.
pub open spec fn grammar_alts_prefix(g: GrammarView, i: int) -> Seq<(TermView, Seq<TermView>)>
    decreases i,
{
    if i <= 0 {
        Seq::empty()
    } else {
        grammar_alts_prefix(g, i - 1) + g[i - 1].rhs.map_values(
            |e: crate::grammar::ExpressionView| (g[i - 1].lhs, e.terms),
        )
    }
}

/// All (lhs, rhs) pairs of the grammar: productions in textual order, the
/// alternatives of each in textual order.
pub open spec fn grammar_alts(g: GrammarView) -> Seq<(TermView, Seq<TermView>)> {
    grammar_alts_prefix(g, g.len() as int)
}

/// A dotted production drawn from the grammar, with the dot in range.
pub open spec fn valid_prod(g: GrammarView, p: ProdView) -> bool {
    &&& p.wf()
    &&& grammar_alts(g).contains((p.lhs, p.rhs))
}

/// An item whose production is drawn from the grammar and whose origin is a
/// position of the chart: every item the recognizer ever stores.
pub open spec fn valid_state(g: GrammarView, n: int, st: StateView) -> bool {
    &&& valid_prod(g, st.prod)
    &&& 0 <= st.origin <= n
}

// ---------------------------------------------------------------------------
// Ordered-set folds
// ---------------------------------------------------------------------------

/// Inserts the items of `xs` into the ordered set `acc`, left to right.
pub open spec fn insert_all(acc: Seq<StateView>, xs: Seq<StateView>) -> Seq<StateView>
    decreases xs.len(),
{
    if xs.len() == 0 {
        acc
    } else {
        insert_all(seq_insert(acc, xs[0]), xs.drop_first())
    }
}

/// The fold keeps the accumulator as a prefix: it only appends.
pub proof fn lemma_insert_all_prefix(acc: Seq<StateView>, xs: Seq<StateView>)
    ensures
        acc.is_prefix_of(insert_all(acc, xs)),
    decreases xs.len(),
{
    if xs.len() > 0 {
        lemma_insert_all_prefix(seq_insert(acc, xs[0]), xs.drop_first());
        assert(acc.is_prefix_of(seq_insert(acc, xs[0])));
        lemma_prefix_transitive(acc, seq_insert(acc, xs[0]), insert_all(acc, xs));
    }
}

/// Prefix order is transitive.
pub proof fn lemma_prefix_transitive<A>(a: Seq<A>, b: Seq<A>, c: Seq<A>)
    requires
        a.is_prefix_of(b),
        b.is_prefix_of(c),
    ensures
        a.is_prefix_of(c),
{
    assert(a =~= c.subrange(0, a.len() as int));
}

/// The fold keeps the set free of duplicates.
pub proof fn lemma_insert_all_no_duplicates(acc: Seq<StateView>, xs: Seq<StateView>)
    requires
        acc.no_duplicates(),
    ensures
        insert_all(acc, xs).no_duplicates(),
    decreases xs.len(),
{
    if xs.len() > 0 {
        crate::sets::lemma_seq_insert_no_duplicates(acc, xs[0]);
        lemma_insert_all_no_duplicates(seq_insert(acc, xs[0]), xs.drop_first());
    }
}

/// Every item of the folded set came from the accumulator or from `xs`.
pub proof fn lemma_insert_all_elems(acc: Seq<StateView>, xs: Seq<StateView>)
    ensures
        forall|x: StateView|
            insert_all(acc, xs).contains(x) ==> acc.contains(x) || xs.contains(x),
    decreases xs.len(),
{
    if xs.len() > 0 {
        lemma_insert_all_elems(seq_insert(acc, xs[0]), xs.drop_first());
        assert forall|x: StateView| insert_all(acc, xs).contains(x)
            implies acc.contains(x) || xs.contains(x) by {
            if seq_insert(acc, xs[0]).contains(x) {
                if !acc.contains(x) {
                    assert(x == xs[0]);
                }
            } else {
                assert(xs.drop_first().contains(x));
                let j = choose|j: int| 0 <= j < xs.drop_first().len() && xs.drop_first()[j] == x;
                assert(xs[j + 1] == x);
            }
        }
    }
}

/// Inserting one item is one step of the fold.
pub proof fn lemma_insert_all_one(acc: Seq<StateView>, x: StateView)
    ensures
        insert_all(acc, seq![x]) == seq_insert(acc, x),
{
    assert(seq![x].drop_first() =~= Seq::<StateView>::empty());
    assert(insert_all(seq_insert(acc, x), seq![x].drop_first()) == seq_insert(acc, x));
}

/// Folding a concatenation is folding one part after the other.
pub proof fn lemma_insert_all_app(acc: Seq<StateView>, xs: Seq<StateView>, ys: Seq<StateView>)
    ensures
        insert_all(acc, xs + ys) == insert_all(insert_all(acc, xs), ys),
    decreases xs.len(),
{
    if xs.len() == 0 {
        assert(xs + ys =~= ys);
    } else {
        assert((xs + ys)[0] == xs[0]);
        assert((xs + ys).drop_first() =~= xs.drop_first() + ys);
        lemma_insert_all_app(seq_insert(acc, xs[0]), xs.drop_first(), ys);
    }
}

// ---------------------------------------------------------------------------
// The three rules, item by item
// ---------------------------------------------------------------------------

/// Predicted items contributed by the first `i` productions for the
/// nonterminal `nt` at origin `k`.
pub open spec fn predictions_prefix(g: GrammarView, k: int, nt: TermView, i: int) -> Seq<StateView>
    decreases i,
{
    if i <= 0 {
        Seq::empty()
    } else {
        predictions_prefix(g, k, nt, i - 1) + (if g[i - 1].lhs == nt {
            prod_states(g[i - 1], k)
        } else {
            Seq::empty()
        })
    }
}

/// What the Predict rule contributes for one item: for an item whose next
/// term is the nonterminal `Y`, one fresh item per alternative of `Y`,
/// dotted at the start, with origin `k`.
pub open spec fn predict_new(g: GrammarView, k: int, st: StateView) -> Seq<StateView> {
    match st.prod.next() {
        Some(TermView::Nonterminal(name)) => predictions_prefix(
            g,
            k,
            TermView::Nonterminal(name),
            g.len() as int,
        ),
        _ => Seq::empty(),
    }
}

/// The item with its dot advanced over one term.
pub open spec fn advanced_state(st: StateView) -> StateView {
    StateView { origin: st.origin, prod: st.prod.advanced() }
}

/// What the Scan rule contributes for one item: the advanced item when the
/// next term is a terminal that equals the symbol under scan.
pub open spec fn scan_new(sym: Seq<char>, st: StateView) -> Seq<StateView> {
    if st.prod.next() == Some(TermView::Terminal(sym)) {
        seq![advanced_state(st)]
    } else {
        Seq::empty()
    }
}

/// Of the first `i` items of `set`, those whose next term is the
/// nonterminal `lhs`, each advanced over it.
pub open spec fn completions_prefix(set: Seq<StateView>, lhs: TermView, i: int) -> Seq<StateView>
    decreases i,
{
    if i <= 0 {
        Seq::empty()
    } else {
        completions_prefix(set, lhs, i - 1) + (if set[i - 1].prod.next() == Some(lhs) {
            seq![advanced_state(set[i - 1])]
        } else {
            Seq::empty()
        })
    }
}

/// What the Complete rule contributes for one item: for a completed item
/// with origin `j`, every item of set `j` awaiting its left-hand side,
/// advanced over it.
pub open spec fn complete_new(chart: Seq<Seq<StateView>>, st: StateView) -> Seq<StateView> {
    if st.prod.next() is None && 0 <= st.origin < chart.len() {
        completions_prefix(chart[st.origin], st.prod.lhs, chart[st.origin].len() as int)
    } else {
        Seq::empty()
    }
}

// ---------------------------------------------------------------------------
// The three rules over a whole item set
// ---------------------------------------------------------------------------

/// Folds the Predict contributions of the first `i` input items into `acc`.
pub open spec fn predict_acc(
    g: GrammarView,
    k: int,
    input: Seq<StateView>,
    acc: Seq<StateView>,
    i: int,
) -> Seq<StateView>
    decreases i,
{
    if i <= 0 {
        acc
    } else {
        insert_all(predict_acc(g, k, input, acc, i - 1), predict_new(g, k, input[i - 1]))
    }
}

/// The Predict rule over a set: the set itself, then every contribution in
/// set order.
pub open spec fn predict_set(g: GrammarView, k: int, s: Seq<StateView>) -> Seq<StateView> {
    predict_acc(g, k, s, s, s.len() as int)
}

/// Folds the Scan contributions of the first `i` input items into `acc`.
pub open spec fn scan_acc(
    sym: Seq<char>,
    input: Seq<StateView>,
    acc: Seq<StateView>,
    i: int,
) -> Seq<StateView>
    decreases i,
{
    if i <= 0 {
        acc
    } else {
        insert_all(scan_acc(sym, input, acc, i - 1), scan_new(sym, input[i - 1]))
    }
}

/// The Scan rule over a set: a fresh set holding the advanced items, in set
/// order.
pub open spec fn scan_set(sym: Seq<char>, s: Seq<StateView>) -> Seq<StateView> {
    scan_acc(sym, s, Seq::empty(), s.len() as int)
}

/// Folds the Complete contributions of the first `i` input items into `acc`.
pub open spec fn complete_acc(
    chart: Seq<Seq<StateView>>,
    input: Seq<StateView>,
    acc: Seq<StateView>,
    i: int,
) -> Seq<StateView>
    decreases i,
{
    if i <= 0 {
        acc
    } else {
        insert_all(complete_acc(chart, input, acc, i - 1), complete_new(chart, input[i - 1]))
    }
}

/// The Complete rule over a set: the set itself, then every contribution in
/// set order, completing against the fixed `chart`.
pub open spec fn complete_set(chart: Seq<Seq<StateView>>, s: Seq<StateView>) -> Seq<StateView> {
    complete_acc(chart, s, s, s.len() as int)
}

// ---------------------------------------------------------------------------
// The fixed point
// ---------------------------------------------------------------------------

/// One pass of the three rules at position `k`: Predict into set `k`, Scan
/// from it into set `k + 1`, then Complete into set `k`, completing against
/// the chart as Predict and Scan left it.
pub open spec fn round(
    g: GrammarView,
    syms: Seq<Seq<char>>,
    chart: Seq<Seq<StateView>>,
    k: int,
) -> Seq<Seq<StateView>> {
    let a = predict_set(g, k, chart[k]);
    let c1 = chart.update(k, a);
    let c2 = if k + 1 < chart.len() && k < syms.len() {
        c1.update(k + 1, scan_set(syms[k], a))
    } else {
        c1
    };
    c2.update(k, complete_set(c2, a))
}

/// `fuel` passes of the three rules at position `k`.
pub open spec fn rounds(
    g: GrammarView,
    syms: Seq<Seq<char>>,
    chart: Seq<Seq<StateView>>,
    k: int,
    fuel: nat,
) -> Seq<Seq<StateView>>
    decreases fuel,
{
    if fuel == 0 {
        chart
    } else {
        rounds(g, syms, round(g, syms, chart, k), k, (fuel - 1) as nat)
    }
}

/// The start set: one item per alternative of the first production, dotted
/// at the start, with origin 0, duplicates dropped.
pub open spec fn start_states(g: GrammarView) -> Seq<StateView> {
    insert_all(Seq::empty(), prod_states(g[0], 0))
}

/// The chart before any rule has run: `n + 1` sets, the start set at
/// position 0, every other set empty.
pub open spec fn chart_init(g: GrammarView, n: int) -> Seq<Seq<StateView>> {
    Seq::new((n + 1) as nat, |i: int| if i == 0 { start_states(g) } else { Seq::empty() })
}

/// Passes enough to exhaust every item the rules can ever add at one
/// position: one more than the number of candidate items.
pub open spec fn fuel(g: GrammarView, n: int) -> nat {
    (universe(g, n).len() + 1) as nat
}

/// The chart after the positions before `k` have each been driven to their
/// fixed point, left to right.
pub open spec fn chart_after(g: GrammarView, syms: Seq<Seq<char>>, k: int) -> Seq<Seq<StateView>>
    decreases k,
{
    if k <= 0 {
        chart_init(g, syms.len() as int)
    } else {
        rounds(g, syms, chart_after(g, syms, k - 1), k - 1, fuel(g, syms.len() as int))
    }
}

/// The chart of the recognizer: every position driven to its fixed point.
pub open spec fn spec_chart(g: GrammarView, syms: Seq<Seq<char>>) -> Seq<Seq<StateView>> {
    chart_after(g, syms, syms.len() + 1int)
}

// ---------------------------------------------------------------------------
// Acceptance
// ---------------------------------------------------------------------------

/// Whether a final item is a completed, origin-0 image of the start item.
pub open spec fn witness_matches(f: StateView, s: StateView) -> bool {
    &&& f.origin == 0
    &&& f.prod.dot == f.prod.rhs.len()
    &&& f.prod.lhs == s.prod.lhs
    &&& f.prod.rhs == s.prod.rhs
}

/// The first item of `finals` that witnesses the start item `s`.
pub open spec fn find_witness(finals: Seq<StateView>, s: StateView) -> Option<StateView>
    decreases finals.len(),
{
    if finals.len() == 0 {
        None
    } else if witness_matches(finals[0], s) {
        Some(finals[0])
    } else {
        find_witness(finals.drop_first(), s)
    }
}

/// The witnesses of the first `i` start items, in start-item order.
pub open spec fn witnesses_prefix(
    starts: Seq<StateView>,
    finals: Seq<StateView>,
    i: int,
) -> Seq<StateView>
    decreases i,
{
    if i <= 0 {
        Seq::empty()
    } else {
        witnesses_prefix(starts, finals, i - 1) + match find_witness(finals, starts[i - 1]) {
            Some(f) => seq![f],
            None => Seq::empty(),
        }
    }
}

/// The witness items of a parse: for each start alternative, the first item
/// of the final set that completes it over the whole input.
pub open spec fn spec_witnesses(g: GrammarView, syms: Seq<Seq<char>>) -> Seq<StateView> {
    let chart = spec_chart(g, syms);
    witnesses_prefix(start_states(g), chart[syms.len() as int], start_states(g).len() as int)
}

/// Whether the recognizer accepts: some witness exists.
pub open spec fn spec_accepted(g: GrammarView, syms: Seq<Seq<char>>) -> bool {
    spec_witnesses(g, syms).len() > 0
}

// ---------------------------------------------------------------------------
// The universe of items at one position
// ---------------------------------------------------------------------------

/// The items with a fixed dotted production and every origin below `m`.
pub open spec fn states_origins(lhs: TermView, rhs: Seq<TermView>, dot: int, m: int) -> Seq<
    StateView,
>
    decreases m,
{
    if m <= 0 {
        Seq::empty()
    } else {
        states_origins(lhs, rhs, dot, m - 1).push(
            StateView { origin: m - 1, prod: ProdView { lhs, rhs, dot } },
        )
    }
}

/// The items with a fixed alternative, every dot below `d`, and every
/// origin below `m`.
pub open spec fn states_dots(lhs: TermView, rhs: Seq<TermView>, d: int, m: int) -> Seq<StateView>
    decreases d,
{
    if d <= 0 {
        Seq::empty()
    } else {
        states_dots(lhs, rhs, d - 1, m) + states_origins(lhs, rhs, d - 1, m)
    }
}

/// The items of the first `i` alternatives, every dot, every origin below
/// `m`.
pub open spec fn universe_prefix(
    alts: Seq<(TermView, Seq<TermView>)>,
    i: int,
    m: int,
) -> Seq<StateView>
    decreases i,
{
    if i <= 0 {
        Seq::empty()
    } else {
        universe_prefix(alts, i - 1, m) + states_dots(
            alts[i - 1].0,
            alts[i - 1].1,
            alts[i - 1].1.len() + 1int,
            m,
        )
    }
}

/// Every item the recognizer can store anywhere in a chart over `n`
/// symbols: each alternative of the grammar, dotted everywhere, at every
/// origin up to `n`.
pub open spec fn universe(g: GrammarView, n: int) -> Seq<StateView> {
    universe_prefix(grammar_alts(g), grammar_alts(g).len() as int, n + 1)
}

// ---------------------------------------------------------------------------
// Well-formedness of a chart
// ---------------------------------------------------------------------------

/// What holds of every chart the recognizer builds over `n` symbols: one
/// set per position and one for the end, no set holding duplicates, every
/// item drawn from the grammar with its origin at or before its set.
pub open spec fn chart_wf(g: GrammarView, n: int, chart: Seq<Seq<StateView>>) -> bool {
    &&& chart.len() == n + 1
    &&& forall|i: int| 0 <= i < chart.len() ==> (#[trigger] chart[i]).no_duplicates()
    &&& forall|i: int, x: StateView|
        0 <= i < chart.len() && #[trigger] chart[i].contains(x) ==> valid_state(g, n, x)
            && x.origin <= i
}

/// Every set strictly after position `k` is still empty.
pub open spec fn tail_empty(chart: Seq<Seq<StateView>>, k: int) -> bool {
    forall|j: int| k < j < chart.len() ==> (#[trigger] chart[j]).len() == 0
}

// ---------------------------------------------------------------------------
// What the rules contribute
// ---------------------------------------------------------------------------

/// A valid item advanced over its next term is valid.
pub proof fn lemma_advanced_valid(g: GrammarView, n: int, st: StateView)
    requires
        valid_state(g, n, st),
        st.prod.next() is Some,
    ensures
        valid_state(g, n, advanced_state(st)),
{
}

/// Each alternative of each production stands among the grammar's
/// alternatives.
pub proof fn lemma_alts_prefix_contains(g: GrammarView, pi: int, ei: int, i: int)
    requires
        0 <= pi < i <= g.len(),
        0 <= ei < g[pi].rhs.len(),
    ensures
        grammar_alts_prefix(g, i).contains((g[pi].lhs, g[pi].rhs[ei].terms)),
    decreases i,
{
    if i - 1 == pi {
        let mapped = g[i - 1].rhs.map_values(
            |e: crate::grammar::ExpressionView| (g[i - 1].lhs, e.terms),
        );
        assert(mapped[ei] == (g[pi].lhs, g[pi].rhs[ei].terms));
        assert(grammar_alts_prefix(g, i)[grammar_alts_prefix(g, i - 1).len() + ei]
            == (g[pi].lhs, g[pi].rhs[ei].terms));
    } else {
        lemma_alts_prefix_contains(g, pi, ei, i - 1);
        let pre = grammar_alts_prefix(g, i - 1);
        let j = choose|j: int| 0 <= j < pre.len() && pre[j] == (g[pi].lhs, g[pi].rhs[ei].terms);
        assert(grammar_alts_prefix(g, i)[j] == (g[pi].lhs, g[pi].rhs[ei].terms));
    }
}

/// Every item predicted from the grammar is valid: dotted at the start, at
/// origin `k`, over one of the grammar's alternatives.
pub proof fn lemma_predictions_prefix_elems(g: GrammarView, k: int, nt: TermView, i: int)
    requires
        0 <= i <= g.len(),
    ensures
        forall|x: StateView|
            #[trigger] predictions_prefix(g, k, nt, i).contains(x) ==> x.origin == k
                && x.prod.dot == 0 && x.prod.wf() && grammar_alts(g).contains(
                (x.prod.lhs, x.prod.rhs),
            ),
    decreases i,
{
    if i > 0 {
        lemma_predictions_prefix_elems(g, k, nt, i - 1);
        assert forall|x: StateView| #[trigger] predictions_prefix(g, k, nt, i).contains(x)
            implies x.origin == k && x.prod.dot == 0 && x.prod.wf() && grammar_alts(g).contains(
            (x.prod.lhs, x.prod.rhs),
        ) by {
            let pre = predictions_prefix(g, k, nt, i - 1);
            let whole = predictions_prefix(g, k, nt, i);
            let j = choose|j: int| 0 <= j < whole.len() && whole[j] == x;
            if j < pre.len() {
                assert(pre.contains(x));
            } else {
                assert(g[i - 1].lhs == nt);
                let ei = j - pre.len();
                assert(x == prod_states(g[i - 1], k)[ei]);
                lemma_alts_prefix_contains(g, i - 1, ei, g.len() as int);
            }
        }
    }
}

/// Every item a Predict contribution holds is valid at origin `k`.
pub proof fn lemma_predict_new_elems(g: GrammarView, n: int, k: int, st: StateView)
    requires
        0 <= k <= n,
    ensures
        forall|x: StateView|
            #[trigger] predict_new(g, k, st).contains(x) ==> valid_state(g, n, x) && x.origin
                == k,
    decreases g.len(),
{
    match st.prod.next() {
        Some(TermView::Nonterminal(name)) => {
            lemma_predictions_prefix_elems(g, k, TermView::Nonterminal(name), g.len() as int);
        },
        _ => {},
    }
}

/// Every item a Complete contribution holds is an advanced copy of an item
/// of the set completed against.
pub proof fn lemma_completions_prefix_elems(set: Seq<StateView>, lhs: TermView, i: int)
    requires
        0 <= i <= set.len(),
    ensures
        forall|x: StateView|
            #[trigger] completions_prefix(set, lhs, i).contains(x) ==> exists|j: int|
                0 <= j < i && x == advanced_state(set[j]) && (#[trigger] set[j]).prod.next()
                    == Some(lhs),
    decreases i,
{
    if i > 0 {
        lemma_completions_prefix_elems(set, lhs, i - 1);
        assert forall|x: StateView| #[trigger] completions_prefix(set, lhs, i).contains(x)
            implies exists|j: int|
            0 <= j < i && x == advanced_state(set[j]) && (#[trigger] set[j]).prod.next() == Some(
                lhs,
            ) by {
            let pre = completions_prefix(set, lhs, i - 1);
            let whole = completions_prefix(set, lhs, i);
            let j = choose|j: int| 0 <= j < whole.len() && whole[j] == x;
            if j < pre.len() {
                assert(pre.contains(x));
            } else {
                assert(x == advanced_state(set[i - 1]) && set[i - 1].prod.next() == Some(lhs));
            }
        }
    }
}

// ---------------------------------------------------------------------------
// The rules over whole sets preserve well-formedness
// ---------------------------------------------------------------------------

/// The Predict rule keeps the set well formed and only appends: every item
/// of the result is valid at or before origin `k`.
pub proof fn lemma_predict_acc_props(
    g: GrammarView,
    n: int,
    k: int,
    input: Seq<StateView>,
    acc: Seq<StateView>,
    i: int,
)
    requires
        0 <= k <= n,
        acc.no_duplicates(),
        forall|x: StateView| #[trigger] acc.contains(x) ==> valid_state(g, n, x) && x.origin <= k,
    ensures
        predict_acc(g, k, input, acc, i).no_duplicates(),
        acc.is_prefix_of(predict_acc(g, k, input, acc, i)),
        forall|x: StateView|
            #[trigger] predict_acc(g, k, input, acc, i).contains(x) ==> valid_state(g, n, x)
                && x.origin <= k,
    decreases i,
{
    if i > 0 {
        lemma_predict_acc_props(g, n, k, input, acc, i - 1);
        let prev = predict_acc(g, k, input, acc, i - 1);
        let xs = predict_new(g, k, input[i - 1]);
        lemma_insert_all_no_duplicates(prev, xs);
        lemma_insert_all_prefix(prev, xs);
        lemma_prefix_transitive(acc, prev, insert_all(prev, xs));
        lemma_insert_all_elems(prev, xs);
        lemma_predict_new_elems(g, n, k, input[i - 1]);
        assert forall|x: StateView| #[trigger] predict_acc(g, k, input, acc, i).contains(x)
            implies valid_state(g, n, x) && x.origin <= k by {
            assert(insert_all(prev, xs).contains(x));
            if prev.contains(x) {
            } else {
                assert(xs.contains(x));
            }
        }
    } else {
        assert(acc =~= acc.subrange(0, acc.len() as int));
    }
}

/// The Scan rule yields a well-formed set of valid items whose origins are
/// at or before `k`, provided the scanned set's are.
pub proof fn lemma_scan_acc_props(
    g: GrammarView,
    n: int,
    k: int,
    sym: Seq<char>,
    input: Seq<StateView>,
    acc: Seq<StateView>,
    i: int,
)
    requires
        0 <= k <= n,
        0 <= i <= input.len(),
        acc.no_duplicates(),
        forall|x: StateView| #[trigger] acc.contains(x) ==> valid_state(g, n, x) && x.origin <= k,
        forall|x: StateView|
            #[trigger] input.contains(x) ==> valid_state(g, n, x) && x.origin <= k,
    ensures
        scan_acc(sym, input, acc, i).no_duplicates(),
        forall|x: StateView|
            #[trigger] scan_acc(sym, input, acc, i).contains(x) ==> valid_state(g, n, x)
                && x.origin <= k,
    decreases i,
{
    if i > 0 {
        lemma_scan_acc_props(g, n, k, sym, input, acc, i - 1);
        let prev = scan_acc(sym, input, acc, i - 1);
        let xs = scan_new(sym, input[i - 1]);
        lemma_insert_all_no_duplicates(prev, xs);
        lemma_insert_all_elems(prev, xs);
        assert forall|x: StateView| #[trigger] xs.contains(x) implies valid_state(g, n, x)
            && x.origin <= k by {
            assert(input.contains(input[i - 1]));
            assert(x == advanced_state(input[i - 1]));
            lemma_advanced_valid(g, n, input[i - 1]);
        }
        assert forall|x: StateView| #[trigger] scan_acc(sym, input, acc, i).contains(x)
            implies valid_state(g, n, x) && x.origin <= k by {
            assert(insert_all(prev, xs).contains(x));
            if prev.contains(x) {
            } else {
                assert(xs.contains(x));
            }
        }
    }
}

/// The Complete rule keeps the set well formed and only appends, provided
/// the chart completed against is well formed up to position `k`.
pub proof fn lemma_complete_acc_props(
    g: GrammarView,
    n: int,
    k: int,
    chart: Seq<Seq<StateView>>,
    input: Seq<StateView>,
    acc: Seq<StateView>,
    i: int,
)
    requires
        0 <= k <= n,
        0 <= i <= input.len(),
        acc.no_duplicates(),
        forall|x: StateView| #[trigger] acc.contains(x) ==> valid_state(g, n, x) && x.origin <= k,
        forall|x: StateView|
            #[trigger] input.contains(x) ==> valid_state(g, n, x) && x.origin <= k,
        forall|p: int, x: StateView|
            0 <= p < chart.len() && #[trigger] chart[p].contains(x) ==> valid_state(g, n, x)
                && x.origin <= p,
    ensures
        complete_acc(chart, input, acc, i).no_duplicates(),
        acc.is_prefix_of(complete_acc(chart, input, acc, i)),
        forall|x: StateView|
            #[trigger] complete_acc(chart, input, acc, i).contains(x) ==> valid_state(g, n, x)
                && x.origin <= k,
    decreases i,
{
    if i > 0 {
        lemma_complete_acc_props(g, n, k, chart, input, acc, i - 1);
        let prev = complete_acc(chart, input, acc, i - 1);
        let st = input[i - 1];
        let xs = complete_new(chart, st);
        lemma_insert_all_no_duplicates(prev, xs);
        lemma_insert_all_prefix(prev, xs);
        lemma_prefix_transitive(acc, prev, insert_all(prev, xs));
        lemma_insert_all_elems(prev, xs);
        assert forall|x: StateView| #[trigger] xs.contains(x) implies valid_state(g, n, x)
            && x.origin <= k by {
            assert(input.contains(st));
            let set = chart[st.origin];
            lemma_completions_prefix_elems(set, st.prod.lhs, set.len() as int);
            let j = choose|j: int|
                0 <= j < set.len() && x == advanced_state(set[j]) && (#[trigger] set[j]).prod.next()
                    == Some(st.prod.lhs);
            assert(set.contains(set[j]));
            lemma_advanced_valid(g, n, set[j]);
        }
        assert forall|x: StateView| #[trigger] complete_acc(chart, input, acc, i).contains(x)
            implies valid_state(g, n, x) && x.origin <= k by {
            assert(insert_all(prev, xs).contains(x));
            if prev.contains(x) {
            } else {
                assert(xs.contains(x));
            }
        }
    } else {
        assert(acc =~= acc.subrange(0, acc.len() as int));
    }
}

/// The Predict fold only appends to its accumulator.
pub proof fn lemma_predict_acc_prefix(
    g: GrammarView,
    k: int,
    input: Seq<StateView>,
    acc: Seq<StateView>,
    i: int,
)
    ensures
        acc.is_prefix_of(predict_acc(g, k, input, acc, i)),
    decreases i,
{
    if i > 0 {
        lemma_predict_acc_prefix(g, k, input, acc, i - 1);
        let prev = predict_acc(g, k, input, acc, i - 1);
        lemma_insert_all_prefix(prev, predict_new(g, k, input[i - 1]));
        lemma_prefix_transitive(acc, prev, predict_acc(g, k, input, acc, i));
    } else {
        assert(acc =~= acc.subrange(0, acc.len() as int));
    }
}

/// The Complete fold only appends to its accumulator.
pub proof fn lemma_complete_acc_prefix(
    chart: Seq<Seq<StateView>>,
    input: Seq<StateView>,
    acc: Seq<StateView>,
    i: int,
)
    ensures
        acc.is_prefix_of(complete_acc(chart, input, acc, i)),
    decreases i,
{
    if i > 0 {
        lemma_complete_acc_prefix(chart, input, acc, i - 1);
        let prev = complete_acc(chart, input, acc, i - 1);
        lemma_insert_all_prefix(prev, complete_new(chart, input[i - 1]));
        lemma_prefix_transitive(acc, prev, complete_acc(chart, input, acc, i));
    } else {
        assert(acc =~= acc.subrange(0, acc.len() as int));
    }
}

/// A prefix of equal length is the sequence itself.
pub proof fn lemma_prefix_same_len<A>(a: Seq<A>, b: Seq<A>)
    requires
        a.is_prefix_of(b),
        a.len() == b.len(),
    ensures
        a == b,
{
    assert(a =~= b);
}

// ---------------------------------------------------------------------------
// One round: preservation and framing
// ---------------------------------------------------------------------------

/// One round preserves well-formedness, appends to set `k`, writes only
/// sets `k` and `k + 1`, and keeps the tail beyond `k + 1` empty.
pub proof fn lemma_round_props(
    g: GrammarView,
    n: int,
    syms: Seq<Seq<char>>,
    chart: Seq<Seq<StateView>>,
    k: int,
)
    requires
        chart_wf(g, n, chart),
        syms.len() == n,
        0 <= k <= n,
    ensures
        chart_wf(g, n, round(g, syms, chart, k)),
        chart[k].is_prefix_of(round(g, syms, chart, k)[k]),
        forall|i: int|
            0 <= i < chart.len() && i != k && i != k + 1 ==> round(g, syms, chart, k)[i]
                == chart[i],
        tail_empty(chart, k) ==> tail_empty(round(g, syms, chart, k), k + 1),
{
    let a = predict_set(g, k, chart[k]);
    let c1 = chart.update(k, a);
    let scan_on = k + 1 < chart.len() && k < syms.len();
    let c2 = if scan_on {
        c1.update(k + 1, scan_set(syms[k], a))
    } else {
        c1
    };
    let b = complete_set(c2, a);
    let r = c2.update(k, b);

    lemma_predict_acc_props(g, n, k, chart[k], chart[k], chart[k].len() as int);
    if scan_on {
        lemma_scan_acc_props(g, n, k, syms[k], a, Seq::empty(), a.len() as int);
    }
    assert forall|p: int, x: StateView| 0 <= p < c2.len() && #[trigger] c2[p].contains(x)
        implies valid_state(g, n, x) && x.origin <= p by {
        if p == k {
            assert(a.contains(x));
        } else if scan_on && p == k + 1 {
            assert(scan_set(syms[k], a).contains(x));
        } else {
            assert(chart[p].contains(x));
        }
    }
    lemma_complete_acc_props(g, n, k, c2, a, a, a.len() as int);
    lemma_prefix_transitive(chart[k], a, b);
    assert forall|i: int| 0 <= i < r.len() implies (#[trigger] r[i]).no_duplicates() by {
        if i == k {
        } else if scan_on && i == k + 1 {
        } else {
            assert(r[i] == chart[i]);
        }
    }
    assert forall|i: int, x: StateView| 0 <= i < r.len() && #[trigger] r[i].contains(x)
        implies valid_state(g, n, x) && x.origin <= i by {
        if i == k {
            assert(b.contains(x));
        } else if scan_on && i == k + 1 {
            assert(scan_set(syms[k], a).contains(x));
        } else {
            assert(chart[i].contains(x));
        }
    }
}

/// A round at an exhausted position changes nothing: with set `k` empty and
/// set `k + 1` empty, every rule is a no-op.
pub proof fn lemma_round_empty(
    g: GrammarView,
    syms: Seq<Seq<char>>,
    chart: Seq<Seq<StateView>>,
    k: int,
)
    requires
        0 <= k < chart.len(),
        chart[k].len() == 0,
        k + 1 < chart.len() && k < syms.len() ==> chart[k + 1].len() == 0,
    ensures
        round(g, syms, chart, k) == chart,
{
    let a = predict_set(g, k, chart[k]);
    assert(a == chart[k]);
    let c1 = chart.update(k, a);
    assert(c1 =~= chart);
    let scan_on = k + 1 < chart.len() && k < syms.len();
    if scan_on {
        assert(scan_set(syms[k], a) =~= chart[k + 1]);
        assert(c1.update(k + 1, scan_set(syms[k], a)) =~= chart);
    }
    let b = complete_set(chart, a);
    assert(b == a);
    assert(chart.update(k, b) =~= chart);
    assert(round(g, syms, chart, k) =~= chart);
}

/// Once a round leaves set `k` unchanged, the position has reached its
/// fixed point: a further round changes nothing at all.
pub proof fn lemma_round_stable(
    g: GrammarView,
    syms: Seq<Seq<char>>,
    chart: Seq<Seq<StateView>>,
    k: int,
)
    requires
        0 <= k < chart.len(),
        round(g, syms, chart, k)[k] == chart[k],
    ensures
        round(g, syms, round(g, syms, chart, k), k) == round(g, syms, chart, k),
{
    let a = predict_set(g, k, chart[k]);
    let c1 = chart.update(k, a);
    let scan_on = k + 1 < chart.len() && k < syms.len();
    let c2 = if scan_on {
        c1.update(k + 1, scan_set(syms[k], a))
    } else {
        c1
    };
    let b = complete_set(c2, a);
    let r = c2.update(k, b);
    assert(r[k] == b);

    lemma_predict_acc_prefix(g, k, chart[k], chart[k], chart[k].len() as int);
    lemma_complete_acc_prefix(c2, a, a, a.len() as int);
    lemma_prefix_same_len(a, b);
    lemma_prefix_same_len(chart[k], a);

    // The chart after the round equals the chart Complete ran against.
    assert(r =~= c2);

    let a2 = predict_set(g, k, r[k]);
    assert(a2 == a);
    let c1b = r.update(k, a2);
    assert(c1b =~= r);
    let c2b = if scan_on {
        c1b.update(k + 1, scan_set(syms[k], a2))
    } else {
        c1b
    };
    if scan_on {
        assert(r[k + 1] == scan_set(syms[k], a));
        assert(c2b =~= r);
    }
    assert(c2b == r && r == c2);
    let b2 = complete_set(c2b, a2);
    assert(b2 == b);
    assert(round(g, syms, r, k) == c2b.update(k, b2));
    assert(c2b.update(k, b2) =~= r);
}

/// Unrolling one round from the back: `j + 1` rounds are one round after
/// `j` rounds.
pub proof fn lemma_rounds_snoc(
    g: GrammarView,
    syms: Seq<Seq<char>>,
    chart: Seq<Seq<StateView>>,
    k: int,
    j: nat,
)
    ensures
        rounds(g, syms, chart, k, j + 1) == round(g, syms, rounds(g, syms, chart, k, j), k),
    decreases j,
{
    if j > 0 {
        lemma_rounds_snoc(g, syms, round(g, syms, chart, k), k, (j - 1) as nat);
    } else {
        assert(rounds(g, syms, chart, k, 1) == rounds(g, syms, round(g, syms, chart, k), k, 0));
        assert(rounds(g, syms, round(g, syms, chart, k), k, 0) == round(g, syms, chart, k));
    }
}

/// A chart that a round no longer changes is unchanged by any number of
/// rounds.
pub proof fn lemma_rounds_fixpoint(
    g: GrammarView,
    syms: Seq<Seq<char>>,
    chart: Seq<Seq<StateView>>,
    k: int,
    m: nat,
)
    requires
        round(g, syms, chart, k) == chart,
    ensures
        rounds(g, syms, chart, k, m) == chart,
    decreases m,
{
    if m > 0 {
        lemma_rounds_fixpoint(g, syms, chart, k, (m - 1) as nat);
    }
}

/// Once `j` rounds reach a fixed point, any larger round count gives the
/// same chart.
pub proof fn lemma_rounds_absorb(
    g: GrammarView,
    syms: Seq<Seq<char>>,
    chart: Seq<Seq<StateView>>,
    k: int,
    j: nat,
    m: nat,
)
    requires
        j <= m,
        round(g, syms, rounds(g, syms, chart, k, j), k) == rounds(g, syms, chart, k, j),
    ensures
        rounds(g, syms, chart, k, m) == rounds(g, syms, chart, k, j),
    decreases j,
{
    if j == 0 {
        lemma_rounds_fixpoint(g, syms, chart, k, m);
    } else {
        lemma_rounds_absorb(
            g,
            syms,
            round(g, syms, chart, k),
            k,
            (j - 1) as nat,
            (m - 1) as nat,
        );
    }
}

// ---------------------------------------------------------------------------
// The universe bounds every set
// ---------------------------------------------------------------------------

/// The origin enumeration holds every origin below `m`.
pub proof fn lemma_states_origins_contains(
    lhs: TermView,
    rhs: Seq<TermView>,
    dot: int,
    m: int,
    o: int,
)
    requires
        0 <= o < m,
    ensures
        states_origins(lhs, rhs, dot, m).contains(
            StateView { origin: o, prod: ProdView { lhs, rhs, dot } },
        ),
    decreases m,
{
    let st = StateView { origin: o, prod: ProdView { lhs, rhs, dot } };
    if o == m - 1 {
        assert(states_origins(lhs, rhs, dot, m).last() == st);
    } else {
        lemma_states_origins_contains(lhs, rhs, dot, m - 1, o);
        let pre = states_origins(lhs, rhs, dot, m - 1);
        let j = choose|j: int| 0 <= j < pre.len() && pre[j] == st;
        assert(states_origins(lhs, rhs, dot, m)[j] == st);
    }
}

/// The dot enumeration holds every dot below `d` at every origin below `m`.
pub proof fn lemma_states_dots_contains(
    lhs: TermView,
    rhs: Seq<TermView>,
    d: int,
    m: int,
    dot: int,
    o: int,
)
    requires
        0 <= dot < d,
        0 <= o < m,
    ensures
        states_dots(lhs, rhs, d, m).contains(
            StateView { origin: o, prod: ProdView { lhs, rhs, dot } },
        ),
    decreases d,
{
    let st = StateView { origin: o, prod: ProdView { lhs, rhs, dot } };
    if dot == d - 1 {
        lemma_states_origins_contains(lhs, rhs, dot, m, o);
        let tail = states_origins(lhs, rhs, d - 1, m);
        let j = choose|j: int| 0 <= j < tail.len() && tail[j] == st;
        assert(states_dots(lhs, rhs, d, m)[states_dots(lhs, rhs, d - 1, m).len() + j] == st);
    } else {
        lemma_states_dots_contains(lhs, rhs, d - 1, m, dot, o);
        let pre = states_dots(lhs, rhs, d - 1, m);
        let j = choose|j: int| 0 <= j < pre.len() && pre[j] == st;
        assert(states_dots(lhs, rhs, d, m)[j] == st);
    }
}

/// The universe enumeration holds every item over its first `i`
/// alternatives.
pub proof fn lemma_universe_prefix_contains(
    alts: Seq<(TermView, Seq<TermView>)>,
    i: int,
    m: int,
    ai: int,
    dot: int,
    o: int,
)
    requires
        0 <= ai < i,
        0 <= dot <= alts[ai].1.len(),
        0 <= o < m,
    ensures
        universe_prefix(alts, i, m).contains(
            StateView { origin: o, prod: ProdView { lhs: alts[ai].0, rhs: alts[ai].1, dot } },
        ),
    decreases i,
{
    let st = StateView { origin: o, prod: ProdView { lhs: alts[ai].0, rhs: alts[ai].1, dot } };
    if ai == i - 1 {
        lemma_states_dots_contains(alts[ai].0, alts[ai].1, alts[ai].1.len() + 1int, m, dot, o);
        let tail = states_dots(alts[ai].0, alts[ai].1, alts[ai].1.len() + 1int, m);
        let j = choose|j: int| 0 <= j < tail.len() && tail[j] == st;
        assert(universe_prefix(alts, i, m)[universe_prefix(alts, i - 1, m).len() + j] == st);
    } else {
        lemma_universe_prefix_contains(alts, i - 1, m, ai, dot, o);
        let pre = universe_prefix(alts, i - 1, m);
        let j = choose|j: int| 0 <= j < pre.len() && pre[j] == st;
        assert(universe_prefix(alts, i, m)[j] == st);
    }
}

/// Every valid item stands in the universe.
pub proof fn lemma_universe_contains(g: GrammarView, n: int, st: StateView)
    requires
        valid_state(g, n, st),
    ensures
        universe(g, n).contains(st),
{
    let alts = grammar_alts(g);
    let ai = choose|ai: int| 0 <= ai < alts.len() && alts[ai] == (st.prod.lhs, st.prod.rhs);
    lemma_universe_prefix_contains(alts, alts.len() as int, n + 1, ai, st.prod.dot, st.origin);
}

/// A duplicate-free set of valid items can hold no more items than the
/// universe: the count that caps every fixed-point iteration.
pub proof fn lemma_valid_set_bounded(g: GrammarView, n: int, s: Seq<StateView>)
    requires
        s.no_duplicates(),
        forall|x: StateView| #[trigger] s.contains(x) ==> valid_state(g, n, x),
    ensures
        s.len() <= universe(g, n).len(),
{
    broadcast use vstd::seq_lib::seq_to_set_is_finite;

    let u = universe(g, n);
    s.unique_seq_to_set();
    u.lemma_cardinality_of_set();
    assert forall|x: StateView| s.to_set().contains(x) implies u.to_set().contains(x) by {
        assert(s.contains(x));
        lemma_universe_contains(g, n, x);
    }
    assert(s.to_set().subset_of(u.to_set()));
    vstd::set_lib::lemma_len_subset(s.to_set(), u.to_set());
}

// ---------------------------------------------------------------------------
// The staged chart is well formed
// ---------------------------------------------------------------------------

/// The start set is duplicate-free and holds exactly origin-0 items dotted
/// at the start of alternatives of the first production.
pub proof fn lemma_start_states_props(g: GrammarView, n: int)
    requires
        g.len() > 0,
        n >= 0,
    ensures
        start_states(g).no_duplicates(),
        forall|x: StateView|
            #[trigger] start_states(g).contains(x) ==> valid_state(g, n, x) && x.origin == 0
                && x.prod.dot == 0 && x.prod.lhs == g[0].lhs,
{
    let xs = prod_states(g[0], 0);
    lemma_insert_all_no_duplicates(Seq::empty(), xs);
    lemma_insert_all_elems(Seq::empty(), xs);
    assert forall|x: StateView| #[trigger] start_states(g).contains(x)
        implies valid_state(g, n, x) && x.origin == 0 && x.prod.dot == 0 && x.prod.lhs
        == g[0].lhs by {
        assert(xs.contains(x));
        let ei = choose|ei: int| 0 <= ei < xs.len() && xs[ei] == x;
        lemma_alts_prefix_contains(g, 0, ei, g.len() as int);
    }
}

/// Iterated rounds preserve well-formedness and write only sets `k` and
/// `k + 1`.
pub proof fn lemma_rounds_props(
    g: GrammarView,
    n: int,
    syms: Seq<Seq<char>>,
    chart: Seq<Seq<StateView>>,
    k: int,
    f: nat,
)
    requires
        chart_wf(g, n, chart),
        syms.len() == n,
        0 <= k <= n,
    ensures
        chart_wf(g, n, rounds(g, syms, chart, k, f)),
        forall|i: int|
            0 <= i < chart.len() && i != k && i != k + 1 ==> rounds(g, syms, chart, k, f)[i]
                == chart[i],
    decreases f,
{
    if f > 0 {
        lemma_round_props(g, n, syms, chart, k);
        lemma_rounds_props(g, n, syms, round(g, syms, chart, k), k, (f - 1) as nat);
    }
}

/// The staged chart is well formed after any number of processed positions,
/// and its sets beyond the last processed position are still empty.
pub proof fn lemma_chart_after_props(g: GrammarView, syms: Seq<Seq<char>>, k: int)
    requires
        g.len() > 0,
        0 <= k <= syms.len() + 1,
    ensures
        chart_wf(g, syms.len() as int, chart_after(g, syms, k)),
        tail_empty(chart_after(g, syms, k), k),
    decreases k,
{
    let n = syms.len() as int;
    if k == 0 {
        lemma_start_states_props(g, n);
        let c = chart_init(g, n);
        assert forall|i: int, x: StateView| 0 <= i < c.len() && #[trigger] c[i].contains(x)
            implies valid_state(g, n, x) && x.origin <= i by {
            if i == 0 {
                assert(start_states(g).contains(x));
            } else {
                assert(c[i].len() == 0);
            }
        }
        assert forall|i: int| 0 <= i < c.len() implies (#[trigger] c[i]).no_duplicates() by {
            if i != 0 {
                assert(c[i].len() == 0);
            }
        }
    } else {
        lemma_chart_after_props(g, syms, k - 1);
        let prev = chart_after(g, syms, k - 1);
        lemma_rounds_props(g, n, syms, prev, k - 1, fuel(g, n));
        let cur = chart_after(g, syms, k);
        assert forall|j: int| k < j < cur.len() implies (#[trigger] cur[j]).len() == 0 by {
            assert(cur[j] == prev[j]);
        }
    }
}

// ---------------------------------------------------------------------------
// Searching for witnesses
// ---------------------------------------------------------------------------

/// When nothing matches before position `i` and position `i` matches, the
/// search returns the item at `i`.
pub proof fn lemma_find_witness_at(finals: Seq<StateView>, s: StateView, i: int)
    requires
        0 <= i < finals.len(),
        forall|j: int| 0 <= j < i ==> !witness_matches(#[trigger] finals[j], s),
        witness_matches(finals[i], s),
    ensures
        find_witness(finals, s) == Some(finals[i]),
    decreases i,
{
    if i > 0 {
        lemma_find_witness_at(finals.drop_first(), s, i - 1);
        assert(finals.drop_first()[i - 1] == finals[i]);
    }
}

/// When nothing matches at all, the search returns nothing.
pub proof fn lemma_find_witness_none(finals: Seq<StateView>, s: StateView)
    requires
        forall|j: int| 0 <= j < finals.len() ==> !witness_matches(#[trigger] finals[j], s),
    ensures
        find_witness(finals, s) is None,
    decreases finals.len(),
{
    if finals.len() > 0 {
        lemma_find_witness_none(finals.drop_first(), s);
    }
}

/// Every witness stands in the final set.
pub proof fn lemma_witnesses_prefix_elems(starts: Seq<StateView>, finals: Seq<StateView>, i: int)
    requires
        0 <= i <= starts.len(),
    ensures
        forall|x: StateView|
            #[trigger] witnesses_prefix(starts, finals, i).contains(x) ==> finals.contains(x)
                && x.origin == 0 && x.prod.dot == x.prod.rhs.len(),
    decreases i,
{
    if i > 0 {
        lemma_witnesses_prefix_elems(starts, finals, i - 1);
        assert forall|x: StateView| #[trigger] witnesses_prefix(starts, finals, i).contains(x)
            implies finals.contains(x) && x.origin == 0 && x.prod.dot == x.prod.rhs.len() by {
            let pre = witnesses_prefix(starts, finals, i - 1);
            let whole = witnesses_prefix(starts, finals, i);
            let j = choose|j: int| 0 <= j < whole.len() && whole[j] == x;
            if j < pre.len() {
                assert(pre.contains(x));
            } else {
                let f = find_witness(finals, starts[i - 1]);
                assert(f == Some(x));
                lemma_find_witness_found(finals, starts[i - 1]);
            }
        }
    }
}

/// What the search returns, it found in the set, and it matches.
pub proof fn lemma_find_witness_found(finals: Seq<StateView>, s: StateView)
    ensures
        find_witness(finals, s) matches Some(f) ==> finals.contains(f) && witness_matches(f, s),
    decreases finals.len(),
{
    if finals.len() > 0 {
        if !witness_matches(finals[0], s) {
            lemma_find_witness_found(finals.drop_first(), s);
            if let Some(f) = find_witness(finals.drop_first(), s) {
                let j = choose|j: int|
                    0 <= j < finals.drop_first().len() && finals.drop_first()[j] == f;
                assert(finals[j + 1] == f);
            }
        }
    }
}

} // verus!
