//! The Earley recognizer: the fixed-point loop of Predict, Scan and
//! Complete over the chart.

use vstd::prelude::*;
use crate::error::Error;
use crate::grammar::{parse_grammar, parsed_grammar, Grammar, GrammarView};
use crate::istate::{IState, StateView};
use crate::model::{
    chart_after, complete_acc, complete_new, complete_set, insert_all, predict_acc, predict_new,
    predict_set, predictions_prefix, prod_states, round, rounds, scan_acc, scan_new, scan_set,
    spec_accepted, spec_chart, spec_witnesses, start_states, witnesses_prefix,
};
use crate::outcome::{EarleyAccepted, EarleyOutcome};
use crate::prod::EarleyProd;
use crate::sets::StateSet;
use crate::term::Term;

verus! {

/// What the recognizer promises of its outcome: an accepted parse carries
/// exactly the model's chart, witnesses and symbols, and rejection happens
/// exactly when the model has no witness.
pub open spec fn recognized(o: EarleyOutcome, g: GrammarView, syms: Seq<Seq<char>>) -> bool {
    match o {
        EarleyOutcome::Accepted(acc) => {
            &&& spec_accepted(g, syms)
            &&& acc.chart.deep_view() == spec_chart(g, syms)
            &&& acc.accepted_states.deep_view() == spec_witnesses(g, syms)
            &&& acc.input.deep_view() == syms
            &&& acc.wf()
        },
        EarleyOutcome::Rejected => !spec_accepted(g, syms),
    }
}

/// Holds the raw input and the parsed grammar for one parse.
pub struct EarleyParser {
    input: String,
    grammar: Grammar,
}

impl EarleyParser {
    /// The mathematical value of the grammar the parser runs.
    pub closed spec fn grammar_view(&self) -> GrammarView {
        self.grammar.deep_view()
    }

    /// The characters of the raw input.
    pub closed spec fn input_view(&self) -> Seq<char> {
        self.input@
    }

    /// Parses the grammar text and stores it with the input.  Fails exactly
    /// when the grammar text does not parse.
    pub fn new(grammar: &str, input: &str) -> (r: Result<EarleyParser, Error>)
        ensures
            r is Ok ==> (parsed_grammar(grammar@) matches Ok(gv) && r->Ok_0.grammar_view() == gv
                && r->Ok_0.input_view() == input@),
            r is Err ==> (r->Err_0 matches Error::GrammarError(m) && (parsed_grammar(grammar@)
                matches Err(mv) && m@ == mv)),
    {
        match parse_grammar(grammar) {
            Ok(g) => Ok(EarleyParser { input: String::from_str(input), grammar: g }),
            Err(e) => Err(e),
        }
    }

    /// The initial item set: one item per alternative of the first
    /// production, or the grammar error when there is no production.
    fn get_start_states(&self) -> (r: Result<StateSet, Error>)
        ensures
            (r is Err) == (self.grammar_view().len() == 0),
            r matches Err(e) ==> e matches Error::GrammarError(m)
                && m@ == "No start state candidate found in grammar!"@,
            r matches Ok(s) ==> s.deep_view() == start_states(self.grammar_view()) && s.wf(),
    {
        let ghost gv = self.grammar_view();
        if self.grammar.productions.len() == 0 {
            return Err(
                Error::GrammarError(String::from_str("No start state candidate found in grammar!")),
            );
        }
        let p = &self.grammar.productions[0];
        let ghost target = prod_states(gv[0], 0);
        proof {
            assert(gv[0] == self.grammar.productions@[0].deep_view());
            assert(target.len() == p.rhs@.len());
        }
        let mut set = StateSet::new();
        proof {
            assert(target.take(0) =~= Seq::<StateView>::empty());
        }
        let mut e: usize = 0;
        while e < p.rhs.len()
            invariant
                e <= p.rhs@.len(),
                gv == self.grammar_view(),
                gv.len() > 0,
                p == &self.grammar.productions[0],
                gv[0] == self.grammar.productions@[0].deep_view(),
                target == prod_states(gv[0], 0),
                target.len() == p.rhs@.len(),
                set.wf(),
                set.deep_view() == insert_all(Seq::<StateView>::empty(), target.take(e as int)),
            decreases p.rhs@.len() - e,
        {
            let terms = crate::term::duplicate_terms(&p.rhs[e].terms);
            let prod = EarleyProd::new(p.lhs.duplicate(), terms, 0);
            let st = IState::new(prod, 0);
            let ghost acc = set.deep_view();
            proof {
                assert(st.deep_view() == target[e as int]);
                assert(target.take(e as int + 1) =~= target.take(e as int) + seq![
                    target[e as int],
                ]);
                crate::model::lemma_insert_all_app(
                    Seq::<StateView>::empty(),
                    target.take(e as int),
                    seq![target[e as int]],
                );
                crate::model::lemma_insert_all_one(acc, target[e as int]);
            }
            set.insert(st);
            e += 1;
        }
        proof {
            assert(target.take(target.len() as int) =~= target);
        }
        Ok(set)
    }

    /// Prediction: for every item of the set whose next term is a
    /// nonterminal, inserts one fresh item per alternative of that
    /// nonterminal, dotted at the start, with origin `k`.
    fn earley_predict(&self, k: usize, state_set: &StateSet) -> (r: StateSet)
        requires
            state_set.wf(),
        ensures
            r.deep_view() == predict_set(self.grammar_view(), k as int, state_set.deep_view()),
            r.wf(),
    {
        let ghost gv = self.grammar_view();
        let ghost input = state_set.deep_view();
        let mut ret = state_set.duplicate();
        let mut i: usize = 0;
        proof {
            assert(gv.len() == self.grammar.productions@.len());
        }
        while i < state_set.len()
            invariant
                state_set.wf(),
                state_set.deep_view() == input,
                gv == self.grammar_view(),
                gv.len() == self.grammar.productions@.len(),
                i <= input.len(),
                ret.wf(),
                ret.deep_view() == predict_acc(gv, k as int, input, input, i as int),
            decreases input.len() - i,
        {
            let st = state_set.get(i);
            let ghost prev = ret.deep_view();
            let next = st.prod.get_next();
            let mut handled = false;
            if let Some(term) = next {
                if let Term::Nonterminal(_) = term {
                    handled = true;
                    let ghost nt = term.deep_view();
                    proof {
                        assert(input[i as int].prod.next() == Some(nt));
                        assert(predictions_prefix(gv, k as int, nt, 0)
                            =~= Seq::<StateView>::empty());
                        assert(insert_all(prev, predictions_prefix(gv, k as int, nt, 0)) == prev);
                    }
                    let mut p: usize = 0;
                    while p < self.grammar.productions.len()
                        invariant
                            gv == self.grammar_view(),
                            gv.len() == self.grammar.productions@.len(),
                            p <= gv.len(),
                            term.deep_view() == nt,
                            ret.wf(),
                            ret.deep_view() == insert_all(
                                prev,
                                predictions_prefix(gv, k as int, nt, p as int),
                            ),
                        decreases gv.len() - p,
                    {
                        let production = &self.grammar.productions[p];
                        proof {
                            assert(gv[p as int] == self.grammar.productions@[p as int].deep_view());
                        }
                        if production.lhs.equals(term) {
                            let ghost pstates = prod_states(gv[p as int], k as int);
                            let ghost base = ret.deep_view();
                            proof {
                                assert(pstates.len() == production.rhs@.len());
                                assert(pstates.take(0) =~= Seq::<StateView>::empty());
                                assert(insert_all(base, pstates.take(0)) == base);
                            }
                            let mut e: usize = 0;
                            while e < production.rhs.len()
                                invariant
                                    e <= production.rhs@.len(),
                                    gv == self.grammar_view(),
                                    production == &self.grammar.productions[p as int],
                                    gv[p as int] == self.grammar.productions@[
                                        p as int
                                    ].deep_view(),
                                    pstates == prod_states(gv[p as int], k as int),
                                    pstates.len() == production.rhs@.len(),
                                    ret.wf(),
                                    ret.deep_view() == insert_all(base, pstates.take(e as int)),
                                decreases production.rhs@.len() - e,
                            {
                                let terms = crate::term::duplicate_terms(&production.rhs[e].terms);
                                let prod = EarleyProd::new(production.lhs.duplicate(), terms, 0);
                                let newstate = IState::new(prod, k);
                                let ghost acc = ret.deep_view();
                                proof {
                                    assert(newstate.deep_view() == pstates[e as int]);
                                    assert(pstates.take(e as int + 1) =~= pstates.take(e as int)
                                        + seq![pstates[e as int]]);
                                    crate::model::lemma_insert_all_app(
                                        base,
                                        pstates.take(e as int),
                                        seq![pstates[e as int]],
                                    );
                                    crate::model::lemma_insert_all_one(acc, pstates[e as int]);
                                }
                                ret.insert(newstate);
                                e += 1;
                            }
                            proof {
                                assert(pstates.take(pstates.len() as int) =~= pstates);
                                assert(gv[p as int].lhs == nt);
                                assert(predictions_prefix(gv, k as int, nt, p as int + 1)
                                    == predictions_prefix(gv, k as int, nt, p as int) + pstates);
                                crate::model::lemma_insert_all_app(
                                    prev,
                                    predictions_prefix(gv, k as int, nt, p as int),
                                    pstates,
                                );
                            }
                        } else {
                            proof {
                                assert(gv[p as int].lhs != nt);
                                assert(predictions_prefix(gv, k as int, nt, p as int + 1)
                                    =~= predictions_prefix(gv, k as int, nt, p as int));
                            }
                        }
                        p += 1;
                    }
                    proof {
                        assert(predict_new(gv, k as int, input[i as int]) == predictions_prefix(
                            gv,
                            k as int,
                            nt,
                            gv.len() as int,
                        ));
                        assert(predict_acc(gv, k as int, input, input, i as int + 1) == insert_all(
                            prev,
                            predict_new(gv, k as int, input[i as int]),
                        ));
                    }
                }
            }
            if !handled {
                proof {
                    assert(predict_new(gv, k as int, input[i as int])
                        =~= Seq::<StateView>::empty());
                    assert(insert_all(prev, Seq::<StateView>::empty()) == prev);
                    assert(predict_acc(gv, k as int, input, input, i as int + 1) == prev);
                }
            }
            i += 1;
        }
        ret
    }

    /// Scanning: for every item of the set whose next term is a terminal
    /// equal to the symbol at the current position, inserts the item with
    /// its dot advanced into a fresh set for the next position.
    fn earley_scan(&self, symbol: String, state_set: &StateSet) -> (r: StateSet)
        requires
            state_set.wf(),
        ensures
            r.deep_view() == scan_set(symbol@, state_set.deep_view()),
            r.wf(),
    {
        let ghost input = state_set.deep_view();
        let mut ret = StateSet::new();
        let mut i: usize = 0;
        while i < state_set.len()
            invariant
                state_set.wf(),
                state_set.deep_view() == input,
                i <= input.len(),
                ret.wf(),
                ret.deep_view() == scan_acc(symbol@, input, Seq::<StateView>::empty(), i as int),
            decreases input.len() - i,
        {
            let st = state_set.get(i);
            let ghost prev = ret.deep_view();
            let next = st.prod.get_next();
            let mut handled = false;
            if let Some(term) = next {
                if let Term::Terminal(s) = term {
                    if *s == symbol {
                        handled = true;
                        proof {
                            assert(st.prod.deep_view().rhs.len() == st.prod.rhs@.len());
                            assert(st.prod.deep_view().next() is Some);
                            assert(st.prod.rhs@.len() == vstd::std_specs::vec::spec_vec_len(
                                &st.prod.rhs,
                            ));
                        }
                        let terms = crate::term::duplicate_terms(&st.prod.rhs);
                        let prod = EarleyProd::new(st.prod.lhs.duplicate(), terms, st.prod.dot + 1);
                        let advanced = IState::new(prod, st.origin);
                        proof {
                            assert(advanced.deep_view() == crate::model::advanced_state(
                                input[i as int],
                            ));
                            assert(scan_new(symbol@, input[i as int]) == seq![
                                crate::model::advanced_state(input[i as int]),
                            ]);
                            crate::model::lemma_insert_all_one(prev, advanced.deep_view());
                        }
                        ret.insert(advanced);
                    }
                }
            }
            if !handled {
                proof {
                    assert(scan_new(symbol@, input[i as int]) =~= Seq::<StateView>::empty());
                    assert(insert_all(prev, Seq::<StateView>::empty()) == prev);
                }
            }
            i += 1;
        }
        ret
    }

    /// Completion: for every completed item of the set, inserts the
    /// advanced copy of each item of its origin set that was awaiting its
    /// left-hand side, completing against the chart as it stands.
    fn earley_complete(&self, state_set: &StateSet, chart: &Vec<StateSet>) -> (r: StateSet)
        requires
            state_set.wf(),
            forall|i: int| 0 <= i < chart@.len() ==> (#[trigger] chart@[i]).wf(),
        ensures
            r.deep_view() == complete_set(chart.deep_view(), state_set.deep_view()),
            r.wf(),
    {
        let ghost cv = chart.deep_view();
        let ghost input = state_set.deep_view();
        let mut ret = state_set.duplicate();
        let mut i: usize = 0;
        proof {
            assert(cv.len() == chart@.len());
        }
        while i < state_set.len()
            invariant
                state_set.wf(),
                state_set.deep_view() == input,
                cv == chart.deep_view(),
                cv.len() == chart@.len(),
                forall|j: int| 0 <= j < chart@.len() ==> (#[trigger] chart@[j]).wf(),
                i <= input.len(),
                ret.wf(),
                ret.deep_view() == complete_acc(cv, input, input, i as int),
            decreases input.len() - i,
        {
            let st = state_set.get(i);
            let ghost prev = ret.deep_view();
            let is_complete = st.prod.get_next().is_none();
            if is_complete && st.origin < chart.len() {
                let origin_set = &chart[st.origin];
                let ghost set = cv[st.origin as int];
                let ghost lhs = input[i as int].prod.lhs;
                proof {
                    assert(origin_set.deep_view() == set);
                    assert(crate::model::completions_prefix(set, lhs, 0)
                        =~= Seq::<StateView>::empty());
                    assert(insert_all(prev, crate::model::completions_prefix(set, lhs, 0))
                        == prev);
                }
                let mut j: usize = 0;
                while j < origin_set.len()
                    invariant
                        origin_set.wf(),
                        origin_set.deep_view() == set,
                        j <= set.len(),
                        st.deep_view() == input[i as int],
                        lhs == input[i as int].prod.lhs,
                        ret.wf(),
                        ret.deep_view() == insert_all(
                            prev,
                            crate::model::completions_prefix(set, lhs, j as int),
                        ),
                    decreases set.len() - j,
                {
                    let cand = origin_set.get(j);
                    let ghost before = ret.deep_view();
                    let mut advanced_here = false;
                    if let Some(t) = cand.prod.get_next() {
                        if t.equals(&st.prod.lhs) {
                            advanced_here = true;
                            proof {
                                assert(cand.prod.deep_view().rhs.len() == cand.prod.rhs@.len());
                                assert(cand.prod.deep_view().next() is Some);
                                assert(cand.prod.rhs@.len() == vstd::std_specs::vec::spec_vec_len(
                                    &cand.prod.rhs,
                                ));
                            }
                            let terms = crate::term::duplicate_terms(&cand.prod.rhs);
                            let prod = EarleyProd::new(
                                cand.prod.lhs.duplicate(),
                                terms,
                                cand.prod.dot + 1,
                            );
                            let advanced = IState::new(prod, cand.origin);
                            proof {
                                assert(set[j as int].prod.next() == Some(lhs));
                                assert(advanced.deep_view() == crate::model::advanced_state(
                                    set[j as int],
                                ));
                                assert(crate::model::completions_prefix(set, lhs, j as int + 1)
                                    == crate::model::completions_prefix(set, lhs, j as int)
                                    + seq![crate::model::advanced_state(set[j as int])]);
                                crate::model::lemma_insert_all_app(
                                    prev,
                                    crate::model::completions_prefix(set, lhs, j as int),
                                    seq![crate::model::advanced_state(set[j as int])],
                                );
                                crate::model::lemma_insert_all_one(
                                    before,
                                    crate::model::advanced_state(set[j as int]),
                                );
                            }
                            ret.insert(advanced);
                        }
                    }
                    if !advanced_here {
                        proof {
                            assert(set[j as int].prod.next() != Some(lhs));
                            assert(crate::model::completions_prefix(set, lhs, j as int + 1)
                                =~= crate::model::completions_prefix(set, lhs, j as int));
                        }
                    }
                    j += 1;
                }
                proof {
                    assert(complete_new(cv, input[i as int]) == crate::model::completions_prefix(
                        set,
                        lhs,
                        set.len() as int,
                    ));
                    assert(complete_acc(cv, input, input, i as int + 1) == insert_all(
                        prev,
                        complete_new(cv, input[i as int]),
                    ));
                }
            } else {
                proof {
                    assert(complete_new(cv, input[i as int]) =~= Seq::<StateView>::empty());
                    assert(insert_all(prev, Seq::<StateView>::empty()) == prev);
                }
            }
            i += 1;
        }
        ret
    }

    /// The witnesses of acceptance: for each start item, the first item of
    /// the final chart set that completes it over the whole input; `None`
    /// when no start item is completed.
    fn get_accepted(
        &self,
        start_states: &StateSet,
        final_chart_states: Option<&StateSet>,
        input_len: usize,
        chart_len: usize,
    ) -> (r: Option<Vec<IState>>)
        requires
            start_states.wf(),
            final_chart_states matches Some(f) ==> f.wf(),
        ensures
            ({
                let w = match final_chart_states {
                    Some(f) => witnesses_prefix(
                        start_states.deep_view(),
                        f.deep_view(),
                        start_states.deep_view().len() as int,
                    ),
                    None => Seq::<StateView>::empty(),
                };
                &&& (r is Some) == (input_len + 1 == chart_len && final_chart_states is Some
                    && w.len() > 0)
                &&& (r matches Some(v) ==> v.deep_view() == w)
            }),
    {
        if chart_len == 0 || input_len != chart_len - 1 {
            return None;
        }
        match final_chart_states {
            Some(final_states) => {
                let ghost starts = start_states.deep_view();
                let ghost finals = final_states.deep_view();
                let mut completed: Vec<IState> = Vec::new();
                let mut i: usize = 0;
                proof {
                    assert(completed.deep_view() =~= witnesses_prefix(starts, finals, 0));
                }
                while i < start_states.len()
                    invariant
                        start_states.wf(),
                        final_states.wf(),
                        start_states.deep_view() == starts,
                        final_states.deep_view() == finals,
                        i <= starts.len(),
                        completed.deep_view().len() == completed@.len(),
                        completed.deep_view() == witnesses_prefix(starts, finals, i as int),
                    decreases starts.len() - i,
                {
                    let start_state = start_states.get(i);
                    let ghost prev = completed.deep_view();
                    match Self::find_final_for(start_state, final_states) {
                        Some(f) => {
                            let ghost fv = f.deep_view();
                            completed.push(f);
                            proof {
                                assert(completed.deep_view() =~= prev + seq![fv]);
                            }
                        },
                        None => {
                            proof {
                                assert(witnesses_prefix(starts, finals, i as int + 1) =~= prev);
                            }
                        },
                    }
                    i += 1;
                }
                if completed.len() == 0 {
                    None
                } else {
                    Some(completed)
                }
            },
            _ => None,
        }
    }

    /// Runs recognition to the fixed point at every chart position, left to
    /// right, and decides acceptance.  The chart, the witnesses and the
    /// tokenized input of an accepted parse are exactly the values of the
    /// mathematical model, so the outcome is a function of grammar, input
    /// and delimiter alone.  Fails exactly on the empty grammar.
    #[verifier::loop_isolation(false)]
    pub fn earley_parse(self, split_on: Option<char>) -> (r: Result<EarleyOutcome, Error>)
        ensures
            (r is Err) == (self.grammar_view().len() == 0),
            r matches Err(e) ==> (e matches Error::GrammarError(m) && m@
                == "No start state candidate found in grammar!"@),
            r matches Ok(o) ==> recognized(
                o,
                self.grammar_view(),
                crate::token::spec_symbols(self.input_view(), split_on),
            ),
    {
        let ghost gv = self.grammar_view();
        let start_set = match self.get_start_states() {
            Ok(s) => s,
            Err(e) => {
                return Err(e);
            },
        };
        let input_symbols = crate::token::tokenize(self.input.as_str(), split_on);
        let ghost syms = input_symbols.deep_view();
        let ghost n = syms.len() as int;
        let ghost fuel_n = crate::model::fuel(gv, n);
        proof {
            assert(syms.len() == input_symbols@.len());
        }

        let mut chart: Vec<StateSet> = Vec::new();
        let mut t: usize = 0;
        while t < input_symbols.len()
            invariant
                t <= input_symbols@.len(),
                chart@.len() == t,
                forall|i: int| 0 <= i < t ==> (#[trigger] chart.deep_view()[i]).len() == 0,
            decreases input_symbols@.len() - t,
        {
            let ghost before_init = chart.deep_view();
            let fresh = StateSet::new();
            chart.push(fresh);
            proof {
                assert forall|i: int| 0 <= i < t + 1
                    implies (#[trigger] chart.deep_view()[i]).len() == 0 by {
                    if i < t {
                        assert(before_init[i].len() == 0);
                        assert(chart.deep_view()[i] == before_init[i]);
                    }
                }
            }
            t += 1;
        }
        let ghost cpre = chart.deep_view();
        chart.push(StateSet::new());
        let ghost c0 = chart.deep_view();
        proof {
            assert(c0.len() == n + 1);
            assert(c0[n].len() == 0);
            assert(forall|i: int| 0 <= i < n ==> c0[i] == #[trigger] cpre[i]);
        }
        chart[0] = start_set.duplicate();
        proof {
            assert forall|i: int| 0 <= i < chart.deep_view().len()
                implies chart.deep_view()[i] == crate::model::chart_init(gv, n)[i] by {
                if i != 0 {
                    if i < n {
                        assert(cpre[i].len() == 0);
                        assert(c0[i] == cpre[i]);
                    }
                    assert(chart.deep_view()[i] == c0[i]);
                    assert(c0[i].len() == 0);
                    assert(chart.deep_view()[i] =~= Seq::<StateView>::empty());
                }
            }
            assert(chart.deep_view() =~= crate::model::chart_init(gv, n));
            assert(chart.deep_view() == chart_after(gv, syms, 0));
        }

        let mut k: usize = 0;
        while k < chart.len()
            invariant
                chart@.len() == n + 1,
                k <= n + 1,
                chart.deep_view() == chart_after(gv, syms, k as int),
            decreases n + 1 - k,
        {
            let ghost entry = chart.deep_view();
            proof {
                crate::model::lemma_chart_after_props(gv, syms, k as int);
                assert forall|i: int| 0 <= i < chart@.len()
                    implies (#[trigger] chart@[i]).wf() by {
                    assert(chart.deep_view()[i].no_duplicates());
                }
            }
            let mut unchanged = StateSet::new();
            let ghost mut j: nat = 0;
            proof {
                assert(unchanged.deep_view() =~= Seq::<StateView>::empty());
            }
            while !unchanged.same_as(&chart[k])
                invariant
                    chart@.len() == n + 1,
                    k < chart@.len(),
                    chart.deep_view() == rounds(gv, syms, entry, k as int, j),
                    crate::model::chart_wf(gv, n, chart.deep_view()),
                    forall|i: int| 0 <= i < chart@.len() ==> (#[trigger] chart@[i]).wf(),
                    j == 0 ==> unchanged.deep_view() == Seq::<StateView>::empty(),
                    j >= 1 ==> unchanged.deep_view() == rounds(
                        gv,
                        syms,
                        entry,
                        k as int,
                        (j - 1) as nat,
                    )[k as int],
                    j >= 1 ==> unchanged.deep_view().len() >= entry[k as int].len() + j - 1,
                    j >= 1 ==> unchanged.deep_view().is_prefix_of(
                        chart.deep_view()[k as int],
                    ),
                decreases
                        crate::model::universe(gv, n).len() + 1 - chart.deep_view()[
                            k as int
                        ].len(),
                        (if unchanged.deep_view() == chart.deep_view()[k as int] {
                            0int
                        } else {
                            1int
                        }),
            {
                let ghost before = chart.deep_view();
                let ghost old_j = j;
                let ghost old_unchanged = unchanged.deep_view();
                unchanged = chart[k].duplicate();
                let ghost a = predict_set(gv, k as int, before[k as int]);
                let predicted = self.earley_predict(k, &chart[k]);
                proof {
                    assert(predicted.deep_view() == a);
                }
                chart[k] = predicted;
                let ghost c1 = before.update(k as int, a);
                proof {
                    assert(chart.deep_view() =~= c1);
                }
                if k + 1 < chart.len() && k < input_symbols.len() {
                    let symbol = input_symbols[k].clone();
                    proof {
                        assert(symbol@ == syms[k as int]);
                    }
                    let scanned = self.earley_scan(symbol, &chart[k]);
                    proof {
                        assert(scanned.deep_view() == scan_set(syms[k as int], a));
                    }
                    chart[k + 1] = scanned;
                    proof {
                        assert(chart.deep_view() =~= c1.update(
                            k as int + 1,
                            scan_set(syms[k as int], a),
                        ));
                    }
                }
                let ghost c2 = chart.deep_view();
                proof {
                    assert(c2 == if k as int + 1 < before.len() && (k as int) < syms.len() {
                        c1.update(k as int + 1, scan_set(syms[k as int], a))
                    } else {
                        c1
                    });
                    assert(c2[k as int] == a);
                }
                let completed = self.earley_complete(&chart[k], &chart);
                proof {
                    assert(completed.deep_view() == complete_set(c2, a));
                }
                chart[k] = completed;
                proof {
                    assert(chart.deep_view() =~= c2.update(k as int, complete_set(c2, a)));
                    assert(chart.deep_view() == round(gv, syms, before, k as int));
                    crate::model::lemma_rounds_snoc(gv, syms, entry, k as int, old_j);
                    j = old_j + 1;
                    assert(chart.deep_view() == rounds(gv, syms, entry, k as int, j));
                    crate::model::lemma_round_props(gv, n, syms, before, k as int);
                    assert forall|i: int| 0 <= i < chart@.len()
                        implies (#[trigger] chart@[i]).wf() by {
                        assert(chart.deep_view()[i].no_duplicates());
                    }
                    // Growth: every pass that found the set changed had
                    // strictly lengthened it, so passes cannot outnumber the
                    // universe of items.
                    assert(unchanged.deep_view() == before[k as int]);
                    assert(before[k as int].is_prefix_of(chart.deep_view()[k as int]));
                    if old_j >= 1 {
                        assert(old_unchanged.len() >= entry[k as int].len() + old_j - 1);
                        assert(old_unchanged.is_prefix_of(before[k as int]));
                        assert(old_unchanged != before[k as int]);
                        if old_unchanged.len() == before[k as int].len() {
                            crate::model::lemma_prefix_same_len(
                                old_unchanged,
                                before[k as int],
                            );
                        }
                        assert(before[k as int].len() >= entry[k as int].len() + old_j);
                    } else {
                        assert(before == entry);
                    }
                    assert(unchanged.deep_view().len() >= entry[k as int].len() + j - 1);
                    crate::model::lemma_valid_set_bounded(gv, n, chart.deep_view()[k as int]);
                    if chart.deep_view()[k as int].len() == before[k as int].len() {
                        crate::model::lemma_prefix_same_len(
                            before[k as int],
                            chart.deep_view()[k as int],
                        );
                    }
                }
            }
            proof {
                assert(unchanged.deep_view() == chart.deep_view()[k as int]);
                if j == 0 {
                    assert(chart.deep_view() == entry);
                    assert(entry[k as int].len() == 0);
                    assert(crate::model::tail_empty(entry, k as int));
                    if k as int + 1 < entry.len() {
                        assert(entry[k as int + 1].len() == 0);
                    }
                    crate::model::lemma_round_empty(gv, syms, entry, k as int);
                    crate::model::lemma_rounds_fixpoint(gv, syms, entry, k as int, fuel_n);
                } else {
                    let prior = rounds(gv, syms, entry, k as int, (j - 1) as nat);
                    crate::model::lemma_rounds_snoc(gv, syms, entry, k as int, (j - 1) as nat);
                    assert(round(gv, syms, prior, k as int) == rounds(gv, syms, entry, k as int, j));
                    crate::model::lemma_rounds_props(gv, n, syms, entry, k as int, (j - 1) as nat);
                    assert(round(gv, syms, prior, k as int)[k as int] == prior[k as int]);
                    crate::model::lemma_round_stable(gv, syms, prior, k as int);
                    // The count of passes cannot exceed the fuel.
                    crate::model::lemma_valid_set_bounded(gv, n, prior[k as int]);
                    assert(j <= fuel_n);
                    crate::model::lemma_rounds_absorb(gv, syms, entry, k as int, j, fuel_n);
                }
                assert(chart.deep_view() == rounds(gv, syms, entry, k as int, fuel_n));
                assert(chart.deep_view() == chart_after(gv, syms, k as int + 1));
            }
            k += 1;
        }
        proof {
            assert(chart.deep_view() == spec_chart(gv, syms));
            crate::model::lemma_chart_after_props(gv, syms, n + 1);
            assert(chart@[n].wf()) by {
                assert(chart.deep_view()[n].no_duplicates());
            }
        }

        let last_index = chart.len() - 1;
        let accepted_opt = self.get_accepted(
            &start_set,
            Some(&chart[last_index]),
            input_symbols.len(),
            chart.len(),
        );
        match accepted_opt {
            Some(accepted_states) => {
                let acc = EarleyAccepted::new(chart, accepted_states, input_symbols);
                proof {
                    assert(acc.chart.deep_view() == spec_chart(gv, syms));
                    assert(acc.accepted_states.deep_view() == spec_witnesses(gv, syms));
                    crate::model::lemma_witnesses_prefix_elems(
                        start_states(gv),
                        spec_chart(gv, syms)[n],
                        start_states(gv).len() as int,
                    );
                    assert forall|w: int| 0 <= w < acc.accepted_states.deep_view().len()
                        implies {
                        let p = (#[trigger] acc.accepted_states.deep_view()[w]).prod;
                        p.wf() && p.dot == p.rhs.len()
                    } by {
                        let wv = acc.accepted_states.deep_view()[w];
                        assert(spec_witnesses(gv, syms).contains(wv));
                        assert(spec_chart(gv, syms)[n].contains(wv));
                    }
                    assert(acc.wf());
                }
                Ok(EarleyOutcome::Accepted(acc))
            },
            None => {
                proof {
                    assert(!spec_accepted(gv, syms));
                }
                Ok(EarleyOutcome::Rejected)
            },
        }
    }

    /// The first item of the final set that completes the given start item
    /// over the whole input, as a copy.
    fn find_final_for(start_state: &IState, final_states: &StateSet) -> (r: Option<IState>)
        requires
            final_states.wf(),
        ensures
            match r {
                Some(f) => crate::model::find_witness(
                    final_states.deep_view(),
                    start_state.deep_view(),
                ) == Some(f.deep_view()),
                None => crate::model::find_witness(
                    final_states.deep_view(),
                    start_state.deep_view(),
                ) is None,
            },
    {
        let ghost finals = final_states.deep_view();
        let ghost s = start_state.deep_view();
        let mut j: usize = 0;
        while j < final_states.len()
            invariant
                final_states.wf(),
                final_states.deep_view() == finals,
                start_state.deep_view() == s,
                j <= finals.len(),
                forall|m: int|
                    0 <= m < j ==> !crate::model::witness_matches(#[trigger] finals[m], s),
            decreases finals.len() - j,
        {
            let f = final_states.get(j);
            proof {
                assert(f.prod.deep_view().rhs.len() == f.prod.rhs@.len());
            }
            if f.origin == 0 && f.prod.dot == f.prod.rhs.len() && start_state.prod.lhs.equals(
                &f.prod.lhs,
            ) && crate::term::terms_equal(&start_state.prod.rhs, &f.prod.rhs) {
                proof {
                    assert(crate::model::witness_matches(finals[j as int], s));
                    crate::model::lemma_find_witness_at(finals, s, j as int);
                }
                return Some(f.duplicate());
            }
            proof {
                assert(!crate::model::witness_matches(finals[j as int], s));
            }
            j += 1;
        }
        proof {
            crate::model::lemma_find_witness_none(finals, s);
        }
        None
    }
}

} // verus!
