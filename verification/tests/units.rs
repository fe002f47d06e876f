// Unit-level behavior: tokenization, ordered sets, errors, the completed
// view, branch ordering and tree conversion.

use earley::chart::EarleyChart;
use earley::error::Error;
use earley::istate::{FlippedIState, IState};
use earley::itree::{IBranch, ITree, PPChar};
use earley::outcome::EarleyOutcome;
use earley::prod::EarleyProd;
use earley::sets::StateSet;
use earley::term::Term;
use earley::token::tokenize;
use earley::tree::{tree_equals, Branch};

fn nt(s: &str) -> Term {
    Term::Nonterminal(s.to_string())
}

fn tm(s: &str) -> Term {
    Term::Terminal(s.to_string())
}

fn st(lhs: &str, rhs: Vec<Term>, dot: usize, origin: usize) -> IState {
    IState { origin, prod: EarleyProd { lhs: nt(lhs), rhs, dot } }
}

#[test]
fn tokenize_per_character() {
    let symbols = tokenize("2+3", None);
    assert_eq!(symbols, vec!["2".to_string(), "+".to_string(), "3".to_string()]);
    assert_eq!(tokenize("", None), Vec::<String>::new());
}

#[test]
fn tokenize_on_delimiter_drops_empty_fragments() {
    let symbols = tokenize("if  if {}  else {}", Some(' '));
    assert_eq!(
        symbols,
        vec![
            "if".to_string(),
            "if".to_string(),
            "{}".to_string(),
            "else".to_string(),
            "{}".to_string(),
        ],
    );
    assert_eq!(tokenize("   ", Some(' ')), Vec::<String>::new());
    assert_eq!(tokenize("abc", Some(' ')), vec!["abc".to_string()]);
}

#[test]
fn state_set_deduplicates_and_keeps_order() {
    let a = st("A", vec![tm("a")], 0, 0);
    let b = st("B", vec![tm("b")], 0, 0);
    let mut set = StateSet::new();
    set.insert(a.clone());
    set.insert(b.clone());
    set.insert(a.clone());
    assert_eq!(set.len(), 2);
    assert_eq!(set.get(0), &a);
    assert_eq!(set.get(1), &b);
    assert!(set.contains_state(&a));
    assert!(!set.contains_state(&st("A", vec![tm("a")], 1, 0)));
}

#[test]
fn empty_grammar_is_an_error() {
    let r = EarleyChart::eval("", "abc", None);
    assert!(r.is_err());
    let r2 = EarleyChart::accept("", "abc", None);
    assert!(r2.is_err());
}

#[test]
fn malformed_grammar_is_an_error() {
    let r = EarleyChart::eval("<A> ::=", "a", None);
    assert!(r.is_err());
    if let Err(e) = r {
        assert!(matches!(e, Error::GrammarError(_)));
    }
}

#[test]
fn accept_matches_eval() {
    let grammar = "
    <dna> ::= <base> | <dna> <base>
    <base> ::= \"A\" | \"C\" | \"G\" | \"T\"
    ";
    assert!(EarleyChart::accept(grammar, "GATTACA", None).unwrap());
    assert!(!EarleyChart::accept(grammar, "GATTAXA", None).unwrap());
    let outcome = EarleyChart::eval(grammar, "GATTACA", None).unwrap();
    assert!(matches!(outcome, EarleyOutcome::Accepted(_)));
}

#[test]
fn witnesses_are_completed_start_items() {
    let grammar = "
    <P> ::= <S>
    <S> ::= <S> '+' <M> | <M>
    <M> ::= <M> '*' <T> | <T>
    <T> ::= '1' | '2' | '3' | '4'
    ";
    if let EarleyOutcome::Accepted(acc) = EarleyChart::eval(grammar, "2+3*4", None).unwrap() {
        assert_eq!(acc.accepted_states.len(), 1);
        let w = &acc.accepted_states[0];
        assert_eq!(w.origin, 0);
        assert_eq!(w.prod.lhs, nt("P"));
        assert_eq!(w.prod.rhs, vec![nt("S")]);
        assert_eq!(w.prod.dot, 1);
        assert_eq!(acc.input, vec![
            "2".to_string(),
            "+".to_string(),
            "3".to_string(),
            "*".to_string(),
            "4".to_string(),
        ]);
    } else {
        assert_eq!("EarleyOutcome::Accepted", "EarleyOutcome::Rejected");
    }
}

#[test]
fn completed_view_holds_only_finished_items() {
    let grammar = "
    <P> ::= <S>
    <S> ::= <S> '+' <M> | <M>
    <M> ::= <M> '*' <T> | <T>
    <T> ::= '1' | '2' | '3' | '4'
    ";
    if let EarleyOutcome::Accepted(acc) = EarleyChart::eval(grammar, "2+3*4", None).unwrap() {
        let completed = acc.get_completed_as_vecs();
        assert_eq!(completed.len(), acc.chart.len());
        for set in &completed {
            for item in set {
                assert_eq!(item.prod.dot, item.prod.rhs.len());
            }
        }
        // Position 1 completes exactly: T := "2", M := T, S := M, P := S.
        assert_eq!(completed[1].len(), 4);
        assert!(completed[1].contains(&st("T", vec![tm("2")], 1, 0)));
        assert!(completed[1].contains(&st("M", vec![nt("T")], 1, 0)));
        assert!(completed[1].contains(&st("S", vec![nt("M")], 1, 0)));
        assert!(completed[1].contains(&st("P", vec![nt("S")], 1, 0)));
        // Position 0 completes nothing.
        assert_eq!(completed[0].len(), 0);

        let as_sets = acc.get_completed();
        assert_eq!(as_sets.len(), completed.len());
        assert_eq!(as_sets[1].len(), 4);
    } else {
        assert_eq!("EarleyOutcome::Accepted", "EarleyOutcome::Rejected");
    }
}

#[test]
fn order_aligns_branches_with_terms() {
    let root = FlippedIState {
        end: 2,
        prod: EarleyProd { lhs: nt("S"), rhs: vec![nt("A"), tm("b")], dot: 2 },
    };
    let a_child = ITree {
        root: FlippedIState {
            end: 1,
            prod: EarleyProd { lhs: nt("A"), rhs: vec![tm("a")], dot: 1 },
        },
        branches: vec![IBranch::Terminal(0, "a".to_string())],
    };
    let mut tree = ITree {
        root,
        branches: vec![IBranch::Terminal(1, "b".to_string()), IBranch::Nonterminal(0, a_child)],
    };
    tree.order();
    assert_eq!(tree.branches.len(), 2);
    assert!(matches!(&tree.branches[0], IBranch::Nonterminal(_, t)
        if t.root.prod.lhs == nt("A")));
    assert!(matches!(&tree.branches[1], IBranch::Terminal(_, s) if s == "b"));
}

#[test]
fn to_tree_drops_positions() {
    let leafy = ITree {
        root: FlippedIState {
            end: 1,
            prod: EarleyProd { lhs: nt("A"), rhs: vec![tm("a")], dot: 1 },
        },
        branches: vec![IBranch::Terminal(0, "a".to_string())],
    };
    let tree = leafy.to_tree();
    assert_eq!(tree.production.lhs, nt("A"));
    assert_eq!(tree.production.rhs.len(), 1);
    assert_eq!(tree.production.rhs[0].terms, vec![tm("a")]);
    assert_eq!(tree.branches.len(), 1);
    assert!(matches!(&tree.branches[0], Branch::Terminal(s) if s == "a"));
    assert!(tree_equals(&tree, &leafy.to_tree()));
}

#[test]
fn pretty_printer_connectors() {
    assert_eq!(PPChar::Last.get(), "└─".to_string());
    assert_eq!(PPChar::Mid.get(), "├─".to_string());
    assert_eq!(PPChar::First.get(), "└─".to_string());
}

#[test]
fn error_text_carries_the_message() {
    let e = Error::GrammarError("no productions".to_string());
    assert_eq!(e.text(), "no productions".to_string());
    let f = Error::ParseForestError("missing start set".to_string());
    assert_eq!(f.text(), "missing start set".to_string());
}

#[test]
fn chart_insertion_order_is_kept() {
    let grammar = "
    <P> ::= <S>
    <S> ::= <S> '+' <M> | <M>
    <M> ::= <M> '*' <T> | <T>
    <T> ::= '1' | '2' | '3' | '4'
    ";
    if let EarleyOutcome::Accepted(acc) = EarleyChart::eval(grammar, "2+3*4", None).unwrap() {
        // Set 0: the start item, then predictions in discovery order —
        // alternatives of each nonterminal in grammar order.
        let s = nt("S");
        let m = nt("M");
        let t = nt("T");
        let expected0 = vec![
            st("P", vec![s.clone()], 0, 0),
            st("S", vec![s.clone(), tm("+"), m.clone()], 0, 0),
            st("S", vec![m.clone()], 0, 0),
            st("M", vec![m.clone(), tm("*"), t.clone()], 0, 0),
            st("M", vec![t.clone()], 0, 0),
            st("T", vec![tm("1")], 0, 0),
            st("T", vec![tm("2")], 0, 0),
            st("T", vec![tm("3")], 0, 0),
            st("T", vec![tm("4")], 0, 0),
        ];
        assert_eq!(acc.chart[0].len(), expected0.len());
        for (i, e) in expected0.iter().enumerate() {
            assert_eq!(acc.chart[0].get(i), e, "set 0 position {}", i);
        }
        // Set 1: the scanned item, then completions in discovery order.
        let expected1 = vec![
            st("T", vec![tm("2")], 1, 0),
            st("M", vec![t.clone()], 1, 0),
            st("S", vec![m.clone()], 1, 0),
            st("M", vec![m.clone(), tm("*"), t.clone()], 1, 0),
            st("P", vec![s.clone()], 1, 0),
            st("S", vec![s.clone(), tm("+"), m.clone()], 1, 0),
        ];
        assert_eq!(acc.chart[1].len(), expected1.len());
        for (i, e) in expected1.iter().enumerate() {
            assert_eq!(acc.chart[1].get(i), e, "set 1 position {}", i);
        }
        // The inverted view files items by ascending end position, keeping
        // each set's order within one position.
        let flipped = acc.flip_completed();
        let expected_f0 = vec![
            FlippedIState { end: 1, prod: EarleyProd { lhs: t.clone(), rhs: vec![tm("2")], dot: 1 } },
            FlippedIState { end: 1, prod: EarleyProd { lhs: m.clone(), rhs: vec![t.clone()], dot: 1 } },
            FlippedIState { end: 1, prod: EarleyProd { lhs: s.clone(), rhs: vec![m.clone()], dot: 1 } },
            FlippedIState { end: 1, prod: EarleyProd { lhs: nt("P"), rhs: vec![s.clone()], dot: 1 } },
            FlippedIState {
                end: 3,
                prod: EarleyProd { lhs: s.clone(), rhs: vec![s.clone(), tm("+"), m.clone()], dot: 3 },
            },
            FlippedIState { end: 3, prod: EarleyProd { lhs: nt("P"), rhs: vec![s.clone()], dot: 1 } },
            FlippedIState {
                end: 5,
                prod: EarleyProd { lhs: s.clone(), rhs: vec![s.clone(), tm("+"), m.clone()], dot: 3 },
            },
            FlippedIState { end: 5, prod: EarleyProd { lhs: nt("P"), rhs: vec![s.clone()], dot: 1 } },
        ];
        assert_eq!(flipped[0].len(), expected_f0.len());
        for (i, e) in expected_f0.iter().enumerate() {
            assert_eq!(flipped[0].get(i), e, "inverted set 0 position {}", i);
        }
    } else {
        assert_eq!("EarleyOutcome::Accepted", "EarleyOutcome::Rejected");
    }
}

#[test]
fn evaluation_is_deterministic() {
    let grammar = "
    <P> ::= <S>
    <S> ::= <S> '+' <M> | <M>
    <M> ::= <M> '*' <T> | <T>
    <T> ::= '1' | '2' | '3' | '4'
    ";
    let a = EarleyChart::eval(grammar, "2+3*4", None).unwrap();
    let b = EarleyChart::eval(grammar, "2+3*4", None).unwrap();
    assert_eq!(a, b);
    if let (EarleyOutcome::Accepted(x), EarleyOutcome::Accepted(y)) = (a, b) {
        let fx = x.parse_forest().unwrap();
        let fy = y.parse_forest().unwrap();
        assert_eq!(fx.len(), fy.len());
        for (s, t) in fx.iter().zip(fy.iter()) {
            assert!(tree_equals(s, t));
        }
    }
}
