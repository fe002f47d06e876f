// End-to-end behavior on concrete grammars: arithmetic, parentheses,
// ambiguity, delimiters, natural language, left recursion and rejection.

use earley::chart::EarleyChart;
use earley::grammar::{Expression, Production};
use earley::outcome::EarleyOutcome;
use earley::term::Term;
use earley::tree::{tree_equals, Branch, Tree};

fn nt(s: &str) -> Term {
    Term::Nonterminal(s.to_string())
}

fn tm(s: &str) -> Term {
    Term::Terminal(s.to_string())
}

fn node(lhs: &str, terms: Vec<Term>, branches: Vec<Branch>) -> Tree {
    Tree {
        production: Production { lhs: nt(lhs), rhs: vec![Expression { terms }] },
        branches,
    }
}

fn sub(t: Tree) -> Branch {
    Branch::Nonterminal(t)
}

fn leaf(s: &str) -> Branch {
    Branch::Terminal(s.to_string())
}

/// Whether some node of the tree carries the given production alternative.
fn has_node(t: &Tree, lhs: &Term, terms: &Vec<Term>) -> bool {
    if t.production.lhs == *lhs && t.production.rhs.len() == 1 && t.production.rhs[0].terms
        == *terms {
        return true;
    }
    t.branches.iter().any(|b| match b {
        Branch::Nonterminal(child) => has_node(child, lhs, terms),
        Branch::Terminal(_) => false,
    })
}

fn accepted(grammar: &str, input: &str, split_on: Option<char>) -> earley::outcome::EarleyAccepted {
    match EarleyChart::eval(grammar, input, split_on).unwrap() {
        EarleyOutcome::Accepted(acc) => acc,
        EarleyOutcome::Rejected => panic!("input was rejected"),
    }
}

const ARITHMETIC: &str = "
    <P> ::= <S>
    <S> ::= <S> \"+\" <M> | <M>
    <M> ::= <M> \"*\" <T> | <T>
    <T> ::= \"1\" | \"2\" | \"3\" | \"4\"
    ";

#[test]
fn arithmetic_single_tree() {
    let acc = accepted(ARITHMETIC, "2+3*4", None);
    assert_eq!(acc.chart.len(), 6);

    let forest = acc.parse_forest().unwrap();
    assert_eq!(forest.len(), 1);

    let expected = node("P", vec![nt("S")], vec![
        sub(node("S", vec![nt("S"), tm("+"), nt("M")], vec![
            sub(node("S", vec![nt("M")], vec![
                sub(node("M", vec![nt("T")], vec![
                    sub(node("T", vec![tm("2")], vec![leaf("2")])),
                ])),
            ])),
            leaf("+"),
            sub(node("M", vec![nt("M"), tm("*"), nt("T")], vec![
                sub(node("M", vec![nt("T")], vec![
                    sub(node("T", vec![tm("3")], vec![leaf("3")])),
                ])),
                leaf("*"),
                sub(node("T", vec![tm("4")], vec![leaf("4")])),
            ])),
        ])),
    ]);
    assert!(tree_equals(&forest[0], &expected));
}

#[test]
fn calculator_with_parentheses() {
    let grammar = "
    <Sum> ::= <Sum> '+' <Product> | <Sum> '-' <Product> | <Product>
    <Product> ::= <Product> '*' <Factor> | <Product> '/' <Factor> | <Factor>
    <Factor> ::= '(' <Sum> ')' | <Number>
    <Number> ::= '0' | '1' | '2' | '3' | '4' | '5' | '6' | '7' | '8' | '9'
    ";
    let acc = accepted(grammar, "1+(2*3-4)", None);
    assert_eq!(acc.chart.len(), 10);

    let forest = acc.parse_forest().unwrap();
    assert_eq!(forest.len(), 1);

    // The parenthesized subtree holds the subtraction node.
    assert!(has_node(
        &forest[0],
        &nt("Sum"),
        &vec![nt("Sum"), tm("-"), nt("Product")],
    ));
    // The whole sentence is an addition at the top.
    assert_eq!(forest[0].production.lhs, nt("Sum"));
    assert_eq!(forest[0].production.rhs[0].terms, vec![nt("Sum"), tm("+"), nt("Product")]);
}

const DANGLING_ELSE: &str = "
    <Block>      ::=  <If>
    <Block>      ::= '{' '}'
    <If>         ::=  'i' 'f' <Block>
    <If>         ::=  'i' 'f' <Block> 'e' 'l' 's' 'e' <Block>
    ";

#[test]
fn dangling_else_two_trees() {
    let acc = accepted(DANGLING_ELSE, "ifif{}else{}", None);
    let forest = acc.parse_forest().unwrap();
    assert_eq!(forest.len(), 2);
    assert!(!tree_equals(&forest[0], &forest[1]));
}

#[test]
fn dangling_else_with_delimiter() {
    let grammar = "
    <Block>      ::=  <If>
    <Block>      ::= '{}'
    <If>         ::=  'if' <Block>
    <If>         ::=  'if' <Block> 'else' <Block>
    ";
    let acc = accepted(grammar, "if if {} else {}", Some(' '));
    let forest = acc.parse_forest().unwrap();
    assert_eq!(forest.len(), 2);
    assert!(!tree_equals(&forest[0], &forest[1]));
}

#[test]
fn natural_language_constituency() {
    let grammar = "
    <S> ::= <N> <VP>
    <VP> ::= <V> <NP>
    <V> ::= 'joined' | 'followed' | 'lost' | 'caught'
    <N> ::= 'Amethyst' | 'Perl' | 'Garnet' | 'Peridot' | 'Stevonnie' | 'Lapis' | 'friend'
    <NP> ::= <D> <N>
    <D> ::= 'their' | 'a'
    ";
    let acc = accepted(grammar, "Amethyst joined a friend", Some(' '));
    let forest = acc.parse_forest().unwrap();
    assert!(forest.len() >= 1);

    let expected = node("S", vec![nt("N"), nt("VP")], vec![
        sub(node("N", vec![tm("Amethyst")], vec![leaf("Amethyst")])),
        sub(node("VP", vec![nt("V"), nt("NP")], vec![
            sub(node("V", vec![tm("joined")], vec![leaf("joined")])),
            sub(node("NP", vec![nt("D"), nt("N")], vec![
                sub(node("D", vec![tm("a")], vec![leaf("a")])),
                sub(node("N", vec![tm("friend")], vec![leaf("friend")])),
            ])),
        ])),
    ]);
    assert!(forest.iter().any(|t| tree_equals(t, &expected)));
}

#[test]
fn rejection_is_not_an_error() {
    let outcome = EarleyChart::eval(ARITHMETIC, "2++3", None).unwrap();
    assert!(matches!(outcome, EarleyOutcome::Rejected));
    assert_eq!(EarleyChart::accept(ARITHMETIC, "2++3", None).unwrap(), false);
}

const LEFT_RECURSIVE: &str = "<A> ::= <A> \"a\" | \"a\"";

#[test]
fn left_recursion_accepts_nonempty_runs() {
    assert!(EarleyChart::accept(LEFT_RECURSIVE, "a", None).unwrap());
    assert!(EarleyChart::accept(LEFT_RECURSIVE, "aa", None).unwrap());
    assert!(EarleyChart::accept(LEFT_RECURSIVE, "aaaaaaaa", None).unwrap());
    assert!(!EarleyChart::accept(LEFT_RECURSIVE, "", None).unwrap());
    assert!(!EarleyChart::accept(LEFT_RECURSIVE, "b", None).unwrap());
    assert!(!EarleyChart::accept(LEFT_RECURSIVE, "ab", None).unwrap());
}

#[test]
fn left_recursion_tree_shape() {
    let acc = accepted(LEFT_RECURSIVE, "aaa", None);
    let forest = acc.parse_forest().unwrap();
    assert_eq!(forest.len(), 1);

    // The derivation leans left: each step nests under the first branch.
    let expected = node("A", vec![nt("A"), tm("a")], vec![
        sub(node("A", vec![nt("A"), tm("a")], vec![
            sub(node("A", vec![tm("a")], vec![leaf("a")])),
            leaf("a"),
        ])),
        leaf("a"),
    ]);
    assert!(tree_equals(&forest[0], &expected));
}
