// https://en.wikipedia.org/wiki/Earley_parser#Example

use earley::chart::EarleyChart;
use earley::istate::IState;
use earley::outcome::EarleyOutcome;
use earley::prod::EarleyProd;
use earley::sets::StateSet;
use earley::term::Term;

fn nt(s: &str) -> Term {
    Term::Nonterminal(s.to_string())
}

fn tm(s: &str) -> Term {
    Term::Terminal(s.to_string())
}

fn st(lhs: &str, rhs: Vec<Term>, dot: usize, origin: usize) -> IState {
    IState { origin, prod: EarleyProd { lhs: nt(lhs), rhs, dot } }
}

fn p_to_s(origin: usize, dot: usize) -> Vec<IState> {
    vec![st("P", vec![nt("S")], dot, origin)]
}

fn s_to_s_plus_m(origin: usize, dot: usize) -> Vec<IState> {
    vec![st("S", vec![nt("S"), tm("+"), nt("M")], dot, origin)]
}

fn s_to_m(origin: usize, dot: usize) -> Vec<IState> {
    vec![st("S", vec![nt("M")], dot, origin)]
}

fn m_to_m_mul_t(origin: usize, dot: usize) -> Vec<IState> {
    vec![st("M", vec![nt("M"), tm("*"), nt("T")], dot, origin)]
}

fn m_to_t(origin: usize, dot: usize) -> Vec<IState> {
    vec![st("M", vec![nt("T")], dot, origin)]
}

fn t_to_1(origin: usize, dot: usize) -> Vec<IState> {
    vec![st("T", vec![tm("1")], dot, origin)]
}

fn t_to_2(origin: usize, dot: usize) -> Vec<IState> {
    vec![st("T", vec![tm("2")], dot, origin)]
}

fn t_to_3(origin: usize, dot: usize) -> Vec<IState> {
    vec![st("T", vec![tm("3")], dot, origin)]
}

fn t_to_4(origin: usize, dot: usize) -> Vec<IState> {
    vec![st("T", vec![tm("4")], dot, origin)]
}

fn t_to_number(origin: usize, dot: usize) -> Vec<IState> {
    let mut states: Vec<IState> = vec![];
    states.append(&mut t_to_4(origin, dot));
    states.append(&mut t_to_3(origin, dot));
    states.append(&mut t_to_2(origin, dot));
    states.append(&mut t_to_1(origin, dot));
    states
}

fn wikipedia_example_states() -> Vec<Vec<IState>> {
    let mut state_00: Vec<IState> = vec![];
    state_00.append(&mut p_to_s(0, 0));
    state_00.append(&mut s_to_m(0, 0));
    state_00.append(&mut m_to_t(0, 0));
    state_00.append(&mut t_to_number(0, 0));
    state_00.append(&mut m_to_m_mul_t(0, 0));
    state_00.append(&mut s_to_s_plus_m(0, 0));

    let mut state_01: Vec<IState> = vec![];
    state_01.append(&mut t_to_2(0, 1));
    state_01.append(&mut m_to_t(0, 1));
    state_01.append(&mut m_to_m_mul_t(0, 1));
    state_01.append(&mut s_to_m(0, 1));
    state_01.append(&mut s_to_s_plus_m(0, 1));
    state_01.append(&mut p_to_s(0, 1));

    let mut state_02: Vec<IState> = vec![];
    state_02.append(&mut s_to_s_plus_m(0, 2));
    state_02.append(&mut m_to_t(2, 0));
    state_02.append(&mut t_to_number(2, 0));
    state_02.append(&mut m_to_m_mul_t(2, 0));

    let mut state_03: Vec<IState> = vec![];
    state_03.append(&mut t_to_3(2, 1));
    state_03.append(&mut m_to_t(2, 1));
    state_03.append(&mut m_to_m_mul_t(2, 1));
    state_03.append(&mut s_to_s_plus_m(0, 3));
    state_03.append(&mut s_to_s_plus_m(0, 1));
    state_03.append(&mut p_to_s(0, 1));

    let mut state_04: Vec<IState> = vec![];
    state_04.append(&mut m_to_m_mul_t(2, 2));
    state_04.append(&mut t_to_number(4, 0));

    let mut state_05: Vec<IState> = vec![];
    state_05.append(&mut t_to_4(4, 1));
    state_05.append(&mut m_to_m_mul_t(2, 3));
    state_05.append(&mut m_to_m_mul_t(2, 1));
    state_05.append(&mut s_to_s_plus_m(0, 3));
    state_05.append(&mut s_to_s_plus_m(0, 1));
    state_05.append(&mut p_to_s(0, 1));

    vec![state_00, state_01, state_02, state_03, state_04, state_05]
}

fn same_set(actual: &StateSet, expected: &Vec<IState>) -> bool {
    actual.len() == expected.len() && expected.iter().all(|e| actual.contains_state(e))
}

#[test]
fn wikipedia_example() {
    let grammar_str = "
        <P> ::= <S>
        <S> ::= <S> '+' <M> | <M>
        <M> ::= <M> '*' <T> | <T>
        <T> ::= '1' | '2' | '3' | '4'
        ";

    let sentence = "2+3*4";
    let expected = wikipedia_example_states();

    let outcome = EarleyChart::eval(grammar_str, sentence, None).unwrap();
    if let EarleyOutcome::Accepted(res) = outcome {
        assert_eq!(expected.len(), res.chart.len());
        for (i, expected_set) in expected.iter().enumerate() {
            assert!(same_set(&res.chart[i], expected_set), "chart set {} differs", i);
        }
    } else {
        assert_eq!("EarleyOutcome::Accepted", "EarleyOutcome::Rejected");
    }
}
