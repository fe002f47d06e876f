// Validate against the example documented at
// https://loup-vaillant.fr/tutorials/earley-parsing/parser

use earley::chart::EarleyChart;
use earley::istate::{FlippedIState, IState};
use earley::outcome::EarleyOutcome;
use earley::prod::EarleyProd;
use earley::sets::{FlippedStateSet, StateSet};
use earley::term::Term;

fn nt(s: &str) -> Term {
    Term::Nonterminal(s.to_string())
}

fn tm(s: &str) -> Term {
    Term::Terminal(s.to_string())
}

fn st(lhs: &str, rhs: Vec<Term>, dot: usize, origin: usize) -> IState {
    IState { origin, prod: EarleyProd { lhs: nt(lhs), rhs, dot } }
}

fn sum_to_sum_plus_prod(origin: usize, dot: usize) -> Vec<IState> {
    vec![st("Sum", vec![nt("Sum"), tm("+"), nt("Product")], dot, origin)]
}

fn sum_to_sum_sub_prod(origin: usize, dot: usize) -> Vec<IState> {
    vec![st("Sum", vec![nt("Sum"), tm("-"), nt("Product")], dot, origin)]
}

fn sum_to_sum_plus_sub_prod(origin: usize, dot: usize) -> Vec<IState> {
    let mut states: Vec<IState> = vec![];
    states.append(&mut sum_to_sum_sub_prod(origin, dot));
    states.append(&mut sum_to_sum_plus_prod(origin, dot));
    states
}

fn sum_to_prod(origin: usize, dot: usize) -> Vec<IState> {
    vec![st("Sum", vec![nt("Product")], dot, origin)]
}

fn prod_to_prod_mul_factor(origin: usize, dot: usize) -> Vec<IState> {
    vec![st("Product", vec![nt("Product"), tm("*"), nt("Factor")], dot, origin)]
}

fn prod_to_prod_div_factor(origin: usize, dot: usize) -> Vec<IState> {
    vec![st("Product", vec![nt("Product"), tm("/"), nt("Factor")], dot, origin)]
}

fn prod_to_prod_mul_div_factor(origin: usize, dot: usize) -> Vec<IState> {
    let mut states: Vec<IState> = vec![];
    states.append(&mut prod_to_prod_div_factor(origin, dot));
    states.append(&mut prod_to_prod_mul_factor(origin, dot));
    states
}

fn prod_to_factor(origin: usize, dot: usize) -> Vec<IState> {
    vec![st("Product", vec![nt("Factor")], dot, origin)]
}

fn factor_to_lp_sum_rp(origin: usize, dot: usize) -> Vec<IState> {
    vec![st("Factor", vec![tm("("), nt("Sum"), tm(")")], dot, origin)]
}

fn factor_to_number(origin: usize, dot: usize) -> Vec<IState> {
    vec![st("Factor", vec![nt("Number")], dot, origin)]
}

fn number_to_digit(origin: usize, dot: usize) -> Vec<IState> {
    let mut states: Vec<IState> = vec![];
    for d in ["9", "8", "7", "6", "5", "4", "3", "2", "1", "0"] {
        states.push(st("Number", vec![tm(d)], dot, origin));
    }
    states
}

fn number_to_digit_number(origin: usize, dot: usize) -> Vec<IState> {
    let mut states: Vec<IState> = vec![];
    for d in ["9", "8", "7", "6", "5", "4", "3", "2", "1", "0"] {
        states.push(st("Number", vec![tm(d), nt("Number")], dot, origin));
    }
    states
}

fn number_to_d(d: &str, origin: usize, dot: usize) -> Vec<IState> {
    vec![st("Number", vec![tm(d)], dot, origin)]
}

fn number_to_d_number(d: &str, origin: usize, dot: usize) -> Vec<IState> {
    vec![st("Number", vec![tm(d), nt("Number")], dot, origin)]
}

fn loup_vaillant_example_states() -> Vec<Vec<IState>> {
    let mut s00: Vec<IState> = vec![];
    s00.append(&mut sum_to_prod(0, 0));
    s00.append(&mut prod_to_factor(0, 0));
    s00.append(&mut factor_to_number(0, 0));
    s00.append(&mut number_to_digit_number(0, 0));
    s00.append(&mut number_to_digit(0, 0));
    s00.append(&mut factor_to_lp_sum_rp(0, 0));
    s00.append(&mut prod_to_prod_mul_div_factor(0, 0));
    s00.append(&mut sum_to_sum_plus_sub_prod(0, 0));

    let mut s01: Vec<IState> = vec![];
    s01.append(&mut number_to_d("1", 0, 1));
    s01.append(&mut number_to_digit(1, 0));
    s01.append(&mut number_to_d_number("1", 0, 1));
    s01.append(&mut number_to_digit_number(1, 0));
    s01.append(&mut factor_to_number(0, 1));
    s01.append(&mut prod_to_factor(0, 1));
    s01.append(&mut sum_to_prod(0, 1));
    s01.append(&mut prod_to_prod_mul_div_factor(0, 1));
    s01.append(&mut sum_to_sum_plus_sub_prod(0, 1));

    let mut s02: Vec<IState> = vec![];
    s02.append(&mut sum_to_sum_plus_prod(0, 2));
    s02.append(&mut prod_to_prod_mul_div_factor(2, 0));
    s02.append(&mut prod_to_factor(2, 0));
    s02.append(&mut factor_to_lp_sum_rp(2, 0));
    s02.append(&mut factor_to_number(2, 0));
    s02.append(&mut number_to_digit_number(2, 0));
    s02.append(&mut number_to_digit(2, 0));

    let mut s03: Vec<IState> = vec![];
    s03.append(&mut factor_to_lp_sum_rp(2, 1));
    s03.append(&mut sum_to_sum_plus_sub_prod(3, 0));
    s03.append(&mut sum_to_prod(3, 0));
    s03.append(&mut prod_to_prod_mul_div_factor(3, 0));
    s03.append(&mut prod_to_factor(3, 0));
    s03.append(&mut factor_to_lp_sum_rp(3, 0));
    s03.append(&mut factor_to_number(3, 0));
    s03.append(&mut number_to_digit_number(3, 0));
    s03.append(&mut number_to_digit(3, 0));

    let mut s04: Vec<IState> = vec![];
    s04.append(&mut number_to_d_number("2", 3, 1));
    s04.append(&mut number_to_d("2", 3, 1));
    s04.append(&mut number_to_digit_number(4, 0));
    s04.append(&mut number_to_digit(4, 0));
    s04.append(&mut factor_to_number(3, 1));
    s04.append(&mut prod_to_factor(3, 1));
    s04.append(&mut sum_to_prod(3, 1));
    s04.append(&mut prod_to_prod_mul_div_factor(3, 1));
    s04.append(&mut factor_to_lp_sum_rp(2, 2));
    s04.append(&mut sum_to_sum_plus_sub_prod(3, 1));

    let mut s05: Vec<IState> = vec![];
    s05.append(&mut prod_to_prod_mul_factor(3, 2));
    s05.append(&mut factor_to_lp_sum_rp(5, 0));
    s05.append(&mut factor_to_number(5, 0));
    s05.append(&mut number_to_digit_number(5, 0));
    s05.append(&mut number_to_digit(5, 0));

    let mut s06: Vec<IState> = vec![];
    s06.append(&mut number_to_d_number("3", 5, 1));
    s06.append(&mut number_to_d("3", 5, 1));
    s06.append(&mut number_to_digit_number(6, 0));
    s06.append(&mut number_to_digit(6, 0));
    s06.append(&mut factor_to_number(5, 1));
    s06.append(&mut prod_to_prod_mul_factor(3, 3));
    s06.append(&mut sum_to_prod(3, 1));
    s06.append(&mut prod_to_prod_mul_div_factor(3, 1));
    s06.append(&mut factor_to_lp_sum_rp(2, 2));
    s06.append(&mut sum_to_sum_plus_sub_prod(3, 1));

    let mut s07: Vec<IState> = vec![];
    s07.append(&mut sum_to_sum_sub_prod(3, 2));
    s07.append(&mut prod_to_prod_mul_div_factor(7, 0));
    s07.append(&mut prod_to_factor(7, 0));
    s07.append(&mut factor_to_lp_sum_rp(7, 0));
    s07.append(&mut factor_to_number(7, 0));
    s07.append(&mut number_to_digit_number(7, 0));
    s07.append(&mut number_to_digit(7, 0));

    let mut s08: Vec<IState> = vec![];
    s08.append(&mut number_to_d_number("4", 7, 1));
    s08.append(&mut number_to_d("4", 7, 1));
    s08.append(&mut number_to_digit_number(8, 0));
    s08.append(&mut number_to_digit(8, 0));
    s08.append(&mut factor_to_number(7, 1));
    s08.append(&mut prod_to_factor(7, 1));
    s08.append(&mut sum_to_sum_sub_prod(3, 3));
    s08.append(&mut prod_to_prod_mul_div_factor(7, 1));
    s08.append(&mut factor_to_lp_sum_rp(2, 2));
    s08.append(&mut sum_to_sum_plus_sub_prod(3, 1));

    let mut s09: Vec<IState> = vec![];
    s09.append(&mut factor_to_lp_sum_rp(2, 3));
    s09.append(&mut prod_to_factor(2, 1));
    s09.append(&mut sum_to_sum_plus_prod(0, 3));
    s09.append(&mut prod_to_prod_mul_div_factor(2, 1));
    s09.append(&mut sum_to_sum_plus_sub_prod(0, 1));

    vec![s00, s01, s02, s03, s04, s05, s06, s07, s08, s09]
}

fn flipped(states: Vec<IState>, end: usize) -> Vec<FlippedIState> {
    states.into_iter().map(|s| FlippedIState { prod: s.prod, end }).collect()
}

fn loup_vaillant_example_flipped(chart_len: usize) -> Vec<Vec<FlippedIState>> {
    let mut expected: Vec<Vec<FlippedIState>> = vec![];
    for _ in 0..chart_len {
        expected.push(vec![]);
    }

    let mut set0: Vec<FlippedIState> = vec![];
    set0.append(&mut flipped(sum_to_sum_plus_prod(0, 3), 9));
    set0.append(&mut flipped(sum_to_prod(0, 1), 1));
    set0.append(&mut flipped(prod_to_factor(0, 1), 1));
    set0.append(&mut flipped(factor_to_number(0, 1), 1));
    set0.append(&mut flipped(number_to_d("1", 0, 1), 1));
    expected[0] = set0;

    let mut set2: Vec<FlippedIState> = vec![];
    set2.append(&mut flipped(prod_to_factor(2, 1), 9));
    set2.append(&mut flipped(factor_to_lp_sum_rp(2, 3), 9));
    expected[2] = set2;

    let mut set3: Vec<FlippedIState> = vec![];
    set3.append(&mut flipped(sum_to_sum_sub_prod(3, 3), 8));
    set3.append(&mut flipped(sum_to_prod(3, 1), 6));
    set3.append(&mut flipped(sum_to_prod(3, 1), 4));
    set3.append(&mut flipped(prod_to_prod_mul_factor(3, 3), 6));
    set3.append(&mut flipped(prod_to_factor(3, 1), 4));
    set3.append(&mut flipped(factor_to_number(3, 1), 4));
    set3.append(&mut flipped(number_to_d("2", 3, 1), 4));
    expected[3] = set3;

    let mut set5: Vec<FlippedIState> = vec![];
    set5.append(&mut flipped(factor_to_number(5, 1), 6));
    set5.append(&mut flipped(number_to_d("3", 5, 1), 6));
    expected[5] = set5;

    let mut set7: Vec<FlippedIState> = vec![];
    set7.append(&mut flipped(prod_to_factor(7, 1), 8));
    set7.append(&mut flipped(factor_to_number(7, 1), 8));
    set7.append(&mut flipped(number_to_d("4", 7, 1), 8));
    expected[7] = set7;

    expected
}

fn same_set(actual: &StateSet, expected: &Vec<IState>) -> bool {
    actual.len() == expected.len() && expected.iter().all(|e| actual.contains_state(e))
}

fn same_flipped_set(actual: &FlippedStateSet, expected: &Vec<FlippedIState>) -> bool {
    actual.len() == expected.len() && expected.iter().all(|e| actual.contains_state(e))
}

#[test]
fn loup_vaillant_example() {
    let grammar_str = "
        <Sum>     ::= <Sum> \"+\" <Product> | <Sum> \"-\" <Product> | <Product>
        <Product> ::= <Product> \"*\" <Factor> | <Product> \"/\" <Factor> | <Factor>
        <Factor>  ::= \"(\" <Sum> \")\" | <Number>
        <Number>  ::= \"0\" <Number> | \"1\" <Number> | \"2\" <Number> | \"3\" <Number> |
                      \"4\" <Number> | \"5\" <Number> | \"6\" <Number> | \"7\" <Number> |
                      \"8\" <Number> | \"9\" <Number>
        <Number>  ::= \"0\" | \"1\" | \"2\" | \"3\" | \"4\" | \"5\" | \"6\" | \"7\" | \"8\" | \"9\"
        ";

    let sentence = "1+(2*3-4)";

    let outcome = EarleyChart::eval(grammar_str, sentence, None).unwrap();
    let res = match outcome {
        EarleyOutcome::Accepted(res) => res,
        EarleyOutcome::Rejected => {
            assert_eq!("EarleyOutcome::Accepted", "EarleyOutcome::Rejected");
            return;
        },
    };

    let expected = loup_vaillant_example_states();
    assert_eq!(expected.len(), res.chart.len());
    for (i, expected_set) in expected.iter().enumerate() {
        assert!(same_set(&res.chart[i], expected_set), "chart set {} differs", i);
    }

    let flipped_actual = res.flip_completed();
    let flipped_expected = loup_vaillant_example_flipped(res.chart.len());
    assert_eq!(flipped_expected.len(), flipped_actual.len());
    for (i, a) in flipped_actual.iter().enumerate() {
        assert!(same_flipped_set(a, &flipped_expected[i]), "flipped set {} differs", i);
    }
}
