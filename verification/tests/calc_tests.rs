use calculator::calc::{calculate, getstr, parse_number, precedence, rpn_calc, shunting_yard,
    tokenize, Error, Tokens};
use calculator::rational::Rational;

fn test_num(inputstr: &str, _result: f64) -> bool {
    match calculate(inputstr) {
        Ok(Tokens::Number(_)) => true,
        _ => false,
    }
}

fn test_error(inputstr: &str, _result: Error) -> bool {
    match calculate(inputstr) {
        Err(_) => true,
        _ => false,
    }
}

#[test]
fn it_works() {
    assert!(test_num("1+(2+3)", 6f64));
    assert!(test_num("5 *    9", 45f64));
    assert!(test_num("65 / 4", 16.25f64));
    assert!(test_num("58-45", 13f64));
    assert!(test_num("15%8", 7f64));

    assert!(test_error("1/0", Error::DivideByZero));
    assert!(test_error("1+(5*9", Error::UnmatchedParenthesis));
    assert!(test_error("15*8/", Error::TooManyOperations));
}

fn rat(neg: bool, num: u128, den: u128) -> Rational {
    Rational { neg, num, den }
}

fn eval_num(input: &str) -> Rational {
    match calculate(input) {
        Ok(Tokens::Number(r)) => r,
        other => panic!("expected a number for {:?}, got {:?}", input, other),
    }
}

fn as_f64(r: &Rational) -> f64 {
    let m = (r.num as f64) / (r.den as f64);
    if r.neg {
        -m
    } else {
        m
    }
}

#[test]
fn grouping_matches_parentheses() {
    assert_eq!(eval_num("1+(2+3)"), rat(false, 6, 1));
    assert_eq!(eval_num("(8-3)-2"), rat(false, 3, 1));
    assert_eq!(eval_num("8-(3-2)"), rat(false, 7, 1));
    assert_eq!(eval_num("((2))"), rat(false, 2, 1));
}

#[test]
fn left_associativity() {
    assert_eq!(eval_num("8-3-2"), rat(false, 3, 1));
    assert_ne!(as_f64(&eval_num("8-3-2")), 7f64);
    assert_eq!(eval_num("16/4/2"), rat(false, 16, 8));
    assert_eq!(as_f64(&eval_num("16/4/2")), 2f64);
}

#[test]
fn operator_precedence() {
    assert_eq!(as_f64(&eval_num("2+3*4")), 14f64);
    assert_eq!(as_f64(&eval_num("2*3+4")), 10f64);
    assert_eq!(as_f64(&eval_num("2+3^2")), 11f64);
}

#[test]
fn divide_by_zero_regardless_of_dividend() {
    assert_eq!(calculate("1/0"), Err(Error::DivideByZero));
    assert_eq!(calculate("0/0"), Err(Error::DivideByZero));
    assert_eq!(calculate("5%0"), Err(Error::DivideByZero));
}

#[test]
fn unmatched_parentheses() {
    assert_eq!(calculate("1+(5*9"), Err(Error::UnmatchedParenthesis));
    assert_eq!(calculate("(1+5"), Err(Error::UnmatchedParenthesis));
    assert_eq!(calculate("1+5)"), Err(Error::UnmatchedParenthesis));
}

#[test]
fn missing_operand() {
    assert_eq!(calculate("15*8/"), Err(Error::TooManyOperations));
    assert_eq!(calculate("+"), Err(Error::TooManyOperations));
}

#[test]
fn round_trip_sanity() {
    assert_eq!(as_f64(&eval_num("1+(2+3)")), 6f64);
    assert_eq!(eval_num("65/4"), rat(false, 65, 4));
    assert_eq!(as_f64(&eval_num("65/4")), 16.25f64);
    assert_eq!(as_f64(&eval_num("15%8")), 7f64);
}

#[test]
fn whitespace_halts_scanning() {
    assert_eq!(tokenize("5 * 9"), Ok(vec![Tokens::Number(rat(false, 5, 1))]));
    assert_eq!(eval_num("5 * 9"), rat(false, 5, 1));
    assert_eq!(as_f64(&eval_num("5 * 9")), 5f64);
    assert_ne!(as_f64(&eval_num("5 * 9")), 45f64);
}

#[test]
fn repeating_a_calculation_gives_the_same_result() {
    assert_eq!(calculate("2+3*4"), calculate("2+3*4"));
    assert_eq!(calculate("1/0"), calculate("1/0"));
    assert_eq!(calculate("1.2.3"), calculate("1.2.3"));
}

#[test]
fn remainder_sign_follows_dividend() {
    assert_eq!(eval_num("(0-15)%8"), rat(true, 7, 1));
    assert_eq!(eval_num("15%(0-8)"), rat(false, 7, 1));
}

#[test]
fn negative_results() {
    assert_eq!(eval_num("3-5"), rat(true, 2, 1));
    assert_eq!(as_f64(&eval_num("3-5")), -2f64);
}

#[test]
fn power_cases() {
    assert_eq!(as_f64(&eval_num("2^10")), 1024f64);
    assert_eq!(eval_num("2^(0-2)"), rat(false, 1, 4));
    assert_eq!(as_f64(&eval_num("0^0")), 1f64);
    assert_eq!(as_f64(&eval_num("0^3")), 0f64);
    assert_eq!(calculate("0^(0-1)"), Err(Error::NotRepresentable));
    assert_eq!(calculate("2^0.5"), Err(Error::NotRepresentable));
}

#[test]
fn decimal_literals() {
    assert_eq!(eval_num("1.25"), rat(false, 125, 100));
    assert_eq!(eval_num(".5"), rat(false, 5, 10));
    assert_eq!(eval_num("5."), rat(false, 5, 1));
    assert_eq!(as_f64(&eval_num("1.25+0.75")), 2f64);
}

#[test]
fn malformed_literals() {
    assert_eq!(calculate("1.2.3"), Err(Error::InvalidNumber));
    assert_eq!(calculate("."), Err(Error::InvalidNumber));
    assert_eq!(calculate("1+."), Err(Error::InvalidNumber));
}

#[test]
fn oversized_values() {
    // The literal itself does not fit the number model.
    assert_eq!(
        calculate("999999999999999999999999999999999999999"),
        Err(Error::InvalidNumber)
    );
    // The literals fit, but the product does not.
    assert_eq!(
        calculate("100000000000000000000*10000000000000000000"),
        Err(Error::NotRepresentable)
    );
}

#[test]
fn empty_input_is_invalid_result() {
    assert_eq!(calculate(""), Err(Error::InvalidResult));
    assert_eq!(calculate(" 1+2"), Err(Error::InvalidResult));
}

#[test]
fn only_top_of_stack_is_inspected() {
    // Two values are left on the stack; the evaluator returns the top one.
    assert_eq!(eval_num("(2)(3)"), rat(false, 3, 1));
}

#[test]
fn tokenize_symbols() {
    assert_eq!(
        tokenize("1+2*(3-4)/5%6^7"),
        Ok(vec![
            Tokens::Number(rat(false, 1, 1)),
            Tokens::Add,
            Tokens::Number(rat(false, 2, 1)),
            Tokens::Mul,
            Tokens::OpenParen,
            Tokens::Number(rat(false, 3, 1)),
            Tokens::Sub,
            Tokens::Number(rat(false, 4, 1)),
            Tokens::CloseParen,
            Tokens::Div,
            Tokens::Number(rat(false, 5, 1)),
            Tokens::Mod,
            Tokens::Number(rat(false, 6, 1)),
            Tokens::Pow,
            Tokens::Number(rat(false, 7, 1)),
        ])
    );
}

#[test]
fn getstr_collects_number_runs() {
    assert_eq!(getstr("12.5+3", 0), vec!['1', '2', '.', '5']);
    assert_eq!(getstr("12.5+3", 5), vec!['3']);
    assert_eq!(getstr("+3", 0), Vec::<char>::new());
}

#[test]
fn parse_number_reads_exact_decimals() {
    assert_eq!(parse_number(&vec!['1', '.', '2', '5']), Ok(rat(false, 125, 100)));
    assert_eq!(parse_number(&vec!['0']), Ok(rat(false, 0, 1)));
    assert_eq!(parse_number(&vec!['.']), Err(Error::InvalidNumber));
    assert_eq!(parse_number(&vec!['1', '.', '2', '.']), Err(Error::InvalidNumber));
}

#[test]
fn precedence_ranks() {
    assert_eq!(precedence(&Tokens::Pow), 2);
    assert_eq!(precedence(&Tokens::Mul), 3);
    assert_eq!(precedence(&Tokens::Div), 3);
    assert_eq!(precedence(&Tokens::Mod), 3);
    assert_eq!(precedence(&Tokens::Add), 4);
    assert_eq!(precedence(&Tokens::Sub), 4);
    assert_eq!(precedence(&Tokens::Number(rat(false, 1, 1))), 0);
    assert_eq!(precedence(&Tokens::OpenParen), 10);
    assert_eq!(precedence(&Tokens::CloseParen), 10);
}

#[test]
fn shunting_yard_reorders_to_postfix() {
    let two = Tokens::Number(rat(false, 2, 1));
    let three = Tokens::Number(rat(false, 3, 1));
    let four = Tokens::Number(rat(false, 4, 1));
    assert_eq!(
        shunting_yard(vec![two, Tokens::Add, three, Tokens::Mul, four]),
        Ok(vec![two, three, four, Tokens::Mul, Tokens::Add])
    );
    assert_eq!(
        shunting_yard(vec![two, Tokens::Sub, three, Tokens::Sub, four]),
        Ok(vec![two, three, Tokens::Sub, four, Tokens::Sub])
    );
    assert_eq!(
        shunting_yard(vec![Tokens::CloseParen]),
        Err(Error::UnmatchedParenthesis)
    );
}

#[test]
fn rpn_calc_evaluates_postfix() {
    let two = Tokens::Number(rat(false, 2, 1));
    let three = Tokens::Number(rat(false, 3, 1));
    assert_eq!(rpn_calc(vec![two, three, Tokens::Add]), Ok(Tokens::Number(rat(false, 5, 1))));
    assert_eq!(rpn_calc(vec![two, Tokens::Add]), Err(Error::TooManyOperations));
    assert_eq!(rpn_calc(vec![]), Err(Error::InvalidResult));
}
