use calculator::rational::{rat_add, rat_div, rat_mul, rat_neg, rat_pow, rat_rem, rat_sub,
    rat_trunc, Rational};

fn rat(neg: bool, num: u128, den: u128) -> Rational {
    Rational { neg, num, den }
}

#[test]
fn addition_is_exact() {
    assert_eq!(rat_add(rat(false, 1, 2), rat(false, 1, 3)), Some(rat(false, 5, 6)));
    assert_eq!(rat_add(rat(true, 1, 2), rat(false, 1, 2)), Some(rat(false, 0, 4)));
    assert_eq!(rat_add(rat(true, 2, 1), rat(true, 3, 1)), Some(rat(true, 5, 1)));
}

#[test]
fn subtraction_is_exact() {
    assert_eq!(rat_sub(rat(false, 1, 2), rat(false, 1, 3)), Some(rat(false, 1, 6)));
    assert_eq!(rat_sub(rat(false, 1, 3), rat(false, 1, 2)), Some(rat(true, 1, 6)));
}

#[test]
fn multiplication_is_exact() {
    assert_eq!(rat_mul(rat(true, 2, 3), rat(false, 3, 4)), Some(rat(true, 6, 12)));
    assert_eq!(rat_mul(rat(true, 2, 3), rat(true, 3, 4)), Some(rat(false, 6, 12)));
    assert_eq!(rat_mul(rat(false, 0, 1), rat(true, 3, 4)), Some(rat(false, 0, 4)));
}

#[test]
fn division_is_exact() {
    assert_eq!(rat_div(rat(false, 1, 2), rat(true, 1, 3)), Some(rat(true, 3, 2)));
    assert_eq!(rat_div(rat(false, 65, 1), rat(false, 4, 1)), Some(rat(false, 65, 4)));
}

#[test]
fn truncation_goes_toward_zero() {
    assert_eq!(rat_trunc(rat(true, 7, 2)), rat(true, 3, 1));
    assert_eq!(rat_trunc(rat(false, 7, 2)), rat(false, 3, 1));
    assert_eq!(rat_trunc(rat(true, 1, 2)), rat(false, 0, 1));
}

#[test]
fn remainder_follows_the_dividend() {
    assert_eq!(rat_rem(rat(false, 7, 1), rat(false, 2, 1)), Some(rat(false, 1, 1)));
    // -3.5 rem 1.5 == -0.5
    assert_eq!(rat_rem(rat(true, 7, 2), rat(false, 3, 2)), Some(rat(true, 2, 4)));
}

#[test]
fn powers_of_whole_exponents() {
    assert_eq!(rat_pow(rat(false, 2, 1), rat(false, 10, 1)), Some(rat(false, 1024, 1)));
    assert_eq!(rat_pow(rat(true, 2, 1), rat(false, 3, 1)), Some(rat(true, 8, 1)));
    assert_eq!(rat_pow(rat(true, 2, 1), rat(false, 2, 1)), Some(rat(false, 4, 1)));
    assert_eq!(rat_pow(rat(false, 2, 1), rat(true, 2, 1)), Some(rat(false, 1, 4)));
    assert_eq!(rat_pow(rat(false, 3, 2), rat(false, 4, 2)), Some(rat(false, 9, 4)));
    assert_eq!(rat_pow(rat(false, 2, 1), rat(false, 1, 2)), None);
    assert_eq!(rat_pow(rat(false, 0, 1), rat(true, 1, 1)), None);
    assert_eq!(rat_pow(rat(true, 1, 1), rat(false, 3, 1)), Some(rat(true, 1, 1)));
}

#[test]
fn negation_keeps_zero_positive() {
    assert_eq!(rat_neg(rat(false, 0, 1)), rat(false, 0, 1));
    assert_eq!(rat_neg(rat(false, 2, 3)), rat(true, 2, 3));
    assert_eq!(rat_neg(rat(true, 2, 3)), rat(false, 2, 3));
}

#[test]
fn overflow_is_reported() {
    assert_eq!(rat_mul(rat(false, u128::MAX, 1), rat(false, 2, 1)), None);
    assert_eq!(rat_add(rat(false, u128::MAX, 1), rat(false, 1, 1)), None);
    assert_eq!(rat_pow(rat(false, 10, 1), rat(false, 50, 1)), None);
}
