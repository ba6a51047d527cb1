//! Exact rational arithmetic in sign-magnitude form.
//!
//! Every operation either returns the mathematically exact result or reports
//! that a component of that result does not fit in `u128`.

use vstd::prelude::*;
use vstd::arithmetic::power::{pow, lemma_pow0, lemma_pow_increases, lemma1_pow, lemma_pow_positive};

verus! {

/// A rational number `num / den`, negated when `neg` is set.
#[derive(Clone, Copy, Debug, PartialEq, Eq, Structural)]
pub struct Rational {
    pub neg: bool,
    pub num: u128,
    pub den: u128,
}

/// Well-formed rationals have a positive denominator and store zero with a
/// positive sign.
pub open spec fn rat_wf(r: Rational) -> bool {
    &&& r.den >= 1
    &&& r.num == 0 ==> !r.neg
}

/// The numerator as a signed mathematical integer.
pub open spec fn signed_num(r: Rational) -> int {
    if r.neg {
        -(r.num as int)
    } else {
        r.num as int
    }
}

/// Builds the rational `sign * (n / d)`, normalising the sign of zero.
/// Meaningful only for `0 <= n <= u128::MAX` and `1 <= d <= u128::MAX`.
pub open spec fn mk_rat(neg: bool, n: int, d: int) -> Rational {
    Rational {
        neg: if n == 0 {
            false
        } else {
            neg
        },
        num: n as u128,
        den: d as u128,
    }
}

/// The exact sum `a + b` over a common denominator, or `None` when an
/// intermediate or final component exceeds `u128::MAX`.
pub open spec fn rat_add_spec(a: Rational, b: Rational) -> Option<Rational> {
    let p1 = (a.num as int) * (b.den as int);
    let p2 = (b.num as int) * (a.den as int);
    let dd = (a.den as int) * (b.den as int);
    if p1 > u128::MAX || p2 > u128::MAX || dd > u128::MAX {
        None
    } else if a.neg == b.neg {
        if p1 + p2 > u128::MAX {
            None
        } else {
            Some(mk_rat(a.neg, p1 + p2, dd))
        }
    } else if p1 >= p2 {
        Some(mk_rat(a.neg, p1 - p2, dd))
    } else {
        Some(mk_rat(b.neg, p2 - p1, dd))
    }
}

/// `-a`, with the sign of zero kept positive.
pub open spec fn rat_neg_spec(a: Rational) -> Rational {
    Rational {
        neg: if a.num == 0 {
            false
        } else {
            !a.neg
        },
        num: a.num,
        den: a.den,
    }
}

/// The exact difference `a - b`.
pub open spec fn rat_sub_spec(a: Rational, b: Rational) -> Option<Rational> {
    rat_add_spec(a, rat_neg_spec(b))
}

/// The exact product `a * b`, or `None` when a component exceeds `u128::MAX`.
pub open spec fn rat_mul_spec(a: Rational, b: Rational) -> Option<Rational> {
    let p = (a.num as int) * (b.num as int);
    let dd = (a.den as int) * (b.den as int);
    if p > u128::MAX || dd > u128::MAX {
        None
    } else {
        Some(mk_rat(a.neg != b.neg, p, dd))
    }
}

/// The exact quotient `a / b` for `b != 0`, or `None` when a component
/// exceeds `u128::MAX`.
pub open spec fn rat_div_spec(a: Rational, b: Rational) -> Option<Rational> {
    let p = (a.num as int) * (b.den as int);
    let dd = (a.den as int) * (b.num as int);
    if p > u128::MAX || dd > u128::MAX {
        None
    } else {
        Some(mk_rat(a.neg != b.neg, p, dd))
    }
}

/// `a` truncated toward zero to a whole number.
pub open spec fn rat_trunc_spec(a: Rational) -> Rational {
    mk_rat(a.neg, (a.num as int) / (a.den as int), 1)
}

/// The remainder of `b` divided by `a` (`a != 0`): `b - a * trunc(b / a)`.
/// The sign follows the dividend `b`.
pub open spec fn rat_rem_spec(b: Rational, a: Rational) -> Option<Rational> {
    match rat_div_spec(b, a) {
        None => None,
        Some(q) => {
            let t = rat_trunc_spec(q);
            match rat_mul_spec(a, t) {
                None => None,
                Some(m) => rat_sub_spec(b, m),
            }
        },
    }
}

/// `b` raised to the power `e`. Defined only for whole-number exponents:
/// the result is `None` when `e` is not a whole number, when `0` is raised
/// to a negative power, or when a component exceeds `u128::MAX`.
/// `b^0` is `1`, including for `b == 0`.
pub open spec fn rat_pow_spec(b: Rational, e: Rational) -> Option<Rational> {
    if (e.num as int) % (e.den as int) != 0 {
        None
    } else {
        let k = ((e.num as int) / (e.den as int)) as nat;
        if k == 0 {
            Some(mk_rat(false, 1, 1))
        } else if b.num == 0 {
            if e.neg {
                None
            } else {
                Some(mk_rat(false, 0, 1))
            }
        } else {
            let n = pow(b.num as int, k);
            let d = pow(b.den as int, k);
            let s = b.neg && k % 2 == 1;
            if n > u128::MAX || d > u128::MAX {
                None
            } else if e.neg {
                Some(mk_rat(s, d, n))
            } else {
                Some(mk_rat(s, n, d))
            }
        }
    }
}

/// Addition is exact: over the common denominator `da * db`, the signed
/// numerator of the sum is exactly `na * db + nb * da`.
pub proof fn lemma_rat_add_exact(a: Rational, b: Rational)
    requires
        rat_wf(a),
        rat_wf(b),
    ensures
        rat_add_spec(a, b) matches Some(q) ==> {
            &&& q.den as int == (a.den as int) * (b.den as int)
            &&& signed_num(q) == signed_num(a) * (b.den as int) + signed_num(b) * (a.den as int)
        },
{
    let p1 = (a.num as int) * (b.den as int);
    let p2 = (b.num as int) * (a.den as int);
    assert((-(a.num as int)) * (b.den as int) == -p1) by (nonlinear_arith)
        requires
            p1 == (a.num as int) * (b.den as int),
    ;
    assert((-(b.num as int)) * (a.den as int) == -p2) by (nonlinear_arith)
        requires
            p2 == (b.num as int) * (a.den as int),
    ;
}

/// Multiplication is exact: the signed numerator of the product is the
/// product of the signed numerators, over the denominator `da * db`.
pub proof fn lemma_rat_mul_exact(a: Rational, b: Rational)
    requires
        rat_wf(a),
        rat_wf(b),
    ensures
        rat_mul_spec(a, b) matches Some(q) ==> {
            &&& q.den as int == (a.den as int) * (b.den as int)
            &&& signed_num(q) == signed_num(a) * signed_num(b)
        },
{
    let an = a.num as int;
    let bn = b.num as int;
    assert((-an) * bn == -(an * bn)) by (nonlinear_arith);
    assert(an * (-bn) == -(an * bn)) by (nonlinear_arith);
    assert((-an) * (-bn) == an * bn) by (nonlinear_arith);
    assert((an * bn == 0) == (an == 0 || bn == 0)) by (nonlinear_arith);
}

/// Division is exact, stated by cross-multiplication: the quotient `q`
/// satisfies `q * b == a`, that is `nq * nb * da == na * db * dq`.
pub proof fn lemma_rat_div_exact(a: Rational, b: Rational)
    requires
        rat_wf(a),
        rat_wf(b),
        b.num != 0,
    ensures
        rat_div_spec(a, b) matches Some(q) ==> signed_num(q) * signed_num(b) * (a.den as int)
            == signed_num(a) * (b.den as int) * (q.den as int),
{
    let an = a.num as int;
    let ad = a.den as int;
    let bn = b.num as int;
    let bd = b.den as int;
    if an * bd > u128::MAX || ad * bn > u128::MAX {
    } else {
        let q = rat_div_spec(a, b)->Some_0;
        assert(q.num as int == an * bd && q.den as int == ad * bn);
        if an == 0 {
            assert(an * bd == 0) by (nonlinear_arith)
                requires
                    an == 0,
            ;
            assert(signed_num(q) == 0);
            assert(signed_num(q) * signed_num(b) == 0) by (nonlinear_arith)
                requires
                    signed_num(q) == 0,
            ;
            assert(signed_num(q) * signed_num(b) * ad == 0) by (nonlinear_arith)
                requires
                    signed_num(q) * signed_num(b) == 0,
            ;
            assert(signed_num(a) * bd == 0) by (nonlinear_arith)
                requires
                    signed_num(a) == 0,
            ;
            assert(signed_num(a) * bd * (q.den as int) == 0) by (nonlinear_arith)
                requires
                    signed_num(a) * bd == 0,
            ;
        } else {
            assert(an * bd != 0) by (nonlinear_arith)
                requires
                    an >= 1 && bd >= 1,
            ;
            if a.neg == b.neg {
                if a.neg {
                    assert((an * bd) * (-bn) * ad == (-an) * bd * (ad * bn)) by (nonlinear_arith);
                } else {
                    assert((an * bd) * bn * ad == an * bd * (ad * bn)) by (nonlinear_arith);
                }
            } else {
                if a.neg {
                    assert((-(an * bd)) * bn * ad == (-an) * bd * (ad * bn)) by (nonlinear_arith);
                } else {
                    assert((-(an * bd)) * (-bn) * ad == an * bd * (ad * bn)) by (nonlinear_arith);
                }
            }
        }
    }
}

/// Builds a rational from a sign and two magnitudes, normalising the sign
/// of zero.
fn mk_rational(neg: bool, n: u128, d: u128) -> (r: Rational)
    ensures
        r == mk_rat(neg, n as int, d as int),
{
    Rational { neg: if n == 0 { false } else { neg }, num: n, den: d }
}

/// Exact addition.
pub fn rat_add(a: Rational, b: Rational) -> (r: Option<Rational>)
    requires
        rat_wf(a),
        rat_wf(b),
    ensures
        r == rat_add_spec(a, b),
        r matches Some(q) ==> rat_wf(q),
{
    let p1 = match a.num.checked_mul(b.den) {
        Some(x) => x,
        None => {
            return None;
        },
    };
    let p2 = match b.num.checked_mul(a.den) {
        Some(x) => x,
        None => {
            return None;
        },
    };
    let dd = match a.den.checked_mul(b.den) {
        Some(x) => x,
        None => {
            return None;
        },
    };
    assert((a.den as int) * (b.den as int) >= 1) by (nonlinear_arith)
        requires
            a.den >= 1,
            b.den >= 1,
    ;
    if a.neg == b.neg {
        match p1.checked_add(p2) {
            Some(s) => Some(mk_rational(a.neg, s, dd)),
            None => None,
        }
    } else if p1 >= p2 {
        Some(mk_rational(a.neg, p1 - p2, dd))
    } else {
        Some(mk_rational(b.neg, p2 - p1, dd))
    }
}

/// Exact negation.
pub fn rat_neg(a: Rational) -> (r: Rational)
    ensures
        r == rat_neg_spec(a),
        rat_wf(a) ==> rat_wf(r),
{
    Rational { neg: if a.num == 0 { false } else { !a.neg }, num: a.num, den: a.den }
}

/// Exact subtraction.
pub fn rat_sub(a: Rational, b: Rational) -> (r: Option<Rational>)
    requires
        rat_wf(a),
        rat_wf(b),
    ensures
        r == rat_sub_spec(a, b),
        r matches Some(q) ==> rat_wf(q),
{
    rat_add(a, rat_neg(b))
}

/// Exact multiplication.
pub fn rat_mul(a: Rational, b: Rational) -> (r: Option<Rational>)
    requires
        rat_wf(a),
        rat_wf(b),
    ensures
        r == rat_mul_spec(a, b),
        r matches Some(q) ==> rat_wf(q),
{
    let p = match a.num.checked_mul(b.num) {
        Some(x) => x,
        None => {
            return None;
        },
    };
    let dd = match a.den.checked_mul(b.den) {
        Some(x) => x,
        None => {
            return None;
        },
    };
    assert((a.den as int) * (b.den as int) >= 1) by (nonlinear_arith)
        requires
            a.den >= 1,
            b.den >= 1,
    ;
    Some(mk_rational(a.neg != b.neg, p, dd))
}

/// Exact division by a non-zero rational.
pub fn rat_div(a: Rational, b: Rational) -> (r: Option<Rational>)
    requires
        rat_wf(a),
        rat_wf(b),
        b.num != 0,
    ensures
        r == rat_div_spec(a, b),
        r matches Some(q) ==> rat_wf(q),
{
    let p = match a.num.checked_mul(b.den) {
        Some(x) => x,
        None => {
            return None;
        },
    };
    let dd = match a.den.checked_mul(b.num) {
        Some(x) => x,
        None => {
            return None;
        },
    };
    assert((a.den as int) * (b.num as int) >= 1) by (nonlinear_arith)
        requires
            a.den >= 1,
            b.num >= 1,
    ;
    Some(mk_rational(a.neg != b.neg, p, dd))
}

/// Truncation toward zero.
pub fn rat_trunc(a: Rational) -> (r: Rational)
    requires
        rat_wf(a),
    ensures
        r == rat_trunc_spec(a),
        rat_wf(r),
{
    let q = a.num / a.den;
    mk_rational(a.neg, q, 1)
}

/// Exact remainder of `b` divided by `a` (`a != 0`), sign following `b`.
pub fn rat_rem(b: Rational, a: Rational) -> (r: Option<Rational>)
    requires
        rat_wf(b),
        rat_wf(a),
        a.num != 0,
    ensures
        r == rat_rem_spec(b, a),
        r matches Some(q) ==> rat_wf(q),
{
    let q = match rat_div(b, a) {
        Some(x) => x,
        None => {
            return None;
        },
    };
    let t = rat_trunc(q);
    let m = match rat_mul(a, t) {
        Some(x) => x,
        None => {
            return None;
        },
    };
    rat_sub(b, m)
}

/// Exact exponentiation by a whole-number exponent.
pub fn rat_pow(b: Rational, e: Rational) -> (r: Option<Rational>)
    requires
        rat_wf(b),
        rat_wf(e),
    ensures
        r == rat_pow_spec(b, e),
        r matches Some(q) ==> rat_wf(q),
{
    if e.num % e.den != 0 {
        return None;
    }
    let k = e.num / e.den;
    if k == 0 {
        return Some(Rational { neg: false, num: 1, den: 1 });
    }
    if b.num == 0 {
        if e.neg {
            return None;
        } else {
            return Some(Rational { neg: false, num: 0, den: 1 });
        }
    }
    if b.num == 1 && b.den == 1 {
        proof {
            lemma1_pow(k as nat);
        }
        let s = b.neg && k % 2 == 1;
        return Some(Rational { neg: s, num: 1, den: 1 });
    }
    let mut n: u128 = 1;
    let mut d: u128 = 1;
    let mut i: u128 = 0;
    proof {
        lemma_pow0(b.num as int);
        lemma_pow0(b.den as int);
    }
    while i < k
        invariant
            0 <= i <= k,
            rat_wf(b),
            rat_wf(e),
            b.num >= 1,
            b.den >= 1,
            (e.num as int) % (e.den as int) == 0,
            k == e.num / e.den,
            1 <= k,
            n == pow(b.num as int, i as nat),
            d == pow(b.den as int, i as nat),
        decreases k - i,
    {
        n = match n.checked_mul(b.num) {
            Some(x) => x,
            None => {
                proof {
                    reveal(pow);
                    assert(pow(b.num as int, (i + 1) as nat) == (b.num as int) * pow(
                        b.num as int,
                        i as nat,
                    ));
                    lemma_pow_increases(b.num as nat, (i + 1) as nat, k as nat);
                }
                return None;
            },
        };
        d = match d.checked_mul(b.den) {
            Some(x) => x,
            None => {
                proof {
                    reveal(pow);
                    assert(pow(b.den as int, (i + 1) as nat) == (b.den as int) * pow(
                        b.den as int,
                        i as nat,
                    ));
                    lemma_pow_increases(b.den as nat, (i + 1) as nat, k as nat);
                    lemma_pow_positive(b.num as int, k as nat);
                }
                return None;
            },
        };
        i = i + 1;
        proof {
            reveal(pow);
            assert(pow(b.num as int, i as nat) == (b.num as int) * pow(
                b.num as int,
                (i - 1) as nat,
            ));
            assert(pow(b.den as int, i as nat) == (b.den as int) * pow(
                b.den as int,
                (i - 1) as nat,
            ));
        }
    }
    proof {
        lemma_pow_positive(b.num as int, k as nat);
        lemma_pow_positive(b.den as int, k as nat);
    }
    let s = b.neg && k % 2 == 1;
    if e.neg {
        Some(Rational { neg: s, num: d, den: n })
    } else {
        Some(Rational { neg: s, num: n, den: d })
    }
}

} // verus!
