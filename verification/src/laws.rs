//! Laws of the pipeline, stated and proved over the specification
//! functions of the lexer, the resolver and the evaluator.

use vstd::prelude::*;
use crate::rational::{Rational, rat_wf};
use crate::calc::{
    Tokens, Error, is_binop, prec_spec, apply_op, pop_ops, pop_to_open, drain_stack, shunt_run,
    shunt_spec, eval_run, eval_spec, calculate_spec, tok_spec, cons_tok, run_len, parse_num_spec,
};

verus! {

/// A fully parenthesized expression: a number, or a parenthesized
/// application of a binary operator to two such expressions.
pub enum Expr {
    Lit(Rational),
    Node(Box<Expr>, Tokens, Box<Expr>),
}

/// Every operator is a binary operator token and every number is a
/// well-formed rational.
pub open spec fn expr_wf(e: Expr) -> bool
    decreases e,
{
    match e {
        Expr::Lit(q) => rat_wf(q),
        Expr::Node(l, op, r) => is_binop(op) && expr_wf(*l) && expr_wf(*r),
    }
}

/// The infix token sequence of the expression, with explicit parentheses
/// around every operator application.
pub open spec fn infix_tokens(e: Expr) -> Seq<Tokens>
    decreases e,
{
    match e {
        Expr::Lit(q) => seq![Tokens::Number(q)],
        Expr::Node(l, op, r) => seq![Tokens::OpenParen] + infix_tokens(*l) + seq![op]
            + infix_tokens(*r) + seq![Tokens::CloseParen],
    }
}

/// The postfix token sequence of the expression.
pub open spec fn postfix_tokens(e: Expr) -> Seq<Tokens>
    decreases e,
{
    match e {
        Expr::Lit(q) => seq![Tokens::Number(q)],
        Expr::Node(l, op, r) => postfix_tokens(*l) + postfix_tokens(*r) + seq![op],
    }
}

/// Recursive evaluation of the expression, following its explicit
/// grouping.
pub open spec fn eval_expr(e: Expr) -> Result<Rational, Error>
    decreases e,
{
    match e {
        Expr::Lit(q) => Ok(q),
        Expr::Node(l, op, r) => match eval_expr(*l) {
            Err(er) => Err(er),
            Ok(x) => match eval_expr(*r) {
                Err(er) => Err(er),
                Ok(y) => apply_op(op, x, y),
            },
        },
    }
}

proof fn lemma_shunt_run_expr(
    input: Seq<Tokens>,
    i: int,
    e: Expr,
    stack: Seq<Tokens>,
    out: Seq<Tokens>,
)
    requires
        expr_wf(e),
        0 <= i,
        i + infix_tokens(e).len() <= input.len(),
        input.subrange(i, i + infix_tokens(e).len()) == infix_tokens(e),
    ensures
        shunt_run(input, i, stack, out) == shunt_run(
            input,
            i + infix_tokens(e).len(),
            stack,
            out + postfix_tokens(e),
        ),
    decreases e,
{
    match e {
        Expr::Lit(q) => {
            assert(input[i] == infix_tokens(e)[0]);
            assert(out.push(Tokens::Number(q)) =~= out + postfix_tokens(e));
        },
        Expr::Node(l, op, r) => {
            let ti = infix_tokens(e);
            let il = infix_tokens(*l);
            let ir = infix_tokens(*r);
            let i1 = i + 1 + il.len();
            let i2 = i1 + 1 + ir.len();
            assert(input[i] == ti[0]);
            assert(input[i] is OpenParen);
            let st1 = stack.push(Tokens::OpenParen);
            assert(input.subrange(i + 1, i + 1 + il.len() as int) =~= il) by {
                assert forall|k: int| 0 <= k < il.len() implies input.subrange(
                    i + 1,
                    i + 1 + il.len() as int,
                )[k] == il[k] by {
                    assert(input[i + 1 + k] == ti[1 + k]);
                }
            }
            lemma_shunt_run_expr(input, i + 1, *l, st1, out);
            let o1 = out + postfix_tokens(*l);
            assert(input[i1] == ti[1 + il.len() as int]);
            assert(input[i1] == op);
            assert(pop_ops(st1, o1, prec_spec(op)) == (st1, o1));
            let st2 = st1.push(op);
            assert(input.subrange(i1 + 1, i1 + 1 + ir.len() as int) =~= ir) by {
                assert forall|k: int| 0 <= k < ir.len() implies input.subrange(
                    i1 + 1,
                    i1 + 1 + ir.len() as int,
                )[k] == ir[k] by {
                    assert(input[i1 + 1 + k] == ti[2 + il.len() + k]);
                }
            }
            lemma_shunt_run_expr(input, i1 + 1, *r, st2, o1);
            let o2 = o1 + postfix_tokens(*r);
            assert(input[i2] == ti[2 + il.len() + ir.len() as int]);
            assert(input[i2] is CloseParen);
            assert(st2.last() == op);
            assert(!(op is OpenParen));
            assert(st2.drop_last() =~= st1);
            assert(st2.len() >= 1);
            assert(pop_to_open(st2, o2) == pop_to_open(st1, o2.push(op)));
            assert(st1.last() is OpenParen);
            assert(st1.drop_last() =~= stack);
            assert(pop_to_open(st1, o2.push(op)) == Ok::<(Seq<Tokens>, Seq<Tokens>), Error>(
                (stack, o2.push(op)),
            ));
            assert(o2.push(op) =~= out + postfix_tokens(e));
            assert(i2 + 1 == i + ti.len());
        },
    }
}

proof fn lemma_eval_run_expr(input: Seq<Tokens>, i: int, e: Expr, stack: Seq<Tokens>)
    requires
        expr_wf(e),
        0 <= i,
        i + postfix_tokens(e).len() <= input.len(),
        input.subrange(i, i + postfix_tokens(e).len()) == postfix_tokens(e),
    ensures
        eval_run(input, i, stack) == (match eval_expr(e) {
            Ok(v) => eval_run(input, i + postfix_tokens(e).len(), stack.push(Tokens::Number(v))),
            Err(er) => Err::<Tokens, Error>(er),
        }),
    decreases e,
{
    match e {
        Expr::Lit(q) => {
            assert(input[i] == postfix_tokens(e)[0]);
        },
        Expr::Node(l, op, r) => {
            let tp = postfix_tokens(e);
            let pl = postfix_tokens(*l);
            let pr = postfix_tokens(*r);
            let i1 = i + pl.len();
            let i2 = i1 + pr.len();
            assert(input.subrange(i, i + pl.len() as int) =~= pl) by {
                assert forall|k: int| 0 <= k < pl.len() implies input.subrange(
                    i,
                    i + pl.len() as int,
                )[k] == pl[k] by {
                    assert(input[i + k] == tp[k]);
                }
            }
            lemma_eval_run_expr(input, i, *l, stack);
            match eval_expr(*l) {
                Err(_) => {},
                Ok(x) => {
                    let st1 = stack.push(Tokens::Number(x));
                    assert(input.subrange(i1, i1 + pr.len() as int) =~= pr) by {
                        assert forall|k: int| 0 <= k < pr.len() implies input.subrange(
                            i1,
                            i1 + pr.len() as int,
                        )[k] == pr[k] by {
                            assert(input[i1 + k] == tp[pl.len() + k]);
                        }
                    }
                    lemma_eval_run_expr(input, i1, *r, st1);
                    match eval_expr(*r) {
                        Err(_) => {},
                        Ok(y) => {
                            let st2 = st1.push(Tokens::Number(y));
                            assert(input[i2] == tp[pl.len() + pr.len() as int]);
                            assert(input[i2] == op);
                            assert(!(op is Number));
                            assert(st2.len() >= 2);
                            assert(st2.last() == Tokens::Number(y));
                            assert(st2[st2.len() - 2] == Tokens::Number(x));
                            match apply_op(op, x, y) {
                                Err(_) => {},
                                Ok(v) => {
                                    assert(st2.drop_last().drop_last() =~= stack);
                                    assert(i2 + 1 == i + tp.len());
                                },
                            }
                        },
                    }
                },
            }
        },
    }
}

/// For every valid fully parenthesized expression, the pipeline follows
/// the explicit grouping: the resolver turns its infix tokens into exactly
/// its postfix tokens, and the evaluator computes exactly the recursive
/// evaluation of the expression tree.
pub proof fn lemma_fully_parenthesized(e: Expr)
    requires
        expr_wf(e),
    ensures
        shunt_spec(infix_tokens(e)) == Ok::<Seq<Tokens>, Error>(postfix_tokens(e)),
        eval_spec(postfix_tokens(e)) == (match eval_expr(e) {
            Ok(v) => Ok::<Tokens, Error>(Tokens::Number(v)),
            Err(er) => Err::<Tokens, Error>(er),
        }),
{
    let ti = infix_tokens(e);
    let tp = postfix_tokens(e);
    assert(ti.subrange(0, ti.len() as int) =~= ti);
    lemma_shunt_run_expr(ti, 0, e, Seq::empty(), Seq::empty());
    assert(Seq::<Tokens>::empty() + tp =~= tp);
    assert(shunt_run(ti, ti.len() as int, Seq::empty(), tp) == Ok::<
        (Seq<Tokens>, Seq<Tokens>),
        Error,
    >((Seq::empty(), tp)));
    assert(drain_stack(Seq::empty(), tp) == Ok::<Seq<Tokens>, Error>(tp));
    assert(tp.subrange(0, tp.len() as int) =~= tp);
    lemma_eval_run_expr(tp, 0, e, Seq::empty());
    match eval_expr(e) {
        Ok(v) => {
            let st = Seq::<Tokens>::empty().push(Tokens::Number(v));
            assert(st.last() == Tokens::Number(v));
        },
        Err(_) => {},
    }
}

/// Division or remainder by zero fails with `DivideByZero`, whatever the
/// dividend: at the single operator application, and over a whole postfix
/// program that divides `x` by zero.
pub proof fn lemma_divide_by_zero(op: Tokens, x: Rational, z: Rational)
    requires
        (op is Div) || (op is Mod),
        z.num == 0,
    ensures
        apply_op(op, x, z) == Err::<Rational, Error>(Error::DivideByZero),
        eval_spec(seq![Tokens::Number(x), Tokens::Number(z), op]) == Err::<Tokens, Error>(
            Error::DivideByZero,
        ),
{
    let s = seq![Tokens::Number(x), Tokens::Number(z), op];
    let st1 = Seq::<Tokens>::empty().push(Tokens::Number(x));
    let st2 = st1.push(Tokens::Number(z));
    assert(eval_run(s, 0, Seq::empty()) == eval_run(s, 1, st1));
    assert(eval_run(s, 1, st1) == eval_run(s, 2, st2));
    assert(st2.len() == 2);
    assert(st2.last() == Tokens::Number(z));
    assert(st2[0] == Tokens::Number(x));
    assert(eval_run(s, 2, st2) == Err::<Tokens, Error>(Error::DivideByZero));
}

/// The pipeline is a pure function of the input text: repeating a
/// calculation on the same text yields the identical result.
pub proof fn lemma_calculate_repeatable(s1: Seq<char>, s2: Seq<char>)
    requires
        s1 == s2,
    ensures
        calculate_spec(s1) == calculate_spec(s2),
{
}

proof fn lemma_eval_run_ok_is_number(input: Seq<Tokens>, i: int, stack: Seq<Tokens>)
    ensures
        eval_run(input, i, stack) matches Ok(t) ==> t is Number,
    decreases input.len() - i,
{
    if i < 0 || i >= input.len() {
    } else {
        let t = input[i];
        if t is Number {
            lemma_eval_run_ok_is_number(input, i + 1, stack.push(t));
        } else if stack.len() >= 2 && stack.last() is Number && stack[stack.len() - 2] is Number {
            let y = stack.last()->Number_0;
            let x = stack[stack.len() - 2]->Number_0;
            match apply_op(t, x, y) {
                Err(_) => {},
                Ok(v) => {
                    lemma_eval_run_ok_is_number(
                        input,
                        i + 1,
                        stack.drop_last().drop_last().push(Tokens::Number(v)),
                    );
                },
            }
        }
    }
}

/// A calculation that succeeds always yields a number token.
pub proof fn lemma_calculate_ok_is_number(s: Seq<char>)
    ensures
        calculate_spec(s) matches Ok(t) ==> t is Number,
{
    match tok_spec(s, 0) {
        Err(_) => {},
        Ok(ts) => match shunt_spec(ts) {
            Err(_) => {},
            Ok(ps) => {
                lemma_eval_run_ok_is_number(ps, 0, Seq::empty());
            },
        },
    }
}

proof fn lemma_tok_spec_err(s: Seq<char>, i: int)
    ensures
        tok_spec(s, i) matches Err(e) ==> e == Error::InvalidNumber,
    decreases s.len() - i,
{
    if i < 0 || i >= s.len() {
    } else {
        let c = s[i];
        if c == '+' || c == '-' || c == '*' || c == '/' || c == '%' || c == '^' || c == '('
            || c == ')' {
            lemma_tok_spec_err(s, i + 1);
        } else if crate::calc::is_num_char(c) {
            let k = run_len(s, i);
            crate::calc::lemma_run_len_in_range(s, i);
            match parse_num_spec(s.subrange(i, i + k)) {
                None => {},
                Some(_) => {
                    lemma_tok_spec_err(s, i + k);
                },
            }
        }
    }
}

/// The lexer fails only on a bad number literal: any error it returns is
/// `InvalidNumber`.
pub proof fn lemma_lexing_error_is_invalid_number(s: Seq<char>)
    ensures
        tok_spec(s, 0) matches Err(e) ==> e == Error::InvalidNumber,
{
    lemma_tok_spec_err(s, 0);
}

} // verus!

