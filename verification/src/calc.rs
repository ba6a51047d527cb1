//! The expression pipeline: lexer, shunting-yard resolver, postfix evaluator.

use vstd::prelude::*;
use vstd::string::StrSliceExecFns;
use crate::rational::{Rational, rat_wf};

verus! {

/// A lexical token: a number or a single-character symbol.
#[derive(Clone, Copy, Debug, PartialEq, Eq, Structural)]
pub enum Tokens {
    Number(Rational),
    Add,
    Sub,
    Mul,
    Div,
    Mod,
    Pow,
    OpenParen,
    CloseParen,
}

/// A classified evaluation failure.
#[derive(Clone, Copy, Debug, PartialEq, Eq, Structural)]
pub enum Error {
    InvalidResult,
    InvalidOperation,
    DivideByZero,
    TooManyOperations,
    UnmatchedParenthesis,
    InvalidNumber,
    NotRepresentable,
}

/// An ASCII digit.
pub open spec fn is_digit_char(c: char) -> bool {
    48 <= c as u32 && c as u32 <= 57
}

/// A character that may stand in a number literal: an ASCII digit or a dot.
pub open spec fn is_num_char(c: char) -> bool {
    is_digit_char(c) || c == '.'
}

/// The numeric value of an ASCII digit.
pub open spec fn digit_val(c: char) -> int {
    c as u32 - 48
}

/// The length of the maximal run of number-literal characters starting at
/// position `i`.
pub open spec fn run_len(s: Seq<char>, i: int) -> int
    decreases s.len() - i,
{
    if 0 <= i < s.len() && is_num_char(s[i]) {
        1 + run_len(s, i + 1)
    } else {
        0
    }
}

pub proof fn lemma_run_len_in_range(s: Seq<char>, i: int)
    requires
        0 <= i <= s.len(),
    ensures
        0 <= run_len(s, i) <= s.len() - i,
    decreases s.len() - i,
{
    if i < s.len() && is_num_char(s[i]) {
        lemma_run_len_in_range(s, i + 1);
    }
}

/// One step of the left-to-right scan of a number literal: `val` is the
/// digits read so far as a whole number, `den` the power of ten that scales
/// the digits read after the dot. The scan fails on a second dot, on a
/// character that is neither digit nor dot, on a literal without any digit,
/// and when a component exceeds `u128::MAX`.
pub open spec fn scan_num(
    s: Seq<char>,
    i: int,
    val: int,
    den: int,
    seen_dot: bool,
    has_digit: bool,
) -> Option<(int, int)>
    decreases s.len() - i,
{
    if i < 0 || i >= s.len() {
        if has_digit {
            Some((val, den))
        } else {
            None
        }
    } else {
        let c = s[i];
        if is_digit_char(c) {
            let v2 = val * 10 + digit_val(c);
            let d2 = if seen_dot {
                den * 10
            } else {
                den
            };
            if v2 > u128::MAX || d2 > u128::MAX {
                None
            } else {
                scan_num(s, i + 1, v2, d2, seen_dot, true)
            }
        } else if c == '.' {
            if seen_dot {
                None
            } else {
                scan_num(s, i + 1, val, den, true, has_digit)
            }
        } else {
            None
        }
    }
}

/// The exact rational value of a number literal, read as a decimal.
pub open spec fn parse_num_spec(s: Seq<char>) -> Option<Rational> {
    match scan_num(s, 0, 0, 1, false, false) {
        None => None,
        Some((v, d)) => Some(Rational { neg: false, num: v as u128, den: d as u128 }),
    }
}

/// Every `Number` token in the sequence holds a well-formed rational.
pub open spec fn tokens_wf(ts: Seq<Tokens>) -> bool {
    forall|j: int|
        0 <= j < ts.len() ==> ((#[trigger] ts[j]) matches Tokens::Number(q) ==> rat_wf(q))
}

/// Prepends a token to the output of the lexer, keeping an error as it is.
pub open spec fn cons_tok(t: Tokens, rest: Result<Seq<Tokens>, Error>) -> Result<
    Seq<Tokens>,
    Error,
> {
    match rest {
        Ok(ts) => Ok(seq![t] + ts),
        Err(e) => Err(e),
    }
}

/// The token sequence lexed from position `i` on. Each single-character
/// symbol maps to its token; a digit or dot begins a greedy number literal;
/// any other character (whitespace included) halts the scan, which then
/// succeeds with the tokens read so far.
pub open spec fn tok_spec(s: Seq<char>, i: int) -> Result<Seq<Tokens>, Error>
    decreases s.len() - i,
        via tok_spec_dec
{
    if i < 0 || i >= s.len() {
        Ok(Seq::empty())
    } else {
        let c = s[i];
        if c == '+' {
            cons_tok(Tokens::Add, tok_spec(s, i + 1))
        } else if c == '-' {
            cons_tok(Tokens::Sub, tok_spec(s, i + 1))
        } else if c == '*' {
            cons_tok(Tokens::Mul, tok_spec(s, i + 1))
        } else if c == '/' {
            cons_tok(Tokens::Div, tok_spec(s, i + 1))
        } else if c == '%' {
            cons_tok(Tokens::Mod, tok_spec(s, i + 1))
        } else if c == '^' {
            cons_tok(Tokens::Pow, tok_spec(s, i + 1))
        } else if c == '(' {
            cons_tok(Tokens::OpenParen, tok_spec(s, i + 1))
        } else if c == ')' {
            cons_tok(Tokens::CloseParen, tok_spec(s, i + 1))
        } else if is_num_char(c) {
            let k = run_len(s, i);
            match parse_num_spec(s.subrange(i, i + k)) {
                None => Err(Error::InvalidNumber),
                Some(q) => cons_tok(Tokens::Number(q), tok_spec(s, i + k)),
            }
        } else {
            Ok(Seq::empty())
        }
    }
}

#[via_fn]
proof fn tok_spec_dec(s: Seq<char>, i: int) {
    if 0 <= i <= s.len() {
        lemma_run_len_in_range(s, i);
    }
}

/// The view of an executable lexer result.
pub open spec fn toks_view(r: Result<Vec<Tokens>, Error>) -> Result<Seq<Tokens>, Error> {
    match r {
        Ok(v) => Ok(v@),
        Err(e) => Err(e),
    }
}

/// Prepends already-emitted tokens to the lexer's remaining output.
spec fn prepend_toks(pre: Seq<Tokens>, rest: Result<Seq<Tokens>, Error>) -> Result<
    Seq<Tokens>,
    Error,
> {
    match rest {
        Ok(ts) => Ok(pre + ts),
        Err(e) => Err(e),
    }
}

proof fn lemma_tok_step(s: Seq<char>, i: int, next: int, pre: Seq<Tokens>, t: Tokens)
    requires
        tok_spec(s, i) == cons_tok(t, tok_spec(s, next)),
        prepend_toks(pre, tok_spec(s, i)) == tok_spec(s, 0),
        tokens_wf(pre),
        t matches Tokens::Number(q) ==> rat_wf(q),
    ensures
        prepend_toks(pre.push(t), tok_spec(s, next)) == tok_spec(s, 0),
        tokens_wf(pre.push(t)),
{
    match tok_spec(s, next) {
        Ok(ts) => {
            assert(pre + (seq![t] + ts) =~= pre.push(t) + ts);
        },
        Err(_) => {},
    }
    assert forall|j: int| 0 <= j < pre.push(t).len() implies ((#[trigger] pre.push(t)[j]) matches
        Tokens::Number(q) ==> rat_wf(q)) by {
        if j < pre.len() {
            assert(pre.push(t)[j] == pre[j]);
        }
    }
}

/// Returns whether the character may stand in a number literal.
fn is_num_char_exec(c: char) -> (b: bool)
    ensures
        b == is_num_char(c),
{
    let u = c as u32;
    (48 <= u && u <= 57) || c == '.'
}

/// Collects the maximal run of number-literal characters starting at
/// `start`.
pub fn getstr(input: &str, start: usize) -> (r: Vec<char>)
    requires
        start <= input@.len(),
    ensures
        r@.len() == run_len(input@, start as int),
        r@ == input@.subrange(start as int, start as int + r@.len()),
        start + r@.len() <= input@.len(),
{
    let n = input.unicode_len();
    let mut v: Vec<char> = Vec::new();
    let mut i: usize = start;
    while i < n && is_num_char_exec(input.get_char(i))
        invariant
            start <= i <= n,
            n == input@.len(),
            v@.len() == i - start,
            v@ == input@.subrange(start as int, i as int),
            run_len(input@, start as int) == (i - start) + run_len(input@, i as int),
        decreases n - i,
    {
        let c = input.get_char(i);
        v.push(c);
        i = i + 1;
        proof {
            assert(v@ =~= input@.subrange(start as int, i as int));
        }
    }
    proof {
        assert(run_len(input@, i as int) == 0);
    }
    v
}

/// Reads a number literal as an exact decimal. A literal with more than one
/// dot, without any digit, or too large for the number model is rejected
/// with `InvalidNumber`.
pub fn parse_number(run: &Vec<char>) -> (r: Result<Rational, Error>)
    ensures
        r == (match parse_num_spec(run@) {
            Some(q) => Ok::<Rational, Error>(q),
            None => Err::<Rational, Error>(Error::InvalidNumber),
        }),
        r matches Ok(q) ==> rat_wf(q),
{
    let mut val: u128 = 0;
    let mut den: u128 = 1;
    let mut seen_dot = false;
    let mut has_digit = false;
    let mut i: usize = 0;
    while i < run.len()
        invariant
            0 <= i <= run@.len(),
            1 <= den,
            scan_num(run@, 0, 0, 1, false, false) == scan_num(
                run@,
                i as int,
                val as int,
                den as int,
                seen_dot,
                has_digit,
            ),
        decreases run@.len() - i,
    {
        let c = run[i];
        let u = c as u32;
        if 48 <= u && u <= 57 {
            let dv = (u - 48) as u128;
            let v1 = match val.checked_mul(10) {
                Some(x) => x,
                None => {
                    return Err(Error::InvalidNumber);
                },
            };
            let v2 = match v1.checked_add(dv) {
                Some(x) => x,
                None => {
                    return Err(Error::InvalidNumber);
                },
            };
            if seen_dot {
                den = match den.checked_mul(10) {
                    Some(x) => x,
                    None => {
                        return Err(Error::InvalidNumber);
                    },
                };
            }
            val = v2;
            has_digit = true;
            i = i + 1;
        } else if c == '.' {
            if seen_dot {
                return Err(Error::InvalidNumber);
            }
            seen_dot = true;
            i = i + 1;
        } else {
            return Err(Error::InvalidNumber);
        }
    }
    if has_digit {
        Ok(Rational { neg: false, num: val, den: den })
    } else {
        Err(Error::InvalidNumber)
    }
}

/// Lexes the input left to right. Never fails except on a malformed or
/// oversized number literal; whitespace and unrecognized characters halt
/// the scan, returning the tokens read so far.
pub fn tokenize(input: &str) -> (r: Result<Vec<Tokens>, Error>)
    ensures
        toks_view(r) == tok_spec(input@, 0),
        r matches Ok(v) ==> tokens_wf(v@),
{
    let n = input.unicode_len();
    let mut result: Vec<Tokens> = Vec::new();
    let mut i: usize = 0;
    let mut done = false;
    while !done && i < n
        invariant
            0 <= i <= n,
            n == input@.len(),
            tokens_wf(result@),
            prepend_toks(result@, tok_spec(input@, i as int)) == tok_spec(input@, 0),
            done ==> tok_spec(input@, i as int) == Ok::<Seq<Tokens>, Error>(Seq::empty()),
        decreases (if done { 0int } else { 1int }), n - i,
    {
        let c = input.get_char(i);
        if c == '+' {
            proof {
                lemma_tok_step(input@, i as int, i + 1, result@, Tokens::Add);
            }
            result.push(Tokens::Add);
            i = i + 1;
        } else if c == '-' {
            proof {
                lemma_tok_step(input@, i as int, i + 1, result@, Tokens::Sub);
            }
            result.push(Tokens::Sub);
            i = i + 1;
        } else if c == '*' {
            proof {
                lemma_tok_step(input@, i as int, i + 1, result@, Tokens::Mul);
            }
            result.push(Tokens::Mul);
            i = i + 1;
        } else if c == '/' {
            proof {
                lemma_tok_step(input@, i as int, i + 1, result@, Tokens::Div);
            }
            result.push(Tokens::Div);
            i = i + 1;
        } else if c == '%' {
            proof {
                lemma_tok_step(input@, i as int, i + 1, result@, Tokens::Mod);
            }
            result.push(Tokens::Mod);
            i = i + 1;
        } else if c == '^' {
            proof {
                lemma_tok_step(input@, i as int, i + 1, result@, Tokens::Pow);
            }
            result.push(Tokens::Pow);
            i = i + 1;
        } else if c == '(' {
            proof {
                lemma_tok_step(input@, i as int, i + 1, result@, Tokens::OpenParen);
            }
            result.push(Tokens::OpenParen);
            i = i + 1;
        } else if c == ')' {
            proof {
                lemma_tok_step(input@, i as int, i + 1, result@, Tokens::CloseParen);
            }
            result.push(Tokens::CloseParen);
            i = i + 1;
        } else if is_num_char_exec(c) {
            let run = getstr(input, i);
            proof {
                lemma_run_len_in_range(input@, i as int);
            }
            match parse_number(&run) {
                Err(e) => {
                    proof {
                        assert(input@.subrange(i as int, i + run_len(input@, i as int)) == run@);
                    }
                    return Err(e);
                },
                Ok(q) => {
                    proof {
                        assert(input@.subrange(i as int, i + run_len(input@, i as int)) == run@);
                        lemma_tok_step(
                            input@,
                            i as int,
                            i + run.len(),
                            result@,
                            Tokens::Number(q),
                        );
                    }
                    result.push(Tokens::Number(q));
                    i = i + run.len();
                },
            }
        } else {
            done = true;
        }
    }
    proof {
        assert(result@ + Seq::<Tokens>::empty() =~= result@);
    }
    Ok(result)
}

/// The precedence rank of a token; a lower rank binds tighter. Parentheses
/// carry a sentinel rank that no operator reaches.
pub open spec fn prec_spec(t: Tokens) -> int {
    match t {
        Tokens::Number(_) => 0,
        Tokens::Add => 4,
        Tokens::Sub => 4,
        Tokens::Mul => 3,
        Tokens::Div => 3,
        Tokens::Mod => 3,
        Tokens::Pow => 2,
        Tokens::OpenParen => 10,
        Tokens::CloseParen => 10,
    }
}

/// A binary operator token.
pub open spec fn is_binop(t: Tokens) -> bool {
    (t is Add) || (t is Sub) || (t is Mul) || (t is Div) || (t is Mod) || (t is Pow)
}

/// The precedence rank of a token.
pub fn precedence(token: &Tokens) -> (p: i32)
    ensures
        p == prec_spec(*token),
{
    match token {
        Tokens::Number(_) => 0,
        Tokens::Add => 4,
        Tokens::Sub => 4,
        Tokens::Mul => 3,
        Tokens::Div => 3,
        Tokens::Mod => 3,
        Tokens::Pow => 2,
        Tokens::OpenParen => 10,
        Tokens::CloseParen => 10,
    }
}

/// For an incoming operator of rank `p`, pops to the output every stacked
/// operator that binds at least as tightly (rank at most `p`; a lower rank
/// binds tighter). Popping on equal rank makes operators left-associative.
/// An open parenthesis stops the popping through its sentinel rank, which
/// no operator rank reaches.
pub open spec fn pop_ops(stack: Seq<Tokens>, out: Seq<Tokens>, p: int) -> (Seq<Tokens>, Seq<
    Tokens,
>)
    decreases stack.len(),
{
    if stack.len() == 0 {
        (stack, out)
    } else if prec_spec(stack.last()) <= p {
        pop_ops(stack.drop_last(), out.push(stack.last()), p)
    } else {
        (stack, out)
    }
}

/// Pops the stack to the output until an open parenthesis is popped and
/// discarded; fails when the stack empties first.
pub open spec fn pop_to_open(stack: Seq<Tokens>, out: Seq<Tokens>) -> Result<
    (Seq<Tokens>, Seq<Tokens>),
    Error,
>
    decreases stack.len(),
{
    if stack.len() == 0 {
        Err(Error::UnmatchedParenthesis)
    } else if stack.last() is OpenParen {
        Ok((stack.drop_last(), out))
    } else {
        pop_to_open(stack.drop_last(), out.push(stack.last()))
    }
}

/// Pops all remaining stack entries to the output once the input is
/// exhausted; an open parenthesis left on the stack was never closed.
pub open spec fn drain_stack(stack: Seq<Tokens>, out: Seq<Tokens>) -> Result<Seq<Tokens>, Error>
    decreases stack.len(),
{
    if stack.len() == 0 {
        Ok(out)
    } else if stack.last() is OpenParen {
        Err(Error::UnmatchedParenthesis)
    } else {
        drain_stack(stack.drop_last(), out.push(stack.last()))
    }
}

/// Runs the shunting-yard pass over the input from position `i`, with the
/// given operator stack and output, and returns the final stack and output.
pub open spec fn shunt_run(input: Seq<Tokens>, i: int, stack: Seq<Tokens>, out: Seq<Tokens>) -> Result<
    (Seq<Tokens>, Seq<Tokens>),
    Error,
>
    decreases input.len() - i,
{
    if i < 0 || i >= input.len() {
        Ok((stack, out))
    } else {
        let t = input[i];
        match t {
            Tokens::Number(_) => shunt_run(input, i + 1, stack, out.push(t)),
            Tokens::OpenParen => shunt_run(input, i + 1, stack.push(t), out),
            Tokens::CloseParen => match pop_to_open(stack, out) {
                Err(e) => Err(e),
                Ok((s2, o2)) => shunt_run(input, i + 1, s2, o2),
            },
            _ => {
                let (s2, o2) = pop_ops(stack, out, prec_spec(t));
                shunt_run(input, i + 1, s2.push(t), o2)
            },
        }
    }
}

/// The postfix (reverse Polish) form of the infix token sequence.
pub open spec fn shunt_spec(input: Seq<Tokens>) -> Result<Seq<Tokens>, Error> {
    match shunt_run(input, 0, Seq::empty(), Seq::empty()) {
        Err(e) => Err(e),
        Ok((stack, out)) => drain_stack(stack, out),
    }
}

/// Returns whether the token is an open parenthesis.
fn is_open_paren(t: &Tokens) -> (b: bool)
    ensures
        b == (*t is OpenParen),
{
    match t {
        Tokens::OpenParen => true,
        _ => false,
    }
}

/// Reorders an infix token sequence into postfix order, resolving operator
/// precedence and left-associativity with an operator stack.
pub fn shunting_yard(input: Vec<Tokens>) -> (r: Result<Vec<Tokens>, Error>)
    ensures
        toks_view(r) == shunt_spec(input@),
{
    let mut queue: Vec<Tokens> = Vec::new();
    let mut output: Vec<Tokens> = Vec::new();
    let mut idx: usize = 0;
    while idx < input.len()
        invariant
            0 <= idx <= input@.len(),
            shunt_run(input@, 0, Seq::empty(), Seq::empty()) == shunt_run(
                input@,
                idx as int,
                queue@,
                output@,
            ),
        decreases input@.len() - idx,
    {
        let token = input[idx];
        match token {
            Tokens::Number(_) => {
                output.push(token);
            },
            Tokens::OpenParen => {
                queue.push(token);
            },
            Tokens::CloseParen => {
                let ghost q0 = queue@;
                let ghost o0 = output@;
                while queue.len() > 0 && !is_open_paren(&queue[queue.len() - 1])
                    invariant
                        pop_to_open(queue@, output@) == pop_to_open(q0, o0),
                    decreases queue@.len(),
                {
                    let t = queue.pop().unwrap();
                    output.push(t);
                }
                if queue.len() == 0 {
                    return Err(Error::UnmatchedParenthesis);
                }
                let _discarded = queue.pop();
            },
            _ => {
                let ghost q0 = queue@;
                let ghost o0 = output@;
                while queue.len() > 0 && precedence(&queue[queue.len() - 1]) <= precedence(&token)
                    invariant
                        pop_ops(queue@, output@, prec_spec(token)) == pop_ops(
                            q0,
                            o0,
                            prec_spec(token),
                        ),
                    decreases queue@.len(),
                {
                    let t = queue.pop().unwrap();
                    output.push(t);
                }
                queue.push(token);
            },
        }
        idx = idx + 1;
    }
    let ghost q1 = queue@;
    let ghost o1 = output@;
    while queue.len() > 0 && !is_open_paren(&queue[queue.len() - 1])
        invariant
            drain_stack(queue@, output@) == drain_stack(q1, o1),
        decreases queue@.len(),
    {
        let t = queue.pop().unwrap();
        output.push(t);
    }
    if queue.len() > 0 {
        return Err(Error::UnmatchedParenthesis);
    }
    Ok(output)
}

/// A token sequence fit for the postfix evaluator: no parentheses, and
/// every number well-formed.
pub open spec fn rpn_ok(ts: Seq<Tokens>) -> bool {
    forall|j: int|
        0 <= j < ts.len() ==> {
            &&& !((#[trigger] ts[j]) is OpenParen)
            &&& !(ts[j] is CloseParen)
            &&& (ts[j] matches Tokens::Number(q) ==> rat_wf(q))
        }
}

/// The operator stack holds operators and open parentheses only.
spec fn shunt_stack_ok(st: Seq<Tokens>) -> bool {
    forall|j: int| 0 <= j < st.len() ==> is_binop(#[trigger] st[j]) || st[j] is OpenParen
}

proof fn lemma_pop_ops_ok(stack: Seq<Tokens>, out: Seq<Tokens>, p: int)
    requires
        shunt_stack_ok(stack),
        rpn_ok(out),
        p < prec_spec(Tokens::OpenParen),
    ensures
        shunt_stack_ok(pop_ops(stack, out, p).0),
        rpn_ok(pop_ops(stack, out, p).1),
    decreases stack.len(),
{
    if stack.len() == 0 || prec_spec(stack.last()) > p {
    } else {
        assert(rpn_ok(out.push(stack.last())));
        lemma_pop_ops_ok(stack.drop_last(), out.push(stack.last()), p);
    }
}

proof fn lemma_pop_to_open_ok(stack: Seq<Tokens>, out: Seq<Tokens>)
    requires
        shunt_stack_ok(stack),
        rpn_ok(out),
    ensures
        pop_to_open(stack, out) matches Ok(so) ==> shunt_stack_ok(so.0) && rpn_ok(so.1),
    decreases stack.len(),
{
    if stack.len() == 0 || stack.last() is OpenParen {
    } else {
        assert(rpn_ok(out.push(stack.last())));
        lemma_pop_to_open_ok(stack.drop_last(), out.push(stack.last()));
    }
}

proof fn lemma_drain_stack_ok(stack: Seq<Tokens>, out: Seq<Tokens>)
    requires
        shunt_stack_ok(stack),
        rpn_ok(out),
    ensures
        drain_stack(stack, out) matches Ok(o) ==> rpn_ok(o),
    decreases stack.len(),
{
    if stack.len() == 0 || stack.last() is OpenParen {
    } else {
        assert(rpn_ok(out.push(stack.last())));
        lemma_drain_stack_ok(stack.drop_last(), out.push(stack.last()));
    }
}

proof fn lemma_shunt_run_ok(input: Seq<Tokens>, i: int, stack: Seq<Tokens>, out: Seq<Tokens>)
    requires
        tokens_wf(input),
        shunt_stack_ok(stack),
        rpn_ok(out),
    ensures
        shunt_run(input, i, stack, out) matches Ok(so) ==> shunt_stack_ok(so.0) && rpn_ok(so.1),
    decreases input.len() - i,
{
    if i < 0 || i >= input.len() {
    } else {
        let t = input[i];
        match t {
            Tokens::Number(_) => {
                assert(rpn_ok(out.push(t)));
                lemma_shunt_run_ok(input, i + 1, stack, out.push(t));
            },
            Tokens::OpenParen => {
                assert(shunt_stack_ok(stack.push(t)));
                lemma_shunt_run_ok(input, i + 1, stack.push(t), out);
            },
            Tokens::CloseParen => {
                lemma_pop_to_open_ok(stack, out);
                match pop_to_open(stack, out) {
                    Err(_) => {},
                    Ok((s2, o2)) => {
                        lemma_shunt_run_ok(input, i + 1, s2, o2);
                    },
                }
            },
            _ => {
                lemma_pop_ops_ok(stack, out, prec_spec(t));
                let (s2, o2) = pop_ops(stack, out, prec_spec(t));
                assert(shunt_stack_ok(s2.push(t)));
                lemma_shunt_run_ok(input, i + 1, s2.push(t), o2);
            },
        }
    }
}

/// The output of the resolver is fit for the evaluator: it holds no
/// parentheses, and its numbers stay well-formed.
pub proof fn lemma_shunt_spec_ok(input: Seq<Tokens>)
    requires
        tokens_wf(input),
    ensures
        shunt_spec(input) matches Ok(out) ==> rpn_ok(out),
{
    lemma_shunt_run_ok(input, 0, Seq::empty(), Seq::empty());
    match shunt_run(input, 0, Seq::empty(), Seq::empty()) {
        Err(_) => {},
        Ok((st, o)) => {
            lemma_drain_stack_ok(st, o);
        },
    }
}

/// Applies a binary operator to the two topmost stack values: `x` is the
/// second value from the top, `y` the top. Division and remainder by zero
/// fail with `DivideByZero`; a result outside the number model fails with
/// `NotRepresentable`.
pub open spec fn apply_op(op: Tokens, x: Rational, y: Rational) -> Result<Rational, Error> {
    match op {
        Tokens::Add => opt_to_res(crate::rational::rat_add_spec(x, y)),
        Tokens::Sub => opt_to_res(crate::rational::rat_sub_spec(x, y)),
        Tokens::Mul => opt_to_res(crate::rational::rat_mul_spec(x, y)),
        Tokens::Div => if y.num == 0 {
            Err(Error::DivideByZero)
        } else {
            opt_to_res(crate::rational::rat_div_spec(x, y))
        },
        Tokens::Mod => if y.num == 0 {
            Err(Error::DivideByZero)
        } else {
            opt_to_res(crate::rational::rat_rem_spec(x, y))
        },
        Tokens::Pow => opt_to_res(crate::rational::rat_pow_spec(x, y)),
        _ => Err(Error::InvalidOperation),
    }
}

/// Maps an out-of-model arithmetic result to `NotRepresentable`.
pub open spec fn opt_to_res(o: Option<Rational>) -> Result<Rational, Error> {
    match o {
        Some(q) => Ok(q),
        None => Err(Error::NotRepresentable),
    }
}

/// Evaluates a postfix token sequence from position `i` with the given
/// value stack. Only the top of the final stack is inspected, as values
/// left beneath it are ignored.
pub open spec fn eval_run(input: Seq<Tokens>, i: int, stack: Seq<Tokens>) -> Result<Tokens, Error>
    decreases input.len() - i,
{
    if i < 0 || i >= input.len() {
        if stack.len() == 0 {
            Err(Error::InvalidResult)
        } else if stack.last() is Number {
            Ok(stack.last())
        } else {
            Err(Error::InvalidResult)
        }
    } else {
        let t = input[i];
        if t is Number {
            eval_run(input, i + 1, stack.push(t))
        } else {
            if stack.len() == 0 {
                Err(Error::TooManyOperations)
            } else if !(stack.last() is Number) {
                Err(Error::InvalidOperation)
            } else if stack.len() == 1 {
                Err(Error::TooManyOperations)
            } else if !(stack[stack.len() - 2] is Number) {
                Err(Error::InvalidOperation)
            } else {
                let y = stack.last()->Number_0;
                let x = stack[stack.len() - 2]->Number_0;
                match apply_op(t, x, y) {
                    Err(e) => Err(e),
                    Ok(v) => eval_run(
                        input,
                        i + 1,
                        stack.drop_last().drop_last().push(Tokens::Number(v)),
                    ),
                }
            }
        }
    }
}

/// The result of evaluating a postfix token sequence.
pub open spec fn eval_spec(input: Seq<Tokens>) -> Result<Tokens, Error> {
    eval_run(input, 0, Seq::empty())
}

/// Applies a binary operator to two operand values.
pub fn apply_op_exec(op: Tokens, x: Rational, y: Rational) -> (r: Result<Rational, Error>)
    requires
        rat_wf(x),
        rat_wf(y),
    ensures
        r == apply_op(op, x, y),
        r matches Ok(q) ==> rat_wf(q),
{
    match op {
        Tokens::Add => match crate::rational::rat_add(x, y) {
            Some(q) => Ok(q),
            None => Err(Error::NotRepresentable),
        },
        Tokens::Sub => match crate::rational::rat_sub(x, y) {
            Some(q) => Ok(q),
            None => Err(Error::NotRepresentable),
        },
        Tokens::Mul => match crate::rational::rat_mul(x, y) {
            Some(q) => Ok(q),
            None => Err(Error::NotRepresentable),
        },
        Tokens::Div => {
            if y.num == 0 {
                Err(Error::DivideByZero)
            } else {
                match crate::rational::rat_div(x, y) {
                    Some(q) => Ok(q),
                    None => Err(Error::NotRepresentable),
                }
            }
        },
        Tokens::Mod => {
            if y.num == 0 {
                Err(Error::DivideByZero)
            } else {
                match crate::rational::rat_rem(x, y) {
                    Some(q) => Ok(q),
                    None => Err(Error::NotRepresentable),
                }
            }
        },
        Tokens::Pow => match crate::rational::rat_pow(x, y) {
            Some(q) => Ok(q),
            None => Err(Error::NotRepresentable),
        },
        _ => Err(Error::InvalidOperation),
    }
}

/// Evaluates a postfix token sequence with a value stack and returns the
/// number left on top, wrapped as a token.
pub fn rpn_calc(input: Vec<Tokens>) -> (r: Result<Tokens, Error>)
    requires
        rpn_ok(input@),
    ensures
        r == eval_spec(input@),
{
    let mut stack: Vec<Tokens> = Vec::new();
    let mut idx: usize = 0;
    while idx < input.len()
        invariant
            0 <= idx <= input@.len(),
            rpn_ok(input@),
            tokens_wf(stack@),
            eval_run(input@, 0, Seq::empty()) == eval_run(input@, idx as int, stack@),
        decreases input@.len() - idx,
    {
        let token = input[idx];
        match token {
            Tokens::Number(_) => {
                proof {
                    assert(tokens_wf(stack@.push(token))) by {
                        assert(forall|j: int|
                            0 <= j < stack@.len() ==> stack@.push(token)[j] == stack@[j]);
                    }
                }
                stack.push(token);
            },
            _ => {
                let op1 = match stack.pop() {
                    Some(Tokens::Number(v)) => v,
                    None => {
                        return Err(Error::TooManyOperations);
                    },
                    _ => {
                        return Err(Error::InvalidOperation);
                    },
                };
                let op2 = match stack.pop() {
                    Some(Tokens::Number(v)) => v,
                    None => {
                        return Err(Error::TooManyOperations);
                    },
                    _ => {
                        return Err(Error::InvalidOperation);
                    },
                };
                match apply_op_exec(token, op2, op1) {
                    Err(e) => {
                        return Err(e);
                    },
                    Ok(v) => {
                        proof {
                            assert(tokens_wf(stack@.push(Tokens::Number(v)))) by {
                                assert(forall|j: int|
                                    0 <= j < stack@.len() ==> stack@.push(Tokens::Number(v))[j]
                                        == stack@[j]);
                            }
                        }
                        stack.push(Tokens::Number(v));
                    },
                }
            },
        }
        idx = idx + 1;
    }
    match stack.pop() {
        Some(Tokens::Number(v)) => Ok(Tokens::Number(v)),
        _ => Err(Error::InvalidResult),
    }
}

/// The result of the whole pipeline on the input text: lex, resolve
/// precedence, evaluate; the first failing stage decides the error.
pub open spec fn calculate_spec(s: Seq<char>) -> Result<Tokens, Error> {
    match tok_spec(s, 0) {
        Err(e) => Err(e),
        Ok(ts) => match shunt_spec(ts) {
            Err(e) => Err(e),
            Ok(ps) => eval_spec(ps),
        },
    }
}

/// Evaluates an infix arithmetic expression and returns the resulting
/// number as a token, or the first error met by the pipeline.
pub fn calculate(input: &str) -> (r: Result<Tokens, Error>)
    ensures
        r == calculate_spec(input@),
{
    match tokenize(input) {
        Err(e) => Err(e),
        Ok(tokens) => {
            let ghost toks = tokens@;
            match shunting_yard(tokens) {
                Err(e) => Err(e),
                Ok(ops) => {
                    proof {
                        lemma_shunt_spec_ok(toks);
                    }
                    rpn_calc(ops)
                },
            }
        },
    }
}

} // verus!

