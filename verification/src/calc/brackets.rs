//! Brackets hold a whole expression: whatever parses on its own parses to
//! the same tree inside `(` and `)`.
use vstd::prelude::*;
use crate::calc::CalcErrorV;
use crate::calc::lexer::TokenV;
use crate::calc::laws::{additive, bin, chain, fold_left, lemma_chain_groups_left, num};
use crate::calc::parser::{ExprV, parse_spec, parse_expr, parse_term, parse_factor, expr_rest,
    term_rest};

verus! {

/// The tokens inside a pair of brackets.
pub open spec fn bracketed(ts: Seq<TokenV>) -> Seq<TokenV> {
    seq![TokenV::LParen] + ts + seq![TokenV::RParen]
}

/// A successful read of an expression ends after where it began and within
/// the tokens.
pub proof fn lemma_expr_advances(ts: Seq<TokenV>, p: int)
    requires
        0 <= p,
    ensures
        parse_expr(ts, p) matches Ok((_, q)) ==> p < q <= ts.len(),
    decreases ts.len() - p, 2int,
{
    lemma_term_advances(ts, p);
    if let Ok((lhs, q)) = parse_term(ts, p) {
        lemma_expr_rest_advances(ts, lhs, q);
    }
}

proof fn lemma_expr_rest_advances(ts: Seq<TokenV>, lhs: ExprV, q0: int)
    requires
        0 <= q0 <= ts.len(),
    ensures
        expr_rest(ts, lhs, q0) matches Ok((_, q)) ==> q0 <= q <= ts.len(),
    decreases ts.len() - q0, 2int,
{
    if q0 < ts.len() && (ts[q0] is Plus || ts[q0] is Minus) {
        lemma_term_advances(ts, q0 + 1);
        if let Ok((rhs, r)) = parse_term(ts, q0 + 1) {
            let op = if ts[q0] is Plus {
                crate::calc::parser::Op::Add
            } else {
                crate::calc::parser::Op::Sub
            };
            lemma_expr_rest_advances(ts, ExprV::BinOp(op, Box::new(lhs), Box::new(rhs)), r);
        }
    }
}

/// A successful read of a term ends after where it began and within the
/// tokens.
pub proof fn lemma_term_advances(ts: Seq<TokenV>, p: int)
    requires
        0 <= p,
    ensures
        parse_term(ts, p) matches Ok((_, q)) ==> p < q <= ts.len(),
    decreases ts.len() - p, 1int,
{
    lemma_factor_advances(ts, p);
    if let Ok((lhs, q)) = parse_factor(ts, p) {
        lemma_term_rest_advances(ts, lhs, q);
    }
}

proof fn lemma_term_rest_advances(ts: Seq<TokenV>, lhs: ExprV, q0: int)
    requires
        0 <= q0 <= ts.len(),
    ensures
        term_rest(ts, lhs, q0) matches Ok((_, q)) ==> q0 <= q <= ts.len(),
    decreases ts.len() - q0, 1int,
{
    if q0 < ts.len() && (ts[q0] is Star || ts[q0] is Slash) {
        lemma_factor_advances(ts, q0 + 1);
        if let Ok((rhs, r)) = parse_factor(ts, q0 + 1) {
            let op = if ts[q0] is Star {
                crate::calc::parser::Op::Mul
            } else {
                crate::calc::parser::Op::Div
            };
            lemma_term_rest_advances(ts, ExprV::BinOp(op, Box::new(lhs), Box::new(rhs)), r);
        }
    }
}

/// A successful read of a factor ends after where it began and within the
/// tokens.
pub proof fn lemma_factor_advances(ts: Seq<TokenV>, p: int)
    requires
        0 <= p,
    ensures
        parse_factor(ts, p) matches Ok((_, q)) ==> p < q <= ts.len(),
    decreases ts.len() - p, 0int,
{
    if p < ts.len() {
        if ts[p] is Minus {
            lemma_factor_advances(ts, p + 1);
        } else if ts[p] is LParen {
            lemma_expr_advances(ts, p + 1);
        }
    }
}

proof fn lemma_bracketed_at(ts: Seq<TokenV>)
    ensures
        bracketed(ts).len() == ts.len() + 2,
        bracketed(ts)[0] == TokenV::LParen,
        bracketed(ts)[ts.len() as int + 1] == TokenV::RParen,
        forall|k: int| 0 <= k < ts.len() ==> #[trigger] bracketed(ts)[k + 1] == ts[k],
{
}

proof fn lemma_shift_expr(ts: Seq<TokenV>, p: int)
    requires
        0 <= p <= ts.len(),
    ensures
        parse_expr(ts, p) matches Ok((e, q)) ==> parse_expr(bracketed(ts), p + 1) == Ok::<
            (ExprV, int),
            CalcErrorV,
        >((e, q + 1)),
    decreases ts.len() - p, 2int,
{
    lemma_term_advances(ts, p);
    lemma_shift_term(ts, p);
    if let Ok((lhs, q)) = parse_term(ts, p) {
        lemma_bracketed_at(ts);
        lemma_shift_expr_rest(ts, lhs, q);
    }
}

proof fn lemma_shift_expr_rest(ts: Seq<TokenV>, lhs: ExprV, q0: int)
    requires
        0 <= q0 <= ts.len(),
    ensures
        expr_rest(ts, lhs, q0) matches Ok((e, q)) ==> expr_rest(bracketed(ts), lhs, q0 + 1)
            == Ok::<(ExprV, int), CalcErrorV>((e, q + 1)),
    decreases ts.len() - q0, 2int,
{
    let u = bracketed(ts);
    lemma_bracketed_at(ts);
    if q0 < ts.len() {
        assert(u[q0 + 1] == ts[q0]);
        if ts[q0] is Plus || ts[q0] is Minus {
            lemma_term_advances(ts, q0 + 1);
            lemma_shift_term(ts, q0 + 1);
            if let Ok((rhs, r)) = parse_term(ts, q0 + 1) {
                let op = if ts[q0] is Plus {
                    crate::calc::parser::Op::Add
                } else {
                    crate::calc::parser::Op::Sub
                };
                lemma_shift_expr_rest(ts, ExprV::BinOp(op, Box::new(lhs), Box::new(rhs)), r);
            }
        }
    }
}

proof fn lemma_shift_term(ts: Seq<TokenV>, p: int)
    requires
        0 <= p <= ts.len(),
    ensures
        parse_term(ts, p) matches Ok((e, q)) ==> parse_term(bracketed(ts), p + 1) == Ok::<
            (ExprV, int),
            CalcErrorV,
        >((e, q + 1)),
    decreases ts.len() - p, 1int,
{
    lemma_factor_advances(ts, p);
    lemma_shift_factor(ts, p);
    if let Ok((lhs, q)) = parse_factor(ts, p) {
        lemma_bracketed_at(ts);
        lemma_shift_term_rest(ts, lhs, q);
    }
}

proof fn lemma_shift_term_rest(ts: Seq<TokenV>, lhs: ExprV, q0: int)
    requires
        0 <= q0 <= ts.len(),
    ensures
        term_rest(ts, lhs, q0) matches Ok((e, q)) ==> term_rest(bracketed(ts), lhs, q0 + 1)
            == Ok::<(ExprV, int), CalcErrorV>((e, q + 1)),
    decreases ts.len() - q0, 1int,
{
    let u = bracketed(ts);
    lemma_bracketed_at(ts);
    if q0 < ts.len() {
        assert(u[q0 + 1] == ts[q0]);
        if ts[q0] is Star || ts[q0] is Slash {
            lemma_factor_advances(ts, q0 + 1);
            lemma_shift_factor(ts, q0 + 1);
            if let Ok((rhs, r)) = parse_factor(ts, q0 + 1) {
                let op = if ts[q0] is Star {
                    crate::calc::parser::Op::Mul
                } else {
                    crate::calc::parser::Op::Div
                };
                lemma_shift_term_rest(ts, ExprV::BinOp(op, Box::new(lhs), Box::new(rhs)), r);
            }
        }
    }
}

proof fn lemma_shift_factor(ts: Seq<TokenV>, p: int)
    requires
        0 <= p <= ts.len(),
    ensures
        parse_factor(ts, p) matches Ok((e, q)) ==> parse_factor(bracketed(ts), p + 1) == Ok::<
            (ExprV, int),
            CalcErrorV,
        >((e, q + 1)),
    decreases ts.len() - p, 0int,
{
    let u = bracketed(ts);
    lemma_bracketed_at(ts);
    if p < ts.len() {
        assert(u[p + 1] == ts[p]);
        if ts[p] is Minus {
            lemma_shift_factor(ts, p + 1);
        } else if ts[p] is LParen {
            lemma_expr_advances(ts, p + 1);
            lemma_shift_expr(ts, p + 1);
            if let Ok((inner, q)) = parse_expr(ts, p + 1) {
                if q < ts.len() {
                    assert(u[q + 1] == ts[q]);
                }
            }
        }
    }
}

/// Brackets hold a whole expression: tokens that parse on their own parse
/// to the same tree when put between `(` and `)`, whatever operators they
/// hold at any level.
pub proof fn lemma_brackets_hold_expressions(ts: Seq<TokenV>)
    ensures
        parse_spec(ts) matches Ok(e) ==> parse_spec(bracketed(ts)) == Ok::<ExprV, CalcErrorV>(e),
{
    if let Ok(e) = parse_spec(ts) {
        let n = ts.len() as int;
        let u = bracketed(ts);
        lemma_bracketed_at(ts);
        lemma_expr_advances(ts, 0);
        lemma_shift_expr(ts, 0);
        assert(parse_expr(ts, 0) == Ok::<(ExprV, int), CalcErrorV>((e, n)));
        assert(parse_expr(u, 1) == Ok::<(ExprV, int), CalcErrorV>((e, n + 1)));
        assert(parse_factor(u, 0) == Ok::<(ExprV, int), CalcErrorV>((e, n + 2)));
        assert(term_rest(u, e, n + 2) == Ok::<(ExprV, int), CalcErrorV>((e, n + 2)));
        assert(parse_term(u, 0) == Ok::<(ExprV, int), CalcErrorV>((e, n + 2)));
        assert(expr_rest(u, e, n + 2) == Ok::<(ExprV, int), CalcErrorV>((e, n + 2)));
        assert(parse_expr(u, 0) == Ok::<(ExprV, int), CalcErrorV>((e, n + 2)));
    }
}

/// A sum or difference in brackets reads as that sum or difference:
/// `(a + b)` is `a + b` and `(a - b)` is `a - b`, for any literals.
pub proof fn lemma_bracketed_sum(a: Seq<char>, b: Seq<char>, o: TokenV)
    requires
        additive(o),
    ensures
        parse_spec(seq![TokenV::LParen, TokenV::Num(a), o, TokenV::Num(b), TokenV::RParen])
            == Ok::<ExprV, CalcErrorV>(bin(o, num(a), num(b))),
{
    let ops = seq![o];
    let nums = seq![b];
    lemma_chain_groups_left(a, ops, nums);
    let c = chain(a, ops, nums);
    assert(c[1] == o && (1int - 1) / 2 == 0);
    assert(c[2] == TokenV::Num(b) && (2int - 2) / 2 == 0);
    assert(c =~= seq![TokenV::Num(a), o, TokenV::Num(b)]);
    assert(fold_left(bin(o, num(a), num(b)), ops, nums, 1) == bin(o, num(a), num(b)));
    assert(fold_left(num(a), ops, nums, 0) == bin(o, num(a), num(b)));
    lemma_brackets_hold_expressions(c);
    assert(bracketed(c) =~= seq![TokenV::LParen, TokenV::Num(a), o, TokenV::Num(b), TokenV::RParen]);
}

} // verus!
