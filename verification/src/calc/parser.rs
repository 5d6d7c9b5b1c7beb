//! From tokens to a syntax tree, by recursive descent: one level per
//! precedence (`expr` for `+ -`, `term` for `* /`, `factor` for numbers,
//! names, negation and brackets), each folding its operands to the left.
use vstd::prelude::*;
use vstd::string::*;
use crate::calc::{CalcError, CalcErrorV};
use crate::calc::lexer::{Token, TokenV, tokens_view};

verus! {

/// A binary operator.
#[derive(Debug, Clone, Copy, PartialEq, Eq, Structural)]
pub enum Op {
    Add,
    Sub,
    Mul,
    Div,
}

/// A syntax tree. A number keeps the text of its literal.
#[derive(Debug, PartialEq)]
pub enum Expr {
    Num(String),
    Var(String),
    BinOp { op: Op, lhs: Box<Expr>, rhs: Box<Expr> },
    Neg(Box<Expr>),
    Assign { name: String, value: Box<Expr> },
}

/// The model of a syntax tree: texts as character sequences.
pub enum ExprV {
    Num(Seq<char>),
    Var(Seq<char>),
    BinOp(Op, Box<ExprV>, Box<ExprV>),
    Neg(Box<ExprV>),
    Assign(Seq<char>, Box<ExprV>),
}

/// The model of a syntax tree.
pub open spec fn expr_view(e: Expr) -> ExprV
    decreases e,
{
    match e {
        Expr::Num(s) => ExprV::Num(s@),
        Expr::Var(s) => ExprV::Var(s@),
        Expr::BinOp { op, lhs, rhs } => ExprV::BinOp(
            op,
            Box::new(expr_view(*lhs)),
            Box::new(expr_view(*rhs)),
        ),
        Expr::Neg(inner) => ExprV::Neg(Box::new(expr_view(*inner))),
        Expr::Assign { name, value } => ExprV::Assign(name@, Box::new(expr_view(*value))),
    }
}

impl View for Expr {
    type V = ExprV;

    open spec fn view(&self) -> ExprV {
        expr_view(*self)
    }
}

/// How a token is named in an error message: its variant, and for a number
/// or a name the text it carries.
pub open spec fn token_text(t: TokenV) -> Seq<char> {
    match t {
        TokenV::Num(l) => "Num("@ + l + ")"@,
        TokenV::Ident(s) => "Ident(\""@ + s + "\")"@,
        TokenV::Plus => "Plus"@,
        TokenV::Minus => "Minus"@,
        TokenV::Star => "Star"@,
        TokenV::Slash => "Slash"@,
        TokenV::LParen => "LParen"@,
        TokenV::RParen => "RParen"@,
        TokenV::Equals => "Equals"@,
    }
}

/// The message when a value was expected at position `p`.
pub open spec fn expected_value_message(ts: Seq<TokenV>, p: int) -> Seq<char> {
    if 0 <= p < ts.len() {
        "expected a value, got Some("@ + token_text(ts[p]) + ")"@
    } else {
        "expected a value, got None"@
    }
}

/// A parsed piece and the position just after it.
pub type Step = Result<(ExprV, int), CalcErrorV>;

/// `expr := term (('+' | '-') term)*`, read from position `p`.
/// A successful step always ends after where it began (the executable
/// parsers' postconditions show it), so the tests `p < q` below always
/// hold; they are there to make the recursion visibly finite.
pub open spec fn parse_expr(ts: Seq<TokenV>, p: int) -> Step
    decreases ts.len() - p, 2int,
{
    match parse_term(ts, p) {
        Ok((lhs, q)) => if p < q <= ts.len() {
            expr_rest(ts, lhs, q)
        } else {
            Ok((lhs, q))
        },
        Err(e) => Err(e),
    }
}

/// The `(('+' | '-') term)*` part after `lhs`, from position `q`, folded
/// to the left.
pub open spec fn expr_rest(ts: Seq<TokenV>, lhs: ExprV, q: int) -> Step
    decreases ts.len() - q, 2int,
{
    if 0 <= q < ts.len() && (ts[q] is Plus || ts[q] is Minus) {
        let op = if ts[q] is Plus {
            Op::Add
        } else {
            Op::Sub
        };
        match parse_term(ts, q + 1) {
            Ok((rhs, r)) => {
                let e = ExprV::BinOp(op, Box::new(lhs), Box::new(rhs));
                if q < r <= ts.len() {
                    expr_rest(ts, e, r)
                } else {
                    Ok((e, r))
                }
            },
            Err(e) => Err(e),
        }
    } else {
        Ok((lhs, q))
    }
}

/// `term := factor (('*' | '/') factor)*`, read from position `p`.
pub open spec fn parse_term(ts: Seq<TokenV>, p: int) -> Step
    decreases ts.len() - p, 1int,
{
    match parse_factor(ts, p) {
        Ok((lhs, q)) => if p < q <= ts.len() {
            term_rest(ts, lhs, q)
        } else {
            Ok((lhs, q))
        },
        Err(e) => Err(e),
    }
}

/// The `(('*' | '/') factor)*` part after `lhs`, from position `q`, folded
/// to the left.
pub open spec fn term_rest(ts: Seq<TokenV>, lhs: ExprV, q: int) -> Step
    decreases ts.len() - q, 1int,
{
    if 0 <= q < ts.len() && (ts[q] is Star || ts[q] is Slash) {
        let op = if ts[q] is Star {
            Op::Mul
        } else {
            Op::Div
        };
        match parse_factor(ts, q + 1) {
            Ok((rhs, r)) => {
                let e = ExprV::BinOp(op, Box::new(lhs), Box::new(rhs));
                if q < r <= ts.len() {
                    term_rest(ts, e, r)
                } else {
                    Ok((e, r))
                }
            },
            Err(e) => Err(e),
        }
    } else {
        Ok((lhs, q))
    }
}

/// `factor := Num | Ident | '-' factor | '(' expr ')'`, read from `p`.
pub open spec fn parse_factor(ts: Seq<TokenV>, p: int) -> Step
    decreases ts.len() - p, 0int,
{
    if p < 0 || p >= ts.len() {
        Err(CalcErrorV::Unknown(expected_value_message(ts, p)))
    } else {
        match ts[p] {
            TokenV::Num(l) => Ok((ExprV::Num(l), p + 1)),
            TokenV::Ident(name) => Ok((ExprV::Var(name), p + 1)),
            TokenV::Minus => match parse_factor(ts, p + 1) {
                Ok((inner, q)) => Ok((ExprV::Neg(Box::new(inner)), q)),
                Err(e) => Err(e),
            },
            TokenV::LParen => match parse_expr(ts, p + 1) {
                Ok((inner, q)) => if 0 <= q < ts.len() && ts[q] is RParen {
                    Ok((inner, q + 1))
                } else {
                    Err(CalcErrorV::Unknown("expected ')'"@))
                },
                Err(e) => Err(e),
            },
            _ => Err(CalcErrorV::Unknown(expected_value_message(ts, p))),
        }
    }
}

/// What `parse` makes of a whole token sequence: one expression that
/// uses every token.
pub open spec fn parse_spec(ts: Seq<TokenV>) -> Result<ExprV, CalcErrorV> {
    match parse_expr(ts, 0) {
        Ok((e, q)) => if q >= ts.len() {
            Ok(e)
        } else {
            Err(CalcErrorV::Unknown("trailing token "@ + token_text(ts[q])))
        },
        Err(e) => Err(e),
    }
}

/// The model of a parse step's result.
pub open spec fn step_view(r: Result<(Expr, usize), CalcError>) -> Step {
    match r {
        Ok((e, q)) => Ok((e@, q as int)),
        Err(e) => Err(e@),
    }
}

/// The model of what `parse` returns.
pub open spec fn parse_result_view(r: Result<Expr, CalcError>) -> Result<ExprV, CalcErrorV> {
    match r {
        Ok(e) => Ok(e@),
        Err(e) => Err(e@),
    }
}

fn token_name(t: &Token) -> (r: String)
    ensures
        r@ == token_text(t@),
{
    match t {
        Token::Num(l) => {
            let mut s = String::from_str("Num(");
            s.append(l.as_str());
            s.append(")");
            s
        },
        Token::Ident(name) => {
            let mut s = String::from_str("Ident(\"");
            s.append(name.as_str());
            s.append("\")");
            s
        },
        Token::Plus => String::from_str("Plus"),
        Token::Minus => String::from_str("Minus"),
        Token::Star => String::from_str("Star"),
        Token::Slash => String::from_str("Slash"),
        Token::LParen => String::from_str("LParen"),
        Token::RParen => String::from_str("RParen"),
        Token::Equals => String::from_str("Equals"),
    }
}

fn expected_value(ts: &[Token], p: usize) -> (r: CalcError)
    ensures
        r@ == CalcErrorV::Unknown(expected_value_message(tokens_view(ts@), p as int)),
{
    if p < ts.len() {
        let mut s = String::from_str("expected a value, got Some(");
        let name = token_name(&ts[p]);
        s.append(name.as_str());
        s.append(")");
        CalcError::Unknown(s)
    } else {
        CalcError::Unknown(String::from_str("expected a value, got None"))
    }
}

fn expr(ts: &[Token], p: usize) -> (r: Result<(Expr, usize), CalcError>)
    requires
        p <= ts@.len(),
    ensures
        step_view(r) == parse_expr(tokens_view(ts@), p as int),
        r matches Ok((_, q)) ==> p < q <= ts@.len(),
    decreases ts@.len() - p, 2int,
{
    let ghost tv = tokens_view(ts@);
    let (mut lhs, mut q) = match term(ts, p) {
        Ok(v) => v,
        Err(e) => {
            return Err(e);
        },
    };
    while q < ts.len() && (matches!(ts[q], Token::Plus) || matches!(ts[q], Token::Minus))
        invariant
            tv == tokens_view(ts@),
            p < q <= ts@.len(),
            parse_expr(tv, p as int) == expr_rest(tv, lhs@, q as int),
        decreases ts@.len() - q,
    {
        let op = if matches!(ts[q], Token::Plus) {
            Op::Add
        } else {
            Op::Sub
        };
        match term(ts, q + 1) {
            Ok((rhs, r)) => {
                lhs = Expr::BinOp { op, lhs: Box::new(lhs), rhs: Box::new(rhs) };
                q = r;
            },
            Err(e) => {
                return Err(e);
            },
        }
    }
    Ok((lhs, q))
}

fn term(ts: &[Token], p: usize) -> (r: Result<(Expr, usize), CalcError>)
    requires
        p <= ts@.len(),
    ensures
        step_view(r) == parse_term(tokens_view(ts@), p as int),
        r matches Ok((_, q)) ==> p < q <= ts@.len(),
    decreases ts@.len() - p, 1int,
{
    let ghost tv = tokens_view(ts@);
    let (mut lhs, mut q) = match factor(ts, p) {
        Ok(v) => v,
        Err(e) => {
            return Err(e);
        },
    };
    while q < ts.len() && (matches!(ts[q], Token::Star) || matches!(ts[q], Token::Slash))
        invariant
            tv == tokens_view(ts@),
            p < q <= ts@.len(),
            parse_term(tv, p as int) == term_rest(tv, lhs@, q as int),
        decreases ts@.len() - q,
    {
        let op = if matches!(ts[q], Token::Star) {
            Op::Mul
        } else {
            Op::Div
        };
        match factor(ts, q + 1) {
            Ok((rhs, r)) => {
                lhs = Expr::BinOp { op, lhs: Box::new(lhs), rhs: Box::new(rhs) };
                q = r;
            },
            Err(e) => {
                return Err(e);
            },
        }
    }
    Ok((lhs, q))
}

fn factor(ts: &[Token], p: usize) -> (r: Result<(Expr, usize), CalcError>)
    requires
        p <= ts@.len(),
    ensures
        step_view(r) == parse_factor(tokens_view(ts@), p as int),
        r matches Ok((_, q)) ==> p < q <= ts@.len(),
    decreases ts@.len() - p, 0int,
{
    if p >= ts.len() {
        return Err(expected_value(ts, p));
    }
    match &ts[p] {
        Token::Num(l) => Ok((Expr::Num(l.clone()), p + 1)),
        Token::Ident(name) => Ok((Expr::Var(name.clone()), p + 1)),
        Token::Minus => match factor(ts, p + 1) {
            Ok((inner, q)) => Ok((Expr::Neg(Box::new(inner)), q)),
            Err(e) => Err(e),
        },
        Token::LParen => match expr(ts, p + 1) {
            Ok((inner, q)) => {
                if q < ts.len() && matches!(ts[q], Token::RParen) {
                    Ok((inner, q + 1))
                } else {
                    Err(CalcError::Unknown(String::from_str("expected ')'")))
                }
            },
            Err(e) => Err(e),
        },
        _ => Err(expected_value(ts, p)),
    }
}

/// Parses a whole token sequence into one expression, exactly as
/// `parse_spec` says; a token left over is an error that names it.
pub fn parse(tokens: &[Token]) -> (r: Result<Expr, CalcError>)
    ensures
        parse_result_view(r) == parse_spec(tokens_view(tokens@)),
{
    match expr(tokens, 0) {
        Ok((e, q)) => {
            if q >= tokens.len() {
                Ok(e)
            } else {
                let mut m = String::from_str("trailing token ");
                let name = token_name(&tokens[q]);
                m.append(name.as_str());
                Err(CalcError::Unknown(m))
            }
        },
        Err(e) => Err(e),
    }
}

} // verus!
