//! What holds of the lexer and the parser on every input: brackets come
//! out balanced, `*` and `/` bind tighter than `+` and `-`, and operators
//! of one level group to the left.
use vstd::prelude::*;
use crate::calc::lexer::{TokenV, lex, tokenize_spec, digits_end, number_end, operator_token,
    is_operator, lemma_digits_end, lemma_number_end};
use crate::calc::parser::{ExprV, Op, parse_spec, parse_expr, parse_term, parse_factor, expr_rest,
    term_rest};

verus! {

/// How many `(` tokens are open after `ts`: each `(` opens one, each `)`
/// closes one.
pub open spec fn paren_depth(ts: Seq<TokenV>) -> int
    decreases ts.len(),
{
    if ts.len() == 0 {
        0
    } else {
        paren_depth(ts.drop_last()) + if ts.last() is LParen {
            1int
        } else if ts.last() is RParen {
            -1int
        } else {
            0int
        }
    }
}

/// No prefix closes more brackets than it opened.
pub open spec fn never_overclosed(ts: Seq<TokenV>) -> bool {
    forall|k: int| 0 <= k <= ts.len() ==> paren_depth(#[trigger] ts.take(k)) >= 0
}

/// Every `(` is closed, and no `)` comes before its `(`.
pub open spec fn balanced(ts: Seq<TokenV>) -> bool {
    paren_depth(ts) == 0 && never_overclosed(ts)
}

proof fn lemma_push_keeps(ts: Seq<TokenV>, t: TokenV)
    requires
        never_overclosed(ts),
        paren_depth(ts) >= 0,
        paren_depth(ts.push(t)) >= 0,
    ensures
        never_overclosed(ts.push(t)),
{
    let u = ts.push(t);
    assert(u.drop_last() =~= ts);
    assert forall|k: int| 0 <= k <= u.len() implies paren_depth(#[trigger] u.take(k)) >= 0 by {
        if k <= ts.len() {
            assert(u.take(k) =~= ts.take(k));
        } else {
            assert(u.take(k) =~= u);
        }
    }
}

proof fn lemma_push_depth(ts: Seq<TokenV>, t: TokenV)
    ensures
        paren_depth(ts.push(t)) == paren_depth(ts) + if t is LParen {
            1int
        } else if t is RParen {
            -1int
        } else {
            0int
        },
{
    assert(ts.push(t).drop_last() =~= ts);
}

proof fn lemma_lex_balanced(cs: Seq<char>, i: int, ts: Seq<TokenV>, depth: nat)
    requires
        never_overclosed(ts),
        paren_depth(ts) == depth,
    ensures
        lex(cs, i, ts, depth) matches Ok(out) ==> balanced(out),
    decreases cs.len() - i,
{
    if i < 0 || i >= cs.len() {
    } else {
        let c = cs[i];
        if crate::text::is_whitespace(c) {
            lemma_lex_balanced(cs, i + 1, ts, depth);
        } else if c == '-' && !crate::calc::lexer::ends_value(ts) {
            if i + 1 < cs.len() && cs[i + 1] == '(' {
                let t1 = ts.push(TokenV::Num("-1"@));
                let t2 = t1.push(TokenV::Star);
                lemma_push_depth(ts, TokenV::Num("-1"@));
                lemma_push_keeps(ts, TokenV::Num("-1"@));
                lemma_push_depth(t1, TokenV::Star);
                lemma_push_keeps(t1, TokenV::Star);
                assert(ts + seq![TokenV::Num("-1"@), TokenV::Star] =~= t2);
                lemma_lex_balanced(cs, i + 1, t2, depth);
            } else {
                let j = digits_end(cs, i + 1);
                lemma_digits_end(cs, i + 1);
                if j > i + 1 {
                    let t = TokenV::Num(cs.subrange(i, j));
                    lemma_push_depth(ts, t);
                    lemma_push_keeps(ts, t);
                    lemma_lex_balanced(cs, j, ts.push(t), depth);
                }
            }
        } else if is_operator(c) {
            let ts1 = if c == '(' && crate::calc::lexer::ends_value(ts) {
                lemma_push_depth(ts, TokenV::Star);
                lemma_push_keeps(ts, TokenV::Star);
                ts.push(TokenV::Star)
            } else {
                ts
            };
            if c == ')' {
                if depth > 0 {
                    lemma_push_depth(ts1, TokenV::RParen);
                    lemma_push_keeps(ts1, TokenV::RParen);
                    lemma_lex_balanced(cs, i + 1, ts1.push(TokenV::RParen), (depth - 1) as nat);
                }
            } else if c == '(' {
                lemma_push_depth(ts1, TokenV::LParen);
                lemma_push_keeps(ts1, TokenV::LParen);
                lemma_lex_balanced(cs, i + 1, ts1.push(TokenV::LParen), depth + 1);
            } else {
                let t = operator_token(c);
                lemma_push_depth(ts1, t);
                lemma_push_keeps(ts1, t);
                lemma_lex_balanced(cs, i + 1, ts1.push(t), depth);
            }
        } else if crate::calc::lexer::is_ascii_digit(c) {
            lemma_number_end(cs, i + 1, false);
            if let Ok(j) = number_end(cs, i + 1, false) {
                let t = TokenV::Num(cs.subrange(i, j));
                lemma_push_depth(ts, t);
                lemma_push_keeps(ts, t);
                lemma_lex_balanced(cs, j, ts.push(t), depth);
            }
        }
    }
}

/// Whatever the text, the tokens that the lexer accepts have balanced
/// brackets: every `(` is closed, and no `)` comes before its `(`.
pub proof fn lemma_tokens_balanced(cs: Seq<char>)
    ensures
        tokenize_spec(cs) matches Ok(ts) ==> balanced(ts),
{
    assert(Seq::<TokenV>::empty().take(0) =~= Seq::<TokenV>::empty());
    lemma_lex_balanced(cs, 0, Seq::empty(), 0);
}

/// The operator a token stands for, if it is one of `+ - * /`.
pub open spec fn op_of(t: TokenV) -> Op {
    match t {
        TokenV::Plus => Op::Add,
        TokenV::Minus => Op::Sub,
        TokenV::Star => Op::Mul,
        _ => Op::Div,
    }
}

pub open spec fn additive(t: TokenV) -> bool {
    t is Plus || t is Minus
}

pub open spec fn multiplicative(t: TokenV) -> bool {
    t is Star || t is Slash
}

pub open spec fn num(l: Seq<char>) -> ExprV {
    ExprV::Num(l)
}

pub open spec fn bin(o: TokenV, l: ExprV, r: ExprV) -> ExprV {
    ExprV::BinOp(op_of(o), Box::new(l), Box::new(r))
}

/// Operators of one precedence level group to the left: `a o1 b o2 c` is
/// `(a o1 b) o2 c` when both are `+`/`-` or both are `*`/`/`.
pub proof fn lemma_left_associative(a: Seq<char>, b: Seq<char>, c: Seq<char>, o1: TokenV, o2: TokenV)
    requires
        (additive(o1) && additive(o2)) || (multiplicative(o1) && multiplicative(o2)),
    ensures
        parse_spec(seq![TokenV::Num(a), o1, TokenV::Num(b), o2, TokenV::Num(c)]) == Ok::<
            ExprV,
            crate::calc::CalcErrorV,
        >(bin(o2, bin(o1, num(a), num(b)), num(c))),
{
    let ts = seq![TokenV::Num(a), o1, TokenV::Num(b), o2, TokenV::Num(c)];
    assert(parse_factor(ts, 0) == Ok::<(ExprV, int), crate::calc::CalcErrorV>((num(a), 1)));
    assert(parse_factor(ts, 2) == Ok::<(ExprV, int), crate::calc::CalcErrorV>((num(b), 3)));
    assert(parse_factor(ts, 4) == Ok::<(ExprV, int), crate::calc::CalcErrorV>((num(c), 5)));
    if additive(o1) {
        assert(term_rest(ts, num(a), 1) == Ok::<(ExprV, int), crate::calc::CalcErrorV>(
            (num(a), 1),
        ));
        assert(term_rest(ts, num(b), 3) == Ok::<(ExprV, int), crate::calc::CalcErrorV>(
            (num(b), 3),
        ));
        assert(term_rest(ts, num(c), 5) == Ok::<(ExprV, int), crate::calc::CalcErrorV>(
            (num(c), 5),
        ));
        assert(parse_term(ts, 0) == Ok::<(ExprV, int), crate::calc::CalcErrorV>((num(a), 1)));
        assert(parse_term(ts, 2) == Ok::<(ExprV, int), crate::calc::CalcErrorV>((num(b), 3)));
        assert(parse_term(ts, 4) == Ok::<(ExprV, int), crate::calc::CalcErrorV>((num(c), 5)));
        let ab = bin(o1, num(a), num(b));
        let abc = bin(o2, ab, num(c));
        assert(expr_rest(ts, abc, 5) == Ok::<(ExprV, int), crate::calc::CalcErrorV>((abc, 5)));
        assert(expr_rest(ts, ab, 3) == Ok::<(ExprV, int), crate::calc::CalcErrorV>((abc, 5)));
        assert(expr_rest(ts, num(a), 1) == Ok::<(ExprV, int), crate::calc::CalcErrorV>((abc, 5)));
        assert(parse_expr(ts, 0) == Ok::<(ExprV, int), crate::calc::CalcErrorV>((abc, 5)));
    } else {
        let ab = bin(o1, num(a), num(b));
        let abc = bin(o2, ab, num(c));
        assert(term_rest(ts, abc, 5) == Ok::<(ExprV, int), crate::calc::CalcErrorV>((abc, 5)));
        assert(term_rest(ts, ab, 3) == Ok::<(ExprV, int), crate::calc::CalcErrorV>((abc, 5)));
        assert(term_rest(ts, num(a), 1) == Ok::<(ExprV, int), crate::calc::CalcErrorV>((abc, 5)));
        assert(parse_term(ts, 0) == Ok::<(ExprV, int), crate::calc::CalcErrorV>((abc, 5)));
        assert(expr_rest(ts, abc, 5) == Ok::<(ExprV, int), crate::calc::CalcErrorV>((abc, 5)));
        assert(parse_expr(ts, 0) == Ok::<(ExprV, int), crate::calc::CalcErrorV>((abc, 5)));
    }
}

/// `*` and `/` bind tighter than `+` and `-`, on either side: `a + b * c`
/// is `a + (b * c)` and `a * b + c` is `(a * b) + c`.
pub proof fn lemma_precedence(a: Seq<char>, b: Seq<char>, c: Seq<char>, add: TokenV, mul: TokenV)
    requires
        additive(add),
        multiplicative(mul),
    ensures
        parse_spec(seq![TokenV::Num(a), add, TokenV::Num(b), mul, TokenV::Num(c)]) == Ok::<
            ExprV,
            crate::calc::CalcErrorV,
        >(bin(add, num(a), bin(mul, num(b), num(c)))),
        parse_spec(seq![TokenV::Num(a), mul, TokenV::Num(b), add, TokenV::Num(c)]) == Ok::<
            ExprV,
            crate::calc::CalcErrorV,
        >(bin(add, bin(mul, num(a), num(b)), num(c))),
{
    let ts = seq![TokenV::Num(a), add, TokenV::Num(b), mul, TokenV::Num(c)];
    assert(parse_factor(ts, 0) == Ok::<(ExprV, int), crate::calc::CalcErrorV>((num(a), 1)));
    assert(parse_factor(ts, 2) == Ok::<(ExprV, int), crate::calc::CalcErrorV>((num(b), 3)));
    assert(parse_factor(ts, 4) == Ok::<(ExprV, int), crate::calc::CalcErrorV>((num(c), 5)));
    let bc = bin(mul, num(b), num(c));
    assert(term_rest(ts, num(a), 1) == Ok::<(ExprV, int), crate::calc::CalcErrorV>((num(a), 1)));
    assert(parse_term(ts, 0) == Ok::<(ExprV, int), crate::calc::CalcErrorV>((num(a), 1)));
    assert(term_rest(ts, bc, 5) == Ok::<(ExprV, int), crate::calc::CalcErrorV>((bc, 5)));
    assert(term_rest(ts, num(b), 3) == Ok::<(ExprV, int), crate::calc::CalcErrorV>((bc, 5)));
    assert(parse_term(ts, 2) == Ok::<(ExprV, int), crate::calc::CalcErrorV>((bc, 5)));
    let whole = bin(add, num(a), bc);
    assert(expr_rest(ts, whole, 5) == Ok::<(ExprV, int), crate::calc::CalcErrorV>((whole, 5)));
    assert(expr_rest(ts, num(a), 1) == Ok::<(ExprV, int), crate::calc::CalcErrorV>((whole, 5)));
    assert(parse_expr(ts, 0) == Ok::<(ExprV, int), crate::calc::CalcErrorV>((whole, 5)));

    let us = seq![TokenV::Num(a), mul, TokenV::Num(b), add, TokenV::Num(c)];
    assert(parse_factor(us, 0) == Ok::<(ExprV, int), crate::calc::CalcErrorV>((num(a), 1)));
    assert(parse_factor(us, 2) == Ok::<(ExprV, int), crate::calc::CalcErrorV>((num(b), 3)));
    assert(parse_factor(us, 4) == Ok::<(ExprV, int), crate::calc::CalcErrorV>((num(c), 5)));
    let ab = bin(mul, num(a), num(b));
    assert(term_rest(us, ab, 3) == Ok::<(ExprV, int), crate::calc::CalcErrorV>((ab, 3)));
    assert(term_rest(us, num(a), 1) == Ok::<(ExprV, int), crate::calc::CalcErrorV>((ab, 3)));
    assert(parse_term(us, 0) == Ok::<(ExprV, int), crate::calc::CalcErrorV>((ab, 3)));
    assert(term_rest(us, num(c), 5) == Ok::<(ExprV, int), crate::calc::CalcErrorV>((num(c), 5)));
    assert(parse_term(us, 4) == Ok::<(ExprV, int), crate::calc::CalcErrorV>((num(c), 5)));
    let whole2 = bin(add, ab, num(c));
    assert(expr_rest(us, whole2, 5) == Ok::<(ExprV, int), crate::calc::CalcErrorV>((whole2, 5)));
    assert(expr_rest(us, ab, 3) == Ok::<(ExprV, int), crate::calc::CalcErrorV>((whole2, 5)));
    assert(parse_expr(us, 0) == Ok::<(ExprV, int), crate::calc::CalcErrorV>((whole2, 5)));
}

/// The tokens `Num(first) ops[0] Num(nums[0]) ... ops[n-1] Num(nums[n-1])`.
pub open spec fn chain(first: Seq<char>, ops: Seq<TokenV>, nums: Seq<Seq<char>>) -> Seq<TokenV> {
    Seq::new(
        (1 + 2 * ops.len()) as nat,
        |p: int|
            if p == 0 {
                TokenV::Num(first)
            } else if p % 2 == 1 {
                ops[(p - 1) / 2]
            } else {
                TokenV::Num(nums[(p - 2) / 2])
            },
    )
}

/// `acc`, then each of `ops[j..]` applied in turn with its number on the
/// right: the tree that groups to the left.
pub open spec fn fold_left(acc: ExprV, ops: Seq<TokenV>, nums: Seq<Seq<char>>, j: int) -> ExprV
    decreases ops.len() - j,
{
    if j < 0 || j >= ops.len() {
        acc
    } else {
        fold_left(bin(ops[j], acc, num(nums[j])), ops, nums, j + 1)
    }
}

proof fn lemma_chain_at(first: Seq<char>, ops: Seq<TokenV>, nums: Seq<Seq<char>>, j: int)
    requires
        ops.len() == nums.len(),
        0 <= j < ops.len(),
    ensures
        chain(first, ops, nums).len() == 1 + 2 * ops.len(),
        chain(first, ops, nums)[1 + 2 * j] == ops[j],
        chain(first, ops, nums)[2 + 2 * j] == TokenV::Num(nums[j]),
{
    assert((1 + 2 * j) % 2 == 1 && (1 + 2 * j - 1) / 2 == j);
    assert((2 + 2 * j) % 2 == 0 && (2 + 2 * j - 2) / 2 == j);
}

proof fn lemma_sum_chain(
    first: Seq<char>,
    ops: Seq<TokenV>,
    nums: Seq<Seq<char>>,
    j: int,
    acc: ExprV,
)
    requires
        ops.len() == nums.len(),
        forall|i: int| 0 <= i < ops.len() ==> additive(#[trigger] ops[i]),
        0 <= j <= ops.len(),
    ensures
        expr_rest(chain(first, ops, nums), acc, 1 + 2 * j) == Ok::<
            (ExprV, int),
            crate::calc::CalcErrorV,
        >((fold_left(acc, ops, nums, j), 1 + 2 * ops.len() as int)),
    decreases ops.len() - j,
{
    let ts = chain(first, ops, nums);
    assert(ts.len() == 1 + 2 * ops.len());
    if j < ops.len() {
        lemma_chain_at(first, ops, nums, j);
        let q = 1 + 2 * j;
        let b = num(nums[j]);
        assert(parse_factor(ts, q + 1) == Ok::<(ExprV, int), crate::calc::CalcErrorV>(
            (b, q + 2),
        ));
        if j + 1 < ops.len() {
            lemma_chain_at(first, ops, nums, j + 1);
        }
        assert(term_rest(ts, b, q + 2) == Ok::<(ExprV, int), crate::calc::CalcErrorV>(
            (b, q + 2),
        ));
        assert(parse_term(ts, q + 1) == Ok::<(ExprV, int), crate::calc::CalcErrorV>(
            (b, q + 2),
        ));
        lemma_sum_chain(first, ops, nums, j + 1, bin(ops[j], acc, b));
    }
}

proof fn lemma_product_chain(
    first: Seq<char>,
    ops: Seq<TokenV>,
    nums: Seq<Seq<char>>,
    j: int,
    acc: ExprV,
)
    requires
        ops.len() == nums.len(),
        forall|i: int| 0 <= i < ops.len() ==> multiplicative(#[trigger] ops[i]),
        0 <= j <= ops.len(),
    ensures
        term_rest(chain(first, ops, nums), acc, 1 + 2 * j) == Ok::<
            (ExprV, int),
            crate::calc::CalcErrorV,
        >((fold_left(acc, ops, nums, j), 1 + 2 * ops.len() as int)),
    decreases ops.len() - j,
{
    let ts = chain(first, ops, nums);
    assert(ts.len() == 1 + 2 * ops.len());
    if j < ops.len() {
        lemma_chain_at(first, ops, nums, j);
        let q = 1 + 2 * j;
        let b = num(nums[j]);
        assert(parse_factor(ts, q + 1) == Ok::<(ExprV, int), crate::calc::CalcErrorV>(
            (b, q + 2),
        ));
        lemma_product_chain(first, ops, nums, j + 1, bin(ops[j], acc, b));
    }
}

/// Operators of one precedence level group to the left, however many there
/// are: `a0 o1 a1 o2 a2 ... on an` is `((a0 o1 a1) o2 a2) ... on an` when
/// every operator is `+`/`-`, or every one is `*`/`/`.
pub proof fn lemma_chain_groups_left(first: Seq<char>, ops: Seq<TokenV>, nums: Seq<Seq<char>>)
    requires
        ops.len() == nums.len(),
        (forall|i: int| 0 <= i < ops.len() ==> additive(#[trigger] ops[i])) || (forall|i: int|
            0 <= i < ops.len() ==> multiplicative(#[trigger] ops[i])),
    ensures
        parse_spec(chain(first, ops, nums)) == Ok::<ExprV, crate::calc::CalcErrorV>(
            fold_left(num(first), ops, nums, 0),
        ),
{
    let ts = chain(first, ops, nums);
    let n = ops.len() as int;
    assert(ts.len() == 1 + 2 * n);
    assert(ts[0] == TokenV::Num(first));
    assert(parse_factor(ts, 0) == Ok::<(ExprV, int), crate::calc::CalcErrorV>((num(first), 1)));
    if n > 0 {
        lemma_chain_at(first, ops, nums, 0);
    }
    let whole = fold_left(num(first), ops, nums, 0);
    if forall|i: int| 0 <= i < ops.len() ==> additive(#[trigger] ops[i]) {
        assert(term_rest(ts, num(first), 1) == Ok::<(ExprV, int), crate::calc::CalcErrorV>(
            (num(first), 1),
        ));
        assert(parse_term(ts, 0) == Ok::<(ExprV, int), crate::calc::CalcErrorV>((num(first), 1)));
        lemma_sum_chain(first, ops, nums, 0, num(first));
        assert(parse_expr(ts, 0) == Ok::<(ExprV, int), crate::calc::CalcErrorV>((whole, 1 + 2 * n)));
    } else {
        lemma_product_chain(first, ops, nums, 0, num(first));
        assert(parse_term(ts, 0) == Ok::<(ExprV, int), crate::calc::CalcErrorV>((whole, 1 + 2 * n)));
        assert(expr_rest(ts, whole, 1 + 2 * n) == Ok::<(ExprV, int), crate::calc::CalcErrorV>(
            (whole, 1 + 2 * n),
        ));
        assert(parse_expr(ts, 0) == Ok::<(ExprV, int), crate::calc::CalcErrorV>((whole, 1 + 2 * n)));
    }
}

/// The first position at or after `j` that holds `+` or `-`, or the end.
pub open spec fn run_end(ops: Seq<TokenV>, j: int) -> int
    decreases ops.len() - j,
{
    if j < 0 || j >= ops.len() || additive(ops[j]) {
        j
    } else {
        run_end(ops, j + 1)
    }
}

pub proof fn lemma_run_end(ops: Seq<TokenV>, j: int)
    requires
        0 <= j,
    ensures
        j <= run_end(ops, j),
        run_end(ops, j) <= ops.len() || run_end(ops, j) == j,
        j <= ops.len() ==> run_end(ops, j) == ops.len() || additive(ops[run_end(ops, j)]),
    decreases ops.len() - j,
{
    if !(j >= ops.len() || additive(ops[j])) {
        lemma_run_end(ops, j + 1);
    }
}

/// `acc` times (or over) each number from `j` on, up to the next `+` or
/// `-`: a term, grouped to the left.
pub open spec fn product(acc: ExprV, ops: Seq<TokenV>, nums: Seq<Seq<char>>, j: int) -> ExprV
    decreases ops.len() - j,
{
    if j < 0 || j >= ops.len() || additive(ops[j]) {
        acc
    } else {
        product(bin(ops[j], acc, num(nums[j])), ops, nums, j + 1)
    }
}

/// `acc` plus (or minus) each term from the `+` or `-` at `j` on, grouped
/// to the left.
pub open spec fn sum(acc: ExprV, ops: Seq<TokenV>, nums: Seq<Seq<char>>, j: int) -> ExprV
    decreases ops.len() - j,
{
    if j < 0 || j >= ops.len() {
        acc
    } else {
        proof {
            lemma_run_end(ops, j + 1);
        }
        sum(
            bin(ops[j], acc, product(num(nums[j]), ops, nums, j + 1)),
            ops,
            nums,
            run_end(ops, j + 1),
        )
    }
}

/// Each of `+ - * /`.
pub open spec fn arithmetic(t: TokenV) -> bool {
    additive(t) || multiplicative(t)
}

proof fn lemma_term_of_chain(
    first: Seq<char>,
    ops: Seq<TokenV>,
    nums: Seq<Seq<char>>,
    j: int,
    acc: ExprV,
)
    requires
        ops.len() == nums.len(),
        forall|i: int| 0 <= i < ops.len() ==> arithmetic(#[trigger] ops[i]),
        0 <= j <= ops.len(),
    ensures
        term_rest(chain(first, ops, nums), acc, 1 + 2 * j) == Ok::<
            (ExprV, int),
            crate::calc::CalcErrorV,
        >((product(acc, ops, nums, j), 1 + 2 * run_end(ops, j))),
    decreases ops.len() - j,
{
    let ts = chain(first, ops, nums);
    assert(ts.len() == 1 + 2 * ops.len());
    if j < ops.len() {
        lemma_chain_at(first, ops, nums, j);
        assert(arithmetic(ops[j]));
        if multiplicative(ops[j]) {
            let q = 1 + 2 * j;
            let b = num(nums[j]);
            assert(parse_factor(ts, q + 1) == Ok::<(ExprV, int), crate::calc::CalcErrorV>(
                (b, q + 2),
            ));
            lemma_term_of_chain(first, ops, nums, j + 1, bin(ops[j], acc, b));
        }
    }
}

proof fn lemma_sum_of_chain(
    first: Seq<char>,
    ops: Seq<TokenV>,
    nums: Seq<Seq<char>>,
    j: int,
    acc: ExprV,
)
    requires
        ops.len() == nums.len(),
        forall|i: int| 0 <= i < ops.len() ==> arithmetic(#[trigger] ops[i]),
        0 <= j <= ops.len(),
        j == ops.len() || additive(ops[j]),
    ensures
        expr_rest(chain(first, ops, nums), acc, 1 + 2 * j) == Ok::<
            (ExprV, int),
            crate::calc::CalcErrorV,
        >((sum(acc, ops, nums, j), 1 + 2 * ops.len() as int)),
    decreases ops.len() - j,
{
    let ts = chain(first, ops, nums);
    assert(ts.len() == 1 + 2 * ops.len());
    if j < ops.len() {
        lemma_chain_at(first, ops, nums, j);
        let q = 1 + 2 * j;
        let b = num(nums[j]);
        assert(parse_factor(ts, q + 1) == Ok::<(ExprV, int), crate::calc::CalcErrorV>(
            (b, q + 2),
        ));
        lemma_term_of_chain(first, ops, nums, j + 1, b);
        lemma_run_end(ops, j + 1);
        let e = run_end(ops, j + 1);
        let t = product(b, ops, nums, j + 1);
        assert(parse_term(ts, q + 1) == Ok::<(ExprV, int), crate::calc::CalcErrorV>(
            (t, 1 + 2 * e),
        ));
        lemma_sum_of_chain(first, ops, nums, e, bin(ops[j], acc, t));
    }
}

/// `*` and `/` bind tighter than `+` and `-`, and each level groups to the
/// left, in a chain of any length: `a0 o1 a1 ... on an` is the sum, grouped
/// to the left, of the terms that the runs of `*` and `/` make, each of them
/// grouped to the left.
pub proof fn lemma_chain_precedence(first: Seq<char>, ops: Seq<TokenV>, nums: Seq<Seq<char>>)
    requires
        ops.len() == nums.len(),
        forall|i: int| 0 <= i < ops.len() ==> arithmetic(#[trigger] ops[i]),
    ensures
        parse_spec(chain(first, ops, nums)) == Ok::<ExprV, crate::calc::CalcErrorV>(
            sum(product(num(first), ops, nums, 0), ops, nums, run_end(ops, 0)),
        ),
{
    let ts = chain(first, ops, nums);
    let n = ops.len() as int;
    assert(ts.len() == 1 + 2 * n);
    assert(ts[0] == TokenV::Num(first));
    assert(parse_factor(ts, 0) == Ok::<(ExprV, int), crate::calc::CalcErrorV>((num(first), 1)));
    lemma_term_of_chain(first, ops, nums, 0, num(first));
    lemma_run_end(ops, 0);
    let e = run_end(ops, 0);
    let p = product(num(first), ops, nums, 0);
    assert(parse_term(ts, 0) == Ok::<(ExprV, int), crate::calc::CalcErrorV>((p, 1 + 2 * e)));
    lemma_sum_of_chain(first, ops, nums, e, p);
}

/// A minus that starts a line, followed only by digits, is one negative
/// literal holding every one of those digits: `-12` is `Num("-12")`.
pub proof fn lemma_negative_literal(d: Seq<char>)
    requires
        d.len() > 0,
        forall|i: int| 0 <= i < d.len() ==> crate::calc::lexer::is_ascii_digit(#[trigger] d[i]),
    ensures
        tokenize_spec(seq!['-'] + d) == Ok::<Seq<TokenV>, crate::calc::CalcErrorV>(
            seq![TokenV::Num(seq!['-'] + d)],
        ),
{
    let cs = seq!['-'] + d;
    assert(cs[0] == '-');
    assert(cs[1] == d[0]);
    lemma_digits_end(cs, 1);
    let j = digits_end(cs, 1);
    if j < cs.len() {
        assert(cs[j] == d[j - 1]);
    }
    assert(j == cs.len());
    assert(cs.subrange(0, j) =~= cs);
    let ts = Seq::<TokenV>::empty().push(TokenV::Num(cs));
    assert(ts =~= seq![TokenV::Num(cs)]);
    assert(lex(cs, j, ts, 0) == Ok::<Seq<TokenV>, crate::calc::CalcErrorV>(ts));
}

/// The lexer only adds tokens: what it made so far starts what it gives.
pub proof fn lemma_lex_extends(cs: Seq<char>, i: int, ts: Seq<TokenV>, depth: nat)
    ensures
        lex(cs, i, ts, depth) matches Ok(out) ==> ts.is_prefix_of(out),
    decreases cs.len() - i,
{
    if !(i < 0 || i >= cs.len()) {
        let c = cs[i];
        if crate::text::is_whitespace(c) {
            lemma_lex_extends(cs, i + 1, ts, depth);
        } else if c == '-' && !crate::calc::lexer::ends_value(ts) {
            if i + 1 < cs.len() && cs[i + 1] == '(' {
                let t2 = ts + seq![TokenV::Num("-1"@), TokenV::Star];
                lemma_lex_extends(cs, i + 1, t2, depth);
                if let Ok(out) = lex(cs, i, ts, depth) {
                    assert(out.subrange(0, ts.len() as int) =~= t2.subrange(0, ts.len() as int));
                    assert(t2.subrange(0, ts.len() as int) =~= ts);
                }
            } else {
                let j = digits_end(cs, i + 1);
                lemma_digits_end(cs, i + 1);
                if j > i + 1 {
                    let t = ts.push(TokenV::Num(cs.subrange(i, j)));
                    lemma_lex_extends(cs, j, t, depth);
                    if let Ok(out) = lex(cs, i, ts, depth) {
                        assert(out.subrange(0, ts.len() as int) =~= t.subrange(0, ts.len() as int));
                        assert(t.subrange(0, ts.len() as int) =~= ts);
                    }
                }
            }
        } else if is_operator(c) {
            let ts1 = if c == '(' && crate::calc::lexer::ends_value(ts) {
                ts.push(TokenV::Star)
            } else {
                ts
            };
            let (t, d) = if c == ')' {
                (ts1.push(TokenV::RParen), (depth - 1) as nat)
            } else if c == '(' {
                (ts1.push(TokenV::LParen), depth + 1)
            } else {
                (ts1.push(operator_token(c)), depth)
            };
            lemma_lex_extends(cs, i + 1, t, d);
            if let Ok(out) = lex(cs, i, ts, depth) {
                assert(t.subrange(0, ts.len() as int) =~= ts);
                assert(out.subrange(0, ts.len() as int) =~= t.subrange(0, ts.len() as int));
            }
        } else if crate::calc::lexer::is_ascii_digit(c) {
            lemma_number_end(cs, i + 1, false);
            if let Ok(j) = number_end(cs, i + 1, false) {
                let t = ts.push(TokenV::Num(cs.subrange(i, j)));
                lemma_lex_extends(cs, j, t, depth);
                if let Ok(out) = lex(cs, i, ts, depth) {
                    assert(t.subrange(0, ts.len() as int) =~= ts);
                    assert(out.subrange(0, ts.len() as int) =~= t.subrange(0, ts.len() as int));
                }
            }
        }
    }
}

/// Digits from `i` up to `e`, where something that is neither a digit nor
/// `.` (or the end) follows, end an unsigned literal at `e`.
proof fn lemma_number_end_run(cs: Seq<char>, i: int, has_decimal: bool, e: int)
    requires
        0 <= i <= e <= cs.len(),
        forall|k: int| i <= k < e ==> crate::calc::lexer::is_ascii_digit(#[trigger] cs[k]),
        e == cs.len() || (!crate::calc::lexer::is_ascii_digit(cs[e]) && cs[e] != '.'),
    ensures
        number_end(cs, i, has_decimal) == Ok::<int, crate::calc::CalcErrorV>(e),
    decreases e - i,
{
    if i < e {
        lemma_number_end_run(cs, i + 1, has_decimal, e);
    }
}

/// A run of digits, with or without one `.` and more digits after it, is
/// one literal holding all of it: `12` is `Num("12")` and `1.25` is
/// `Num("1.25")`.
pub proof fn lemma_unsigned_literal(d: Seq<char>, f: Seq<char>)
    requires
        d.len() > 0,
        forall|i: int| 0 <= i < d.len() ==> crate::calc::lexer::is_ascii_digit(#[trigger] d[i]),
        forall|i: int| 0 <= i < f.len() ==> crate::calc::lexer::is_ascii_digit(#[trigger] f[i]),
    ensures
        tokenize_spec(d) == Ok::<Seq<TokenV>, crate::calc::CalcErrorV>(seq![TokenV::Num(d)]),
        tokenize_spec(d + seq!['.'] + f) == Ok::<Seq<TokenV>, crate::calc::CalcErrorV>(
            seq![TokenV::Num(d + seq!['.'] + f)],
        ),
{
    lemma_number_end_run(d, 1, false, d.len() as int);
    assert(d.subrange(0, d.len() as int) =~= d);
    let t = Seq::<TokenV>::empty().push(TokenV::Num(d));
    assert(t =~= seq![TokenV::Num(d)]);
    assert(crate::calc::lexer::is_ascii_digit(d[0]));
    assert(lex(d, d.len() as int, t, 0) == Ok::<Seq<TokenV>, crate::calc::CalcErrorV>(t));
    assert(lex(d, 0, Seq::empty(), 0) == lex(d, d.len() as int, t, 0));
    let cs = d + seq!['.'] + f;
    let p = d.len() as int;
    assert forall|k: int| 1 <= k < p implies crate::calc::lexer::is_ascii_digit(#[trigger] cs[k]) by {
        assert(cs[k] == d[k]);
    }
    assert forall|k: int| p + 1 <= k < cs.len() implies crate::calc::lexer::is_ascii_digit(
        #[trigger] cs[k],
    ) by {
        assert(cs[k] == f[k - p - 1]);
    }
    lemma_number_end_run(cs, p + 1, true, cs.len() as int);
    assert(cs[p] == '.');
    if p + 1 < cs.len() {
        assert(cs[p + 1] == f[0]);
    }
    lemma_number_end_dot(cs, 1, p);
    assert(cs[0] == d[0]);
    assert(cs.subrange(0, cs.len() as int) =~= cs);
    let u = Seq::<TokenV>::empty().push(TokenV::Num(cs));
    assert(u =~= seq![TokenV::Num(cs)]);
    assert(number_end(cs, 1, false) == Ok::<int, crate::calc::CalcErrorV>(cs.len() as int));
    assert(lex(cs, cs.len() as int, u, 0) == Ok::<Seq<TokenV>, crate::calc::CalcErrorV>(u));
    assert(lex(cs, 0, Seq::empty(), 0) == lex(cs, cs.len() as int, u, 0));
}

proof fn lemma_number_end_dot(cs: Seq<char>, i: int, p: int)
    requires
        1 <= i <= p < cs.len(),
        forall|k: int| i <= k < p ==> crate::calc::lexer::is_ascii_digit(#[trigger] cs[k]),
        cs[p] == '.',
        !(p + 1 < cs.len() && cs[p + 1] == '.'),
    ensures
        number_end(cs, i, false) == number_end(cs, p + 1, true),
    decreases p - i,
{
    if i < p {
        lemma_number_end_dot(cs, i + 1, p);
    }
}

/// A number directly before `(` multiplies the bracket: whenever `d(...`
/// tokenizes, its tokens start `Num(d) * (`.
pub proof fn lemma_implicit_multiplication(d: Seq<char>, rest: Seq<char>)
    requires
        d.len() > 0,
        forall|i: int| 0 <= i < d.len() ==> crate::calc::lexer::is_ascii_digit(#[trigger] d[i]),
    ensures
        tokenize_spec(d + seq!['('] + rest) matches Ok(out) ==> out.len() >= 3 && out[0]
            == TokenV::Num(d) && out[1] == TokenV::Star && out[2] == TokenV::LParen,
{
    let cs = d + seq!['('] + rest;
    let p = d.len() as int;
    assert forall|k: int| 1 <= k < p implies crate::calc::lexer::is_ascii_digit(#[trigger] cs[k]) by {
        assert(cs[k] == d[k]);
    }
    assert(cs[p] == '(');
    lemma_number_end_run(cs, 1, false, p);
    assert(cs[0] == d[0]);
    assert(cs.subrange(0, p) =~= d);
    let t1 = Seq::<TokenV>::empty().push(TokenV::Num(d));
    let t3 = t1.push(TokenV::Star).push(TokenV::LParen);
    assert(lex(cs, 0, Seq::empty(), 0) == lex(cs, p, t1, 0));
    assert(lex(cs, p, t1, 0) == lex(cs, p + 1, t3, 1));
    lemma_lex_extends(cs, p + 1, t3, 1);
    if let Ok(out) = tokenize_spec(cs) {
        assert(t3.is_prefix_of(out));
        assert(out[0] == t3[0] && out[1] == t3[1] && out[2] == t3[2]);
    }
}

/// A minus directly before `(`, where no value comes before it, negates
/// the bracket: whenever `-(...` tokenizes, its tokens start `Num(-1) * (`.
pub proof fn lemma_negated_bracket(rest: Seq<char>)
    ensures
        tokenize_spec(seq!['-', '('] + rest) matches Ok(out) ==> out.len() >= 3 && out[0]
            == TokenV::Num("-1"@) && out[1] == TokenV::Star && out[2] == TokenV::LParen,
{
    let cs = seq!['-', '('] + rest;
    assert(cs[0] == '-' && cs[1] == '(');
    let t2 = Seq::<TokenV>::empty() + seq![TokenV::Num("-1"@), TokenV::Star];
    let t3 = t2.push(TokenV::LParen);
    assert(lex(cs, 0, Seq::empty(), 0) == lex(cs, 1, t2, 0));
    assert(lex(cs, 1, t2, 0) == lex(cs, 2, t3, 1));
    lemma_lex_extends(cs, 2, t3, 1);
    if let Ok(out) = tokenize_spec(cs) {
        assert(t3.is_prefix_of(out));
        assert(out[0] == t3[0] && out[1] == t3[1] && out[2] == t3[2]);
    }
}

} // verus!
