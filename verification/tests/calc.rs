use systems_programming::calc::lexer::{tokenize, Token};
use systems_programming::calc::parser::{parse, Expr, Op};
use systems_programming::calc::CalcError;

/// A tree with each literal read as the number it spells, to compare
/// against trees written with numbers.
#[derive(Debug, PartialEq)]
enum Tree {
    Num(f64),
    Var(String),
    Bin(Op, Box<Tree>, Box<Tree>),
    Neg(Box<Tree>),
}

fn tree(e: &Expr) -> Tree {
    match e {
        Expr::Num(l) => Tree::Num(l.parse::<f64>().unwrap()),
        Expr::Var(n) => Tree::Var(n.clone()),
        Expr::BinOp { op, lhs, rhs } => Tree::Bin(*op, Box::new(tree(lhs)), Box::new(tree(rhs))),
        Expr::Neg(inner) => Tree::Neg(Box::new(tree(inner))),
        Expr::Assign { .. } => panic!("no assignment is ever parsed"),
    }
}

fn unknown(r: Result<Vec<Token>, CalcError>) -> String {
    match r {
        Err(CalcError::Unknown(m)) => m,
        other => panic!("expected an Unknown error, got {other:?}"),
    }
}

fn parse_text(src: &str) -> Result<Expr, CalcError> {
    parse(&tokenize(src.to_string()).unwrap())
}

fn parse_error(src: &str) -> String {
    match parse_text(src) {
        Err(CalcError::Unknown(m)) => m,
        other => panic!("expected an Unknown error, got {other:?}"),
    }
}

#[test]
fn brackets_must_balance() {
    assert!(tokenize("(2+2)".into()).is_ok());
    assert!(tokenize("-2(2-2)".into()).is_ok());
    assert!(tokenize("((2)+(2))".into()).is_ok());

    assert!(tokenize("(2".into()).is_err());
    assert!(tokenize("((2)".into()).is_err());
    assert!(tokenize("2)".into()).is_err());
    assert!(tokenize("(2))".into()).is_err());
}

#[test]
fn precedence_and_left_assoc() {
    let ast = parse(&tokenize("1- 2+3 * (-9/3)".into()).unwrap()).unwrap();

    assert_eq!(
        tree(&ast),
        Tree::Bin(
            Op::Add,
            Box::new(Tree::Bin(
                Op::Sub,
                Box::new(Tree::Num(1.0)),
                Box::new(Tree::Num(2.0)),
            )),
            Box::new(Tree::Bin(
                Op::Mul,
                Box::new(Tree::Num(3.0)),
                Box::new(Tree::Bin(
                    Op::Div,
                    Box::new(Tree::Num(-9.0)),
                    Box::new(Tree::Num(3.0)),
                )),
            )),
        )
    );
}

// Further cases: edge values, every error, each law on concrete values.

#[test]
fn tokens_of_the_example() {
    let tokens = tokenize("1- 2+3 * (-9/3)".into()).unwrap();
    assert_eq!(
        tokens,
        vec![
            Token::Num("1".into()),
            Token::Minus,
            Token::Num("2".into()),
            Token::Plus,
            Token::Num("3".into()),
            Token::Star,
            Token::LParen,
            Token::Num("-9".into()),
            Token::Slash,
            Token::Num("3".into()),
            Token::RParen,
        ]
    );
}

#[test]
fn implicit_multiplication_is_made_explicit() {
    assert_eq!(
        tokenize("2(3)".into()).unwrap(),
        vec![
            Token::Num("2".into()),
            Token::Star,
            Token::LParen,
            Token::Num("3".into()),
            Token::RParen,
        ]
    );
    assert_eq!(
        tokenize("-(2)".into()).unwrap(),
        vec![
            Token::Num("-1".into()),
            Token::Star,
            Token::LParen,
            Token::Num("2".into()),
            Token::RParen,
        ]
    );
    assert_eq!(
        tokenize("(1)(2)".into()).unwrap(),
        vec![
            Token::LParen,
            Token::Num("1".into()),
            Token::RParen,
            Token::Star,
            Token::LParen,
            Token::Num("2".into()),
            Token::RParen,
        ]
    );
}

#[test]
fn decimals_and_equals() {
    assert_eq!(
        tokenize("1.5 = 2.".into()).unwrap(),
        vec![Token::Num("1.5".into()), Token::Equals, Token::Num("2.".into())]
    );
    assert_eq!(tokenize("\t 7 \n".into()).unwrap(), vec![Token::Num("7".into())]);
    assert_eq!(tokenize("".into()).unwrap(), vec![]);
}

#[test]
fn lexer_errors() {
    assert_eq!(unknown(tokenize("1..2".into())), "two decimals following each other found!");
    assert_eq!(unknown(tokenize("1.2.3".into())), "two decimals found!");
    assert_eq!(unknown(tokenize("2 + x".into())), "x");
    assert_eq!(unknown(tokenize("((2)".into())), "1 unclosed '('");
    assert_eq!(unknown(tokenize("(((".into())), "3 unclosed '('");
    assert_eq!(unknown(tokenize("2)".into())), "unmatched ')'");
    assert_eq!(unknown(tokenize("-1.5".into())), ".");
    match tokenize("- 5".into()) {
        Err(CalcError::Parse { value, reason }) => {
            assert_eq!(value, "-");
            assert_eq!(reason, "invalid float literal");
        }
        other => panic!("expected a Parse error, got {other:?}"),
    }
}

#[test]
fn parser_errors() {
    assert_eq!(parse_error("2+"), "expected a value, got None");
    assert_eq!(parse_error("+"), "expected a value, got Some(Plus)");
    assert_eq!(parse_error("2 3"), "trailing token Num(3)");
    assert_eq!(parse_error("(2 3)"), "expected ')'");
    assert_eq!(parse_error("2 = 3"), "trailing token Equals");
}

#[test]
fn operators_group_left_and_by_precedence() {
    assert_eq!(
        tree(&parse_text("10-2-3").unwrap()),
        Tree::Bin(
            Op::Sub,
            Box::new(Tree::Bin(Op::Sub, Box::new(Tree::Num(10.0)), Box::new(Tree::Num(2.0)))),
            Box::new(Tree::Num(3.0)),
        )
    );
    assert_eq!(
        tree(&parse_text("8/4/2").unwrap()),
        Tree::Bin(
            Op::Div,
            Box::new(Tree::Bin(Op::Div, Box::new(Tree::Num(8.0)), Box::new(Tree::Num(4.0)))),
            Box::new(Tree::Num(2.0)),
        )
    );
    assert_eq!(
        tree(&parse_text("1+2*3").unwrap()),
        Tree::Bin(
            Op::Add,
            Box::new(Tree::Num(1.0)),
            Box::new(Tree::Bin(Op::Mul, Box::new(Tree::Num(2.0)), Box::new(Tree::Num(3.0)))),
        )
    );
}

#[test]
fn minus_after_an_operator_negates() {
    let tokens = vec![Token::Num("2".into()), Token::Star, Token::Minus, Token::Num("3".into())];
    assert_eq!(
        tree(&parse(&tokens).unwrap()),
        Tree::Bin(
            Op::Mul,
            Box::new(Tree::Num(2.0)),
            Box::new(Tree::Neg(Box::new(Tree::Num(3.0)))),
        )
    );
    let named = vec![Token::Ident("x".into())];
    assert_eq!(tree(&parse(&named).unwrap()), Tree::Var("x".into()));
}

#[test]
fn long_chains_group_left() {
    let n = |x: f64| Box::new(Tree::Num(x));
    assert_eq!(
        tree(&parse_text("1-2+3-4").unwrap()),
        Tree::Bin(
            Op::Sub,
            Box::new(Tree::Bin(
                Op::Add,
                Box::new(Tree::Bin(Op::Sub, n(1.0), n(2.0))),
                n(3.0),
            )),
            n(4.0),
        )
    );
    assert_eq!(
        tree(&parse_text("16/4*2/8").unwrap()),
        Tree::Bin(
            Op::Div,
            Box::new(Tree::Bin(
                Op::Mul,
                Box::new(Tree::Bin(Op::Div, n(16.0), n(4.0))),
                n(2.0),
            )),
            n(8.0),
        )
    );
}

#[test]
fn terms_bind_before_sums_in_long_chains() {
    let n = |x: f64| Box::new(Tree::Num(x));
    assert_eq!(
        tree(&parse_text("1+2*3-4/2*5").unwrap()),
        Tree::Bin(
            Op::Sub,
            Box::new(Tree::Bin(Op::Add, n(1.0), Box::new(Tree::Bin(Op::Mul, n(2.0), n(3.0))))),
            Box::new(Tree::Bin(
                Op::Mul,
                Box::new(Tree::Bin(Op::Div, n(4.0), n(2.0))),
                n(5.0),
            )),
        )
    );
}
