//! From text to tokens: numbers, operators and brackets, with a leading
//! minus folded into a number, implicit multiplication made explicit, and
//! brackets checked for balance.
use vstd::prelude::*;
use vstd::string::*;
use crate::calc::{CalcError, CalcErrorV};
use crate::decimal::decimal_chars;
use crate::text::{decimal_string, is_whitespace};

verus! {

/// One token. A number keeps the text of its literal: an optional `-`,
/// digits, and at most one `.` with more digits after it.
#[derive(Debug, PartialEq)]
pub enum Token {
    Num(String),
    Ident(String),
    Plus,
    Minus,
    Star,
    Slash,
    LParen,
    RParen,
    Equals,
}

/// The model of a token: texts as character sequences.
pub enum TokenV {
    Num(Seq<char>),
    Ident(Seq<char>),
    Plus,
    Minus,
    Star,
    Slash,
    LParen,
    RParen,
    Equals,
}

impl View for Token {
    type V = TokenV;

    open spec fn view(&self) -> TokenV {
        match self {
            Token::Num(s) => TokenV::Num(s@),
            Token::Ident(s) => TokenV::Ident(s@),
            Token::Plus => TokenV::Plus,
            Token::Minus => TokenV::Minus,
            Token::Star => TokenV::Star,
            Token::Slash => TokenV::Slash,
            Token::LParen => TokenV::LParen,
            Token::RParen => TokenV::RParen,
            Token::Equals => TokenV::Equals,
        }
    }
}

/// The models of a sequence of tokens.
pub open spec fn tokens_view(ts: Seq<Token>) -> Seq<TokenV> {
    ts.map_values(|t: Token| t@)
}

/// The model of what `tokenize` returns.
pub open spec fn tokenize_result_view(r: Result<Vec<Token>, CalcError>) -> Result<
    Seq<TokenV>,
    CalcErrorV,
> {
    match r {
        Ok(ts) => Ok(tokens_view(ts@)),
        Err(e) => Err(e@),
    }
}

/// Whether the last token so far ends a value (a number, a name or `)`):
/// then a `-` is subtraction and a `(` multiplies.
pub open spec fn ends_value(ts: Seq<TokenV>) -> bool {
    &&& ts.len() > 0
    &&& (ts.last() is Num || ts.last() is Ident || ts.last() is RParen)
}

pub open spec fn is_ascii_digit(c: char) -> bool {
    '0' <= c <= '9'
}

/// The characters that stand for an operator or a bracket.
pub open spec fn is_operator(c: char) -> bool {
    c == '+' || c == '-' || c == '*' || c == '/' || c == '(' || c == ')' || c == '='
}

/// The token of an operator other than a bracket.
pub open spec fn operator_token(c: char) -> TokenV {
    if c == '+' {
        TokenV::Plus
    } else if c == '-' {
        TokenV::Minus
    } else if c == '*' {
        TokenV::Star
    } else if c == '/' {
        TokenV::Slash
    } else {
        TokenV::Equals
    }
}

/// Where the run of digits that starts at `i` ends.
pub open spec fn digits_end(cs: Seq<char>, i: int) -> int
    decreases cs.len() - i,
{
    if 0 <= i < cs.len() && is_ascii_digit(cs[i]) {
        digits_end(cs, i + 1)
    } else {
        i
    }
}

/// Where an unsigned literal that continues at `i` ends, digits and at most
/// one `.`; `has_decimal` says whether a `.` was already taken. A second
/// `.` is an error, worded by whether it directly follows the first.
pub open spec fn number_end(cs: Seq<char>, i: int, has_decimal: bool) -> Result<int, CalcErrorV>
    decreases cs.len() - i,
{
    if 0 <= i < cs.len() && is_ascii_digit(cs[i]) {
        number_end(cs, i + 1, has_decimal)
    } else if 0 <= i < cs.len() && cs[i] == '.' {
        if has_decimal {
            Err(CalcErrorV::Unknown("two decimals found!"@))
        } else if i + 1 < cs.len() && cs[i + 1] == '.' {
            Err(CalcErrorV::Unknown("two decimals following each other found!"@))
        } else {
            number_end(cs, i + 1, true)
        }
    } else {
        Ok(i)
    }
}

/// `digits_end(cs, i)` ends the longest run of digits from `i`: every
/// character before it is a digit, and the one at it, if any, is not.
pub proof fn lemma_digits_end(cs: Seq<char>, i: int)
    requires
        0 <= i,
    ensures
        i <= digits_end(cs, i),
        digits_end(cs, i) <= cs.len() || digits_end(cs, i) == i,
        forall|k: int| i <= k < digits_end(cs, i) ==> is_ascii_digit(#[trigger] cs[k]),
        0 <= digits_end(cs, i) < cs.len() ==> !is_ascii_digit(cs[digits_end(cs, i)]),
    decreases cs.len() - i,
{
    if 0 <= i < cs.len() && is_ascii_digit(cs[i]) {
        lemma_digits_end(cs, i + 1);
    }
}

pub proof fn lemma_number_end(cs: Seq<char>, i: int, has_decimal: bool)
    requires
        0 <= i,
    ensures
        number_end(cs, i, has_decimal) matches Ok(j) ==> i <= j && (j <= cs.len() || j == i),
    decreases cs.len() - i,
{
    if 0 <= i < cs.len() && is_ascii_digit(cs[i]) {
        lemma_number_end(cs, i + 1, has_decimal);
    } else if 0 <= i < cs.len() && cs[i] == '.' {
        if !has_decimal && !(i + 1 < cs.len() && cs[i + 1] == '.') {
            lemma_number_end(cs, i + 1, true);
        }
    }
}

/// The message for brackets left open at the end.
pub open spec fn unclosed_message(depth: nat) -> Seq<char> {
    decimal_chars(depth) + " unclosed '('"@
}

/// What the lexer makes of `cs` from position `i` on, given the tokens made
/// so far and how many `(` are still open. Whitespace is skipped; a `-`
/// that does not follow a value starts a negative literal, or stands for
/// `-1 *` before a `(`; a `(` right after a value gets a `*` in front;
/// a `)` with nothing open, a malformed literal or any other character is
/// an error; so are brackets still open at the end.
pub open spec fn lex(cs: Seq<char>, i: int, ts: Seq<TokenV>, depth: nat) -> Result<
    Seq<TokenV>,
    CalcErrorV,
>
    decreases cs.len() - i,
{
    if i < 0 || i >= cs.len() {
        if depth > 0 {
            Err(CalcErrorV::Unknown(unclosed_message(depth)))
        } else {
            Ok(ts)
        }
    } else {
        let c = cs[i];
        if is_whitespace(c) {
            lex(cs, i + 1, ts, depth)
        } else if c == '-' && !ends_value(ts) {
            if i + 1 < cs.len() && cs[i + 1] == '(' {
                lex(cs, i + 1, ts + seq![TokenV::Num("-1"@), TokenV::Star], depth)
            } else {
                let j = digits_end(cs, i + 1);
                if j <= i + 1 {
                    Err(CalcErrorV::Parse { value: "-"@, reason: "invalid float literal"@ })
                } else {
                    proof {
                        lemma_digits_end(cs, i + 1);
                    }
                    lex(cs, j, ts.push(TokenV::Num(cs.subrange(i, j))), depth)
                }
            }
        } else if is_operator(c) {
            let ts1 = if c == '(' && ends_value(ts) {
                ts.push(TokenV::Star)
            } else {
                ts
            };
            if c == ')' {
                if depth == 0 {
                    Err(CalcErrorV::Unknown("unmatched ')'"@))
                } else {
                    lex(cs, i + 1, ts1.push(TokenV::RParen), (depth - 1) as nat)
                }
            } else if c == '(' {
                lex(cs, i + 1, ts1.push(TokenV::LParen), depth + 1)
            } else {
                lex(cs, i + 1, ts1.push(operator_token(c)), depth)
            }
        } else if is_ascii_digit(c) {
            match number_end(cs, i + 1, false) {
                Ok(j) => {
                    proof {
                        lemma_number_end(cs, i + 1, false);
                        assert(i < j <= cs.len());
                    }
                    lex(cs, j, ts.push(TokenV::Num(cs.subrange(i, j))), depth)
                },
                Err(e) => Err(e),
            }
        } else {
            Err(CalcErrorV::Unknown(seq![c]))
        }
    }
}

/// What the lexer makes of the whole text.
pub open spec fn tokenize_spec(cs: Seq<char>) -> Result<Seq<TokenV>, CalcErrorV> {
    lex(cs, 0, Seq::empty(), 0)
}

/// The characters of a string, in order.
fn chars_of(s: &str) -> (v: Vec<char>)
    ensures
        v@ == s@,
{
    let n = s.unicode_len();
    let mut v: Vec<char> = Vec::with_capacity(n);
    let mut i: usize = 0;
    while i < n
        invariant
            n == s@.len(),
            i <= n,
            v@ == s@.subrange(0, i as int),
        decreases n - i,
    {
        v.push(s.get_char(i));
        i += 1;
        assert(v@ =~= s@.subrange(0, i as int));
    }
    assert(v@ =~= s@);
    v
}

fn is_whitespace_char(c: char) -> (b: bool)
    ensures
        b == is_whitespace(c),
{
    ('\t' <= c && c <= '\r') || c == ' ' || c == '\u{85}' || c == '\u{a0}' || c == '\u{1680}' || (
    '\u{2000}' <= c && c <= '\u{200a}') || c == '\u{2028}' || c == '\u{2029}' || c == '\u{202f}'
        || c == '\u{205f}' || c == '\u{3000}'
}

fn ends_value_exec(ts: &Vec<Token>) -> (b: bool)
    ensures
        b == ends_value(tokens_view(ts@)),
{
    if ts.len() == 0 {
        false
    } else {
        let last = &ts[ts.len() - 1];
        matches!(last, Token::Num(_) | Token::Ident(_) | Token::RParen)
    }
}

/// The text of `s` from character `i` to character `j`.
fn piece(s: &str, i: usize, j: usize) -> (r: String)
    requires
        i <= j <= s@.len(),
    ensures
        r@ == s@.subrange(i as int, j as int),
{
    String::from_str(s.substring_char(i, j))
}

fn scan_digits(cs: &Vec<char>, i: usize) -> (j: usize)
    requires
        i <= cs@.len(),
    ensures
        j == digits_end(cs@, i as int),
        i <= j <= cs@.len(),
{
    let mut j = i;
    while j < cs.len() && '0' <= cs[j] && cs[j] <= '9'
        invariant
            i <= j <= cs@.len(),
            digits_end(cs@, i as int) == digits_end(cs@, j as int),
        decreases cs@.len() - j,
    {
        j += 1;
    }
    j
}

fn scan_number(cs: &Vec<char>, i: usize) -> (r: Result<usize, CalcError>)
    requires
        i <= cs@.len(),
    ensures
        match r {
            Ok(j) => number_end(cs@, i as int, false) == Ok::<int, CalcErrorV>(j as int) && i <= j
                <= cs@.len(),
            Err(e) => number_end(cs@, i as int, false) == Err::<int, CalcErrorV>(e@),
        },
{
    let mut j = i;
    let mut has_decimal = false;
    while j < cs.len() && (('0' <= cs[j] && cs[j] <= '9') || cs[j] == '.')
        invariant
            i <= j <= cs@.len(),
            number_end(cs@, i as int, false) == number_end(cs@, j as int, has_decimal),
        decreases cs@.len() - j,
    {
        if cs[j] == '.' {
            if has_decimal {
                return Err(CalcError::Unknown(String::from_str("two decimals found!")));
            }
            if j + 1 < cs.len() && cs[j + 1] == '.' {
                return Err(
                    CalcError::Unknown(String::from_str("two decimals following each other found!")),
                );
            }
            has_decimal = true;
        }
        j += 1;
    }
    Ok(j)
}

/// Turns a line of text into tokens, exactly as `tokenize_spec` says:
/// the tokens, or the first error met from left to right.
pub fn tokenize(raw_text: String) -> (r: Result<Vec<Token>, CalcError>)
    ensures
        tokenize_result_view(r) == tokenize_spec(raw_text@),
{
    let s = raw_text.as_str();
    let cs = chars_of(s);
    let n = cs.len();
    let ghost text = raw_text@;
    let mut tokens: Vec<Token> = Vec::new();
    let mut depth: usize = 0;
    let mut i: usize = 0;
    assert(tokens_view(tokens@) =~= Seq::<TokenV>::empty());
    while i < n
        invariant
            n == cs@.len(),
            cs@ == text,
            s@ == text,
            text == raw_text@,
            i <= n,
            depth <= i,
            lex(text, i as int, tokens_view(tokens@), depth as nat) == tokenize_spec(text),
        decreases n - i,
    {
        let ghost before = tokens_view(tokens@);
        let c = cs[i];
        if is_whitespace_char(c) {
            i += 1;
        } else if c == '-' && !ends_value_exec(&tokens) {
            if i + 1 < n && cs[i + 1] == '(' {
                tokens.push(Token::Num(String::from_str("-1")));
                tokens.push(Token::Star);
                proof {
                    assert(tokens_view(tokens@) =~= before + seq![TokenV::Num("-1"@), TokenV::Star]);
                }
                i += 1;
            } else {
                let j = scan_digits(&cs, i + 1);
                if j == i + 1 {
                    return Err(
                        CalcError::Parse {
                            value: String::from_str("-"),
                            reason: String::from_str("invalid float literal"),
                        },
                    );
                }
                tokens.push(Token::Num(piece(s, i, j)));
                proof {
                    assert(tokens_view(tokens@) =~= before.push(
                        TokenV::Num(text.subrange(i as int, j as int)),
                    ));
                }
                i = j;
            }
        } else if c == '+' || c == '-' || c == '*' || c == '/' || c == '(' || c == ')' || c == '=' {
            if c == '(' && ends_value_exec(&tokens) {
                tokens.push(Token::Star);
            }
            let ghost mid = tokens_view(tokens@);
            proof {
                assert(mid =~= (if c == '(' && ends_value(before) {
                    before.push(TokenV::Star)
                } else {
                    before
                }));
            }
            if c == ')' {
                if depth == 0 {
                    return Err(CalcError::Unknown(String::from_str("unmatched ')'")));
                }
                depth -= 1;
                tokens.push(Token::RParen);
            } else if c == '(' {
                depth += 1;
                tokens.push(Token::LParen);
            } else if c == '+' {
                tokens.push(Token::Plus);
            } else if c == '-' {
                tokens.push(Token::Minus);
            } else if c == '*' {
                tokens.push(Token::Star);
            } else if c == '/' {
                tokens.push(Token::Slash);
            } else {
                tokens.push(Token::Equals);
            }
            proof {
                assert(tokens_view(tokens@) =~= mid.push(tokens@.last()@));
            }
            i += 1;
        } else if '0' <= c && c <= '9' {
            match scan_number(&cs, i + 1) {
                Ok(j) => {
                    tokens.push(Token::Num(piece(s, i, j)));
                    proof {
                        assert(tokens_view(tokens@) =~= before.push(
                            TokenV::Num(text.subrange(i as int, j as int)),
                        ));
                    }
                    i = j;
                },
                Err(e) => {
                    return Err(e);
                },
            }
        } else {
            let p = piece(s, i, i + 1);
            proof {
                assert(p@ =~= seq![c]);
            }
            return Err(CalcError::Unknown(p));
        }
    }
    if depth > 0 {
        let mut m = decimal_string(depth as u64);
        m.append(" unclosed '('");
        return Err(CalcError::Unknown(m));
    }
    Ok(tokens)
}

} // verus!
