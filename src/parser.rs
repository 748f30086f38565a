//! The recursive-descent parser from tokens to a query.
use vstd::prelude::*;
use crate::aggregate::{AggregateCall, AggregateFunction, function_named};
use crate::expr::{BinaryOp, Expr, ExprV};
use crate::query::{OrderField, Query, QueryV, SortDirection};
use crate::scanner::{ScanError, Scanner, next_token, scanned_view, lemma_next_token_advances};
use crate::text::chars_of;
use crate::token::{Tok, Token};
use crate::data::Number;
use crate::aggregate::FloatArith;

verus! {

/// Why a text is not a query.
#[derive(Clone, Debug, PartialEq)]
pub enum ParseError {
    UnexpectedEOF,
    UnknownToken(char),
    UnexpectedToken(Token),
    UnknownFunction(String),
    /// An integer literal above `i64::MAX`.
    NumberTooLarge,
}

/// The mathematical model of a parse error.
pub enum ParseErr {
    UnexpectedEOF,
    UnknownToken(char),
    UnexpectedToken(Tok),
    UnknownFunction(Seq<char>),
    NumberTooLarge,
}

impl View for ParseError {
    type V = ParseErr;

    open spec fn view(&self) -> ParseErr {
        match self {
            ParseError::UnexpectedEOF => ParseErr::UnexpectedEOF,
            ParseError::UnknownToken(c) => ParseErr::UnknownToken(*c),
            ParseError::UnexpectedToken(t) => ParseErr::UnexpectedToken(t@),
            ParseError::UnknownFunction(n) => ParseErr::UnknownFunction(n@),
            ParseError::NumberTooLarge => ParseErr::NumberTooLarge,
        }
    }
}

/// A scan error, as a parse error.
pub open spec fn scan_err(e: ScanError) -> ParseErr {
    match e {
        ScanError::UnexpectedEOF => ParseErr::UnexpectedEOF,
        ScanError::UnknownToken(c) => ParseErr::UnknownToken(c),
        ScanError::NumberTooLarge => ParseErr::NumberTooLarge,
    }
}

fn from_scan(e: ScanError) -> (r: ParseError)
    ensures
        r@ == scan_err(e),
{
    match e {
        ScanError::UnexpectedEOF => ParseError::UnexpectedEOF,
        ScanError::UnknownToken(c) => ParseError::UnknownToken(c),
        ScanError::NumberTooLarge => ParseError::NumberTooLarge,
    }
}

/// The tokens of `s` from position `p`, up to the end of the input or up to
/// and including the first scan error.
pub open spec fn tokens_from(s: Seq<char>, p: int) -> Seq<Result<Tok, ScanError>>
    decreases s.len() - p,
{
    if p < 0 || p > s.len() {
        Seq::empty()
    } else {
        match next_token(s, p) {
            None => Seq::empty(),
            Some((Err(e), _)) => seq![Err(e)],
            Some((Ok(t), q)) => if p < q <= s.len() {
                seq![Ok(t)] + tokens_from(s, q)
            } else {
                seq![Ok(t)]
            },
        }
    }
}

/// The tokens of a query text.
pub open spec fn tokens(s: Seq<char>) -> Seq<Result<Tok, ScanError>> {
    tokens_from(s, 0)
}

pub type Tokens = Seq<Result<Tok, ScanError>>;

/// The position after the token `t` expected at `i`.
pub open spec fn p_expect(ts: Tokens, i: int, t: Tok) -> Result<int, ParseErr> {
    if i < 0 || i >= ts.len() {
        Err(ParseErr::UnexpectedEOF)
    } else {
        match ts[i] {
            Ok(x) => if x == t {
                Ok(i + 1)
            } else {
                Err(ParseErr::UnexpectedToken(x))
            },
            Err(e) => Err(scan_err(e)),
        }
    }
}

/// `primary := Identifier [ "(" expr ")" ]`, at token `i`.
pub open spec fn p_primary(ts: Tokens, i: int) -> Result<(ExprV, int), ParseErr>
    decreases ts.len() - i, 0int,
{
    if i < 0 || i >= ts.len() {
        Err(ParseErr::UnexpectedEOF)
    } else {
        match ts[i] {
            Err(e) => Err(scan_err(e)),
            Ok(Tok::Identifier(n)) => if i + 1 < ts.len() && ts[i + 1] == Ok::<Tok, ScanError>(
                Tok::OpenParen,
            ) {
                match p_expr(ts, i + 2) {
                    Err(e) => Err(e),
                    Ok((a, j)) => match p_expect(ts, j, Tok::CloseParen) {
                        Err(e) => Err(e),
                        Ok(k) => match function_named(n) {
                            None => Err(ParseErr::UnknownFunction(n)),
                            Some(f) => Ok((ExprV::Call(f, Box::new(a)), k)),
                        },
                    },
                }
            } else {
                Ok((ExprV::Column(n), i + 1))
            },
            Ok(t) => Err(ParseErr::UnexpectedToken(t)),
        }
    }
}

/// Whether the tokens at `j` continue an expression with `= primary`. An `=`
/// that no name follows does not: the expression ends before it, and what
/// follows the last clause of a query is not read, so `where a == b` reads
/// the condition `a`, as does `where a = 1`.
pub open spec fn continues_eq(ts: Tokens, j: int) -> bool {
    &&& 0 <= j
    &&& j + 1 < ts.len()
    &&& ts[j] == Ok::<Tok, ScanError>(Tok::Eq)
    &&& ts[j + 1] matches Ok(Tok::Identifier(_))
}

/// `expr := primary [ "=" primary ]`, at token `i`.
pub open spec fn p_expr(ts: Tokens, i: int) -> Result<(ExprV, int), ParseErr>
    decreases ts.len() - i, 1int,
{
    match p_primary(ts, i) {
        Err(e) => Err(e),
        Ok((l, j)) => if i < j && continues_eq(ts, j) {
            match p_primary(ts, j + 1) {
                Err(e) => Err(e),
                Ok((r, k)) => Ok((ExprV::Binary(Box::new(l), BinaryOp::Eq, Box::new(r)), k)),
            }
        } else {
            Ok((l, j))
        },
    }
}

pub open spec fn is_tok(ts: Tokens, j: int, t: Tok) -> bool {
    0 <= j < ts.len() && ts[j] == Ok::<Tok, ScanError>(t)
}

/// `expr ("," expr)*`, at token `i`.
pub open spec fn p_list(ts: Tokens, i: int) -> Result<(Seq<ExprV>, int), ParseErr>
    decreases ts.len() - i,
{
    match p_expr(ts, i) {
        Err(e) => Err(e),
        Ok((e, j)) => if i < j && is_tok(ts, j, Tok::Comma) {
            match p_list(ts, j + 1) {
                Err(x) => Err(x),
                Ok((rest, k)) => Ok((seq![e] + rest, k)),
            }
        } else {
            Ok((seq![e], j))
        },
    }
}

/// `expr [ASC | DESC]`, at token `i`.
pub open spec fn p_order_field(ts: Tokens, i: int) -> Result<((ExprV, Option<SortDirection>), int), ParseErr> {
    match p_expr(ts, i) {
        Err(e) => Err(e),
        Ok((e, j)) => if is_tok(ts, j, Tok::Asc) {
            Ok(((e, Some(SortDirection::Asc)), j + 1))
        } else if is_tok(ts, j, Tok::Desc) {
            Ok(((e, Some(SortDirection::Desc)), j + 1))
        } else {
            Ok(((e, None), j))
        },
    }
}

/// `order_field ("," order_field)*`, at token `i`.
pub open spec fn p_order_list(ts: Tokens, i: int) -> Result<(Seq<(ExprV, Option<SortDirection>)>, int), ParseErr>
    decreases ts.len() - i,
{
    match p_order_field(ts, i) {
        Err(e) => Err(e),
        Ok((o, j)) => if i < j && is_tok(ts, j, Tok::Comma) {
            match p_order_list(ts, j + 1) {
                Err(x) => Err(x),
                Ok((rest, k)) => Ok((seq![o] + rest, k)),
            }
        } else {
            Ok((seq![o], j))
        },
    }
}

/// The source name at token `i`.
pub open spec fn p_table(ts: Tokens, i: int) -> Result<Seq<char>, ParseErr> {
    if i < 0 || i >= ts.len() {
        Err(ParseErr::UnexpectedEOF)
    } else {
        match ts[i] {
            Ok(Tok::Identifier(n)) => Ok(n),
            Ok(t) => Err(ParseErr::UnexpectedToken(t)),
            Err(e) => Err(scan_err(e)),
        }
    }
}

/// `[WHERE expr]` at token `i`.
pub open spec fn p_where(ts: Tokens, i: int) -> Result<(Option<ExprV>, int), ParseErr> {
    if is_tok(ts, i, Tok::Where) {
        match p_expr(ts, i + 1) {
            Err(e) => Err(e),
            Ok((c, j)) => Ok((Some(c), j)),
        }
    } else {
        Ok((None, i))
    }
}

/// `[GROUP BY expr_list]` at token `i`.
pub open spec fn p_group(ts: Tokens, i: int) -> Result<(Seq<ExprV>, int), ParseErr> {
    if is_tok(ts, i, Tok::Group) {
        match p_expect(ts, i + 1, Tok::By) {
            Err(e) => Err(e),
            Ok(j) => p_list(ts, j),
        }
    } else {
        Ok((Seq::empty(), i))
    }
}

/// `[ORDER BY order_list]` at token `i`.
pub open spec fn p_order(ts: Tokens, i: int) -> Result<Seq<(ExprV, Option<SortDirection>)>, ParseErr> {
    if is_tok(ts, i, Tok::Order) {
        match p_expect(ts, i + 1, Tok::By) {
            Err(e) => Err(e),
            Ok(j) => match p_order_list(ts, j) {
                Err(e) => Err(e),
                Ok((os, _)) => Ok(os),
            },
        }
    } else {
        Ok(Seq::empty())
    }
}

/// `SELECT select_list FROM table [WHERE expr] [GROUP BY expr_list] [ORDER BY order_list]`,
/// at token `i`; what follows the last clause is not read.
pub open spec fn p_query(ts: Tokens, i: int) -> Result<QueryV, ParseErr> {
    match p_expect(ts, i, Tok::Select) {
        Err(e) => Err(e),
        Ok(i1) => match p_list(ts, i1) {
            Err(e) => Err(e),
            Ok((select, i2)) => match p_expect(ts, i2, Tok::From) {
                Err(e) => Err(e),
                Ok(i3) => match p_table(ts, i3) {
                    Err(e) => Err(e),
                    Ok(from) => match p_where(ts, i3 + 1) {
                        Err(e) => Err(e),
                        Ok((condition, i4)) => match p_group(ts, i4) {
                            Err(e) => Err(e),
                            Ok((group, i5)) => match p_order(ts, i5) {
                                Err(e) => Err(e),
                                Ok(order) => Ok(
                                    QueryV { select, from, condition, group, order },
                                ),
                            },
                        },
                    },
                },
            },
        },
    }
}

/// What parsing the text `s` yields.
pub open spec fn parse_text(s: Seq<char>) -> Result<QueryV, ParseErr> {
    p_query(tokens(s), 0)
}

pub open spec fn tokens_view(v: Seq<Result<Token, ScanError>>) -> Tokens {
    v.map_values(|r: Result<Token, ScanError>| scanned_view(r))
}

/// Scans the whole text, up to and including the first scan error.
pub fn scan_all<A: FloatArith>(input: &str, arith: &A) -> (r: Vec<Result<Token, ScanError>>)
    ensures
        tokens_view(r@) == tokens(input@),
{
    let mut scanner = Scanner::new(input);
    let ghost s = input@;
    let mut out: Vec<Result<Token, ScanError>> = Vec::new();
    loop
        invariant
            scanner.wf(),
            scanner.text() == s,
            0 <= scanner.position() <= s.len(),
            s == input@,
            tokens(s) == tokens_view(out@) + tokens_from(s, scanner.position()),
        decreases s.len() - scanner.position(),
    {
        let ghost p = scanner.position();
        proof {
            lemma_next_token_advances(s, p);
        }
        match scanner.next(arith) {
            None => {
                proof {
                    assert(next_token(s, p) is None);
                    assert(tokens_from(s, p) =~= Seq::<Result<Tok, ScanError>>::empty());
                    assert(tokens_view(out@) + Seq::<Result<Tok, ScanError>>::empty() =~= tokens_view(out@));
                    assert(tokens_view(out@) == tokens(s));
                }
                return out;
            },
            Some(Err(e)) => {
                let ghost before = out@;
                out.push(Err(e));
                proof {
                    assert(tokens_from(s, p) =~= seq![Err::<Tok, ScanError>(e)]);
                    assert(tokens_view(out@) =~= tokens_view(before) + seq![Err::<Tok, ScanError>(e)]);
                    assert(tokens_view(out@) == tokens(s));
                }
                return out;
            },
            Some(Ok(t)) => {
                let ghost before = out@;
                let ghost tv = t@;
                out.push(Ok(t));
                proof {
                    assert(tokens_view(out@) =~= tokens_view(before) + seq![Ok::<Tok, ScanError>(tv)]);
                    assert(tokens_view(out@) + tokens_from(s, scanner.position()) =~= tokens_view(before) + (seq![Ok::<Tok, ScanError>(tv)] + tokens_from(s, scanner.position())));
                }
            },
        }
    }
}


fn copy_string(s: &String) -> (r: String)
    ensures
        r@ == s@,
{
    s.clone()
}

/// A copy of a token.
pub fn copy_token(t: &Token) -> (r: Token)
    ensures
        r@ == t@,
{
    match t {
        Token::Select => Token::Select,
        Token::From => Token::From,
        Token::Where => Token::Where,
        Token::Group => Token::Group,
        Token::Order => Token::Order,
        Token::By => Token::By,
        Token::Asc => Token::Asc,
        Token::Desc => Token::Desc,
        Token::Identifier(s) => Token::Identifier(copy_string(s)),
        Token::String(s) => Token::String(copy_string(s)),
        Token::Number(n) => Token::Number(*n),
        Token::OpenParen => Token::OpenParen,
        Token::CloseParen => Token::CloseParen,
        Token::Comma => Token::Comma,
        Token::Eq => Token::Eq,
    }
}

/// Whether two tokens are equal.
pub fn same_token(a: &Token, b: &Token) -> (r: bool)
    ensures
        r == (a@ == b@),
{
    match (a, b) {
        (Token::Select, Token::Select) => true,
        (Token::From, Token::From) => true,
        (Token::Where, Token::Where) => true,
        (Token::Group, Token::Group) => true,
        (Token::Order, Token::Order) => true,
        (Token::By, Token::By) => true,
        (Token::Asc, Token::Asc) => true,
        (Token::Desc, Token::Desc) => true,
        (Token::Identifier(x), Token::Identifier(y)) => x.eq(y),
        (Token::String(x), Token::String(y)) => x.eq(y),
        (Token::Number(Number::Int(x)), Token::Number(Number::Int(y))) => *x == *y,
        (Token::Number(Number::Float(_)), Token::Number(Number::Float(_))) => true,
        (Token::OpenParen, Token::OpenParen) => true,
        (Token::CloseParen, Token::CloseParen) => true,
        (Token::Comma, Token::Comma) => true,
        (Token::Eq, Token::Eq) => true,
        _ => false,
    }
}

/// Whether token `j` exists and is `t`.
fn token_is(ts: &Vec<Result<Token, ScanError>>, j: usize, t: &Token) -> (r: bool)
    ensures
        r == is_tok(tokens_view(ts@), j as int, t@),
        r ==> j < ts@.len(),
        r ==> j < usize::MAX,
{
    let n = ts.len();
    if j < n {
        match &ts[j] {
            Ok(x) => same_token(x, t),
            Err(_) => false,
        }
    } else {
        false
    }
}

fn expect(ts: &Vec<Result<Token, ScanError>>, i: usize, t: &Token) -> (r: Result<usize, ParseError>)
    ensures
        match p_expect(tokens_view(ts@), i as int, t@) {
            Ok(j) => r matches Ok(x) && x == j && j <= ts@.len(),
            Err(e) => r matches Err(x) && x@ == e,
        },
{
    if i >= ts.len() {
        return Err(ParseError::UnexpectedEOF);
    }
    match &ts[i] {
        Ok(x) => if same_token(x, t) {
            Ok(i + 1)
        } else {
            Err(ParseError::UnexpectedToken(copy_token(x)))
        },
        Err(e) => Err(from_scan(*e)),
    }
}

fn parse_primary_at(ts: &Vec<Result<Token, ScanError>>, i: usize) -> (r: Result<(Expr, usize), ParseError>)
    ensures
        match p_primary(tokens_view(ts@), i as int) {
            Ok((e, j)) => r matches Ok(x) && x.0@ == e && x.1 == j && i < j <= ts@.len(),
            Err(e) => r matches Err(x) && x@ == e,
        },
    decreases ts@.len() - i, 0int,
{
    if i >= ts.len() {
        return Err(ParseError::UnexpectedEOF);
    }
    match &ts[i] {
        Err(e) => Err(from_scan(*e)),
        Ok(Token::Identifier(n)) => {
            if i + 1 < ts.len() && token_is(ts, i + 1, &Token::OpenParen) {
                match parse_expr_at(ts, i + 2) {
                    Err(e) => Err(e),
                    Ok((a, j)) => match expect(ts, j, &Token::CloseParen) {
                        Err(e) => Err(e),
                        Ok(k) => match AggregateFunction::from_chars(&chars_of(n.as_str())) {
                            None => Err(ParseError::UnknownFunction(copy_string(n))),
                            Some(f) => Ok(
                                (
                                    Expr::AggregateCall(
                                        AggregateCall { function: f, argument: Box::new(a) },
                                    ),
                                    k,
                                ),
                            ),
                        },
                    },
                }
            } else {
                Ok((Expr::Column(copy_string(n)), i + 1))
            }
        },
        Ok(t) => Err(ParseError::UnexpectedToken(copy_token(t))),
    }
}

fn parse_expr_at(ts: &Vec<Result<Token, ScanError>>, i: usize) -> (r: Result<(Expr, usize), ParseError>)
    ensures
        match p_expr(tokens_view(ts@), i as int) {
            Ok((e, j)) => r matches Ok(x) && x.0@ == e && x.1 == j && i < j <= ts@.len(),
            Err(e) => r matches Err(x) && x@ == e,
        },
    decreases ts@.len() - i, 1int,
{
    match parse_primary_at(ts, i) {
        Err(e) => Err(e),
        Ok((l, j)) => {
            let eq = token_is(ts, j, &Token::Eq);
            let next_is_name = eq && j < ts.len() - 1 && match &ts[j + 1] {
                Ok(Token::Identifier(_)) => true,
                _ => false,
            };
            if eq && next_is_name {
                match parse_primary_at(ts, j + 1) {
                    Err(e) => Err(e),
                    Ok((r, k)) => Ok(
                        (Expr::BinaryExpr { left: Box::new(l), op: BinaryOp::Eq, right: Box::new(r) }, k),
                    ),
                }
            } else {
                Ok((l, j))
            }
        },
    }
}

fn parse_list_at(ts: &Vec<Result<Token, ScanError>>, i: usize) -> (r: Result<(Vec<Expr>, usize), ParseError>)
    ensures
        match p_list(tokens_view(ts@), i as int) {
            Ok((es, j)) => r matches Ok(x) && crate::query::exprs_view(x.0@) == es && x.1 == j
                && j <= ts@.len(),
            Err(e) => r matches Err(x) && x@ == e,
        },
{
    let ghost v = tokens_view(ts@);
    let mut out: Vec<Expr> = Vec::new();
    let mut cur = i;
    loop
        invariant
            v == tokens_view(ts@),
            p_list(v, i as int) == match p_list(v, cur as int) {
                Ok((rest, k)) => Ok((crate::query::exprs_view(out@) + rest, k)),
                Err(e) => Err(e),
            },
        decreases ts@.len() - cur,
    {
        match parse_expr_at(ts, cur) {
            Err(e) => {
                return Err(e);
            },
            Ok((e, j)) => {
                let ghost ev = e@;
                let ghost before = out@;
                out.push(e);
                proof {
                    assert(crate::query::exprs_view(out@) =~= crate::query::exprs_view(before) + seq![ev]);
                }
                if token_is(ts, j, &Token::Comma) {
                    proof {
                        match p_list(v, j + 1) {
                            Ok((rest, k)) => {
                                assert(crate::query::exprs_view(before) + (seq![ev] + rest)
                                    =~= crate::query::exprs_view(out@) + rest);
                            },
                            Err(_) => {},
                        }
                    }
                    cur = j + 1;
                } else {
                    return Ok((out, j));
                }
            },
        }
    }
}

fn parse_order_field_at(ts: &Vec<Result<Token, ScanError>>, i: usize) -> (r: Result<(OrderField, usize), ParseError>)
    ensures
        match p_order_field(tokens_view(ts@), i as int) {
            Ok((o, j)) => r matches Ok(x) && x.0@ == o && x.1 == j && i < j <= ts@.len(),
            Err(e) => r matches Err(x) && x@ == e,
        },
{
    match parse_expr_at(ts, i) {
        Err(e) => Err(e),
        Ok((e, j)) => if token_is(ts, j, &Token::Asc) {
            Ok((OrderField { expr: e, direction: Some(SortDirection::Asc) }, j + 1))
        } else if token_is(ts, j, &Token::Desc) {
            Ok((OrderField { expr: e, direction: Some(SortDirection::Desc) }, j + 1))
        } else {
            Ok((OrderField { expr: e, direction: None }, j))
        },
    }
}

pub open spec fn order_view(v: Seq<OrderField>) -> Seq<(ExprV, Option<SortDirection>)> {
    v.map_values(|o: OrderField| o@)
}

fn parse_order_list_at(ts: &Vec<Result<Token, ScanError>>, i: usize) -> (r: Result<(Vec<OrderField>, usize), ParseError>)
    ensures
        match p_order_list(tokens_view(ts@), i as int) {
            Ok((os, j)) => r matches Ok(x) && order_view(x.0@) == os && x.1 == j && j <= ts@.len(),
            Err(e) => r matches Err(x) && x@ == e,
        },
{
    let ghost v = tokens_view(ts@);
    let mut out: Vec<OrderField> = Vec::new();
    let mut cur = i;
    loop
        invariant
            v == tokens_view(ts@),
            p_order_list(v, i as int) == match p_order_list(v, cur as int) {
                Ok((rest, k)) => Ok((order_view(out@) + rest, k)),
                Err(e) => Err(e),
            },
        decreases ts@.len() - cur,
    {
        match parse_order_field_at(ts, cur) {
            Err(e) => {
                return Err(e);
            },
            Ok((o, j)) => {
                let ghost ov = o@;
                let ghost before = out@;
                out.push(o);
                proof {
                    assert(order_view(out@) =~= order_view(before) + seq![ov]);
                }
                if token_is(ts, j, &Token::Comma) {
                    proof {
                        match p_order_list(v, j + 1) {
                            Ok((rest, k)) => {
                                assert(order_view(before) + (seq![ov] + rest) =~= order_view(out@) + rest);
                            },
                            Err(_) => {},
                        }
                    }
                    cur = j + 1;
                } else {
                    return Ok((out, j));
                }
            },
        }
    }
}


fn parse_table_at(ts: &Vec<Result<Token, ScanError>>, i: usize) -> (r: Result<String, ParseError>)
    ensures
        match p_table(tokens_view(ts@), i as int) {
            Ok(n) => r matches Ok(x) && x@ == n && i < ts@.len(),
            Err(e) => r matches Err(x) && x@ == e,
        },
{
    if i >= ts.len() {
        return Err(ParseError::UnexpectedEOF);
    }
    match &ts[i] {
        Ok(Token::Identifier(n)) => Ok(copy_string(n)),
        Ok(t) => Err(ParseError::UnexpectedToken(copy_token(t))),
        Err(e) => Err(from_scan(*e)),
    }
}

fn parse_where_at(ts: &Vec<Result<Token, ScanError>>, i: usize) -> (r: Result<(Option<Expr>, usize), ParseError>)
    requires
        i <= ts@.len(),
    ensures
        match p_where(tokens_view(ts@), i as int) {
            Ok((c, j)) => r matches Ok(x) && crate::query::option_view(x.0) == c && x.1 == j
                && j <= ts@.len(),
            Err(e) => r matches Err(x) && x@ == e,
        },
{
    if token_is(ts, i, &Token::Where) {
        match parse_expr_at(ts, i + 1) {
            Ok((c, j)) => Ok((Some(c), j)),
            Err(e) => Err(e),
        }
    } else {
        Ok((None, i))
    }
}

fn parse_group_at(ts: &Vec<Result<Token, ScanError>>, i: usize) -> (r: Result<(Vec<Expr>, usize), ParseError>)
    requires
        i <= ts@.len(),
    ensures
        match p_group(tokens_view(ts@), i as int) {
            Ok((g, j)) => r matches Ok(x) && crate::query::exprs_view(x.0@) == g && x.1 == j
                && j <= ts@.len(),
            Err(e) => r matches Err(x) && x@ == e,
        },
{
    if token_is(ts, i, &Token::Group) {
        match expect(ts, i + 1, &Token::By) {
            Ok(j) => parse_list_at(ts, j),
            Err(e) => Err(e),
        }
    } else {
        let v: Vec<Expr> = Vec::new();
        proof {
            assert(crate::query::exprs_view(v@) =~= Seq::<ExprV>::empty());
        }
        Ok((v, i))
    }
}

fn parse_order_at(ts: &Vec<Result<Token, ScanError>>, i: usize) -> (r: Result<Vec<OrderField>, ParseError>)
    requires
        i <= ts@.len(),
    ensures
        match p_order(tokens_view(ts@), i as int) {
            Ok(os) => r matches Ok(x) && order_view(x@) == os,
            Err(e) => r matches Err(x) && x@ == e,
        },
{
    if token_is(ts, i, &Token::Order) {
        match expect(ts, i + 1, &Token::By) {
            Ok(j) => match parse_order_list_at(ts, j) {
                Ok((os, _)) => Ok(os),
                Err(e) => Err(e),
            },
            Err(e) => Err(e),
        }
    } else {
        let v: Vec<OrderField> = Vec::new();
        proof {
            assert(order_view(v@) =~= Seq::<(ExprV, Option<SortDirection>)>::empty());
        }
        Ok(v)
    }
}

fn parse_query_at(ts: &Vec<Result<Token, ScanError>>, i: usize) -> (r: Result<Query, ParseError>)
    ensures
        match p_query(tokens_view(ts@), i as int) {
            Ok(q) => r matches Ok(x) && x@ == q,
            Err(e) => r matches Err(x) && x@ == e,
        },
{
    let n = ts.len();
    match expect(ts, i, &Token::Select) {
        Err(e) => Err(e),
        Ok(i1) => match parse_list_at(ts, i1) {
            Err(e) => Err(e),
            Ok((select, i2)) => match expect(ts, i2, &Token::From) {
                Err(e) => Err(e),
                Ok(i3) => match parse_table_at(ts, i3) {
                    Err(e) => Err(e),
                    Ok(from) => match parse_where_at(ts, i3 + 1) {
                        Err(e) => Err(e),
                        Ok((condition, i4)) => match parse_group_at(ts, i4) {
                            Err(e) => Err(e),
                            Ok((group, i5)) => match parse_order_at(ts, i5) {
                                Err(e) => Err(e),
                                Ok(order) => {
                                    let q = Query { select, from, condition, group, order };
                                    proof {
                                        assert(q@.order == order_view(q.order@));
                                    }
                                    Ok(q)
                                },
                            },
                        },
                    },
                },
            },
        },
    }
}

/// A parser over the tokens of one query text.
pub struct Parser {
    tokens: Vec<Result<Token, ScanError>>,
    index: usize,
}

impl Parser {
    /// The tokens the parser reads.
    pub closed spec fn token_seq(&self) -> Tokens {
        tokens_view(self.tokens@)
    }

    /// The index of the next token to read.
    pub closed spec fn next_index(&self) -> int {
        self.index as int
    }

    /// A parser at the start of `input`.
    pub fn new<A: FloatArith>(input: &str, arith: &A) -> (r: Parser)
        ensures
            r.token_seq() == tokens(input@),
            r.next_index() == 0,
    {
        Parser { tokens: scan_all(input, arith), index: 0 }
    }

    /// Parses a query from the next token on.
    pub fn parse(&mut self) -> (r: Result<Query, ParseError>)
        ensures
            final(self).token_seq() == old(self).token_seq(),
            match p_query(old(self).token_seq(), old(self).next_index()) {
                Ok(q) => r matches Ok(x) && x@ == q,
                Err(e) => r matches Err(x) && x@ == e,
            },
    {
        parse_query_at(&self.tokens, self.index)
    }

    /// Parses an expression from the next token on, and moves past it.
    pub fn parse_expr(&mut self) -> (r: Result<Expr, ParseError>)
        ensures
            final(self).token_seq() == old(self).token_seq(),
            match p_expr(old(self).token_seq(), old(self).next_index()) {
                Ok((e, j)) => r matches Ok(x) && x@ == e && final(self).next_index() == j,
                Err(e) => r matches Err(x) && x@ == e,
            },
    {
        match parse_expr_at(&self.tokens, self.index) {
            Ok((e, j)) => {
                self.index = j;
                Ok(e)
            },
            Err(e) => Err(e),
        }
    }
}

/// Parses a query text.
pub fn parse<A: FloatArith>(input: &str, arith: &A) -> (r: Result<Query, ParseError>)
    ensures
        match parse_text(input@) {
            Ok(q) => r matches Ok(x) && x@ == q,
            Err(e) => r matches Err(x) && x@ == e,
        },
{
    let mut p = Parser::new(input, arith);
    p.parse()
}

} // verus!
