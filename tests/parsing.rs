use sql::aggregate::{AggregateCall, AggregateFunction, FloatArith};
use sql::data::Number;
use sql::expr::{BinaryOp, Expr};
use sql::parser::{parse, ParseError, Parser};
use sql::query::SortDirection;
use sql::scanner::{ScanError, Scanner};
use sql::token::Token;

struct Ieee;

impl FloatArith for Ieee {
    fn add(&self, a: u64, b: u64) -> u64 {
        (f64::from_bits(a) + f64::from_bits(b)).to_bits()
    }

    fn from_int(&self, i: i64) -> u64 {
        (i as f64).to_bits()
    }

    fn div(&self, a: u64, b: u64) -> u64 {
        (f64::from_bits(a) / f64::from_bits(b)).to_bits()
    }

    fn from_decimal(&self, text: &str) -> u64 {
        text.parse::<f64>().map(f64::to_bits).unwrap_or(0)
    }
}

#[test]
fn parse_aggregate_query() {
    let input = "select sum(value) from foo";
    parse(input, &Ieee).unwrap();
}

#[test]
fn parse_condition() {
    let inputs = vec!["select a from foo where a", "select a from foo where a == b"];

    for input in inputs {
        parse(input, &Ieee).unwrap();
    }
}

#[test]
fn parse_group_query() {
    let inputs = vec![
        "select a, b from foo group by a",
        "select a, b from foo group by b",
        "select a, b from foo group by a, b",
    ];

    for input in inputs {
        parse(input, &Ieee).unwrap();
    }
}

#[test]
fn parse_order_query() {
    let inputs = vec![
        "select a, b from foo order by b",
        "select a, b from foo order by b asc",
        "select a, b from foo order by b desc",
        "select a, b from foo order by b, a",
        "select a, b from foo order by b asc, a",
        "select a, b from foo order by b, a desc",
        "select a, b from foo order by b asc, a desc",
    ];

    for input in inputs {
        parse(input, &Ieee).unwrap();
    }
}

#[test]
fn unknown_function() {
    let input = "select blah(value) from foo";
    let actual = parse(input, &Ieee);
    let expected = Err(ParseError::UnknownFunction(String::from("blah")));
    assert_eq!(expected, actual);
}

#[test]
fn query_format() {
    let inputs = vec![
        "select a, b from c",
        "select sum(a), sum(b) from c",
        "select sum(a), b from c group by b",
        "select a, b from c order by b",
        "select a, b from c group by a order by b",
        "select a, b from c where a",
        r#"select a, b from "fixtures/accounts.json""#,
    ];

    for input in inputs {
        let query = parse(input, &Ieee).unwrap();
        assert_eq!(input, query.to_string());
    }
}

#[test]
fn symbols() {
    let mut scanner = Scanner::new("(,)=");
    assert_eq!(scanner.next(&Ieee), Some(Ok(Token::OpenParen)));
    assert_eq!(scanner.next(&Ieee), Some(Ok(Token::Comma)));
    assert_eq!(scanner.next(&Ieee), Some(Ok(Token::CloseParen)));
    assert_eq!(scanner.next(&Ieee), Some(Ok(Token::Eq)));
    assert_eq!(scanner.next(&Ieee), None);
}

#[test]
fn identifiers() {
    let mut scanner = Scanner::new(r#"select FrOm foo where group order by asc desc "a field""#);
    assert_eq!(scanner.next(&Ieee), Some(Ok(Token::Select)));
    assert_eq!(scanner.next(&Ieee), Some(Ok(Token::From)));
    assert_eq!(scanner.next(&Ieee), Some(Ok(Token::Identifier("foo".to_string()))));
    assert_eq!(scanner.next(&Ieee), Some(Ok(Token::Where)));
    assert_eq!(scanner.next(&Ieee), Some(Ok(Token::Group)));
    assert_eq!(scanner.next(&Ieee), Some(Ok(Token::Order)));
    assert_eq!(scanner.next(&Ieee), Some(Ok(Token::By)));
    assert_eq!(scanner.next(&Ieee), Some(Ok(Token::Asc)));
    assert_eq!(scanner.next(&Ieee), Some(Ok(Token::Desc)));
    assert_eq!(scanner.next(&Ieee), Some(Ok(Token::Identifier("a field".to_string()))));
    assert_eq!(scanner.next(&Ieee), None);
}

#[test]
fn strings() {
    let mut scanner = Scanner::new(r#"'' 'foo' '\'' '\n' '\\'"#);
    assert_eq!(scanner.next(&Ieee), Some(Ok(Token::String("".to_string()))));
    assert_eq!(scanner.next(&Ieee), Some(Ok(Token::String("foo".to_string()))));
    assert_eq!(scanner.next(&Ieee), Some(Ok(Token::String("'".to_string()))));
    assert_eq!(scanner.next(&Ieee), Some(Ok(Token::String("\n".to_string()))));
    assert_eq!(scanner.next(&Ieee), Some(Ok(Token::String("\\".to_string()))));
}

#[test]
fn unknown_token() {
    let mut scanner = Scanner::new("^");
    assert_eq!(scanner.next(&Ieee), Some(Err(ScanError::UnknownToken('^'))));
}

#[test]
fn scanner_numbers() {
    let mut scanner = Scanner::new("1 123 123.25 3.0");
    assert_eq!(scanner.next(&Ieee), Some(Ok(Token::Number(Number::Int(1)))));
    assert_eq!(scanner.next(&Ieee), Some(Ok(Token::Number(Number::Int(123)))));
    assert_eq!(scanner.next(&Ieee), Some(Ok(Token::Number(Number::Float(123.25f64.to_bits())))));
    assert_eq!(scanner.next(&Ieee), Some(Ok(Token::Number(Number::Float(3.0f64.to_bits())))));
    assert_eq!(scanner.next(&Ieee), None);
}

#[test]
fn integer_literals_up_to_the_largest_i64() {
    let mut scanner = Scanner::new("9223372036854775807 9223372036854775808 0007 1.");
    assert_eq!(scanner.next(&Ieee), Some(Ok(Token::Number(Number::Int(i64::MAX)))));
    assert_eq!(scanner.next(&Ieee), Some(Err(ScanError::NumberTooLarge)));
    assert_eq!(scanner.next(&Ieee), Some(Ok(Token::Number(Number::Int(7)))));
    assert!(matches!(scanner.next(&Ieee), Some(Ok(Token::Number(Number::Float(b)))) if b == 1.0f64.to_bits()));
    assert_eq!(parse("select a from 99999999999999999999", &Ieee), Err(ParseError::NumberTooLarge));
    assert_eq!(parse("select a from 12", &Ieee), Err(ParseError::UnexpectedToken(Token::Number(Number::Int(12)))));
}

#[test]
fn unterminated_literal_is_unexpected_eof() {
    let mut scanner = Scanner::new("'abc");
    assert_eq!(scanner.next(&Ieee), Some(Err(ScanError::UnexpectedEOF)));
    assert_eq!(parse("select \"a", &Ieee), Err(ParseError::UnexpectedEOF));
}

#[test]
fn parse_errors() {
    assert_eq!(parse("", &Ieee), Err(ParseError::UnexpectedEOF));
    assert_eq!(parse("from a", &Ieee), Err(ParseError::UnexpectedToken(Token::From)));
    assert_eq!(parse("select a from ^", &Ieee), Err(ParseError::UnknownToken('^')));
    assert_eq!(parse("select a b", &Ieee), Err(ParseError::UnexpectedToken(Token::Identifier("b".to_string()))));
    assert_eq!(parse("select a from 'x'", &Ieee), Err(ParseError::UnexpectedToken(Token::String("x".to_string()))));
}

#[test]
fn parse_full_query_structure() {
    let q = parse("SELECT Count(a), b FROM t WHERE b = c GROUP BY b ORDER BY count(a) DESC, b", &Ieee).unwrap();
    let count_a = Expr::AggregateCall(AggregateCall {
        function: AggregateFunction::Count,
        argument: Box::new(Expr::Column("a".to_string())),
    });
    assert_eq!(q.select, vec![count_a.clone(), Expr::Column("b".to_string())]);
    assert_eq!(q.from, "t".to_string());
    assert_eq!(
        q.condition,
        Some(Expr::BinaryExpr {
            left: Box::new(Expr::Column("b".to_string())),
            op: BinaryOp::Eq,
            right: Box::new(Expr::Column("c".to_string())),
        })
    );
    assert_eq!(q.group, vec![Expr::Column("b".to_string())]);
    assert_eq!(q.order.len(), 2);
    assert_eq!(q.order[0].expr, count_a);
    assert_eq!(q.order[0].direction, Some(SortDirection::Desc));
    assert_eq!(q.order[1].direction, None);
    assert_eq!(q.to_string(), "select count(a), b from t where b = c group by b order by count(a) desc, b");
}

#[test]
fn canonical_text_reparses() {
    let inputs = vec![
        "select \"select\", \"a b\", \"1x\", \"q\\\"t\", \"\" from \"the\\\\file\" where x = y order by \"a b\" asc",
        "select avg(a = b) from t group by a, b order by avg(a = b) desc",
    ];
    for input in inputs {
        let q = parse(input, &Ieee).unwrap();
        let again = parse(&q.to_string(), &Ieee).unwrap();
        assert_eq!(q, again);
        assert_eq!(q.to_string(), again.to_string());
    }
}

#[test]
fn function_names_ignore_case() {
    assert_eq!(AggregateFunction::from_name("SuM"), Some(AggregateFunction::Sum));
    assert_eq!(AggregateFunction::from_name("avg"), Some(AggregateFunction::Average));
    assert_eq!(AggregateFunction::from_name("COUNT"), Some(AggregateFunction::Count));
    assert_eq!(AggregateFunction::from_name("average"), None);
}

#[test]
fn parser_reads_one_expression() {
    let mut parser = Parser::new("a = b c", &Ieee);
    let e = parser.parse_expr().unwrap();
    assert_eq!(
        e,
        Expr::BinaryExpr {
            left: Box::new(Expr::Column("a".to_string())),
            op: BinaryOp::Eq,
            right: Box::new(Expr::Column("b".to_string())),
        }
    );
    assert_eq!(parser.parse_expr().unwrap(), Expr::Column("c".to_string()));
    assert_eq!(parser.parse_expr(), Err(ParseError::UnexpectedEOF));
}
