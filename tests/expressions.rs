use sql::aggregate::{Aggregate, AggregateCall, AggregateFunction, FloatArith};
use sql::data::{Data, Number};
use sql::expr::{BinaryOp, Expr};
use sql::parser::Parser;
use sql::row::Row;
use std::cmp::Ordering;

struct Ieee;

impl FloatArith for Ieee {
    fn add(&self, a: u64, b: u64) -> u64 {
        (f64::from_bits(a) + f64::from_bits(b)).to_bits()
    }

    fn from_int(&self, i: i64) -> u64 {
        (i as f64).to_bits()
    }

    fn div(&self, a: u64, b: u64) -> u64 {
        (f64::from_bits(a) / f64::from_bits(b)).to_bits()
    }

    fn from_decimal(&self, text: &str) -> u64 {
        text.parse::<f64>().map(f64::to_bits).unwrap_or(0)
    }
}

fn num(i: i64) -> Data {
    Data::Number(Number::Int(i))
}

fn float(f: f64) -> Data {
    Data::Number(Number::Float(f.to_bits()))
}

fn apply_agg(name: &str, input: Vec<Data>) -> Data {
    let mut agg = AggregateFunction::from_name(name).unwrap().aggregate();
    for value in input {
        agg.apply(value, &Ieee);
    }
    agg.final_value(&Ieee)
}

#[test]
fn eval_column() {
    let mut row = Row::new();
    row.insert(Expr::Column(String::from("a")), num(0));
    row.insert(Expr::Column(String::from("b")), num(1));
    row.insert(Expr::Column(String::from("c")), num(2));

    let expr = Expr::Column(String::from("b"));
    assert_eq!(num(1), expr.eval(&row));
}

#[test]
fn eval_aggregate_function() {
    let agg_call = AggregateCall {
        function: AggregateFunction::Sum,
        argument: Box::new(Expr::Column(String::from("a"))),
    };

    let mut row = Row::new();
    row.insert(Expr::AggregateCall(agg_call.clone()), num(4));

    let expr = Expr::AggregateCall(agg_call);
    assert_eq!(num(4), expr.eval(&row));
}

#[test]
fn eval_binary_op() {
    let cases = vec![
        (BinaryOp::Eq, Data::Bool(false), Data::Bool(false), Data::Bool(true)),
        (BinaryOp::Eq, Data::Bool(false), Data::Bool(true), Data::Bool(false)),
        (BinaryOp::Eq, Data::Null, Data::Null, Data::Bool(true)),
        (BinaryOp::Eq, Data::String(String::from("foo")), Data::Null, Data::Bool(false)),
    ];

    for (op, left, right, expected) in cases {
        assert_eq!(expected, op.eval(left, right));
    }
}

#[test]
fn self_equality_over_empty_row() {
    let mut parser = Parser::new("a = a", &Ieee);
    let expr = parser.parse_expr().unwrap();
    assert_eq!(Data::Bool(true), expr.eval(&Row::new()));
    let mut parser = Parser::new("a = b", &Ieee);
    let expr = parser.parse_expr().unwrap();
    let mut row = Row::new();
    row.insert(Expr::Column("a".to_string()), num(1));
    row.insert(Expr::Column("b".to_string()), float(1.0));
    assert_eq!(Data::Bool(true), expr.eval(&row));
    row.insert(Expr::Column("b".to_string()), float(1.5));
    assert_eq!(Data::Bool(false), expr.eval(&row));
}

#[test]
fn missing_keys_are_null() {
    let row = Row::new();
    assert_eq!(Data::Null, Expr::Column("x".to_string()).eval(&row));
    let mut row = Row::new();
    row.insert(Expr::Column("x".to_string()), num(1));
    row.insert(Expr::Column("x".to_string()), num(2));
    assert_eq!(num(2), Expr::Column("x".to_string()).eval(&row));
}

#[test]
fn sum_ints() {
    let input = vec![num(0), num(1), num(2), num(3)];
    let expected = num(6);
    assert_eq!(expected, apply_agg("sum", input));
}

#[test]
fn sum_floats() {
    let input = vec![float(0.0), float(-1.2), float(2.4), float(3.6)];
    let expected = float(4.8);
    assert_eq!(expected, apply_agg("sum", input));
}

#[test]
fn sum_mixed() {
    let input = vec![
        Data::Null,
        num(1),
        Data::Bool(true),
        Data::Bool(false),
        float(2.0),
        Data::String("foo".to_string()),
    ];
    let expected = float(3.0);
    let actual = apply_agg("sum", input);
    assert!(matches!(actual, Data::Number(Number::Float(_))));
    assert_eq!(expected, actual);
}

#[test]
fn count() {
    let input = vec![
        Data::Null,
        num(1),
        Data::Bool(true),
        Data::Bool(false),
        float(2.0),
        Data::String("foo".to_string()),
    ];
    let expected = num(5);
    assert_eq!(expected, apply_agg("count", input));
}

#[test]
fn count_skips_every_null() {
    let input = vec![Data::Null, Data::Null, num(7), Data::Null];
    assert_eq!(num(1), apply_agg("count", input));
    assert_eq!(num(0), apply_agg("count", vec![]));
}

#[test]
fn sum_of_ints_stays_int() {
    let actual = apply_agg("sum", vec![num(-4), num(10), Data::Null]);
    assert!(matches!(actual, Data::Number(Number::Int(6))));
}

#[test]
fn average_nothing() {
    let input = vec![];
    let expected = float(0.0);
    let actual = apply_agg("avg", input);
    assert!(matches!(actual, Data::Number(Number::Float(0))));
    assert_eq!(expected, actual);
}

#[test]
fn average_something() {
    let input = vec![num(1), float(1.5), Data::Bool(false)];
    let expected = float(1.25);
    assert_eq!(expected, apply_agg("avg", input));
}

#[test]
fn aggregate_start_states() {
    assert!(matches!(AggregateFunction::Count.aggregate(), Aggregate::Count(0)));
    assert!(matches!(AggregateFunction::Sum.aggregate(), Aggregate::Sum(Number::Int(0))));
    assert!(matches!(AggregateFunction::Average.aggregate(), Aggregate::Average(Number::Int(0), 0)));
}

#[test]
fn numbers_compare_as_reals() {
    assert_eq!(Number::Int(1).compare(&Number::Float(1.0f64.to_bits())), Ordering::Equal);
    assert_eq!(Number::Int(2).compare(&Number::Float(1.5f64.to_bits())), Ordering::Greater);
    assert_eq!(Number::Int(-2).compare(&Number::Float((-1.5f64).to_bits())), Ordering::Less);
    assert_eq!(Number::Float(0.5f64.to_bits()).compare(&Number::Int(0)), Ordering::Greater);
    assert_eq!(Number::Int(0).compare(&Number::Float((-0.0f64).to_bits())), Ordering::Equal);
    assert_eq!(Number::Float(0.0f64.to_bits()).compare(&Number::Float((-0.0f64).to_bits())), Ordering::Equal);
    assert_eq!(Number::Int(i64::MIN).compare(&Number::Float((i64::MIN as f64).to_bits())), Ordering::Equal);
    assert_eq!(Number::Int(i64::MAX).compare(&Number::Float(f64::INFINITY.to_bits())), Ordering::Less);
    assert_eq!(Number::Int(i64::MAX).compare(&Number::Float(1e300f64.to_bits())), Ordering::Less);
    assert_eq!(Number::Int(1).compare(&Number::Float(1e-300f64.to_bits())), Ordering::Greater);
    assert_eq!(Number::Int(0).compare(&Number::Float(1e-300f64.to_bits())), Ordering::Less);
    assert_eq!(Number::Int((1 << 53) + 1).compare(&Number::Float(((1u64 << 53) as f64).to_bits())), Ordering::Greater);
    let nan = Number::Float(f64::NAN.to_bits());
    let other_nan = Number::Float(f64::NAN.to_bits() | 1);
    assert_eq!(nan.compare(&other_nan), Ordering::Equal);
    assert_eq!(nan.compare(&Number::Int(5)), Ordering::Greater);
    assert_eq!(Number::Float(f64::INFINITY.to_bits()).compare(&nan), Ordering::Less);
    assert_eq!(Number::Float((-3.0f64).to_bits()).compare(&Number::Float(2.0f64.to_bits())), Ordering::Less);
}

#[test]
fn values_order_by_kind_first() {
    assert_eq!(Data::Null.compare(&Data::Bool(false)), Ordering::Less);
    assert_eq!(Data::Bool(true).compare(&num(-100)), Ordering::Less);
    assert_eq!(num(100).compare(&Data::String("".to_string())), Ordering::Less);
    assert_eq!(Data::String("ab".to_string()).compare(&Data::String("b".to_string())), Ordering::Less);
    assert_eq!(Data::String("ab".to_string()).compare(&Data::String("a".to_string())), Ordering::Greater);
    assert!(Data::String("x".to_string()).equals(&Data::String("x".to_string())));
}

#[test]
fn expressions_print_canonically() {
    let e = Expr::BinaryExpr {
        left: Box::new(Expr::AggregateCall(AggregateCall {
            function: AggregateFunction::Average,
            argument: Box::new(Expr::Column("my col".to_string())),
        })),
        op: BinaryOp::Eq,
        right: Box::new(Expr::Column("from".to_string())),
    };
    assert_eq!(e.to_text(), "avg(\"my col\") = \"from\"");
}

#[test]
fn last_aggregate_call_in_walk() {
    let inner = AggregateCall { function: AggregateFunction::Count, argument: Box::new(Expr::Column("a".to_string())) };
    let outer = Expr::AggregateCall(AggregateCall {
        function: AggregateFunction::Sum,
        argument: Box::new(Expr::AggregateCall(inner.clone())),
    });
    assert_eq!(outer.get_aggregate_call(), Some(inner));
    assert_eq!(Expr::Column("a".to_string()).get_aggregate_call(), None);
}
