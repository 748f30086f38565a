use sql::aggregate::{AggregateCall, AggregateFunction, FloatArith};
use sql::answer::Answer;
use sql::data::{Data, Number};
use sql::executor::{execute, ExecuteError};
use sql::expr::Expr;
use sql::parser::parse;
use sql::query::{OrderField, Query, SortDirection};
use sql::row::make_rows;
use sql::source::SourceError;

struct Ieee;

impl FloatArith for Ieee {
    fn add(&self, a: u64, b: u64) -> u64 {
        (f64::from_bits(a) + f64::from_bits(b)).to_bits()
    }

    fn from_int(&self, i: i64) -> u64 {
        (i as f64).to_bits()
    }

    fn div(&self, a: u64, b: u64) -> u64 {
        (f64::from_bits(a) / f64::from_bits(b)).to_bits()
    }

    fn from_decimal(&self, text: &str) -> u64 {
        text.parse::<f64>().map(f64::to_bits).unwrap_or(0)
    }
}

fn num(i: i64) -> Data {
    Data::Number(Number::Int(i))
}

fn ints(v: &[i64]) -> Vec<Data> {
    v.iter().map(|i| num(*i)).collect()
}

#[test]
fn query_execution() {
    let input = make_rows(vec!["a", "b"], vec![ints(&[1, 2]), ints(&[3, 4]), ints(&[5, 6])]);

    let query = parse("select sum(a), sum(b) from bar", &Ieee).unwrap();
    let actual = execute(query, &input, &Ieee).unwrap();
    let expected = Answer {
        columns: vec!["sum(a)".to_string(), "sum(b)".to_string()],
        rows: vec![ints(&[9, 12])],
    };

    assert_eq!(expected, actual);
}

#[test]
fn filter_where_clause() {
    let input = make_rows(
        vec!["a", "b"],
        vec![
            vec![num(1), Data::Bool(true)],
            vec![num(2), Data::Bool(false)],
            vec![num(3), Data::Bool(true)],
        ],
    );

    let query = parse("select sum(a) from bar where b", &Ieee).unwrap();
    let actual = execute(query, &input, &Ieee).unwrap();
    let expected = Answer { columns: vec!["sum(a)".to_string()], rows: vec![ints(&[4])] };

    assert_eq!(expected, actual);
}

#[test]
fn group_query_execution() {
    let input = make_rows(vec!["a", "b"], vec![ints(&[1, 0]), ints(&[3, 1]), ints(&[5, 1])]);

    let query = parse("select sum(a), b from bar group by b order by sum(a)", &Ieee).unwrap();
    let actual = execute(query, &input, &Ieee).unwrap();
    let expected = Answer {
        columns: vec!["sum(a)".to_string(), "b".to_string()],
        rows: vec![ints(&[1, 0]), ints(&[8, 1])],
    };

    assert_eq!(expected, actual);
}

#[test]
fn order_by_default_direction() {
    let input = make_rows(vec!["a"], vec![ints(&[3]), ints(&[2]), ints(&[1])]);

    let query = parse("select a from bar order by a", &Ieee).unwrap();
    let actual = execute(query, &input, &Ieee).unwrap();
    let expected = Answer {
        columns: vec!["a".to_string()],
        rows: vec![ints(&[1]), ints(&[2]), ints(&[3])],
    };

    assert_eq!(expected, actual);
}

#[test]
fn order_by_asc() {
    let input = make_rows(vec!["a"], vec![ints(&[3]), ints(&[2]), ints(&[1])]);

    let query = parse("select a from bar order by a asc", &Ieee).unwrap();
    let actual = execute(query, &input, &Ieee).unwrap();
    let expected = Answer {
        columns: vec!["a".to_string()],
        rows: vec![ints(&[1]), ints(&[2]), ints(&[3])],
    };

    assert_eq!(expected, actual);
}

#[test]
fn order_by_desc() {
    let input = make_rows(vec!["a"], vec![ints(&[3]), ints(&[2]), ints(&[1])]);

    let query = parse("select a from bar order by a desc", &Ieee).unwrap();
    let actual = execute(query, &input, &Ieee).unwrap();
    let expected = Answer {
        columns: vec!["a".to_string()],
        rows: vec![ints(&[3]), ints(&[2]), ints(&[1])],
    };

    assert_eq!(expected, actual);
}

#[test]
fn order_by_multiple_fields() {
    let input = make_rows(vec!["a", "b"], vec![ints(&[2, 6]), ints(&[2, 5]), ints(&[1, 5])]);

    let query = parse("select a, b from bar order by a asc, b desc", &Ieee).unwrap();
    let actual = execute(query, &input, &Ieee).unwrap();
    let expected = Answer {
        columns: vec!["a".to_string(), "b".to_string()],
        rows: vec![ints(&[1, 5]), ints(&[2, 6]), ints(&[2, 5])],
    };

    assert_eq!(expected, actual);
}

#[test]
fn aggregate_query() {
    let source = make_rows(vec!["a"], vec![ints(&[1]), ints(&[2]), ints(&[3]), ints(&[4]), ints(&[5])]);

    let call = AggregateCall {
        function: AggregateFunction::Sum,
        argument: Box::new(Expr::Column(String::from("a"))),
    };

    let query = Query {
        select: vec![Expr::AggregateCall(call)],
        from: String::new(),
        condition: None,
        group: vec![],
        order: vec![],
    };

    let actual = execute(query, &source, &Ieee).unwrap();
    let expected = Answer { columns: vec![String::from("sum(a)")], rows: vec![ints(&[15])] };

    assert_eq!(expected, actual);
}

#[test]
fn non_aggregate_query() {
    let source = make_rows(vec!["a"], vec![ints(&[1]), ints(&[2]), ints(&[3]), ints(&[4]), ints(&[5])]);

    let query = Query {
        select: vec![Expr::Column(String::from("a"))],
        from: String::new(),
        condition: None,
        group: vec![],
        order: vec![],
    };

    let actual = execute(query, &source, &Ieee).unwrap();
    let expected = Answer {
        columns: vec![String::from("a")],
        rows: vec![ints(&[1]), ints(&[2]), ints(&[3]), ints(&[4]), ints(&[5])],
    };

    assert_eq!(expected, actual);
}

#[test]
fn invalid_order_clause() {
    let source = make_rows(vec!["a"], vec![]);

    let query = Query {
        select: vec![],
        from: String::new(),
        condition: None,
        group: vec![],
        order: vec![OrderField { expr: Expr::Column(String::from("a")), direction: None }],
    };
    let actual = execute(query, &source, &Ieee);
    let expected = Err(ExecuteError::InvalidOrderClause(Expr::Column(String::from("a"))));
    assert_eq!(expected, actual);
}

#[test]
fn source_failure_ends_the_run() {
    let mut source = make_rows(vec!["a"], vec![ints(&[1]), ints(&[2])]);
    source.insert(1, Err(SourceError { description: "broken line".to_string() }));
    source.push(Err(SourceError { description: "later".to_string() }));
    for text in ["select a from t", "select count(a) from t", "select a from t where a"] {
        let query = parse(text, &Ieee).unwrap();
        let actual = execute(query, &source, &Ieee);
        assert_eq!(actual, Err(ExecuteError::SourceError("broken line".to_string())));
    }
}

#[test]
fn invalid_order_clause_comes_before_source_failure() {
    let source = vec![Err(SourceError { description: "broken".to_string() })];
    let query = parse("select a from t order by b", &Ieee).unwrap();
    assert_eq!(
        execute(query, &source, &Ieee),
        Err(ExecuteError::InvalidOrderClause(Expr::Column("b".to_string())))
    );
}

#[test]
fn every_row_has_one_value_per_column() {
    let input = make_rows(vec!["a", "b"], vec![ints(&[1, 2]), ints(&[1, 3]), ints(&[4, 2])]);
    let query = parse("select a, count(b), b = a from t group by a order by a desc", &Ieee).unwrap();
    let actual = execute(query, &input, &Ieee).unwrap();
    assert_eq!(actual.columns, vec!["a".to_string(), "count(b)".to_string(), "b = a".to_string()]);
    assert_eq!(actual.rows.len(), 2);
    for row in actual.rows.iter() {
        assert_eq!(row.len(), 3);
    }
    assert_eq!(actual.rows[0], vec![num(4), num(1), Data::Bool(false)]);
    assert_eq!(actual.rows[1], vec![num(1), num(2), Data::Bool(false)]);
}

#[test]
fn aggregates_over_no_rows_give_no_rows() {
    let input = make_rows(vec!["a"], vec![]);
    let query = parse("select sum(a) from t", &Ieee).unwrap();
    let actual = execute(query, &input, &Ieee).unwrap();
    assert_eq!(actual.rows.len(), 0);
    let input = make_rows(vec!["a"], vec![ints(&[1])]);
    let query = parse("select count(a) from t where a = b", &Ieee).unwrap();
    assert_eq!(execute(query, &input, &Ieee).unwrap().rows.len(), 0);
}

#[test]
fn sort_by_two_keys_directly() {
    let mut answer = Answer {
        columns: vec!["a".to_string(), "b".to_string()],
        rows: vec![ints(&[2, 1]), ints(&[1, 1]), ints(&[2, 3]), ints(&[1, 2])],
    };
    answer.sort(&[(0, SortDirection::Asc), (1, SortDirection::Desc)]);
    assert_eq!(answer.rows, vec![ints(&[1, 2]), ints(&[1, 1]), ints(&[2, 3]), ints(&[2, 1])]);
}

#[test]
fn sort_orders_across_kinds() {
    let mut answer = Answer {
        columns: vec!["v".to_string()],
        rows: vec![
            vec![Data::String("b".to_string())],
            vec![Data::Number(Number::Float(2.5f64.to_bits()))],
            vec![Data::Bool(true)],
            vec![Data::Null],
            vec![num(3)],
            vec![Data::String("a".to_string())],
            vec![Data::Bool(false)],
            vec![num(-1)],
        ],
    };
    answer.sort(&[(0, SortDirection::Asc)]);
    assert_eq!(
        answer.rows,
        vec![
            vec![Data::Null],
            vec![Data::Bool(false)],
            vec![Data::Bool(true)],
            vec![num(-1)],
            vec![Data::Number(Number::Float(2.5f64.to_bits()))],
            vec![num(3)],
            vec![Data::String("a".to_string())],
            vec![Data::String("b".to_string())],
        ]
    );
}

#[test]
fn aggregates_per_group() {
    let x = Data::String("x".to_string());
    let y = Data::String("y".to_string());
    let input = make_rows(
        vec!["a", "b"],
        vec![
            vec![num(1), x.clone()],
            vec![num(3), y.clone()],
            vec![num(2), x.clone()],
            vec![Data::Null, y.clone()],
        ],
    );
    let query = parse("select b, count(a), avg(a), sum(a) from t group by b order by b desc", &Ieee).unwrap();
    let actual = execute(query, &input, &Ieee).unwrap();
    assert_eq!(
        actual.columns,
        vec!["b".to_string(), "count(a)".to_string(), "avg(a)".to_string(), "sum(a)".to_string()]
    );
    assert_eq!(
        actual.rows,
        vec![
            vec![y, num(1), Data::Number(Number::Float(3.0f64.to_bits())), num(3)],
            vec![x, num(2), Data::Number(Number::Float(1.5f64.to_bits())), num(3)],
        ]
    );
}

#[test]
fn same_call_twice_is_computed_once() {
    let input = make_rows(vec!["a"], vec![ints(&[2]), ints(&[5])]);
    let query = parse("select sum(a), SUM(a) = sum(a) from t", &Ieee).unwrap();
    let actual = execute(query, &input, &Ieee).unwrap();
    assert_eq!(actual.rows, vec![vec![num(7), Data::Bool(true)]]);
}
