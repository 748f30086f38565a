//! Aggregate functions, aggregate calls, and the running state of an
//! aggregate with the laws of its runs.
use vstd::prelude::*;
use crate::expr::Expr;
use crate::data::{Data, Number};
use crate::text::chars_of;
use crate::token::{lower_seq, equal_folded};

verus! {

/// The closed set of aggregate functions.
#[derive(Clone, Copy, Debug, PartialEq, Eq, Structural, Hash)]
pub enum AggregateFunction {
    Average,
    Count,
    Sum,
}

/// The name under which each function is written (lower case).
pub open spec fn function_name(f: AggregateFunction) -> Seq<char> {
    match f {
        AggregateFunction::Average => seq!['a', 'v', 'g'],
        AggregateFunction::Count => seq!['c', 'o', 'u', 'n', 't'],
        AggregateFunction::Sum => seq!['s', 'u', 'm'],
    }
}

/// The function whose name is `name`, ignoring ASCII case.
pub open spec fn function_named(name: Seq<char>) -> Option<AggregateFunction> {
    let l = lower_seq(name);
    if l == function_name(AggregateFunction::Average) {
        Some(AggregateFunction::Average)
    } else if l == function_name(AggregateFunction::Count) {
        Some(AggregateFunction::Count)
    } else if l == function_name(AggregateFunction::Sum) {
        Some(AggregateFunction::Sum)
    } else {
        None
    }
}

impl AggregateFunction {
    /// Looks a function up by name, ignoring case.
    pub fn from_name(name: &str) -> (r: Option<AggregateFunction>)
        ensures
            r == function_named(name@),
    {
        let n = chars_of(name);
        Self::from_chars(&n)
    }

    pub fn from_chars(n: &Vec<char>) -> (r: Option<AggregateFunction>)
        ensures
            r == function_named(n@),
    {
        if equal_folded(n, &vec!['a', 'v', 'g']) {
            Some(AggregateFunction::Average)
        } else if equal_folded(n, &vec!['c', 'o', 'u', 'n', 't']) {
            Some(AggregateFunction::Count)
        } else if equal_folded(n, &vec!['s', 'u', 'm']) {
            Some(AggregateFunction::Sum)
        } else {
            None
        }
    }

    /// The function's name, in lower case.
    pub fn name_chars(&self) -> (r: Vec<char>)
        ensures
            r@ == function_name(*self),
    {
        let r = match self {
            AggregateFunction::Average => vec!['a', 'v', 'g'],
            AggregateFunction::Count => vec!['c', 'o', 'u', 'n', 't'],
            AggregateFunction::Sum => vec!['s', 'u', 'm'],
        };
        proof {
            assert(r@ =~= function_name(*self));
        }
        r
    }
}

/// A call of an aggregate function on an argument expression.
#[derive(Debug, PartialEq)]
pub struct AggregateCall {
    pub function: AggregateFunction,
    pub argument: Box<Expr>,
}

impl Clone for AggregateCall {
    fn clone(&self) -> (r: AggregateCall)
        ensures
            r.function == self.function,
            r.argument@ == self.argument@,
    {
        AggregateCall { function: self.function, argument: Box::new(self.argument.deep_clone()) }
    }
}

/// Binary64 arithmetic on bit patterns, which decimal literals, and sums and
/// averages that meet a float, need. Nothing is assumed of it: what the library states of a float
/// result holds whatever these return.
pub trait FloatArith {
    /// The bit pattern of `a + b`.
    fn add(&self, a: u64, b: u64) -> u64;

    /// The bit pattern of the float nearest to `i`.
    fn from_int(&self, i: i64) -> u64;

    /// The bit pattern of `a / b`.
    fn div(&self, a: u64, b: u64) -> u64;

    /// The bit pattern of the float nearest to a decimal literal (digits
    /// with one decimal point).
    fn from_decimal(&self, text: &str) -> u64;
}

/// The running state of one aggregate function.
#[derive(Clone, Copy, Debug)]
pub enum Aggregate {
    /// The sum of the numbers seen, and how many there were.
    Average(Number, i64),
    /// How many values other than Null were seen.
    Count(i64),
    /// The sum of the numbers seen.
    Sum(Number),
}

/// Integer sums stay integers (wrapping on overflow); any other sum is a
/// float.
pub open spec fn sum_step(before: Number, n: Number, after: Number) -> bool {
    match (before, n) {
        (Number::Int(x), Number::Int(y)) => after == Number::Int(vstd::wrapping::i64_specs::wrapping_add(x, y)),
        _ => after is Float,
    }
}

fn to_float<A: FloatArith>(n: Number, arith: &A) -> u64 {
    match n {
        Number::Int(i) => arith.from_int(i),
        Number::Float(f) => f,
    }
}

fn add_numbers<A: FloatArith>(a: Number, b: Number, arith: &A) -> (r: Number)
    ensures
        sum_step(a, b, r),
{
    match (a, b) {
        (Number::Int(x), Number::Int(y)) => Number::Int(x.wrapping_add(y)),
        _ => Number::Float(arith.add(to_float(a, arith), to_float(b, arith))),
    }
}

impl AggregateFunction {
    /// The initial state of the function: a count of zero, or a sum of
    /// integer zero.
    pub fn aggregate(&self) -> (r: Aggregate)
        ensures
            r == start(*self),
    {
        match self {
            AggregateFunction::Average => Aggregate::Average(Number::Int(0), 0),
            AggregateFunction::Count => Aggregate::Count(0),
            AggregateFunction::Sum => Aggregate::Sum(Number::Int(0)),
        }
    }
}

/// The effect of one value on an aggregate's state: Count counts every value
/// but Null; Sum and Average take numbers only (Average also counts them).
pub open spec fn applied(before: Aggregate, value: Data, after: Aggregate) -> bool {
    match (before, value) {
        (Aggregate::Count(c), Data::Null) => after == Aggregate::Count(c),
        (Aggregate::Count(c), _) => after == Aggregate::Count(vstd::wrapping::i64_specs::wrapping_add(c, 1)),
        (Aggregate::Sum(s), Data::Number(n)) => after matches Aggregate::Sum(t) && sum_step(s, n, t),
        (Aggregate::Average(s, c), Data::Number(n)) => after matches Aggregate::Average(t, d) && sum_step(s, n, t)
            && d == vstd::wrapping::i64_specs::wrapping_add(c, 1),
        _ => after == before,
    }
}

impl Aggregate {
    /// Feeds one value to the aggregate.
    pub fn apply<A: FloatArith>(&mut self, value: Data, arith: &A)
        ensures
            applied(*old(self), value, *final(self)),
    {
        match (*self, value) {
            (Aggregate::Count(c), Data::Null) => {},
            (Aggregate::Count(c), _) => {
                *self = Aggregate::Count(c.wrapping_add(1));
            },
            (Aggregate::Sum(s), Data::Number(n)) => {
                *self = Aggregate::Sum(add_numbers(s, n, arith));
            },
            (Aggregate::Average(s, c), Data::Number(n)) => {
                *self = Aggregate::Average(add_numbers(s, n, arith), c.wrapping_add(1));
            },
            _ => {},
        }
    }

    /// The result: the count or the sum as it stands; the average of no
    /// numbers is the float zero, and any other average is a float.
    pub fn final_value<A: FloatArith>(&self, arith: &A) -> (r: Data)
        ensures
            finalized(*self, r),
    {
        match self {
            Aggregate::Count(c) => Data::Number(Number::Int(*c)),
            Aggregate::Sum(s) => Data::Number(*s),
            Aggregate::Average(s, c) => if *c == 0 {
                Data::Number(Number::Float(0))
            } else {
                Data::Number(Number::Float(arith.div(to_float(*s, arith), arith.from_int(*c))))
            },
        }
    }
}

/// The result of an aggregate in a given state: the count or the sum as it
/// stands; the average of no numbers is the float zero, and any other
/// average is a float.
pub open spec fn finalized(a: Aggregate, r: Data) -> bool {
    match a {
        Aggregate::Count(c) => r == Data::Number(Number::Int(c)),
        Aggregate::Sum(s) => r == Data::Number(s),
        Aggregate::Average(_, c) => if c == 0 {
            r == Data::Number(Number::Float(0))
        } else {
            r matches Data::Number(Number::Float(_))
        },
    }
}

/// The initial state of an aggregate function.
pub open spec fn start(f: AggregateFunction) -> Aggregate {
    match f {
        AggregateFunction::Average => Aggregate::Average(Number::Int(0), 0),
        AggregateFunction::Count => Aggregate::Count(0),
        AggregateFunction::Sum => Aggregate::Sum(Number::Int(0)),
    }
}

/// `r` is what the function yields over the values: the last state of a run
/// that starts from the function's initial state, finalized.
pub open spec fn aggregated(f: AggregateFunction, values: Seq<Data>, r: Data) -> bool {
    exists|states: Seq<Aggregate>|
        #[trigger] run_of(states, values) && states[0] == start(f) && finalized(states.last(), r)
}

/// How many of the values are not Null.
pub open spec fn non_null(values: Seq<Data>) -> nat
    decreases values.len(),
{
    if values.len() == 0 {
        0
    } else {
        non_null(values.drop_last()) + if values.last() is Null {
            0nat
        } else {
            1nat
        }
    }
}

/// `states` is a run of an aggregate over `values`: each state follows from
/// the one before by applying the next value.
pub open spec fn run_of(states: Seq<Aggregate>, values: Seq<Data>) -> bool {
    &&& states.len() == values.len() + 1
    &&& forall|i: int| 0 <= i < values.len() ==> #[trigger] applied(states[i], values[i], states[i + 1])
}

/// A count that starts at zero ends at the number of values that are not
/// Null (while that number fits in an `i64`).
pub proof fn lemma_count_counts_non_null(states: Seq<Aggregate>, values: Seq<Data>)
    requires
        run_of(states, values),
        states[0] == Aggregate::Count(0),
        values.len() < 0x8000_0000_0000_0000,
    ensures
        states.last() == Aggregate::Count(non_null(values) as i64),
    decreases values.len(),
{
    if values.len() > 0 {
        let n = values.len() - 1;
        let vs = values.drop_last();
        let ss = states.drop_last();
        assert forall|i: int| 0 <= i < vs.len() implies #[trigger] applied(ss[i], vs[i], ss[i + 1]) by {
            assert(applied(states[i], values[i], states[i + 1]));
        }
        lemma_count_counts_non_null(ss, vs);
        lemma_non_null_bound(vs);
        assert(applied(states[n], values[n], states[n + 1]));
    }
}

proof fn lemma_non_null_bound(values: Seq<Data>)
    ensures
        non_null(values) <= values.len(),
    decreases values.len(),
{
    if values.len() > 0 {
        lemma_non_null_bound(values.drop_last());
    }
}

/// A sum that starts at integer zero stays an integer over integers, and is
/// a float once any float has been added.
pub proof fn lemma_sum_kind(states: Seq<Aggregate>, values: Seq<Data>)
    requires
        run_of(states, values),
        states[0] == Aggregate::Sum(Number::Int(0)),
    ensures
        (forall|i: int| 0 <= i < values.len() ==> #[trigger] values[i] matches Data::Number(Number::Int(_)))
            ==> states.last() matches Aggregate::Sum(Number::Int(_)),
        (exists|i: int| 0 <= i < values.len() && #[trigger] values[i] matches Data::Number(Number::Float(_)))
            ==> states.last() matches Aggregate::Sum(Number::Float(_)),
    decreases values.len(),
{
    if values.len() > 0 {
        let n = values.len() - 1;
        let vs = values.drop_last();
        let ss = states.drop_last();
        assert forall|i: int| 0 <= i < vs.len() implies #[trigger] applied(ss[i], vs[i], ss[i + 1]) by {
            assert(applied(states[i], values[i], states[i + 1]));
        }
        lemma_sum_kind(ss, vs);
        assert(applied(states[n], values[n], states[n + 1]));
        lemma_sum_stays_sum(ss, vs);
        if exists|i: int| 0 <= i < values.len() && #[trigger] values[i] matches Data::Number(Number::Float(_)) {
            let i = choose|i: int| 0 <= i < values.len() && #[trigger] values[i] matches Data::Number(Number::Float(_));
            if i < n {
                assert(vs[i] == values[i]);
            }
        }
        if forall|i: int| 0 <= i < values.len() ==> #[trigger] values[i] matches Data::Number(Number::Int(_)) {
            assert forall|i: int| 0 <= i < vs.len() implies #[trigger] vs[i] matches Data::Number(Number::Int(_)) by {
                assert(vs[i] == values[i]);
            }
        }
    }
}

proof fn lemma_sum_stays_sum(states: Seq<Aggregate>, values: Seq<Data>)
    requires
        run_of(states, values),
        states[0] is Sum,
    ensures
        states.last() is Sum,
    decreases values.len(),
{
    if values.len() > 0 {
        let n = values.len() - 1;
        let vs = values.drop_last();
        let ss = states.drop_last();
        assert forall|i: int| 0 <= i < vs.len() implies #[trigger] applied(ss[i], vs[i], ss[i + 1]) by {
            assert(applied(states[i], values[i], states[i + 1]));
        }
        lemma_sum_stays_sum(ss, vs);
        assert(applied(states[n], values[n], states[n + 1]));
    }
}

/// The sum of the integers among the values.
pub open spec fn int_sum(values: Seq<Data>) -> int
    decreases values.len(),
{
    if values.len() == 0 {
        0
    } else {
        int_sum(values.drop_last()) + match values.last() {
            Data::Number(Number::Int(x)) => x as int,
            _ => 0,
        }
    }
}

/// A sum that starts at integer zero, over integers whose running sums all
/// fit in an `i64`, ends at the integer sum of the values.
pub proof fn lemma_sum_of_ints(states: Seq<Aggregate>, values: Seq<Data>)
    requires
        run_of(states, values),
        states[0] == Aggregate::Sum(Number::Int(0)),
        forall|i: int| 0 <= i < values.len() ==> #[trigger] values[i] matches Data::Number(Number::Int(_)),
        forall|k: int| 0 <= k <= values.len() ==> i64::MIN <= #[trigger] int_sum(values.subrange(0, k)) <= i64::MAX,
    ensures
        states.last() == Aggregate::Sum(Number::Int(int_sum(values) as i64)),
    decreases values.len(),
{
    if values.len() > 0 {
        let n = values.len() - 1;
        let vs = values.drop_last();
        let ss = states.drop_last();
        assert forall|i: int| 0 <= i < vs.len() implies #[trigger] applied(ss[i], vs[i], ss[i + 1]) by {
            assert(applied(states[i], values[i], states[i + 1]));
        }
        assert forall|i: int| 0 <= i < vs.len() implies #[trigger] vs[i] matches Data::Number(Number::Int(_)) by {
            assert(vs[i] == values[i]);
        }
        assert forall|k: int| 0 <= k <= vs.len() implies i64::MIN <= #[trigger] int_sum(vs.subrange(0, k)) <= i64::MAX by {
            assert(vs.subrange(0, k) =~= values.subrange(0, k));
        }
        lemma_sum_of_ints(ss, vs);
        assert(applied(states[n], values[n], states[n + 1]));
        assert(values.subrange(0, values.len() as int) =~= values);
        assert(vs.subrange(0, vs.len() as int) =~= vs);
        assert(values[n] matches Data::Number(Number::Int(_)));
    } else {
        assert(values.subrange(0, 0) =~= values);
    }
}

} // verus!
