//! The executor: preparation of a query, and the stages that turn rows into
//! an answer (filter, group, project; the sort is `Answer::sort`).
use vstd::prelude::*;
use crate::aggregate::{Aggregate, AggregateCall, AggregateFunction, FloatArith, aggregated, applied, finalized, run_of, start};
use crate::answer::{sorted_by, keys_fit, stable_sort_of};
use crate::answer::Answer;
use crate::data::{Data, data_eq};
use crate::expr::{Expr, ExprV, calls_of, eval_spec, expr_text};
use crate::query::{Query, QueryV, SortDirection, exprs_view};
use crate::row::Row;
use crate::source::SourceError;

verus! {

/// Why a query could not be executed.
#[derive(Debug, PartialEq)]
pub enum ExecuteError {
    SourceError(String),
    InvalidOrderClause(Expr),
}

impl ExecuteError {
    /// The error that a failure of the row source becomes.
    pub fn from_source(e: SourceError) -> (r: ExecuteError)
        ensures
            r matches ExecuteError::SourceError(d) && d@ == e.description@,
    {
        ExecuteError::SourceError(e.description)
    }
}

/// `acc` extended by the items of `s` that it does not hold yet, in order.
pub open spec fn add_distinct<T>(acc: Seq<T>, s: Seq<T>) -> Seq<T>
    decreases s.len(),
{
    if s.len() == 0 {
        acc
    } else {
        let d = add_distinct(acc, s.drop_last());
        if d.contains(s.last()) {
            d
        } else {
            d.push(s.last())
        }
    }
}

proof fn lemma_add_distinct_concat<T>(acc: Seq<T>, s1: Seq<T>, s2: Seq<T>)
    ensures
        add_distinct(acc, s1 + s2) == add_distinct(add_distinct(acc, s1), s2),
    decreases s2.len(),
{
    if s2.len() == 0 {
        assert(s1 + s2 =~= s1);
    } else {
        assert((s1 + s2).drop_last() =~= s1 + s2.drop_last());
        lemma_add_distinct_concat(acc, s1, s2.drop_last());
    }
}

/// Every aggregate call of the SELECT list, in order, each once.
pub open spec fn select_calls(select: Seq<ExprV>) -> Seq<(AggregateFunction, ExprV)>
    decreases select.len(),
{
    if select.len() == 0 {
        Seq::empty()
    } else {
        select_calls(select.drop_last()) + calls_of(select.last())
    }
}

pub open spec fn calls_view(v: Seq<AggregateCall>) -> Seq<(AggregateFunction, ExprV)> {
    v.map_values(|c: AggregateCall| (c.function, c.argument@))
}

/// The direction of an ORDER BY key; ascending when none is given.
pub open spec fn direction_or_asc(d: Option<SortDirection>) -> SortDirection {
    match d {
        Some(x) => x,
        None => SortDirection::Asc,
    }
}

/// Whether `k` is the first position of `e` in `s`.
pub open spec fn first_position(s: Seq<ExprV>, e: ExprV, k: int) -> bool {
    0 <= k < s.len() && s[k] == e && forall|j: int| 0 <= j < k ==> s[j] != e
}

/// Entry `m` of `keys` holds the first position of ORDER BY key `m` in the
/// SELECT list, and its direction.
pub open spec fn key_resolved(q: QueryV, keys: Seq<(usize, SortDirection)>, m: int) -> bool {
    first_position(q.select, q.order[m].0, keys[m].0 as int) && keys[m].1 == direction_or_asc(
        q.order[m].1,
    )
}

/// The first `k` ORDER BY keys are resolved in `keys`.
pub open spec fn keys_resolved(q: QueryV, keys: Seq<(usize, SortDirection)>, k: int) -> bool {
    forall|m: int| 0 <= m < k ==> #[trigger] key_resolved(q, keys, m)
}

/// The ORDER BY key at `k` names no SELECT expression.
pub open spec fn order_key_missing(q: QueryV, k: int) -> bool {
    0 <= k < q.order.len() && !q.select.contains(q.order[k].0)
}

/// `ex` is the plan of `q`: the distinct aggregate calls of the SELECT list,
/// and each ORDER BY key resolved to a SELECT position.
pub open spec fn plans(ex: Executor, q: QueryV) -> bool {
    &&& ex.wf()
    &&& ex.query_view() == q
    &&& ex.calls() == add_distinct(Seq::empty(), select_calls(q.select))
    &&& ex.order_keys().len() == q.order.len()
    &&& keys_resolved(q, ex.order_keys(), q.order.len() as int)
}

/// The plan of a query: its SELECT list's aggregate calls, and for each ORDER
/// BY key the position of its expression in the SELECT list.
pub struct Executor {
    query: Query,
    aggregate_calls: Vec<AggregateCall>,
    order_indices: Vec<(usize, SortDirection)>,
}

fn contains_call(v: &Vec<AggregateCall>, f: AggregateFunction, a: &Expr) -> (r: bool)
    ensures
        r == calls_view(v@).contains((f, a@)),
{
    let mut i: usize = 0;
    while i < v.len()
        invariant
            i <= v@.len(),
            forall|j: int| 0 <= j < i ==> calls_view(v@)[j] != (f, a@),
        decreases v@.len() - i,
    {
        if v[i].function == f && v[i].argument.same(a) {
            proof {
                assert(calls_view(v@)[i as int] == (f, a@));
            }
            return true;
        }
        i = i + 1;
    }
    false
}

fn push_calls(e: &Expr, out: &mut Vec<AggregateCall>)
    ensures
        calls_view(final(out)@) == add_distinct(calls_view(old(out)@), calls_of(e@)),
    decreases e,
{
    match e {
        Expr::Column(_) => {
            proof {
                assert(calls_of(e@) =~= Seq::<(AggregateFunction, ExprV)>::empty());
            }
        },
        Expr::AggregateCall(c) => {
            let ghost before = calls_view(out@);
            let ghost x = (c.function, c.argument@);
            let present = contains_call(out, c.function, &c.argument);
            proof {
                let s1 = seq![x];
                assert(s1.drop_last() =~= Seq::<(AggregateFunction, ExprV)>::empty());
                assert(s1.last() == x);
                assert(add_distinct(before, s1.drop_last()) == before);
            }
            if !present {
                let ghost o = out@;
                out.push(c.clone());
                proof {
                    assert(calls_view(out@) =~= calls_view(o).push(x));
                }
            }
            proof {
                assert(add_distinct(before, seq![x]) == calls_view(out@));
            }
            push_calls(&c.argument, out);
            proof {
                lemma_add_distinct_concat(before, seq![x], calls_of(c.argument@));
            }
        },
        Expr::BinaryExpr { left, op: _, right } => {
            let ghost before = calls_view(out@);
            push_calls(left, out);
            push_calls(right, out);
            proof {
                lemma_add_distinct_concat(before, calls_of(left@), calls_of(right@));
            }
        },
    }
}

impl Executor {
    pub closed spec fn query_view(&self) -> QueryV {
        self.query@
    }

    /// The distinct aggregate calls of the SELECT list, in order.
    pub closed spec fn calls(&self) -> Seq<(AggregateFunction, ExprV)> {
        calls_view(self.aggregate_calls@)
    }

    /// For each ORDER BY key: the position in the SELECT list, and the direction.
    pub closed spec fn order_keys(&self) -> Seq<(usize, SortDirection)> {
        self.order_indices@
    }

    /// The plan matches its query: each ORDER BY key is resolved.
    pub closed spec fn wf(&self) -> bool {
        &&& self.order_indices@.len() == self.query@.order.len()
        &&& keys_resolved(self.query@, self.order_indices@, self.query@.order.len() as int)
    }

    /// Prepares a query: fails when an ORDER BY expression is not in the
    /// SELECT list, naming the first such expression.
    pub fn new(query: Query) -> (r: Result<Executor, ExecuteError>)
        ensures
            match r {
                Ok(ex) => plans(ex, query@) && forall|k: int| !order_key_missing(query@, k),
                Err(ExecuteError::InvalidOrderClause(e)) => exists|k: int|
                    order_key_missing(query@, k) && e@ == query@.order[k].0 && forall|j: int|
                        0 <= j < k ==> !order_key_missing(query@, j),
                Err(ExecuteError::SourceError(_)) => false,
            },
    {
        let mut calls: Vec<AggregateCall> = Vec::new();
        let mut i: usize = 0;
        while i < query.select.len()
            invariant
                i <= query.select@.len(),
                calls_view(calls@) == add_distinct(
                    Seq::empty(),
                    select_calls(exprs_view(query.select@.subrange(0, i as int))),
                ),
            decreases query.select@.len() - i,
        {
            let ghost before = calls_view(calls@);
            push_calls(&query.select[i], &mut calls);
            proof {
                let sv = exprs_view(query.select@.subrange(0, i as int + 1));
                assert(sv.drop_last() =~= exprs_view(query.select@.subrange(0, i as int)));
                lemma_add_distinct_concat(
                    Seq::empty(),
                    select_calls(sv.drop_last()),
                    calls_of(sv.last()),
                );
            }
            i = i + 1;
        }
        proof {
            assert(query.select@.subrange(0, query.select@.len() as int) =~= query.select@);
        }
        let mut order_indices: Vec<(usize, SortDirection)> = Vec::new();
        let mut k: usize = 0;
        while k < query.order.len()
            invariant
                k <= query.order@.len(),
                order_indices@.len() == k,
                keys_resolved(query@, order_indices@, k as int),
                forall|m: int| 0 <= m < k ==> !order_key_missing(query@, m),
            decreases query.order@.len() - k,
        {
            let target = &query.order[k].expr;
            let mut j: usize = 0;
            while j < query.select.len() && !query.select[j].same(target)
                invariant
                    j <= query.select@.len(),
                    k < query.order@.len(),
                    target == &query.order@[k as int].expr,
                    forall|m: int| 0 <= m < j ==> query@.select[m] != target@,
                    order_indices@.len() == k,
                    keys_resolved(query@, order_indices@, k as int),
                    forall|m: int| 0 <= m < k ==> !order_key_missing(query@, m),
                decreases query.select@.len() - j,
            {
                j = j + 1;
            }
            if j == query.select.len() {
                proof {
                    assert(order_key_missing(query@, k as int)) by {
                        if query@.select.contains(query@.order[k as int].0) {
                            let m = choose|m: int| 0 <= m < query@.select.len() && query@.select[m] == query@.order[k as int].0;
                            assert(query@.select[m] != target@);
                        }
                    }
                }
                return Err(ExecuteError::InvalidOrderClause(target.deep_clone()));
            }
            let direction = match query.order[k].direction {
                Some(d) => d,
                None => SortDirection::Asc,
            };
            let ghost prev = order_indices@;
            order_indices.push((j, direction));
            proof {
                assert(query@.select[j as int] == query@.order[k as int].0);
                assert(first_position(query@.select, query@.order[k as int].0, j as int));
                assert(order_indices@[k as int] == (j, direction));
                assert(query@.order[k as int].1 == query.order@[k as int].direction);
                assert(direction == direction_or_asc(query@.order[k as int].1));
                assert forall|m: int| 0 <= m < k + 1 implies #[trigger] key_resolved(
                    query@,
                    order_indices@,
                    m,
                ) by {
                    if m < k {
                        assert(key_resolved(query@, prev, m));
                        assert(order_indices@[m] == prev[m]);
                    }
                }
                assert(query@.select.contains(query@.order[k as int].0));
            }
            k = k + 1;
        }
        proof {
            assert(calls_view(calls@) == add_distinct(Seq::empty(), select_calls(query@.select)));
            assert forall|m: int| !order_key_missing(query@, m) by {
                if 0 <= m < query@.order.len() {
                    assert(!order_key_missing(query@, m));
                }
            }
        }
        Ok(Executor { query, aggregate_calls: calls, order_indices })
    }
}


/// Whether two group keys are equal, value by value.
pub open spec fn keys_equal(a: Seq<Data>, b: Seq<Data>) -> bool {
    a.len() == b.len() && forall|i: int| 0 <= i < a.len() ==> data_eq(#[trigger] a[i], b[i])
}

fn same_key(a: &Vec<Data>, b: &Vec<Data>) -> (r: bool)
    ensures
        r == keys_equal(a@, b@),
{
    if a.len() != b.len() {
        return false;
    }
    let mut i: usize = 0;
    while i < a.len()
        invariant
            a@.len() == b@.len(),
            i <= a@.len(),
            forall|j: int| 0 <= j < i ==> data_eq(#[trigger] a@[j], b@[j]),
        decreases a@.len() - i,
    {
        if !a[i].equals(&b[i]) {
            return false;
        }
        i = i + 1;
    }
    true
}

/// The index of the group with key `key` in `keys`, adding the key when no
/// group has it yet.
pub fn find_or_add_group(keys: &mut Vec<Vec<Data>>, key: Vec<Data>) -> (r: usize)
    ensures
        r < final(keys)@.len(),
        keys_equal(final(keys)@[r as int]@, key@),
        forall|j: int| 0 <= j < r ==> !keys_equal(#[trigger] final(keys)@[j]@, key@),
        (exists|j: int| 0 <= j < old(keys)@.len() && keys_equal(#[trigger] old(keys)@[j]@, key@))
            ==> final(keys)@ == old(keys)@,
        (forall|j: int| 0 <= j < old(keys)@.len() ==> !keys_equal(#[trigger] old(keys)@[j]@, key@))
            ==> final(keys)@ == old(keys)@.push(key) && r == old(keys)@.len(),
{
    let mut i: usize = 0;
    while i < keys.len()
        invariant
            i <= keys@.len(),
            keys@ == old(keys)@,
            forall|j: int| 0 <= j < i ==> !keys_equal(#[trigger] keys@[j]@, key@),
        decreases keys@.len() - i,
    {
        if same_key(&keys[i], &key) {
            return i;
        }
        i = i + 1;
    }
    let n = keys.len();
    proof {
        assert forall|j: int| 0 <= j < key@.len() implies data_eq(#[trigger] key@[j], key@[j]) by {
            crate::data::lemma_data_eq_reflexive(key@[j]);
        }
    }
    keys.push(key);
    n
}

impl Executor {
    /// The column names: the canonical text of each SELECT expression.
    pub fn get_columns(&self) -> (r: Vec<String>)
        ensures
            r@.len() == self.query_view().select.len(),
            forall|i: int| 0 <= i < r@.len() ==> (#[trigger] r@[i])@ == expr_text(self.query_view().select[i]),
    {
        let mut out: Vec<String> = Vec::new();
        let mut i: usize = 0;
        while i < self.query.select.len()
            invariant
                i <= self.query.select@.len(),
                out@.len() == i,
                forall|j: int| 0 <= j < i ==> (#[trigger] out@[j])@ == expr_text(self.query@.select[j]),
            decreases self.query.select@.len() - i,
        {
            out.push(self.query.select[i].to_text());
            i = i + 1;
        }
        out
    }

    /// Whether a row passes the WHERE clause: there is none, or it evaluates
    /// to `true` in the row.
    pub fn keeps(&self, row: &Row) -> (r: bool)
        ensures
            r == match self.query_view().condition {
                None => true,
                Some(c) => eval_spec(c, row@) == Data::Bool(true),
            },
    {
        match &self.query.condition {
            None => true,
            Some(c) => match c.eval(row) {
                Data::Bool(b) => b,
                _ => false,
            },
        }
    }

    /// Whether the query aggregates.
    pub fn has_aggregates(&self) -> (r: bool)
        ensures
            r == (self.calls().len() > 0),
    {
        self.aggregate_calls.len() > 0
    }

    /// The number of distinct aggregate calls.
    pub fn aggregate_count(&self) -> (r: usize)
        ensures
            r == self.calls().len(),
    {
        self.aggregate_calls.len()
    }

    /// The function of aggregate call `i`.
    pub fn aggregate_function(&self, i: usize) -> (r: AggregateFunction)
        requires
            i < self.calls().len(),
        ensures
            r == self.calls()[i as int].0,
    {
        self.aggregate_calls[i].function
    }

    /// The value that aggregate call `i` takes in `row`: its argument's value.
    pub fn aggregate_argument(&self, i: usize, row: &Row) -> (r: Data)
        requires
            i < self.calls().len(),
        ensures
            r == eval_spec(self.calls()[i as int].1, row@),
    {
        self.aggregate_calls[i].argument.eval(row)
    }

    /// The group key of a row: the value of each GROUP BY expression.
    pub fn group_key(&self, row: &Row) -> (r: Vec<Data>)
        ensures
            r@.len() == self.query_view().group.len(),
            forall|i: int| 0 <= i < r@.len() ==> #[trigger] r@[i] == eval_spec(self.query_view().group[i], row@),
    {
        let mut out: Vec<Data> = Vec::new();
        let mut i: usize = 0;
        while i < self.query.group.len()
            invariant
                i <= self.query.group@.len(),
                out@.len() == i,
                forall|j: int| 0 <= j < i ==> #[trigger] out@[j] == eval_spec(self.query@.group[j], row@),
            decreases self.query.group@.len() - i,
        {
            out.push(self.query.group[i].eval(row));
            i = i + 1;
        }
        out
    }

    /// The row that stands for one group: each aggregate call's final value
    /// under the call, then each group key value under its GROUP BY
    /// expression.
    pub fn grouped_row(&self, key: &Vec<Data>, finals: &Vec<Data>) -> (r: Row)
        requires
            key@.len() == self.query_view().group.len(),
            finals@.len() == self.calls().len(),
        ensures
            r@.len() == finals@.len() + key@.len(),
            forall|i: int| 0 <= i < finals@.len() ==> #[trigger] r@[i] == (
                ExprV::Call(self.calls()[i].0, Box::new(self.calls()[i].1)),
                finals@[i],
            ),
            forall|j: int| 0 <= j < key@.len() ==> #[trigger] r@[finals@.len() + j] == (
                self.query_view().group[j],
                key@[j],
            ),
    {
        let mut row = Row::new();
        let mut i: usize = 0;
        while i < finals.len()
            invariant
                i <= finals@.len(),
                finals@.len() == self.calls().len(),
                row@.len() == i,
                forall|m: int| 0 <= m < i ==> #[trigger] row@[m] == (
                    ExprV::Call(self.calls()[m].0, Box::new(self.calls()[m].1)),
                    finals@[m],
                ),
            decreases finals@.len() - i,
        {
            let call = self.aggregate_calls[i].clone();
            row.insert(Expr::AggregateCall(call), finals[i].copy());
            i = i + 1;
        }
        let mut j: usize = 0;
        while j < key.len()
            invariant
                j <= key@.len(),
                key@.len() == self.query_view().group.len(),
                finals@.len() == self.calls().len(),
                row@.len() == finals@.len() + j,
                forall|m: int| 0 <= m < finals@.len() ==> #[trigger] row@[m] == (
                    ExprV::Call(self.calls()[m].0, Box::new(self.calls()[m].1)),
                    finals@[m],
                ),
                forall|m: int| 0 <= m < j ==> #[trigger] row@[finals@.len() + m] == (
                    self.query_view().group[m],
                    key@[m],
                ),
            decreases key@.len() - j,
        {
            row.insert(self.query.group[j].deep_clone(), key[j].copy());
            j = j + 1;
        }
        row
    }

    /// The answer row of one row: the value of each SELECT expression.
    pub fn project_row(&self, row: &Row) -> (r: Vec<Data>)
        ensures
            r@.len() == self.query_view().select.len(),
            forall|i: int| 0 <= i < r@.len() ==> #[trigger] r@[i] == eval_spec(self.query_view().select[i], row@),
    {
        let mut out: Vec<Data> = Vec::new();
        let mut i: usize = 0;
        while i < self.query.select.len()
            invariant
                i <= self.query.select@.len(),
                out@.len() == i,
                forall|j: int| 0 <= j < i ==> #[trigger] out@[j] == eval_spec(self.query@.select[j], row@),
            decreases self.query.select@.len() - i,
        {
            out.push(self.query.select[i].eval(row));
            i = i + 1;
        }
        out
    }

    /// The answer of the rows, before sorting: the column names, and the
    /// projection of each row, in order.
    pub fn project(&self, rows: &Vec<Row>) -> (r: Answer)
        ensures
            r.columns@.len() == self.query_view().select.len(),
            forall|i: int| 0 <= i < r.columns@.len() ==> (#[trigger] r.columns@[i])@ == expr_text(self.query_view().select[i]),
            r.rows@.len() == rows@.len(),
            forall|k: int| 0 <= k < rows@.len() ==> (#[trigger] r.rows@[k])@.len() == self.query_view().select.len(),
            forall|k: int, i: int| 0 <= k < rows@.len() && 0 <= i < self.query_view().select.len()
                ==> #[trigger] r.rows@[k]@[i] == eval_spec(self.query_view().select[i], rows@[k]@),
    {
        let mut out: Vec<Vec<Data>> = Vec::new();
        let mut k: usize = 0;
        while k < rows.len()
            invariant
                k <= rows@.len(),
                out@.len() == k,
                forall|m: int| 0 <= m < k ==> (#[trigger] out@[m])@.len() == self.query_view().select.len(),
                forall|m: int, i: int| 0 <= m < k && 0 <= i < self.query_view().select.len()
                    ==> #[trigger] out@[m]@[i] == eval_spec(self.query_view().select[i], rows@[m]@),
            decreases rows@.len() - k,
        {
            out.push(self.project_row(&rows[k]));
            k = k + 1;
        }
        Answer { columns: self.get_columns(), rows: out }
    }

    /// For each ORDER BY key, the column it sorts by and the direction.
    pub fn order_indices(&self) -> (r: &Vec<(usize, SortDirection)>)
        ensures
            r@ == self.order_keys(),
    {
        &self.order_indices
    }
}

/// Whether a row passes the condition of a WHERE clause (a missing clause
/// passes every row).
pub open spec fn passes(condition: Option<ExprV>, row: Seq<(ExprV, Data)>) -> bool {
    match condition {
        None => true,
        Some(c) => eval_spec(c, row) == Data::Bool(true),
    }
}

/// The rows of the source that pass the condition, in order.
pub open spec fn kept_rows(condition: Option<ExprV>, src: Seq<Result<Row, SourceError>>) -> Seq<Seq<(ExprV, Data)>>
    decreases src.len(),
{
    if src.len() == 0 {
        Seq::empty()
    } else {
        kept_rows(condition, src.drop_last()) + match src.last() {
            Ok(row) => if passes(condition, row@) {
                seq![row@]
            } else {
                Seq::empty()
            },
            Err(_) => Seq::empty(),
        }
    }
}

/// How many rows of the source pass the condition.
pub open spec fn kept(condition: Option<ExprV>, src: Seq<Result<Row, SourceError>>) -> nat {
    kept_rows(condition, src).len()
}

/// The values of the SELECT expressions in a row.
pub open spec fn projection(select: Seq<ExprV>, row: Seq<(ExprV, Data)>) -> Seq<Data> {
    select.map_values(|e: ExprV| eval_spec(e, row))
}

/// Whether `i` is the position of the first failure in the source.
pub open spec fn first_failure(src: Seq<Result<Row, SourceError>>, i: int) -> bool {
    0 <= i < src.len() && src[i] is Err && forall|j: int| 0 <= j < i ==> src[j] is Ok
}

pub open spec fn keys_view(keys: Seq<Vec<Data>>) -> Seq<Seq<Data>> {
    keys.map_values(|k: Vec<Data>| k@)
}

/// The distinct group keys of the rows, in the order they first appear.
pub open spec fn group_keys(group: Seq<ExprV>, rows: Seq<Seq<(ExprV, Data)>>) -> Seq<Seq<Data>>
    decreases rows.len(),
{
    if rows.len() == 0 {
        Seq::empty()
    } else {
        let ks = group_keys(group, rows.drop_last());
        let k = projection(group, rows.last());
        if exists|j: int| 0 <= j < ks.len() && keys_equal(#[trigger] ks[j], k) {
            ks
        } else {
            ks.push(k)
        }
    }
}

/// The row that stands for a group: the final values under the aggregate
/// calls, then the key values under the GROUP BY expressions.
pub open spec fn group_row(
    calls: Seq<(AggregateFunction, ExprV)>,
    finals: Seq<Data>,
    group: Seq<ExprV>,
    key: Seq<Data>,
) -> Seq<(ExprV, Data)> {
    Seq::new(calls.len(), |i: int| (ExprV::Call(calls[i].0, Box::new(calls[i].1)), finals[i])) + Seq::new(
        group.len(),
        |j: int| (group[j], key[j]),
    )
}

/// The position of the first key equal to `k`; the number of keys when
/// none is.
pub open spec fn first_match(keys: Seq<Seq<Data>>, k: Seq<Data>) -> int
    decreases keys.len(),
{
    if keys.len() == 0 {
        0
    } else if keys_equal(keys[0], k) {
        0
    } else {
        1 + first_match(keys.drop_first(), k)
    }
}

proof fn lemma_first_match(keys: Seq<Seq<Data>>, k: Seq<Data>)
    ensures
        0 <= first_match(keys, k) <= keys.len(),
        first_match(keys, k) < keys.len() ==> keys_equal(keys[first_match(keys, k)], k),
        forall|j: int| 0 <= j < first_match(keys, k) ==> !keys_equal(#[trigger] keys[j], k),
    decreases keys.len(),
{
    if keys.len() > 0 && !keys_equal(keys[0], k) {
        lemma_first_match(keys.drop_first(), k);
        assert forall|j: int| 0 <= j < first_match(keys, k) implies !keys_equal(#[trigger] keys[j], k) by {
            if j > 0 {
                assert(keys[j] == keys.drop_first()[j - 1]);
            }
        }
    }
}

/// The first key equal to `k` is at `r`.
proof fn lemma_first_match_at(keys: Seq<Seq<Data>>, k: Seq<Data>, r: int)
    requires
        0 <= r <= keys.len(),
        r < keys.len() ==> keys_equal(keys[r], k),
        forall|j: int| 0 <= j < r ==> !keys_equal(#[trigger] keys[j], k),
    ensures
        first_match(keys, k) == r,
{
    lemma_first_match(keys, k);
    let f = first_match(keys, k);
    if f < r {
        assert(keys_equal(keys[f], k));
    } else if f > r {
        assert(!keys_equal(keys[r], k));
    }
}

/// The kept rows that belong to the group at `g`: those whose first equal
/// key is the key at `g`.
pub open spec fn members(group: Seq<ExprV>, rows: Seq<Seq<(ExprV, Data)>>, keys: Seq<Seq<Data>>, g: int) -> Seq<
    Seq<(ExprV, Data)>,
>
    decreases rows.len(),
{
    if rows.len() == 0 {
        Seq::empty()
    } else {
        members(group, rows.drop_last(), keys, g) + if first_match(keys, projection(group, rows.last())) == g {
            seq![rows.last()]
        } else {
            Seq::empty()
        }
    }
}

/// The values an expression takes in the rows.
pub open spec fn arg_values(arg: ExprV, rows: Seq<Seq<(ExprV, Data)>>) -> Seq<Data> {
    rows.map_values(|r: Seq<(ExprV, Data)>| eval_spec(arg, r))
}

/// Every row has an equal key among `keys`.
pub open spec fn all_matched(group: Seq<ExprV>, rows: Seq<Seq<(ExprV, Data)>>, keys: Seq<Seq<Data>>) -> bool {
    forall|t: int| 0 <= t < rows.len() ==> first_match(keys, projection(group, #[trigger] rows[t])) < keys.len()
}

proof fn lemma_members_push_key(group: Seq<ExprV>, rows: Seq<Seq<(ExprV, Data)>>, keys: Seq<Seq<Data>>, x: Seq<Data>, g: int)
    requires
        all_matched(group, rows, keys),
    ensures
        members(group, rows, keys.push(x), g) == members(group, rows, keys, g),
        all_matched(group, rows, keys.push(x)),
        members(group, rows, keys, keys.len() as int) == Seq::<Seq<(ExprV, Data)>>::empty(),
    decreases rows.len(),
{
    assert forall|t: int| 0 <= t < rows.len() implies first_match(keys.push(x), projection(group, #[trigger] rows[t]))
        == first_match(keys, projection(group, rows[t])) by {
        let k = projection(group, rows[t]);
        lemma_first_match(keys, k);
        let f = first_match(keys, k);
        assert(keys.push(x)[f] == keys[f]);
        assert forall|j: int| 0 <= j < f implies !keys_equal(#[trigger] keys.push(x)[j], k) by {
            assert(keys.push(x)[j] == keys[j]);
        }
        lemma_first_match_at(keys.push(x), k, f);
    }
    if rows.len() > 0 {
        let init = rows.drop_last();
        assert forall|t: int| 0 <= t < init.len() implies first_match(keys, projection(group, #[trigger] init[t])) < keys.len() by {
            assert(init[t] == rows[t]);
        }
        lemma_members_push_key(group, init, keys, x, g);
        assert(rows.last() == rows[rows.len() - 1]);
    }
}

proof fn lemma_run_push(states: Seq<Aggregate>, values: Seq<Data>, v: Data, a: Aggregate)
    requires
        run_of(states, values),
        applied(states.last(), v, a),
    ensures
        run_of(states.push(a), values.push(v)),
        states.push(a)[0] == states[0],
        states.push(a).last() == a,
{
    let s2 = states.push(a);
    let v2 = values.push(v);
    assert forall|i: int| 0 <= i < v2.len() implies #[trigger] applied(s2[i], v2[i], s2[i + 1]) by {
        if i < values.len() {
            assert(applied(states[i], values[i], states[i + 1]));
        } else {
            assert(s2[i] == states.last());
        }
    }
}

/// `row` is the projection of the row that stands for the group with `key`,
/// for some final values of the aggregate calls.
pub open spec fn row_of_group(
    calls: Seq<(AggregateFunction, ExprV)>,
    select: Seq<ExprV>,
    group: Seq<ExprV>,
    key: Seq<Data>,
    rows: Seq<Seq<(ExprV, Data)>>,
    row: Seq<Data>,
) -> bool {
    exists|finals: Seq<Data>|
        {
            &&& finals.len() == calls.len()
            &&& row == projection(select, #[trigger] group_row(calls, finals, group, key))
            &&& forall|m: int| 0 <= m < calls.len() ==> aggregated(calls[m].0, arg_values(calls[m].1, rows), #[trigger] finals[m])
        }
}

/// The state `hist[g][m]` is a run of aggregate call `m` over the rows of
/// group `g`, and ends in the accumulator that `accs` holds for them.
pub open spec fn tracks(
    calls: Seq<(AggregateFunction, ExprV)>,
    group: Seq<ExprV>,
    rows: Seq<Seq<(ExprV, Data)>>,
    keys: Seq<Seq<Data>>,
    hist: Seq<Seq<Seq<Aggregate>>>,
    accs: Seq<Seq<Aggregate>>,
    g: int,
    m: int,
) -> bool {
    &&& run_of(hist[g][m], arg_values(calls[m].1, members(group, rows, keys, g)))
    &&& hist[g][m][0] == start(calls[m].0)
    &&& hist[g][m].last() == accs[g][m]
}

pub open spec fn accs_view(accs: Seq<Vec<Aggregate>>) -> Seq<Seq<Aggregate>> {
    accs.map_values(|v: Vec<Aggregate>| v@)
}

/// What holds of the answer of a prepared query over a source.
pub open spec fn answers(ex: Executor, src: Seq<Result<Row, SourceError>>, a: Answer) -> bool {
    let q = ex.query_view();
    &&& forall|i: int| 0 <= i < src.len() ==> src[i] is Ok
    &&& a.columns@.len() == q.select.len()
    &&& forall|i: int| 0 <= i < a.columns@.len() ==> (#[trigger] a.columns@[i])@ == expr_text(q.select[i])
    &&& forall|k: int| 0 <= k < a.rows@.len() ==> (#[trigger] a.rows@[k])@.len() == q.select.len()
    &&& sorted_by(a.rows@, ex.order_keys())
    &&& ex.calls().len() == 0 ==> a.rows@.len() == kept(q.condition, src) && exists|pre: Seq<Vec<Data>>|
        {
            &&& pre.len() == kept(q.condition, src)
            &&& forall|k: int| 0 <= k < pre.len() ==> (#[trigger] pre[k])@ == projection(q.select, kept_rows(q.condition, src)[k])
            &&& a.rows@.to_multiset() == pre.to_multiset()
            &&& stable_sort_of(pre, a.rows@, ex.order_keys())
        }
    &&& ex.calls().len() > 0 && q.group.len() == 0 ==> a.rows@.len() == if kept(q.condition, src) > 0 {
        1nat
    } else {
        0nat
    }
    &&& ex.calls().len() > 0 ==> {
        let keys = group_keys(q.group, kept_rows(q.condition, src));
        &&& a.rows@.len() == keys.len()
        &&& exists|pre: Seq<Vec<Data>>|
            {
                &&& pre.len() == keys.len()
                &&& a.rows@.to_multiset() == pre.to_multiset()
                &&& stable_sort_of(pre, a.rows@, ex.order_keys())
                &&& forall|g: int| 0 <= g < pre.len() ==> row_of_group(
                    ex.calls(),
                    q.select,
                    q.group,
                    keys[g],
                    members(q.group, kept_rows(q.condition, src), keys, g),
                    (#[trigger] pre[g])@,
                )
            }
    }
}

proof fn lemma_kept_step(condition: Option<ExprV>, src: Seq<Result<Row, SourceError>>, i: int)
    requires
        0 <= i < src.len(),
    ensures
        kept_rows(condition, src.subrange(0, i + 1)) == kept_rows(condition, src.subrange(0, i)) + match src[i] {
            Ok(row) => if passes(condition, row@) {
                seq![row@]
            } else {
                Seq::empty()
            },
            Err(_) => Seq::empty(),
        },
        kept(condition, src.subrange(0, i + 1)) == kept(condition, src.subrange(0, i)) + match src[i] {
            Ok(row) => if passes(condition, row@) {
                1nat
            } else {
                0nat
            },
            Err(_) => 0nat,
        },
{
    assert(src.subrange(0, i + 1).drop_last() =~= src.subrange(0, i));
}

impl Executor {
    fn sort_answer(&self, columns: Vec<String>, rows: Vec<Vec<Data>>) -> (r: Answer)
        requires
            forall|k: int| 0 <= k < rows@.len() ==> (#[trigger] rows@[k])@.len() == self.query_view().select.len(),
            keys_resolved(self.query_view(), self.order_keys(), self.query_view().order.len() as int),
            self.order_keys().len() == self.query_view().order.len(),
        ensures
            r.columns == columns,
            r.rows@.len() == rows@.len(),
            r.rows@.to_multiset() == rows@.to_multiset(),
            forall|k: int| 0 <= k < r.rows@.len() ==> (#[trigger] r.rows@[k])@.len() == self.query_view().select.len(),
            sorted_by(r.rows@, self.order_keys()),
            stable_sort_of(rows@, r.rows@, self.order_keys()),
    {
        let mut answer = Answer { columns, rows };
        let ghost keys = self.order_keys();
        proof {
            assert forall|i: int| 0 <= i < answer.rows@.len() implies keys_fit((#[trigger] answer.rows@[i])@, keys) by {
                assert forall|k: int| 0 <= k < keys.len() implies (#[trigger] keys[k]).0 < answer.rows@[i]@.len() by {
                    assert(key_resolved(self.query_view(), keys, k));
                }
            }
        }
        let ghost before = answer.rows@;
        answer.sort(self.order_indices().as_slice());
        proof {
            crate::answer::lemma_sort_keeps_width(before, answer.rows@, self.query_view().select.len());
        }
        answer
    }

    /// Runs the prepared query over the rows of a source: keeps the rows that
    /// pass the WHERE clause, aggregates them per group when the SELECT list
    /// holds aggregate calls, projects, and sorts. The first failure of the
    /// source ends the run.
    pub fn execute<A: FloatArith>(&self, source: &Vec<Result<Row, SourceError>>, arith: &A) -> (r: Result<Answer, ExecuteError>)
        requires
            self.wf(),
        ensures
            match r {
                Ok(a) => answers(*self, source@, a),
                Err(ExecuteError::SourceError(d)) => exists|i: int|
                    first_failure(source@, i) && d@ == source@[i]->Err_0.description@,
                Err(ExecuteError::InvalidOrderClause(_)) => false,
            },
    {
        let ghost q = self.query_view();
        let ghost mut keys_seen: Seq<Vec<Data>> = Seq::empty();
        let mut out: Vec<Vec<Data>> = Vec::new();
        if !self.has_aggregates() {
            let mut i: usize = 0;
            while i < source.len()
                invariant
                    i <= source@.len(),
                    out@.len() == kept(q.condition, source@.subrange(0, i as int)),
                    forall|k: int| 0 <= k < out@.len() ==> (#[trigger] out@[k])@ == projection(
                        q.select,
                        kept_rows(q.condition, source@.subrange(0, i as int))[k],
                    ),
                    forall|k: int| 0 <= k < out@.len() ==> (#[trigger] out@[k])@.len() == q.select.len(),
                    forall|j: int| 0 <= j < i ==> source@[j] is Ok,
                    q == self.query_view(),
                decreases source@.len() - i,
            {
                proof {
                    lemma_kept_step(q.condition, source@, i as int);
                }
                match &source[i] {
                    Err(e) => {
                        proof {
                            assert(first_failure(source@, i as int));
                        }
                        return Err(ExecuteError::from_source(SourceError { description: e.description.clone() }));
                    },
                    Ok(row) => {
                        if self.keeps(row) {
                            let projected = self.project_row(row);
                            proof {
                                assert(projected@ =~= projection(q.select, row@));
                            }
                            let ghost before = out@;
                            out.push(projected);
                            proof {
                                let kr = kept_rows(q.condition, source@.subrange(0, i as int));
                                let kr2 = kept_rows(q.condition, source@.subrange(0, i as int + 1));
                                assert(kr2 == kr + seq![row@]);
                                assert forall|k: int| 0 <= k < out@.len() implies (#[trigger] out@[k])@
                                    == projection(q.select, kr2[k]) by {
                                    if k < before.len() {
                                        assert(out@[k] == before[k]);
                                        assert(kr2[k] == kr[k]);
                                    }
                                }
                            }
                        } else {
                            proof {
                                let kr = kept_rows(q.condition, source@.subrange(0, i as int));
                                assert(kept_rows(q.condition, source@.subrange(0, i as int + 1)) =~= kr);
                            }
                        }
                    },
                }
                i = i + 1;
            }
            proof {
                assert(source@.subrange(0, source@.len() as int) =~= source@);
            }
        } else {
            let n = self.aggregate_count();
            let mut keys: Vec<Vec<Data>> = Vec::new();
            let mut accs: Vec<Vec<Aggregate>> = Vec::new();
            let ghost mut hist: Seq<Seq<Seq<Aggregate>>> = Seq::empty();
            let ghost calls = self.calls();
            let mut i: usize = 0;
            while i < source.len()
                invariant
                    i <= source@.len(),
                    n == self.calls().len(),
                    calls == self.calls(),
                    keys@.len() == accs@.len(),
                    forall|g: int| 0 <= g < accs@.len() ==> (#[trigger] accs@[g])@.len() == n,
                    forall|g: int| 0 <= g < keys@.len() ==> (#[trigger] keys@[g])@.len() == q.group.len(),
                    q.group.len() == 0 ==> keys@.len() == if kept(q.condition, source@.subrange(0, i as int)) > 0 {
                        1nat
                    } else {
                        0nat
                    },
                    keys_view(keys@) == group_keys(q.group, kept_rows(q.condition, source@.subrange(0, i as int))),
                    all_matched(q.group, kept_rows(q.condition, source@.subrange(0, i as int)), keys_view(keys@)),
                    hist.len() == keys@.len(),
                    forall|g: int| 0 <= g < hist.len() ==> (#[trigger] hist[g]).len() == n,
                    forall|g: int, m: int| 0 <= g < hist.len() && 0 <= m < n ==> #[trigger] tracks(
                        calls,
                        q.group,
                        kept_rows(q.condition, source@.subrange(0, i as int)),
                        keys_view(keys@),
                        hist,
                        accs_view(accs@),
                        g,
                        m,
                    ),
                    forall|j: int| 0 <= j < i ==> source@[j] is Ok,
                    q == self.query_view(),
                decreases source@.len() - i,
            {
                proof {
                    lemma_kept_step(q.condition, source@, i as int);
                }
                match &source[i] {
                    Err(e) => {
                        proof {
                            assert(first_failure(source@, i as int));
                        }
                        return Err(ExecuteError::from_source(SourceError { description: e.description.clone() }));
                    },
                    Ok(row) => {
                        if self.keeps(row) {
                            let ghost kr = kept_rows(q.condition, source@.subrange(0, i as int));
                            let ghost kr2 = kept_rows(q.condition, source@.subrange(0, i as int + 1));
                            let key = self.group_key(row);
                            proof {
                                assert(key@ =~= projection(q.group, row@));
                                assert(kr2 == kr + seq![row@]);
                                assert(kr2.drop_last() =~= kr);
                                assert(kr2.last() == row@);
                            }
                            let ghost old_keys = keys@;
                            let ghost kv_old = keys_view(old_keys);
                            let ghost key_view = key@;
                            let g = find_or_add_group(&mut keys, key);
                            let ghost kv = keys_view(keys@);
                            proof {
                                let ks = group_keys(q.group, kr);
                                assert(kv_old == ks);
                                if exists|j: int| 0 <= j < ks.len() && keys_equal(#[trigger] ks[j], key_view) {
                                    let j = choose|j: int| 0 <= j < ks.len() && keys_equal(#[trigger] ks[j], key_view);
                                    assert(keys_equal(old_keys[j]@, key_view));
                                    assert(keys@ == old_keys);
                                } else {
                                    assert forall|j: int| 0 <= j < old_keys.len() implies !keys_equal(#[trigger] old_keys[j]@, key_view) by {
                                        assert(ks[j] == old_keys[j]@);
                                    }
                                    assert(kv =~= ks.push(key_view));
                                    lemma_members_push_key(q.group, kr, kv_old, key_view, 0);
                                }
                                // the row's first equal key is the one at `g`
                                assert forall|j: int| 0 <= j < g implies !keys_equal(#[trigger] kv[j], key_view) by {
                                    assert(kv[j] == keys@[j]@);
                                }
                                lemma_first_match_at(kv, key_view, g as int);
                                // the groups met so far keep their rows
                                assert forall|h: int| #![auto] members(q.group, kr, kv, h) == members(q.group, kr, kv_old, h) by {
                                    if kv != kv_old {
                                        lemma_members_push_key(q.group, kr, kv_old, key_view, h);
                                    }
                                }
                                assert(all_matched(q.group, kr2, kv)) by {
                                    if kv != kv_old {
                                        lemma_members_push_key(q.group, kr, kv_old, key_view, 0);
                                    }
                                    assert forall|t: int| 0 <= t < kr2.len() implies first_match(kv, projection(q.group, #[trigger] kr2[t])) < kv.len() by {
                                        if t < kr.len() {
                                            assert(kr2[t] == kr[t]);
                                        }
                                    }
                                }
                            }
                            if g == accs.len() {
                                let mut fresh: Vec<Aggregate> = Vec::new();
                                let mut m: usize = 0;
                                while m < n
                                    invariant
                                        m <= n,
                                        n == self.calls().len(),
                                        fresh@.len() == m,
                                        forall|t: int| 0 <= t < m ==> #[trigger] fresh@[t] == start(self.calls()[t].0),
                                    decreases n - m,
                                {
                                    fresh.push(self.aggregate_function(m).aggregate());
                                    m = m + 1;
                                }
                                let ghost before_accs = accs@;
                                accs.push(fresh);
                                proof {
                                    let fresh_hist = Seq::new(n as nat, |m: int| seq![start(calls[m].0)]);
                                    let h0 = hist;
                                    hist = hist.push(fresh_hist);
                                    assert(members(q.group, kr, kv_old, kv_old.len() as int) == Seq::<Seq<(ExprV, Data)>>::empty()) by {
                                        lemma_members_push_key(q.group, kr, kv_old, key_view, 0);
                                    }
                                    assert forall|gg: int, m: int| 0 <= gg < hist.len() && 0 <= m < n implies #[trigger] tracks(
                                        calls,
                                        q.group,
                                        kr,
                                        kv,
                                        hist,
                                        accs_view(accs@),
                                        gg,
                                        m,
                                    ) by {
                                        assert(accs_view(accs@)[gg] == accs@[gg]@);
                                        if gg < h0.len() {
                                            assert(hist[gg] == h0[gg]);
                                            assert(accs@[gg] == before_accs[gg]);
                                            assert(tracks(calls, q.group, kr, kv_old, h0, accs_view(before_accs), gg, m));
                                        } else {
                                            assert(arg_values(calls[m].1, members(q.group, kr, kv, gg)) =~= Seq::<Data>::empty());
                                            assert(run_of(hist[gg][m], Seq::<Data>::empty()));
                                        }
                                    }
                                }
                            } else {
                                proof {
                                    assert forall|gg: int, m: int| 0 <= gg < hist.len() && 0 <= m < n implies #[trigger] tracks(
                                        calls,
                                        q.group,
                                        kr,
                                        kv,
                                        hist,
                                        accs_view(accs@),
                                        gg,
                                        m,
                                    ) by {
                                        assert(tracks(calls, q.group, kr, kv_old, hist, accs_view(accs@), gg, m));
                                    }
                                }
                            }
                            let ghost accs_mid = accs@;
                            let ghost hist_mid = hist;
                            let mut current = accs.remove(g);
                            let ghost before_current = current@;
                            let mut m: usize = 0;
                            while m < n
                                invariant
                                    m <= n,
                                    n == self.calls().len(),
                                    current@.len() == n,
                                    before_current.len() == n,
                                    forall|t: int| 0 <= t < m ==> #[trigger] applied(
                                        before_current[t],
                                        eval_spec(self.calls()[t].1, row@),
                                        current@[t],
                                    ),
                                    forall|t: int| m <= t < n ==> #[trigger] current@[t] == before_current[t],
                                decreases n - m,
                            {
                                let mut a = current[m];
                                a.apply(self.aggregate_argument(m, row), arith);
                                current.set(m, a);
                                m = m + 1;
                            }
                            let ghost after_current = current@;
                            accs.insert(g, current);
                            proof {
                                assert(accs@.len() == accs_mid.len());
                                assert(accs@[g as int]@ == after_current);
                                assert forall|gg: int| 0 <= gg < accs@.len() && gg != g implies #[trigger] accs@[gg] == accs_mid[gg] by {
                                    if gg < g {
                                        assert(accs@[gg] == accs_mid.remove(g as int)[gg]);
                                    } else {
                                        assert(accs@[gg] == accs_mid.remove(g as int)[gg - 1]);
                                    }
                                }
                                let gh = Seq::new(n as nat, |t: int| hist_mid[g as int][t].push(after_current[t]));
                                hist = hist_mid.update(g as int, gh);
                                assert forall|gg: int, t: int| 0 <= gg < hist.len() && 0 <= t < n implies #[trigger] tracks(
                                    calls,
                                    q.group,
                                    kr2,
                                    kv,
                                    hist,
                                    accs_view(accs@),
                                    gg,
                                    t,
                                ) by {
                                    assert(tracks(calls, q.group, kr, kv, hist_mid, accs_view(accs_mid), gg, t));
                                    assert(members(q.group, kr2, kv, gg) == members(q.group, kr, kv, gg) + if first_match(kv, projection(q.group, row@)) == gg {
                                        seq![row@]
                                    } else {
                                        Seq::empty()
                                    });
                                    assert(accs_view(accs@)[gg] == accs@[gg]@);
                                    assert(accs_view(accs_mid)[gg] == accs_mid[gg]@);
                                    if gg == g {
                                        let mem = members(q.group, kr, kv, gg);
                                        assert(arg_values(calls[t].1, mem + seq![row@]) =~= arg_values(calls[t].1, mem).push(eval_spec(calls[t].1, row@)));
                                        assert(before_current == accs_mid[g as int]@);
                                        assert(applied(before_current[t], eval_spec(calls[t].1, row@), after_current[t]));
                                        lemma_run_push(hist_mid[gg][t], arg_values(calls[t].1, mem), eval_spec(calls[t].1, row@), after_current[t]);
                                    } else {
                                        assert(members(q.group, kr2, kv, gg) =~= members(q.group, kr, kv, gg));
                                        assert(accs@[gg] == accs_mid[gg]);
                                    }
                                }
                                if q.group.len() == 0 {
                                    if old_keys.len() > 0 {
                                        assert(old_keys[0]@.len() == 0);
                                        assert(keys_equal(old_keys[0]@, key_view));
                                    }
                                }
                            }
                        } else {
                            proof {
                                let kr = kept_rows(q.condition, source@.subrange(0, i as int));
                                assert(kept_rows(q.condition, source@.subrange(0, i as int + 1)) =~= kr);
                            }
                        }
                    },
                }
                i = i + 1;
            }
            proof {
                assert(source@.subrange(0, source@.len() as int) =~= source@);
            }
            let ghost all_rows = kept_rows(q.condition, source@);
            let mut g: usize = 0;
            while g < keys.len()
                invariant
                    g <= keys@.len(),
                    n == self.calls().len(),
                    calls == self.calls(),
                    keys@.len() == accs@.len(),
                    forall|h: int| 0 <= h < accs@.len() ==> (#[trigger] accs@[h])@.len() == n,
                    forall|h: int| 0 <= h < keys@.len() ==> (#[trigger] keys@[h])@.len() == q.group.len(),
                    hist.len() == keys@.len(),
                    forall|gg: int, m: int| 0 <= gg < hist.len() && 0 <= m < n ==> #[trigger] tracks(
                        calls,
                        q.group,
                        all_rows,
                        keys_view(keys@),
                        hist,
                        accs_view(accs@),
                        gg,
                        m,
                    ),
                    out@.len() == g,
                    forall|k: int| 0 <= k < out@.len() ==> (#[trigger] out@[k])@.len() == q.select.len(),
                    forall|k: int| 0 <= k < out@.len() ==> row_of_group(
                        self.calls(),
                        q.select,
                        q.group,
                        keys@[k]@,
                        members(q.group, all_rows, keys_view(keys@), k),
                        (#[trigger] out@[k])@,
                    ),
                    keys_view(keys@) == group_keys(q.group, all_rows),
                    all_rows == kept_rows(q.condition, source@),
                    q == self.query_view(),
                decreases keys@.len() - g,
            {
                let mut finals: Vec<Data> = Vec::new();
                let mut m: usize = 0;
                while m < n
                    invariant
                        m <= n,
                        g < accs@.len(),
                        accs@[g as int]@.len() == n,
                        finals@.len() == m,
                        forall|t: int| 0 <= t < m ==> finalized(accs@[g as int]@[t], #[trigger] finals@[t]),
                    decreases n - m,
                {
                    finals.push(accs[g][m].final_value(arith));
                    m = m + 1;
                }
                let row = self.grouped_row(&keys[g], &finals);
                proof {
                    let gr = group_row(self.calls(), finals@, q.group, keys@[g as int]@);
                    let nc = finals@.len() as int;
                    assert(gr.len() == row@.len());
                    assert forall|x: int| 0 <= x < gr.len() implies row@[x] == gr[x] by {
                        if x >= nc {
                            let j = x - nc;
                            assert(row@[nc + j] == (q.group[j], keys@[g as int]@[j]));
                        }
                    }
                    assert(row@ =~= gr);
                }
                let projected = self.project_row(&row);
                proof {
                    assert(projected@ =~= projection(q.select, row@));
                }
                let ghost before = out@;
                out.push(projected);
                proof {
                    let gr = group_row(self.calls(), finals@, q.group, keys@[g as int]@);
                    let mem = members(q.group, all_rows, keys_view(keys@), g as int);
                    assert(projected@ == projection(q.select, gr));
                    assert forall|t: int| 0 <= t < calls.len() implies aggregated(
                        calls[t].0,
                        arg_values(calls[t].1, mem),
                        #[trigger] finals@[t],
                    ) by {
                        assert(tracks(calls, q.group, all_rows, keys_view(keys@), hist, accs_view(accs@), g as int, t));
                        assert(accs_view(accs@)[g as int] == accs@[g as int]@);
                        assert(finalized(accs@[g as int]@[t], finals@[t]));
                        assert(run_of(hist[g as int][t], arg_values(calls[t].1, mem)));
                    }
                    assert(row_of_group(self.calls(), q.select, q.group, keys@[g as int]@, mem, projected@));
                    assert forall|k: int| 0 <= k < out@.len() implies row_of_group(
                        self.calls(),
                        q.select,
                        q.group,
                        keys@[k]@,
                        members(q.group, all_rows, keys_view(keys@), k),
                        (#[trigger] out@[k])@,
                    ) by {
                        if k < before.len() {
                            assert(out@[k] == before[k]);
                        }
                    }
                }
                g = g + 1;
            }
            proof {
                keys_seen = keys@;
            }
        }
        let ghost pre = out@;
        let ghost keys_exec = keys_seen;
        let answer = self.sort_answer(self.get_columns(), out);
        proof {
            if self.calls().len() == 0 {
                assert(pre.len() == kept(q.condition, source@));
            } else {
                let keys = group_keys(q.group, kept_rows(q.condition, source@));
                assert(pre.len() == keys.len());
                assert forall|g: int| 0 <= g < pre.len() implies row_of_group(
                    self.calls(),
                    q.select,
                    q.group,
                    keys[g],
                    members(q.group, kept_rows(q.condition, source@), keys, g),
                    (#[trigger] pre[g])@,
                ) by {
                    assert(keys[g] == keys_view(keys_exec)[g]);
                }
            }
        }
        Ok(answer)
    }
}

/// Prepares and runs a query over the rows of a source.
pub fn execute<A: FloatArith>(query: Query, source: &Vec<Result<Row, SourceError>>, arith: &A) -> (r: Result<Answer, ExecuteError>)
    ensures
        match r {
            Ok(a) => (forall|k: int| !order_key_missing(query@, k)) && exists|ex: Executor|
                plans(ex, query@) && #[trigger] answers(ex, source@, a),
            Err(ExecuteError::InvalidOrderClause(e)) => exists|k: int|
                order_key_missing(query@, k) && e@ == query@.order[k].0 && forall|j: int|
                    0 <= j < k ==> !order_key_missing(query@, j),
            Err(ExecuteError::SourceError(d)) => (forall|k: int| !order_key_missing(query@, k))
                && exists|i: int| first_failure(source@, i) && d@ == source@[i]->Err_0.description@,
        },
{
    match Executor::new(query) {
        Err(e) => Err(e),
        Ok(ex) => {
            let r = ex.execute(source, arith);
            proof {
                if r is Ok {
                    assert(answers(ex, source@, r->Ok_0));
                }
            }
            r
        },
    }
}

} // verus!
