//! The canonical form of a query: which queries it can be written for, the
//! tokens it consists of, and the proof that parsing those tokens gives back
//! the query.
use vstd::prelude::*;
use crate::aggregate::{AggregateFunction, function_name, function_named};
use crate::expr::{BinaryOp, ExprV};
use crate::parser::{
    Tokens, ParseErr, continues_eq, is_tok, p_expect, p_expr, p_group, p_list, p_order, p_order_field,
    p_order_list, p_primary, p_query, p_table, p_where,
};
use crate::query::{QueryV, SortDirection};
use crate::scanner::ScanError;
use crate::token::{Tok, lower_seq};

verus! {

/// A primary can be written: a column, or a call on a writable expression.
pub open spec fn primary_wf(e: ExprV) -> bool
    decreases e, 0int,
{
    match e {
        ExprV::Column(_) => true,
        ExprV::Call(_, a) => expr_wf(*a),
        ExprV::Binary(_, _, _) => false,
    }
}

/// An expression can be written: a primary, or `primary = primary`.
pub open spec fn expr_wf(e: ExprV) -> bool
    decreases e, 1int,
{
    match e {
        ExprV::Binary(l, _, r) => primary_wf(*l) && primary_wf(*r),
        _ => primary_wf(e),
    }
}

/// A query can be written: its SELECT list is not empty and every
/// expression in it can be written.
pub open spec fn query_wf(q: QueryV) -> bool {
    &&& q.select.len() > 0
    &&& forall|i: int| 0 <= i < q.select.len() ==> expr_wf(#[trigger] q.select[i])
    &&& q.condition matches Some(c) ==> expr_wf(c)
    &&& forall|i: int| 0 <= i < q.group.len() ==> expr_wf(#[trigger] q.group[i])
    &&& forall|i: int| 0 <= i < q.order.len() ==> expr_wf((#[trigger] q.order[i]).0)
}

/// The tokens of an expression.
pub open spec fn expr_tokens(e: ExprV) -> Seq<Tok>
    decreases e,
{
    match e {
        ExprV::Column(n) => seq![Tok::Identifier(n)],
        ExprV::Call(f, a) => seq![Tok::Identifier(function_name(f)), Tok::OpenParen] + expr_tokens(*a)
            + seq![Tok::CloseParen],
        ExprV::Binary(l, _, r) => expr_tokens(*l) + seq![Tok::Eq] + expr_tokens(*r),
    }
}

/// The tokens of a list of expressions, separated by commas.
pub open spec fn list_tokens(es: Seq<ExprV>) -> Seq<Tok>
    decreases es.len(),
{
    if es.len() <= 1 {
        if es.len() == 1 {
            expr_tokens(es[0])
        } else {
            Seq::empty()
        }
    } else {
        expr_tokens(es[0]) + seq![Tok::Comma] + list_tokens(es.drop_first())
    }
}

pub open spec fn direction_tokens(d: Option<SortDirection>) -> Seq<Tok> {
    match d {
        None => Seq::empty(),
        Some(SortDirection::Asc) => seq![Tok::Asc],
        Some(SortDirection::Desc) => seq![Tok::Desc],
    }
}

pub open spec fn field_tokens(o: (ExprV, Option<SortDirection>)) -> Seq<Tok> {
    expr_tokens(o.0) + direction_tokens(o.1)
}

/// The tokens of ORDER BY keys, separated by commas.
pub open spec fn order_tokens(os: Seq<(ExprV, Option<SortDirection>)>) -> Seq<Tok>
    decreases os.len(),
{
    if os.len() <= 1 {
        if os.len() == 1 {
            field_tokens(os[0])
        } else {
            Seq::empty()
        }
    } else {
        field_tokens(os[0]) + seq![Tok::Comma] + order_tokens(os.drop_first())
    }
}

/// The tokens of a query.
pub open spec fn query_tokens(q: QueryV) -> Seq<Tok> {
    seq![Tok::Select] + list_tokens(q.select) + seq![Tok::From, Tok::Identifier(q.from)]
        + match q.condition {
        Some(c) => seq![Tok::Where] + expr_tokens(c),
        None => Seq::empty(),
    } + if q.group.len() > 0 {
        seq![Tok::Group, Tok::By] + list_tokens(q.group)
    } else {
        Seq::empty()
    } + if q.order.len() > 0 {
        seq![Tok::Order, Tok::By] + order_tokens(q.order)
    } else {
        Seq::empty()
    }
}

pub open spec fn oks(s: Seq<Tok>) -> Tokens {
    s.map_values(|t: Tok| Ok::<Tok, ScanError>(t))
}

/// `ts` holds the tokens `s` from position `i` on.
pub open spec fn holds_at(ts: Tokens, i: int, s: Seq<Tok>) -> bool {
    0 <= i && i + s.len() <= ts.len() && forall|k: int| 0 <= k < s.len() ==> ts[i + k] == Ok::<Tok, ScanError>(#[trigger] s[k])
}

/// Where an expression may end: no `(` and no `= name` follows.
pub open spec fn ends_expr(ts: Tokens, j: int) -> bool {
    !is_tok(ts, j, Tok::OpenParen) && !continues_eq(ts, j)
}

proof fn lemma_holds_split(ts: Tokens, i: int, a: Seq<Tok>, b: Seq<Tok>)
    requires
        holds_at(ts, i, a + b),
    ensures
        holds_at(ts, i, a),
        holds_at(ts, i + a.len(), b),
{
    assert forall|k: int| 0 <= k < a.len() implies ts[i + k] == Ok::<Tok, ScanError>(#[trigger] a[k]) by {
        assert((a + b)[k] == a[k]);
    }
    assert forall|k: int| 0 <= k < b.len() implies ts[i + a.len() + k] == Ok::<Tok, ScanError>(#[trigger] b[k]) by {
        assert((a + b)[a.len() + k] == b[k]);
    }
}

proof fn lemma_function_named(f: AggregateFunction)
    ensures
        function_named(function_name(f)) == Some(f),
{
    let n = function_name(f);
    assert(lower_seq(n) =~= n);
    assert(function_name(AggregateFunction::Average) != function_name(AggregateFunction::Count));
    assert(function_name(AggregateFunction::Count) != function_name(AggregateFunction::Sum));
    assert(function_name(AggregateFunction::Average) != function_name(AggregateFunction::Sum));
}

proof fn lemma_expr_tokens_start(e: ExprV)
    requires
        expr_wf(e) || primary_wf(e),
    ensures
        expr_tokens(e).len() > 0,
        expr_tokens(e)[0] is Identifier,
    decreases e,
{
    match e {
        ExprV::Binary(l, _, r) => {
            lemma_expr_tokens_start(*l);
        },
        _ => {},
    }
}

proof fn lemma_parse_primary(e: ExprV, ts: Tokens, i: int)
    requires
        primary_wf(e),
        holds_at(ts, i, expr_tokens(e)),
        !is_tok(ts, i + expr_tokens(e).len(), Tok::OpenParen),
    ensures
        p_primary(ts, i) == Ok::<(ExprV, int), ParseErr>((e, i + expr_tokens(e).len())),
    decreases e, 0int,
{
    let t = expr_tokens(e);
    assert(ts[i + 0] == Ok::<Tok, ScanError>(t[0]));
    match e {
        ExprV::Column(n) => {},
        ExprV::Call(f, a) => {
            let pre = seq![Tok::Identifier(function_name(f)), Tok::OpenParen];
            let at = expr_tokens(*a);
            assert(t == pre + at + seq![Tok::CloseParen]);
            lemma_holds_split(ts, i, pre + at, seq![Tok::CloseParen]);
            lemma_holds_split(ts, i, pre, at);
            assert(ts[i + 1] == Ok::<Tok, ScanError>(pre[1]));
            let j = i + 2 + at.len();
            assert(ts[j + 0] == Ok::<Tok, ScanError>(seq![Tok::CloseParen][0]));
            lemma_parse_expr(*a, ts, i + 2);
            lemma_function_named(f);
        },
        ExprV::Binary(_, _, _) => {},
    }
}

proof fn lemma_parse_expr(e: ExprV, ts: Tokens, i: int)
    requires
        expr_wf(e),
        holds_at(ts, i, expr_tokens(e)),
        ends_expr(ts, i + expr_tokens(e).len()),
    ensures
        p_expr(ts, i) == Ok::<(ExprV, int), ParseErr>((e, i + expr_tokens(e).len())),
    decreases e, 1int,
{
    match e {
        ExprV::Binary(l, op, r) => {
            let lt = expr_tokens(*l);
            let rt = expr_tokens(*r);
            assert(expr_tokens(e) == lt + seq![Tok::Eq] + rt);
            lemma_holds_split(ts, i, lt + seq![Tok::Eq], rt);
            lemma_holds_split(ts, i, lt, seq![Tok::Eq]);
            let j = i + lt.len();
            assert(ts[j + 0] == Ok::<Tok, ScanError>(seq![Tok::Eq][0]));
            lemma_expr_tokens_start(*l);
            lemma_expr_tokens_start(*r);
            assert(ts[j + 1 + 0] == Ok::<Tok, ScanError>(rt[0]));
            lemma_parse_primary(*l, ts, i);
            assert(continues_eq(ts, j));
            lemma_parse_primary(*r, ts, j + 1);
            assert(op == BinaryOp::Eq);
        },
        _ => {
            lemma_parse_primary(e, ts, i);
        },
    }
}

/// Where a list may end: besides ending its last expression, no comma follows.
pub open spec fn ends_list(ts: Tokens, j: int) -> bool {
    ends_expr(ts, j) && !is_tok(ts, j, Tok::Comma)
}

proof fn lemma_parse_list(es: Seq<ExprV>, ts: Tokens, i: int)
    requires
        es.len() > 0,
        forall|k: int| 0 <= k < es.len() ==> expr_wf(#[trigger] es[k]),
        holds_at(ts, i, list_tokens(es)),
        ends_list(ts, i + list_tokens(es).len()),
    ensures
        p_list(ts, i) == Ok::<(Seq<ExprV>, int), ParseErr>((es, i + list_tokens(es).len())),
    decreases es.len(),
{
    let e = es[0];
    let et = expr_tokens(e);
    assert(expr_wf(es[0]));
    if es.len() == 1 {
        lemma_parse_expr(e, ts, i);
        assert(seq![e] =~= es);
    } else {
        let rest = es.drop_first();
        let rt = list_tokens(rest);
        assert(list_tokens(es) == et + seq![Tok::Comma] + rt);
        lemma_holds_split(ts, i, et + seq![Tok::Comma], rt);
        lemma_holds_split(ts, i, et, seq![Tok::Comma]);
        let j = i + et.len();
        assert(ts[j + 0] == Ok::<Tok, ScanError>(seq![Tok::Comma][0]));
        lemma_parse_expr(e, ts, i);
        assert forall|k: int| 0 <= k < rest.len() implies expr_wf(#[trigger] rest[k]) by {
            assert(rest[k] == es[k + 1]);
        }
        lemma_parse_list(rest, ts, j + 1);
        assert(seq![e] + rest =~= es);
    }
}

/// Where an ORDER BY key may end: besides ending its expression, no
/// direction follows.
pub open spec fn ends_field(ts: Tokens, j: int) -> bool {
    ends_expr(ts, j) && !is_tok(ts, j, Tok::Asc) && !is_tok(ts, j, Tok::Desc)
}

/// Where ORDER BY keys may end: besides ending a key, no comma follows.
pub open spec fn ends_order(ts: Tokens, j: int) -> bool {
    ends_field(ts, j) && !is_tok(ts, j, Tok::Comma)
}

proof fn lemma_parse_field(o: (ExprV, Option<SortDirection>), ts: Tokens, i: int)
    requires
        expr_wf(o.0),
        holds_at(ts, i, field_tokens(o)),
        ends_field(ts, i + field_tokens(o).len()),
    ensures
        p_order_field(ts, i) == Ok::<((ExprV, Option<SortDirection>), int), ParseErr>(
            (o, i + field_tokens(o).len()),
        ),
{
    let et = expr_tokens(o.0);
    let dt = direction_tokens(o.1);
    lemma_holds_split(ts, i, et, dt);
    let j = i + et.len();
    match o.1 {
        None => {
            assert(dt.len() == 0);
            assert(field_tokens(o) =~= et);
        },
        Some(d) => {
            assert(ts[j + 0] == Ok::<Tok, ScanError>(dt[0]));
        },
    }
    lemma_parse_expr(o.0, ts, i);
}

proof fn lemma_parse_order_list(os: Seq<(ExprV, Option<SortDirection>)>, ts: Tokens, i: int)
    requires
        os.len() > 0,
        forall|k: int| 0 <= k < os.len() ==> expr_wf((#[trigger] os[k]).0),
        holds_at(ts, i, order_tokens(os)),
        ends_order(ts, i + order_tokens(os).len()),
    ensures
        p_order_list(ts, i) == Ok::<(Seq<(ExprV, Option<SortDirection>)>, int), ParseErr>(
            (os, i + order_tokens(os).len()),
        ),
    decreases os.len(),
{
    let o = os[0];
    let ft = field_tokens(o);
    assert(expr_wf(os[0].0));
    if os.len() == 1 {
        lemma_parse_field(o, ts, i);
        assert(seq![o] =~= os);
    } else {
        let rest = os.drop_first();
        let rt = order_tokens(rest);
        assert(order_tokens(os) == ft + seq![Tok::Comma] + rt);
        lemma_holds_split(ts, i, ft + seq![Tok::Comma], rt);
        lemma_holds_split(ts, i, ft, seq![Tok::Comma]);
        let j = i + ft.len();
        assert(ts[j + 0] == Ok::<Tok, ScanError>(seq![Tok::Comma][0]));
        lemma_parse_field(o, ts, i);
        assert forall|k: int| 0 <= k < rest.len() implies expr_wf((#[trigger] rest[k]).0) by {
            assert(rest[k] == os[k + 1]);
        }
        lemma_parse_order_list(rest, ts, j + 1);
        assert(seq![o] + rest =~= os);
    }
}

pub open spec fn where_tokens(c: Option<ExprV>) -> Seq<Tok> {
    match c {
        Some(e) => seq![Tok::Where] + expr_tokens(e),
        None => Seq::empty(),
    }
}

pub open spec fn group_tokens(g: Seq<ExprV>) -> Seq<Tok> {
    if g.len() > 0 {
        seq![Tok::Group, Tok::By] + list_tokens(g)
    } else {
        Seq::empty()
    }
}

pub open spec fn order_clause_tokens(o: Seq<(ExprV, Option<SortDirection>)>) -> Seq<Tok> {
    if o.len() > 0 {
        seq![Tok::Order, Tok::By] + order_tokens(o)
    } else {
        Seq::empty()
    }
}

proof fn lemma_holds_oks(s: Seq<Tok>)
    ensures
        holds_at(oks(s), 0, s),
        oks(s).len() == s.len(),
{
    assert forall|k: int| 0 <= k < s.len() implies oks(s)[0 + k] == Ok::<Tok, ScanError>(#[trigger] s[k]) by {}
}

proof fn lemma_clause_where(c: Option<ExprV>, ts: Tokens, i: int)
    requires
        c matches Some(e) ==> expr_wf(e),
        holds_at(ts, i, where_tokens(c)),
        ends_expr(ts, i + where_tokens(c).len()),
        !is_tok(ts, i + where_tokens(c).len(), Tok::Where),
    ensures
        p_where(ts, i) == Ok::<(Option<ExprV>, int), ParseErr>((c, i + where_tokens(c).len())),
{
    match c {
        Some(e) => {
            let wt = where_tokens(c);
            assert(ts[i + 0] == Ok::<Tok, ScanError>(wt[0]));
            lemma_holds_split(ts, i, seq![Tok::Where], expr_tokens(e));
            lemma_parse_expr(e, ts, i + 1);
        },
        None => {},
    }
}

proof fn lemma_clause_group(g: Seq<ExprV>, ts: Tokens, i: int)
    requires
        forall|k: int| 0 <= k < g.len() ==> expr_wf(#[trigger] g[k]),
        holds_at(ts, i, group_tokens(g)),
        ends_list(ts, i + group_tokens(g).len()),
        !is_tok(ts, i + group_tokens(g).len(), Tok::Group),
    ensures
        p_group(ts, i) == Ok::<(Seq<ExprV>, int), ParseErr>((g, i + group_tokens(g).len())),
{
    if g.len() > 0 {
        let gt = group_tokens(g);
        assert(ts[i + 0] == Ok::<Tok, ScanError>(gt[0]));
        assert(ts[i + 1] == Ok::<Tok, ScanError>(gt[1]));
        lemma_holds_split(ts, i, seq![Tok::Group, Tok::By], list_tokens(g));
        assert(expr_wf(g[0]));
        lemma_parse_list(g, ts, i + 2);
    } else {
        assert(g =~= Seq::<ExprV>::empty());
    }
}

proof fn lemma_clause_order(o: Seq<(ExprV, Option<SortDirection>)>, ts: Tokens, i: int)
    requires
        forall|k: int| 0 <= k < o.len() ==> expr_wf((#[trigger] o[k]).0),
        holds_at(ts, i, order_clause_tokens(o)),
        i + order_clause_tokens(o).len() == ts.len(),
    ensures
        p_order(ts, i) == Ok::<Seq<(ExprV, Option<SortDirection>)>, ParseErr>(o),
{
    if o.len() > 0 {
        let ot = order_clause_tokens(o);
        assert(ts[i + 0] == Ok::<Tok, ScanError>(ot[0]));
        assert(ts[i + 1] == Ok::<Tok, ScanError>(ot[1]));
        lemma_holds_split(ts, i, seq![Tok::Order, Tok::By], order_tokens(o));
        lemma_parse_order_list(o, ts, i + 2);
    } else {
        assert(o =~= Seq::<(ExprV, Option<SortDirection>)>::empty());
    }
}

proof fn lemma_query_tokens_shape(q: QueryV)
    ensures
        query_tokens(q) == seq![Tok::Select] + list_tokens(q.select) + seq![Tok::From, Tok::Identifier(q.from)]
            + where_tokens(q.condition) + (group_tokens(q.group) + order_clause_tokens(q.order)),
{
    assert(query_tokens(q) =~= seq![Tok::Select] + list_tokens(q.select) + seq![Tok::From, Tok::Identifier(q.from)]
            + where_tokens(q.condition) + (group_tokens(q.group) + order_clause_tokens(q.order)));
}

/// The token at `j` starts the GROUP BY or ORDER BY clause that follows, or
/// `j` is the end.
proof fn lemma_after_where(q: QueryV, ts: Tokens, j: int)
    requires
        holds_at(ts, j, group_tokens(q.group) + order_clause_tokens(q.order)),
        j + group_tokens(q.group).len() + order_clause_tokens(q.order).len() == ts.len(),
    ensures
        ends_list(ts, j),
        !is_tok(ts, j, Tok::Where),
        q.group.len() == 0 ==> !is_tok(ts, j, Tok::Group),
{
    let r = group_tokens(q.group) + order_clause_tokens(q.order);
    if r.len() > 0 {
        assert(ts[j + 0] == Ok::<Tok, ScanError>(r[0]));
        if q.group.len() > 0 {
            assert(r[0] == Tok::Group);
        } else {
            assert(r[0] == Tok::Order);
        }
    }
}

proof fn lemma_query_from_clauses(q: QueryV, ts: Tokens, i2: int, i5: int, i6: int)
    requires
        p_expect(ts, 0, Tok::Select) == Ok::<int, ParseErr>(1),
        p_list(ts, 1) == Ok::<(Seq<ExprV>, int), ParseErr>((q.select, i2)),
        p_expect(ts, i2, Tok::From) == Ok::<int, ParseErr>(i2 + 1),
        p_table(ts, i2 + 1) == Ok::<Seq<char>, ParseErr>(q.from),
        p_where(ts, i2 + 2) == Ok::<(Option<ExprV>, int), ParseErr>((q.condition, i5)),
        p_group(ts, i5) == Ok::<(Seq<ExprV>, int), ParseErr>((q.group, i6)),
        p_order(ts, i6) == Ok::<Seq<(ExprV, Option<SortDirection>)>, ParseErr>(q.order),
    ensures
        p_query(ts, 0) == Ok::<QueryV, ParseErr>(q),
{
}

/// Parsing the tokens of a writable query gives back the query.
#[verifier::rlimit(60)]
pub proof fn lemma_parse_query_tokens(q: QueryV)
    requires
        query_wf(q),
    ensures
        p_query(oks(query_tokens(q)), 0) == Ok::<QueryV, ParseErr>(q),
{
    let ts = oks(query_tokens(q));
    let a = seq![Tok::Select];
    let sel = list_tokens(q.select);
    let b = seq![Tok::From, Tok::Identifier(q.from)];
    let wt = where_tokens(q.condition);
    let gt = group_tokens(q.group);
    let ot = order_clause_tokens(q.order);
    lemma_query_tokens_shape(q);
    lemma_holds_oks(query_tokens(q));
    lemma_holds_split(ts, 0, a + sel + b + wt, gt + ot);
    lemma_holds_split(ts, 0, a + sel + b, wt);
    lemma_holds_split(ts, 0, a + sel, b);
    lemma_holds_split(ts, 0, a, sel);
    let i2: int = 1 + sel.len() as int;
    let i4: int = i2 + 2;
    let i5: int = i4 + wt.len() as int;
    lemma_holds_split(ts, i5, gt, ot);
    let i6: int = i5 + gt.len() as int;
    assert(ts[0int + 0] == Ok::<Tok, ScanError>(a[0]));
    assert(ts[i2 + 0] == Ok::<Tok, ScanError>(b[0]));
    assert(ts[i2 + 1] == Ok::<Tok, ScanError>(b[1]));
    lemma_after_where(q, ts, i5);
    let qg = QueryV { group: Seq::empty(), ..q };
    lemma_after_where(qg, ts, i6);
    assert(order_clause_tokens(qg.order) == ot);
    assert(group_tokens(qg.group) =~= Seq::<Tok>::empty());
    assert(gt + ot =~= group_tokens(q.group) + order_clause_tokens(q.order));
    if wt.len() > 0 {
        assert(ts[i4 + 0] == Ok::<Tok, ScanError>(wt[0]));
    }
    assert(q.select.len() > 0 && expr_wf(q.select[0]));
    lemma_parse_list(q.select, ts, 1);
    lemma_clause_where(q.condition, ts, i4);
    lemma_clause_group(q.group, ts, i5);
    lemma_clause_order(q.order, ts, i6);
    assert(p_expect(ts, 0, Tok::Select) == Ok::<int, ParseErr>(1));
    assert(p_expect(ts, i2, Tok::From) == Ok::<int, ParseErr>(i2 + 1));
    assert(p_table(ts, i2 + 1) == Ok::<Seq<char>, ParseErr>(q.from));
    lemma_query_from_clauses(q, ts, i2, i5, i6);
}

proof fn lemma_primary_result_wf(ts: Tokens, i: int)
    ensures
        p_primary(ts, i) matches Ok((e, _)) ==> primary_wf(e),
    decreases ts.len() - i, 0int,
{
    if 0 <= i < ts.len() && i + 1 < ts.len() {
        lemma_expr_result_wf(ts, i + 2);
    }
}

proof fn lemma_expr_result_wf(ts: Tokens, i: int)
    ensures
        p_expr(ts, i) matches Ok((e, _)) ==> expr_wf(e),
    decreases ts.len() - i, 1int,
{
    lemma_primary_result_wf(ts, i);
    match p_primary(ts, i) {
        Ok((l, j)) => {
            if i < j && continues_eq(ts, j) {
                lemma_primary_result_wf(ts, j + 1);
            } else {
                match l {
                    ExprV::Binary(_, _, _) => {},
                    _ => {},
                }
            }
        },
        Err(_) => {},
    }
}

proof fn lemma_list_result_wf(ts: Tokens, i: int)
    ensures
        p_list(ts, i) matches Ok((es, _)) ==> es.len() > 0 && forall|k: int|
            0 <= k < es.len() ==> expr_wf(#[trigger] es[k]),
    decreases ts.len() - i,
{
    lemma_expr_result_wf(ts, i);
    match p_expr(ts, i) {
        Ok((e, j)) => {
            if i < j && is_tok(ts, j, Tok::Comma) {
                lemma_list_result_wf(ts, j + 1);
                match p_list(ts, j + 1) {
                    Ok((rest, k)) => {
                        let es = seq![e] + rest;
                        assert forall|m: int| 0 <= m < es.len() implies expr_wf(#[trigger] es[m]) by {
                            if m > 0 {
                                assert(es[m] == rest[m - 1]);
                            }
                        }
                    },
                    Err(_) => {},
                }
            }
        },
        Err(_) => {},
    }
}

proof fn lemma_order_list_result_wf(ts: Tokens, i: int)
    ensures
        p_order_list(ts, i) matches Ok((os, _)) ==> forall|k: int|
            0 <= k < os.len() ==> expr_wf((#[trigger] os[k]).0),
    decreases ts.len() - i,
{
    lemma_expr_result_wf(ts, i);
    match p_order_field(ts, i) {
        Ok((o, j)) => {
            if i < j && is_tok(ts, j, Tok::Comma) {
                lemma_order_list_result_wf(ts, j + 1);
                match p_order_list(ts, j + 1) {
                    Ok((rest, k)) => {
                        let os = seq![o] + rest;
                        assert forall|m: int| 0 <= m < os.len() implies expr_wf((#[trigger] os[m]).0) by {
                            if m > 0 {
                                assert(os[m] == rest[m - 1]);
                            }
                        }
                    },
                    Err(_) => {},
                }
            }
        },
        Err(_) => {},
    }
}

/// Every query the parser produces can be written.
pub proof fn lemma_parsed_query_wf(ts: Tokens, i: int)
    ensures
        p_query(ts, i) matches Ok(q) ==> query_wf(q),
{
    match p_expect(ts, i, Tok::Select) {
        Ok(i1) => {
            lemma_list_result_wf(ts, i1);
            match p_list(ts, i1) {
                Ok((_, i2)) => match p_expect(ts, i2, Tok::From) {
                    Ok(i3) => {
                        lemma_expr_result_wf(ts, i3 + 2);
                        match p_where(ts, i3 + 1) {
                            Ok((_, i4)) => {
                                if is_tok(ts, i4, Tok::Group) {
                                    match p_expect(ts, i4 + 1, Tok::By) {
                                        Ok(j) => lemma_list_result_wf(ts, j),
                                        Err(_) => {},
                                    }
                                }
                                match p_group(ts, i4) {
                                    Ok((_, i5)) => {
                                        if is_tok(ts, i5, Tok::Order) {
                                            match p_expect(ts, i5 + 1, Tok::By) {
                                                Ok(j) => lemma_order_list_result_wf(ts, j),
                                                Err(_) => {},
                                            }
                                        }
                                    },
                                    Err(_) => {},
                                }
                            },
                            Err(_) => {},
                        }
                    },
                    Err(_) => {},
                },
                Err(_) => {},
            }
        },
        Err(_) => {},
    }
}

} // verus!
