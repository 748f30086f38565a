//! The parsed SELECT statement and its canonical text.
use vstd::prelude::*;
use crate::expr::{Expr, ExprV, expr_text, identifier_text, push_identifier, push_all};
use crate::text::{chars_of, string_of};

verus! {

/// The direction of an ORDER BY key.
#[derive(Clone, Copy, Debug, PartialEq, Eq, Structural, Hash)]
pub enum SortDirection {
    Asc,
    Desc,
}

/// One ORDER BY key: an expression and an optional direction.
#[derive(Debug, PartialEq)]
pub struct OrderField {
    pub expr: Expr,
    pub direction: Option<SortDirection>,
}

impl Clone for OrderField {
    fn clone(&self) -> (r: OrderField)
        ensures
            r@ == self@,
    {
        OrderField { expr: self.expr.deep_clone(), direction: self.direction }
    }
}

impl View for OrderField {
    type V = (ExprV, Option<SortDirection>);

    open spec fn view(&self) -> (ExprV, Option<SortDirection>) {
        (self.expr@, self.direction)
    }
}

/// A parsed SELECT statement.
#[derive(Debug, PartialEq)]
pub struct Query {
    pub select: Vec<Expr>,
    pub from: String,
    pub condition: Option<Expr>,
    pub group: Vec<Expr>,
    pub order: Vec<OrderField>,
}

/// The mathematical model of a query.
pub struct QueryV {
    pub select: Seq<ExprV>,
    pub from: Seq<char>,
    pub condition: Option<ExprV>,
    pub group: Seq<ExprV>,
    pub order: Seq<(ExprV, Option<SortDirection>)>,
}

pub open spec fn exprs_view(v: Seq<Expr>) -> Seq<ExprV> {
    v.map_values(|e: Expr| e@)
}

pub open spec fn option_view(c: Option<Expr>) -> Option<ExprV> {
    match c {
        Some(e) => Some(e@),
        None => None,
    }
}

impl View for Query {
    type V = QueryV;

    open spec fn view(&self) -> QueryV {
        QueryV {
            select: exprs_view(self.select@),
            from: self.from@,
            condition: option_view(self.condition),
            group: exprs_view(self.group@),
            order: self.order@.map_values(|o: OrderField| o@),
        }
    }
}

/// The parts joined with ", " between them.
pub open spec fn joined(parts: Seq<Seq<char>>) -> Seq<char>
    decreases parts.len(),
{
    if parts.len() == 0 {
        Seq::empty()
    } else if parts.len() == 1 {
        parts[0]
    } else {
        joined(parts.drop_last()) + seq![',', ' '] + parts.last()
    }
}

pub open spec fn direction_text(d: Option<SortDirection>) -> Seq<char> {
    match d {
        None => Seq::empty(),
        Some(SortDirection::Asc) => seq![' ', 'a', 's', 'c'],
        Some(SortDirection::Desc) => seq![' ', 'd', 'e', 's', 'c'],
    }
}

pub open spec fn order_field_text(o: (ExprV, Option<SortDirection>)) -> Seq<char> {
    expr_text(o.0) + direction_text(o.1)
}

pub open spec fn exprs_text(es: Seq<ExprV>) -> Seq<char> {
    joined(es.map_values(|e: ExprV| expr_text(e)))
}

/// The canonical text of a query:
/// `select E, ... from F [where C] [group by G, ...] [order by O [asc|desc], ...]`.
pub open spec fn query_text(q: QueryV) -> Seq<char> {
    seq!['s', 'e', 'l', 'e', 'c', 't', ' '] + exprs_text(q.select) + seq![
        ' ',
        'f',
        'r',
        'o',
        'm',
        ' ',
    ] + identifier_text(q.from) + match q.condition {
        Some(c) => seq![' ', 'w', 'h', 'e', 'r', 'e', ' '] + expr_text(c),
        None => Seq::empty(),
    } + if q.group.len() > 0 {
        seq![' ', 'g', 'r', 'o', 'u', 'p', ' ', 'b', 'y', ' '] + exprs_text(q.group)
    } else {
        Seq::empty()
    } + if q.order.len() > 0 {
        seq![' ', 'o', 'r', 'd', 'e', 'r', ' ', 'b', 'y', ' '] + joined(
            q.order.map_values(|o: (ExprV, Option<SortDirection>)| order_field_text(o)),
        )
    } else {
        Seq::empty()
    }
}

/// Appends the expressions' texts, separated by ", ", to `out`.
fn push_exprs(out: &mut Vec<char>, es: &Vec<Expr>)
    ensures
        final(out)@ == old(out)@ + exprs_text(exprs_view(es@)),
{
    let ghost before = out@;
    let mut i: usize = 0;
    while i < es.len()
        invariant
            i <= es@.len(),
            out@ == before + exprs_text(exprs_view(es@.subrange(0, i as int))),
        decreases es@.len() - i,
    {
        let ghost mid = out@;
        if i > 0 {
            out.push(',');
            out.push(' ');
        }
        es[i].push_text(out);
        proof {
            let p = exprs_view(es@.subrange(0, i as int + 1)).map_values(|e: ExprV| expr_text(e));
            let q = exprs_view(es@.subrange(0, i as int)).map_values(|e: ExprV| expr_text(e));
            assert(p.drop_last() =~= q);
            assert(p.last() == expr_text(es@[i as int]@));
            if i == 0 {
                assert(p.len() == 1);
                assert(q.len() == 0);
            }
            assert(out@ =~= before + joined(p));
        }
        i = i + 1;
    }
    proof {
        assert(es@.subrange(0, es@.len() as int) =~= es@);
    }
}

/// Appends the order fields' texts, separated by ", ", to `out`.
fn push_order(out: &mut Vec<char>, os: &Vec<OrderField>)
    ensures
        final(out)@ == old(out)@ + joined(
            os@.map_values(|o: OrderField| o@).map_values(
                |o: (ExprV, Option<SortDirection>)| order_field_text(o),
            ),
        ),
{
    let ghost before = out@;
    let mut i: usize = 0;
    while i < os.len()
        invariant
            i <= os@.len(),
            out@ == before + joined(
                os@.subrange(0, i as int).map_values(|o: OrderField| o@).map_values(
                    |o: (ExprV, Option<SortDirection>)| order_field_text(o),
                ),
            ),
        decreases os@.len() - i,
    {
        if i > 0 {
            out.push(',');
            out.push(' ');
        }
        os[i].expr.push_text(out);
        match os[i].direction {
            None => {},
            Some(SortDirection::Asc) => {
                push_all(out, &vec![' ', 'a', 's', 'c']);
            },
            Some(SortDirection::Desc) => {
                push_all(out, &vec![' ', 'd', 'e', 's', 'c']);
            },
        }
        proof {
            let p = os@.subrange(0, i as int + 1).map_values(|o: OrderField| o@).map_values(
                |o: (ExprV, Option<SortDirection>)| order_field_text(o),
            );
            let q = os@.subrange(0, i as int).map_values(|o: OrderField| o@).map_values(
                |o: (ExprV, Option<SortDirection>)| order_field_text(o),
            );
            assert(p.drop_last() =~= q);
            assert(p.last() =~= order_field_text(os@[i as int]@));
            if i == 0 {
                assert(p.len() == 1);
                assert(q.len() == 0);
            }
            assert(out@ =~= before + joined(p));
        }
        i = i + 1;
    }
    proof {
        assert(os@.subrange(0, os@.len() as int) =~= os@);
    }
}

impl Query {
    /// The canonical text of the query, which parses back to an equal query.
    pub fn to_string(&self) -> (r: String)
        ensures
            r@ == query_text(self@),
    {
        let mut out: Vec<char> = Vec::new();
        push_all(&mut out, &vec!['s', 'e', 'l', 'e', 'c', 't', ' ']);
        push_exprs(&mut out, &self.select);
        push_all(&mut out, &vec![' ', 'f', 'r', 'o', 'm', ' ']);
        push_identifier(&mut out, &chars_of(self.from.as_str()));
        let ghost a = out@;
        match &self.condition {
            Some(c) => {
                push_all(&mut out, &vec![' ', 'w', 'h', 'e', 'r', 'e', ' ']);
                c.push_text(&mut out);
            },
            None => {},
        }
        let ghost b = out@;
        if self.group.len() > 0 {
            push_all(&mut out, &vec![' ', 'g', 'r', 'o', 'u', 'p', ' ', 'b', 'y', ' ']);
            push_exprs(&mut out, &self.group);
        }
        let ghost c = out@;
        if self.order.len() > 0 {
            push_all(&mut out, &vec![' ', 'o', 'r', 'd', 'e', 'r', ' ', 'b', 'y', ' ']);
            push_order(&mut out, &self.order);
        }
        proof {
            assert(out@ =~= query_text(self@));
        }
        string_of(&out)
    }
}

} // verus!
