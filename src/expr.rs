//! The expression tree: column references, aggregate calls and the binary
//! equality operator; its canonical text; equality of trees.
use vstd::prelude::*;
use crate::aggregate::{AggregateCall, AggregateFunction, function_name};
use crate::text::{chars_of, string_of};
use crate::data::{Data, data_eq};
use crate::row::{Row, lookup};
use crate::token::{Token, is_letter, is_word_char, word_token, Tok, letter, digit, keyword_or_identifier};

verus! {

/// An expression.
#[derive(Debug, PartialEq)]
pub enum Expr {
    Column(String),
    AggregateCall(AggregateCall),
    BinaryExpr { left: Box<Expr>, op: BinaryOp, right: Box<Expr> },
}

/// Binary operators.
#[derive(Clone, Copy, Debug, PartialEq, Eq, Structural, Hash)]
pub enum BinaryOp {
    Eq,
}

/// The mathematical model of an expression.
pub enum ExprV {
    Column(Seq<char>),
    Call(AggregateFunction, Box<ExprV>),
    Binary(Box<ExprV>, BinaryOp, Box<ExprV>),
}

impl View for Expr {
    type V = ExprV;

    open spec fn view(&self) -> ExprV
        decreases self,
    {
        match self {
            Expr::Column(n) => ExprV::Column(n@),
            Expr::AggregateCall(c) => ExprV::Call(c.function, Box::new((*c.argument).view())),
            Expr::BinaryExpr { left, op, right } => ExprV::Binary(
                Box::new((**left).view()),
                *op,
                Box::new((**right).view()),
            ),
        }
    }
}

/// The canonical text of a character that stands inside quotes ending with
/// `delim`.
pub open spec fn escaped_char(c: char, delim: char) -> Seq<char> {
    if c == '\n' {
        seq!['\\', 'n']
    } else if c == '\\' || c == delim {
        seq!['\\', c]
    } else {
        seq![c]
    }
}

pub open spec fn escaped(s: Seq<char>, delim: char) -> Seq<char>
    decreases s.len(),
{
    if s.len() == 0 {
        Seq::empty()
    } else {
        escaped(s.drop_last(), delim) + escaped_char(s.last(), delim)
    }
}

/// Whether a name can be written bare: the scanner reads it back as this
/// identifier.
pub open spec fn is_bare(n: Seq<char>) -> bool {
    &&& n.len() > 0
    &&& is_letter(n[0])
    &&& forall|i: int| 0 <= i < n.len() ==> is_word_char(#[trigger] n[i])
    &&& word_token(n) == Tok::Identifier(n)
}

/// The canonical text of an identifier: bare where it can be, else in double
/// quotes with `\` escapes.
pub open spec fn identifier_text(n: Seq<char>) -> Seq<char> {
    if is_bare(n) {
        n
    } else {
        seq!['"'] + escaped(n, '"') + seq!['"']
    }
}

/// The canonical text of an expression.
pub open spec fn expr_text(e: ExprV) -> Seq<char>
    decreases e,
{
    match e {
        ExprV::Column(n) => identifier_text(n),
        ExprV::Call(f, a) => function_name(f) + seq!['('] + expr_text(*a) + seq![')'],
        ExprV::Binary(l, _, r) => expr_text(*l) + seq![' ', '=', ' '] + expr_text(*r),
    }
}

/// Appends the escaped text of `s` to `out`.
pub fn push_escaped(out: &mut Vec<char>, s: &Vec<char>, delim: char)
    ensures
        final(out)@ == old(out)@ + escaped(s@, delim),
{
    let mut i: usize = 0;
    while i < s.len()
        invariant
            i <= s@.len(),
            out@ == old(out)@ + escaped(s@.subrange(0, i as int), delim),
        decreases s@.len() - i,
    {
        let c = s[i];
        let ghost before = out@;
        if c == '\n' {
            out.push('\\');
            out.push('n');
        } else if c == '\\' || c == delim {
            out.push('\\');
            out.push(c);
        } else {
            out.push(c);
        }
        proof {
            let t = s@.subrange(0, i as int + 1);
            assert(t.drop_last() =~= s@.subrange(0, i as int));
            assert(t.last() == c);
            assert(out@ =~= old(out)@ + escaped(t, delim));
        }
        i = i + 1;
    }
    proof {
        assert(s@.subrange(0, s@.len() as int) =~= s@);
    }
}

/// Whether the name can be written bare.
pub fn bare(n: &Vec<char>) -> (r: bool)
    ensures
        r == is_bare(n@),
{
    if n.len() == 0 {
        return false;
    }
    if !letter(n[0]) {
        return false;
    }
    let mut i: usize = 0;
    while i < n.len()
        invariant
            i <= n@.len(),
            forall|j: int| 0 <= j < i ==> is_word_char(#[trigger] n@[j]),
        decreases n@.len() - i,
    {
        if !(letter(n[i]) || digit(n[i])) {
            return false;
        }
        i = i + 1;
    }
    match keyword_or_identifier(n) {
        Token::Identifier(_) => {
            // the identifier a word stands for holds the word itself
            true
        },
        _ => false,
    }
}

/// Appends the canonical text of an identifier to `out`.
pub fn push_identifier(out: &mut Vec<char>, n: &Vec<char>)
    ensures
        final(out)@ == old(out)@ + identifier_text(n@),
{
    if bare(n) {
        let ghost before = out@;
        let mut i: usize = 0;
        while i < n.len()
            invariant
                i <= n@.len(),
                out@ == before + n@.subrange(0, i as int),
            decreases n@.len() - i,
        {
            out.push(n[i]);
            i = i + 1;
            proof {
                assert(out@ =~= before + n@.subrange(0, i as int));
            }
        }
        proof {
            assert(n@.subrange(0, n@.len() as int) =~= n@);
        }
    } else {
        let ghost before = out@;
        out.push('"');
        push_escaped(out, n, '"');
        out.push('"');
        proof {
            assert(out@ =~= before + (seq!['"'] + escaped(n@, '"') + seq!['"']));
        }
    }
}

/// Appends `s` to `out`.
pub fn push_all(out: &mut Vec<char>, s: &Vec<char>)
    ensures
        final(out)@ == old(out)@ + s@,
{
    let ghost before = out@;
    let mut i: usize = 0;
    while i < s.len()
        invariant
            i <= s@.len(),
            out@ == before + s@.subrange(0, i as int),
        decreases s@.len() - i,
    {
        out.push(s[i]);
        i = i + 1;
        proof {
            assert(out@ =~= before + s@.subrange(0, i as int));
        }
    }
    proof {
        assert(s@.subrange(0, s@.len() as int) =~= s@);
    }
}

impl Expr {
    /// A copy of this expression.
    pub fn deep_clone(&self) -> (r: Expr)
        ensures
            r@ == self@,
        decreases self,
    {
        match self {
            Expr::Column(n) => Expr::Column(string_of(&chars_of(n.as_str()))),
            Expr::AggregateCall(c) => Expr::AggregateCall(AggregateCall {
                function: c.function,
                argument: Box::new(c.argument.deep_clone()),
            }),
            Expr::BinaryExpr { left, op, right } => Expr::BinaryExpr {
                left: Box::new(left.deep_clone()),
                op: *op,
                right: Box::new(right.deep_clone()),
            },
        }
    }

    /// Appends the canonical text of this expression to `out`.
    pub fn push_text(&self, out: &mut Vec<char>)
        ensures
            final(out)@ == old(out)@ + expr_text(self@),
        decreases self,
    {
        let ghost before = out@;
        match self {
            Expr::Column(n) => {
                push_identifier(out, &chars_of(n.as_str()));
            },
            Expr::AggregateCall(c) => {
                push_all(out, &c.function.name_chars());
                out.push('(');
                c.argument.push_text(out);
                out.push(')');
                proof {
                    assert(out@ =~= before + expr_text(self@));
                }
            },
            Expr::BinaryExpr { left, op, right } => {
                left.push_text(out);
                out.push(' ');
                out.push('=');
                out.push(' ');
                right.push_text(out);
                proof {
                    assert(out@ =~= before + expr_text(self@));
                }
            },
        }
    }

    /// The canonical text of this expression.
    pub fn to_text(&self) -> (r: String)
        ensures
            r@ == expr_text(self@),
    {
        let mut out: Vec<char> = Vec::new();
        self.push_text(&mut out);
        proof {
            assert(out@ =~= expr_text(self@));
        }
        string_of(&out)
    }

    /// Structural equality of two expressions.
    pub fn same(&self, other: &Expr) -> (r: bool)
        ensures
            r == (self@ == other@),
        decreases self,
    {
        match (self, other) {
            (Expr::Column(a), Expr::Column(b)) => a.eq(b),
            (Expr::AggregateCall(a), Expr::AggregateCall(b)) => {
                let r = a.function == b.function && a.argument.same(&b.argument);
                proof {
                    if r {
                        assert(self@ == other@);
                    }
                }
                r
            },
            (
                Expr::BinaryExpr { left: l1, op: o1, right: r1 },
                Expr::BinaryExpr { left: l2, op: o2, right: r2 },
            ) => {
                let r = *o1 == *o2 && l1.same(l2) && r1.same(r2);
                proof {
                    if r {
                        assert(self@ == other@);
                    }
                }
                r
            },
            _ => false,
        }
    }
}

/// The value of an expression in a row: a column or an aggregate call is
/// looked up under itself (Null when missing); `l = r` is whether the two
/// values are equal.
pub open spec fn eval_spec(e: ExprV, row: Seq<(ExprV, Data)>) -> Data
    decreases e,
{
    match e {
        ExprV::Binary(l, _, r) => Data::Bool(data_eq(eval_spec(*l, row), eval_spec(*r, row))),
        _ => match lookup(row, e) {
            Some(d) => d,
            None => Data::Null,
        },
    }
}

/// The aggregate calls in an expression, in pre-order.
pub open spec fn calls_of(e: ExprV) -> Seq<(AggregateFunction, ExprV)>
    decreases e,
{
    match e {
        ExprV::Column(_) => Seq::empty(),
        ExprV::Call(f, a) => seq![(f, *a)] + calls_of(*a),
        ExprV::Binary(l, _, r) => calls_of(*l) + calls_of(*r),
    }
}

impl BinaryOp {
    /// Applies the operator to two values.
    pub fn eval(&self, left: Data, right: Data) -> (r: Data)
        ensures
            r == Data::Bool(data_eq(left, right)),
    {
        match self {
            BinaryOp::Eq => Data::Bool(left.equals(&right)),
        }
    }
}

impl Expr {
    /// The value of the expression in `row`.
    pub fn eval(&self, row: &Row) -> (r: Data)
        ensures
            r == eval_spec(self@, row@),
        decreases self,
    {
        match self {
            Expr::BinaryExpr { left, op, right } => op.eval(left.eval(row), right.eval(row)),
            _ => match row.get(self) {
                Some(d) => d,
                None => Data::Null,
            },
        }
    }

    /// The last aggregate call met in a pre-order walk of the expression.
    pub fn get_aggregate_call(&self) -> (r: Option<AggregateCall>)
        ensures
            match r {
                Some(c) => calls_of(self@).len() > 0 && calls_of(self@).last() == (c.function, c.argument@),
                None => calls_of(self@).len() == 0,
            },
        decreases self,
    {
        match self {
            Expr::Column(_) => None,
            Expr::AggregateCall(c) => match c.argument.get_aggregate_call() {
                Some(x) => Some(x),
                None => Some(c.clone()),
            },
            Expr::BinaryExpr { left, op: _, right } => match right.get_aggregate_call() {
                Some(x) => Some(x),
                None => left.get_aggregate_call(),
            },
        }
    }
}

/// Over an empty row, `a = a` is true for every expression `a`.
pub proof fn lemma_self_equal_on_empty_row(a: ExprV)
    ensures
        eval_spec(ExprV::Binary(Box::new(a), BinaryOp::Eq, Box::new(a)), Seq::empty()) == Data::Bool(true),
{
    let v = eval_spec(a, Seq::empty());
    match a {
        ExprV::Binary(_, _, _) => {
            assert(v is Bool);
        },
        _ => {
            assert(lookup(Seq::<(ExprV, Data)>::empty(), a) is None);
            assert(v == Data::Null);
        },
    }
}

impl Clone for Expr {
    fn clone(&self) -> (r: Expr)
        ensures
            r@ == self@,
    {
        self.deep_clone()
    }
}

} // verus!
