//! Rows: mappings from expression keys to values.
use vstd::prelude::*;
use crate::data::Data;
use crate::expr::{Expr, ExprV};
use crate::source::SourceError;
use crate::text::chars_of;

verus! {

/// A row: values under expression keys. A later entry for a key replaces an
/// earlier one.
#[derive(Debug)]
pub struct Row {
    pub fields: Vec<(Expr, Data)>,
}

pub open spec fn fields_view(f: Seq<(Expr, Data)>) -> Seq<(ExprV, Data)> {
    f.map_values(|p: (Expr, Data)| (p.0@, p.1))
}

/// The value under key `k`: that of the last entry with this key.
pub open spec fn lookup(f: Seq<(ExprV, Data)>, k: ExprV) -> Option<Data>
    decreases f.len(),
{
    if f.len() == 0 {
        None
    } else if f.last().0 == k {
        Some(f.last().1)
    } else {
        lookup(f.drop_last(), k)
    }
}

impl View for Row {
    type V = Seq<(ExprV, Data)>;

    open spec fn view(&self) -> Seq<(ExprV, Data)> {
        fields_view(self.fields@)
    }
}

impl Row {
    /// An empty row.
    pub fn new() -> (r: Row)
        ensures
            r@ == Seq::<(ExprV, Data)>::empty(),
    {
        let r = Row { fields: Vec::new() };
        proof {
            assert(r@ =~= Seq::<(ExprV, Data)>::empty());
        }
        r
    }

    /// Sets the value under `key`.
    pub fn insert(&mut self, key: Expr, value: Data)
        ensures
            final(self)@ == old(self)@.push((key@, value)),
            forall|k: ExprV| lookup(final(self)@, k) == if k == key@ {
                Some(value)
            } else {
                lookup(old(self)@, k)
            },
    {
        let ghost kv = key@;
        self.fields.push((key, value));
        proof {
            assert(self@ =~= old(self)@.push((kv, value)));
            assert(self@.drop_last() =~= old(self)@);
        }
    }

    /// The value under `key`, if there is one.
    pub fn get(&self, key: &Expr) -> (r: Option<Data>)
        ensures
            r == lookup(self@, key@),
    {
        let mut i = self.fields.len();
        proof {
            assert(self@.subrange(0, i as int) =~= self@);
        }
        while i > 0
            invariant
                i <= self.fields@.len(),
                lookup(self@, key@) == lookup(self@.subrange(0, i as int), key@),
            decreases i,
        {
            proof {
                assert(self@.subrange(0, i as int).drop_last() =~= self@.subrange(0, i as int - 1));
            }
            if self.fields[i - 1].0.same(key) {
                return Some(self.fields[i - 1].1.copy());
            }
            i = i - 1;
        }
        None
    }
}

/// Whether `r` is the row that holds `vals` under the columns named in order.
pub open spec fn is_row_of(r: Result<Row, SourceError>, columns: Seq<&str>, vals: Seq<Data>) -> bool {
    match r {
        Ok(row) => row@.len() == vals.len() && forall|j: int|
            0 <= j < vals.len() ==> (#[trigger] row@[j]) == (ExprV::Column(columns[j]@), vals[j]),
        Err(_) => false,
    }
}

/// Rows with the given column names, one per list of values; each value goes
/// under the column of its position.
pub fn make_rows(columns: Vec<&str>, values: Vec<Vec<Data>>) -> (r: Vec<Result<Row, SourceError>>)
    requires
        forall|i: int| 0 <= i < values@.len() ==> (#[trigger] values@[i])@.len() <= columns@.len(),
    ensures
        r@.len() == values@.len(),
        forall|i: int| 0 <= i < r@.len() ==> is_row_of(#[trigger] r@[i], columns@, values@[i]@),
{
    let mut rows: Vec<Result<Row, SourceError>> = Vec::new();
    let mut i: usize = 0;
    while i < values.len()
        invariant
            i <= values@.len(),
            rows@.len() == i,
            forall|i: int| 0 <= i < values@.len() ==> (#[trigger] values@[i])@.len() <= columns@.len(),
            forall|k: int| 0 <= k < i ==> is_row_of(#[trigger] rows@[k], columns@, values@[k]@),
        decreases values@.len() - i,
    {
        let mut row = Row::new();
        let mut j: usize = 0;
        while j < values[i].len()
            invariant
                i < values@.len(),
                j <= values@[i as int]@.len(),
                values@[i as int]@.len() <= columns@.len(),
                row@.len() == j,
                forall|m: int| 0 <= m < j ==> (#[trigger] row@[m]) == (ExprV::Column(columns@[m]@), values@[i as int]@[m]),
            decreases values@[i as int]@.len() - j,
        {
            let name = crate::text::string_of(&chars_of(columns[j]));
            row.insert(Expr::Column(name), values[i][j].copy());
            j = j + 1;
        }
        rows.push(Ok(row));
        i = i + 1;
    }
    rows
}

} // verus!
