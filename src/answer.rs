//! The answer of a query: column names and result rows, and its stable
//! multi-key sort.
use vstd::prelude::*;
use core::cmp::Ordering;
use crate::data::{Data, cmp_data, reverse, lemma_cmp_data_antisymmetric};
use crate::query::SortDirection;

verus! {

/// Column names, and rows of values parallel to them.
#[derive(Debug, PartialEq)]
pub struct Answer {
    pub columns: Vec<String>,
    pub rows: Vec<Vec<Data>>,
}

/// One sort key applied to two rows: the values in the key's column, in the
/// key's direction.
pub open spec fn cmp_by_key(a: Seq<Data>, b: Seq<Data>, key: (usize, SortDirection)) -> Ordering {
    let c = cmp_data(a[key.0 as int], b[key.0 as int]);
    match key.1 {
        SortDirection::Asc => c,
        SortDirection::Desc => reverse(c),
    }
}

/// Rows compared by the keys in turn: the first key on which they differ
/// decides.
pub open spec fn cmp_rows(a: Seq<Data>, b: Seq<Data>, keys: Seq<(usize, SortDirection)>) -> Ordering
    decreases keys.len(),
{
    if keys.len() == 0 {
        Ordering::Equal
    } else {
        match cmp_by_key(a, b, keys[0]) {
            Ordering::Equal => cmp_rows(a, b, keys.drop_first()),
            c => c,
        }
    }
}

/// Each row comes before or ties with the next one under the keys.
pub open spec fn sorted_by(rows: Seq<Vec<Data>>, keys: Seq<(usize, SortDirection)>) -> bool {
    forall|j: int| 0 <= j < rows.len() - 1 ==> #[trigger] cmp_rows(rows[j]@, rows[j + 1]@, keys) != Ordering::Greater
}

/// Every key's column lies inside the row.
pub open spec fn keys_fit(row: Seq<Data>, keys: Seq<(usize, SortDirection)>) -> bool {
    forall|k: int| 0 <= k < keys.len() ==> (#[trigger] keys[k]).0 < row.len()
}

pub proof fn lemma_cmp_rows_antisymmetric(a: Seq<Data>, b: Seq<Data>, keys: Seq<(usize, SortDirection)>)
    requires
        keys_fit(a, keys),
        keys_fit(b, keys),
    ensures
        cmp_rows(b, a, keys) == reverse(cmp_rows(a, b, keys)),
    decreases keys.len(),
{
    if keys.len() > 0 {
        let k = keys[0];
        lemma_cmp_data_antisymmetric(a[k.0 as int], b[k.0 as int]);
        assert(keys_fit(a, keys.drop_first()));
        assert(keys_fit(b, keys.drop_first()));
        lemma_cmp_rows_antisymmetric(a, b, keys.drop_first());
    }
}

/// `perm` maps each position of `rows` to a distinct position of `orig`
/// that holds the same row.
pub open spec fn permutes(orig: Seq<Vec<Data>>, rows: Seq<Vec<Data>>, perm: Seq<int>) -> bool {
    &&& perm.len() == rows.len() == orig.len()
    &&& forall|k: int| 0 <= k < rows.len() ==> 0 <= #[trigger] perm[k] < orig.len() && rows[k] == orig[perm[k]]
    &&& forall|k1: int, k2: int| 0 <= k1 < k2 < rows.len() ==> #[trigger] perm[k1] != #[trigger] perm[k2]
}

/// Among the first `upto` rows, rows that tie under the keys keep the order
/// they had in the original.
pub open spec fn ties_in_order(rows: Seq<Vec<Data>>, keys: Seq<(usize, SortDirection)>, perm: Seq<int>, upto: int) -> bool {
    forall|k1: int, k2: int|
        0 <= k1 < k2 < upto && #[trigger] cmp_rows(rows[k1]@, rows[k2]@, keys) == Ordering::Equal ==> #[trigger] perm[k1]
            < perm[k2]
}

/// `after` is `before` sorted by the keys, with rows that tie on every key
/// in their order in `before`.
pub open spec fn stable_sort_of(before: Seq<Vec<Data>>, after: Seq<Vec<Data>>, keys: Seq<(usize, SortDirection)>) -> bool {
    &&& sorted_by(after, keys)
    &&& exists|perm: Seq<int>| permutes(before, after, perm) && ties_in_order(after, keys, perm, after.len() as int)
}

/// Moving the row at `i` to `j`, past rows that are greater than it, keeps
/// the permutation and the order of ties.
proof fn lemma_insertion_stable(
    orig: Seq<Vec<Data>>,
    before: Seq<Vec<Data>>,
    perm: Seq<int>,
    keys: Seq<(usize, SortDirection)>,
    i: int,
    j: int,
)
    requires
        permutes(orig, before, perm),
        0 <= j <= i < before.len(),
        forall|k: int| i <= k < before.len() ==> #[trigger] perm[k] == k,
        forall|k: int| 0 <= k < i ==> #[trigger] perm[k] < i,
        ties_in_order(before, keys, perm, i),
        forall|m: int| 0 <= m < before.len() ==> keys_fit((#[trigger] before[m])@, keys),
        forall|m: int| j <= m < i ==> #[trigger] cmp_rows(before[m]@, before[i]@, keys) == Ordering::Greater,
    ensures
        ({
            let rows = before.remove(i).insert(j, before[i]);
            let p2 = perm.remove(i).insert(j, i);
            &&& permutes(orig, rows, p2)
            &&& forall|k: int| i + 1 <= k < rows.len() ==> #[trigger] p2[k] == k
            &&& forall|k: int| 0 <= k < i + 1 ==> #[trigger] p2[k] < i + 1
            &&& ties_in_order(rows, keys, p2, i + 1)
        }),
{
    let x = before[i];
    let rows = before.remove(i).insert(j, x);
    let p2 = perm.remove(i).insert(j, i);
    assert(perm[i] == i);
    // where each new position came from
    assert forall|k: int| 0 <= k < rows.len() implies (k < j ==> rows[k] == before[k] && p2[k] == perm[k]) && (k
        == j ==> rows[k] == x && p2[k] == i) && (j < k <= i ==> rows[k] == before[k - 1] && p2[k] == perm[k - 1]) && (
    i < k ==> rows[k] == before[k] && p2[k] == perm[k]) by {}
    assert forall|k: int| 0 <= k < rows.len() implies 0 <= #[trigger] p2[k] < orig.len() && rows[k] == orig[p2[k]] by {}
    assert forall|k1: int, k2: int| 0 <= k1 < k2 < rows.len() implies #[trigger] p2[k1] != #[trigger] p2[k2] by {
        let b1 = if k1 < j { k1 } else if k1 == j { i } else if k1 <= i { k1 - 1 } else { k1 };
        let b2 = if k2 < j { k2 } else if k2 == j { i } else if k2 <= i { k2 - 1 } else { k2 };
        assert(p2[k1] == perm[b1]);
        assert(p2[k2] == perm[b2]);
        assert(b1 != b2);
        if b1 < b2 {
            assert(perm[b1] != perm[b2]);
        } else {
            assert(perm[b2] != perm[b1]);
        }
    }
    assert forall|k1: int, k2: int|
        0 <= k1 < k2 < i + 1 && #[trigger] cmp_rows(rows[k1]@, rows[k2]@, keys) == Ordering::Equal implies #[trigger] p2[k1]
        < p2[k2] by {
        if k1 == j {
            let m = k2 - 1;
            assert(rows[k2] == before[m]);
            assert(cmp_rows(before[m]@, x@, keys) == Ordering::Greater);
            lemma_cmp_rows_antisymmetric(before[m]@, x@, keys);
        } else if k2 == j {
        } else {
            let b1 = if k1 < j { k1 } else { k1 - 1 };
            let b2 = if k2 < j { k2 } else { k2 - 1 };
            assert(rows[k1] == before[b1]);
            assert(rows[k2] == before[b2]);
            assert(cmp_rows(before[b1]@, before[b2]@, keys) == Ordering::Equal);
        }
    }
}

/// Moving the row at `i` to `j`, past the rows greater than it and behind
/// one that is not, extends the sorted prefix by one row.
proof fn lemma_insertion_sorted(before: Seq<Vec<Data>>, keys: Seq<(usize, SortDirection)>, i: int, j: int)
    requires
        0 <= j <= i < before.len(),
        forall|m: int| 0 <= m < before.len() ==> keys_fit((#[trigger] before[m])@, keys),
        forall|q: int| 0 <= q < i - 1 ==> #[trigger] cmp_rows(before[q]@, before[q + 1]@, keys) != Ordering::Greater,
        forall|m: int| j <= m < i ==> #[trigger] cmp_rows(before[m]@, before[i]@, keys) == Ordering::Greater,
        j > 0 ==> cmp_rows(before[j - 1]@, before[i]@, keys) != Ordering::Greater,
    ensures
        ({
            let rows = before.remove(i).insert(j, before[i]);
            &&& forall|m: int| 0 <= m < rows.len() ==> keys_fit((#[trigger] rows[m])@, keys)
            &&& forall|q: int| 0 <= q < i && q + 1 < rows.len() ==> #[trigger] cmp_rows(rows[q]@, rows[q + 1]@, keys)
                != Ordering::Greater
        }),
{
    let x = before[i];
    let rows = before.remove(i).insert(j, x);
    assert forall|k: int| 0 <= k < rows.len() implies (k < j ==> rows[k] == before[k]) && (k == j ==> rows[k] == x) && (j
        < k <= i ==> rows[k] == before[k - 1]) && (i < k ==> rows[k] == before[k]) by {}
    assert forall|m: int| 0 <= m < rows.len() implies keys_fit((#[trigger] rows[m])@, keys) by {
        if m < j || m > i {
            assert(keys_fit(before[m]@, keys));
        } else if m == j {
            assert(keys_fit(before[i]@, keys));
        } else {
            assert(keys_fit(before[m - 1]@, keys));
        }
    }
    assert forall|q: int| 0 <= q < i && q + 1 < rows.len() implies #[trigger] cmp_rows(rows[q]@, rows[q + 1]@, keys)
        != Ordering::Greater by {
        if q + 1 < j {
            assert(cmp_rows(before[q]@, before[q + 1]@, keys) != Ordering::Greater);
        } else if q + 1 == j {
        } else if q == j {
            assert(cmp_rows(before[q]@, x@, keys) == Ordering::Greater);
            lemma_cmp_rows_antisymmetric(before[q]@, x@, keys);
        } else {
            let p = q - 1;
            assert(cmp_rows(before[p]@, before[p + 1]@, keys) != Ordering::Greater);
        }
    }
}

fn compare_rows(a: &Vec<Data>, b: &Vec<Data>, keys: &[(usize, SortDirection)]) -> (r: Ordering)
    requires
        keys_fit(a@, keys@),
        keys_fit(b@, keys@),
    ensures
        r == cmp_rows(a@, b@, keys@),
{
    let mut k: usize = 0;
    proof {
        assert(keys@.subrange(0, keys@.len() as int) =~= keys@);
    }
    while k < keys.len()
        invariant
            k <= keys@.len(),
            keys_fit(a@, keys@),
            keys_fit(b@, keys@),
            cmp_rows(a@, b@, keys@) == cmp_rows(a@, b@, keys@.subrange(k as int, keys@.len() as int)),
        decreases keys@.len() - k,
    {
        let (index, direction) = keys[k];
        assert(keys@[k as int].0 < a@.len());
        assert(keys@[k as int].0 < b@.len());
        let c = a[index].compare(&b[index]);
        let c = match direction {
            SortDirection::Asc => c,
            SortDirection::Desc => match c {
                Ordering::Less => Ordering::Greater,
                Ordering::Equal => Ordering::Equal,
                Ordering::Greater => Ordering::Less,
            },
        };
        proof {
            let rest = keys@.subrange(k as int, keys@.len() as int);
            assert(rest[0] == keys@[k as int]);
            assert(rest.drop_first() =~= keys@.subrange(k as int + 1, keys@.len() as int));
        }
        match c {
            Ordering::Equal => {},
            _ => {
                return c;
            },
        }
        k = k + 1;
    }
    Ordering::Equal
}

impl Answer {
    /// Sorts the rows by the keys: the first key decides, and each later key
    /// decides among rows that tie on the keys before it. Rows that tie on
    /// every key keep their order.
    pub fn sort(&mut self, column_indices: &[(usize, SortDirection)])
        requires
            forall|i: int| 0 <= i < old(self).rows@.len() ==> keys_fit((#[trigger] old(self).rows@[i])@, column_indices@),
        ensures
            final(self).columns == old(self).columns,
            final(self).rows@.len() == old(self).rows@.len(),
            final(self).rows@.to_multiset() == old(self).rows@.to_multiset(),
            sorted_by(final(self).rows@, column_indices@),
            exists|perm: Seq<int>|
                permutes(old(self).rows@, final(self).rows@, perm) && ties_in_order(
                    final(self).rows@,
                    column_indices@,
                    perm,
                    final(self).rows@.len() as int,
                ),
    {
        let n = self.rows.len();
        let mut i: usize = 1;
        let ghost keys = column_indices@;
        let ghost orig = self.rows@;
        let ghost mut perm: Seq<int> = Seq::new(n as nat, |k: int| k);
        while i < n
            invariant
                keys == column_indices@,
                self.rows@.len() == n,
                self.columns == old(self).columns,
                self.rows@.to_multiset() == old(self).rows@.to_multiset(),
                forall|m: int| 0 <= m < n ==> keys_fit((#[trigger] self.rows@[m])@, keys),
                forall|j: int| 0 <= j < i - 1 && j + 1 < n ==> #[trigger] cmp_rows(self.rows@[j]@, self.rows@[j + 1]@, keys) != Ordering::Greater,
                1 <= i || n == 0,
                i <= n || n == 0,
                orig == old(self).rows@,
                permutes(orig, self.rows@, perm),
                forall|k: int| i <= k < n ==> #[trigger] perm[k] == k,
                forall|k: int| 0 <= k < i && k < n ==> #[trigger] perm[k] < i,
                ties_in_order(self.rows@, keys, perm, if i < n { i as int } else { n as int }),
            decreases n - i,
        {
            let ghost before = self.rows@;
            let x = self.rows.remove(i);
            proof {
                assert(x == before[i as int]);
                vstd::seq_lib::to_multiset_remove(before, i as int);
                assert(self.rows@ =~= before.remove(i as int));
                assert(keys_fit(x@, keys));
            }
            let mut j: usize = i;
            while j > 0 && matches!(compare_rows(&self.rows[j - 1], &x, column_indices), Ordering::Greater)
                invariant
                    keys == column_indices@,
                    j <= i,
                    i < n,
                    before.len() == n,
                    self.rows@ == before.remove(i as int),
                    forall|q: int| 0 <= q < i - 1 && q + 1 < n ==> #[trigger] cmp_rows(before[q]@, before[q + 1]@, keys) != Ordering::Greater,
                    keys_fit(x@, keys),
                    forall|m: int| 0 <= m < n - 1 ==> keys_fit((#[trigger] self.rows@[m])@, keys),
                    forall|m: int| j <= m < i ==> #[trigger] cmp_rows(self.rows@[m]@, x@, keys) == Ordering::Greater,
                decreases j,
            {
                j = j - 1;
            }
            let ghost removed = self.rows@;
            proof {
                assert forall|m: int| j <= m < i implies #[trigger] cmp_rows(before[m]@, before[i as int]@, keys)
                    == Ordering::Greater by {
                    assert(removed[m] == before[m]);
                    assert(cmp_rows(removed[m]@, x@, keys) == Ordering::Greater);
                }
                if j > 0 {
                    assert(removed[j as int - 1] == before[j as int - 1]);
                }
            }
            self.rows.insert(j, x);
            proof {
                assert(self.rows@ =~= before.remove(i as int).insert(j as int, x));
                lemma_insertion_sorted(before, keys, i as int, j as int);
                lemma_insertion_stable(orig, before, perm, keys, i as int, j as int);
                perm = perm.remove(i as int).insert(j as int, i as int);
                vstd::seq_lib::to_multiset_insert(removed, j as int, x);
                broadcast use vstd::multiset::group_multiset_axioms;
                assert(before.to_multiset().count(x) > 0) by {
                    vstd::seq_lib::to_multiset_contains(before, x);
                    assert(before.contains(x)) by {
                        assert(before[i as int] == x);
                    }
                }
                assert(removed.to_multiset() == before.to_multiset().remove(x));
                assert(self.rows@.to_multiset() =~= before.to_multiset());
            }
            i = i + 1;
        }
    }
}

/// Sorting by `[k1 asc, k2 desc]`: the values in column `k1` never
/// decrease from a row to the next, and where they are equal, the values in
/// column `k2` never increase.
pub proof fn lemma_two_key_order(rows: Seq<Vec<Data>>, k1: usize, k2: usize, j: int)
    requires
        sorted_by(rows, seq![(k1, SortDirection::Asc), (k2, SortDirection::Desc)]),
        0 <= j < rows.len() - 1,
        k1 < rows[j]@.len() && k1 < rows[j + 1]@.len(),
        k2 < rows[j]@.len() && k2 < rows[j + 1]@.len(),
    ensures
        cmp_data(rows[j]@[k1 as int], rows[j + 1]@[k1 as int]) != Ordering::Greater,
        cmp_data(rows[j]@[k1 as int], rows[j + 1]@[k1 as int]) == Ordering::Equal
            ==> cmp_data(rows[j]@[k2 as int], rows[j + 1]@[k2 as int]) != Ordering::Less,
{
    let keys = seq![(k1, SortDirection::Asc), (k2, SortDirection::Desc)];
    let a = rows[j]@;
    let b = rows[j + 1]@;
    assert(cmp_rows(a, b, keys) != Ordering::Greater);
    assert(keys.drop_first() =~= seq![(k2, SortDirection::Desc)]);
    assert(keys.drop_first().drop_first() =~= Seq::<(usize, SortDirection)>::empty());
    if cmp_data(a[k1 as int], b[k1 as int]) == Ordering::Equal {
        assert(cmp_by_key(a, b, keys[0]) == Ordering::Equal);
        assert(cmp_rows(a, b, keys) == cmp_rows(a, b, keys.drop_first()));
        let rest = keys.drop_first();
        assert(rest[0] == (k2, SortDirection::Desc));
        let c2 = cmp_data(a[k2 as int], b[k2 as int]);
        assert(cmp_by_key(a, b, rest[0]) == reverse(c2));
        assert(cmp_rows(a, b, rest.drop_first()) == Ordering::Equal);
    }
}

/// Sorting keeps the width of the rows: when every row had `w` values before,
/// every row has `w` values after.
pub proof fn lemma_sort_keeps_width(before: Seq<Vec<Data>>, after: Seq<Vec<Data>>, w: nat)
    requires
        after.to_multiset() == before.to_multiset(),
        forall|i: int| 0 <= i < before.len() ==> (#[trigger] before[i])@.len() == w,
    ensures
        forall|i: int| 0 <= i < after.len() ==> (#[trigger] after[i])@.len() == w,
{
    assert forall|i: int| 0 <= i < after.len() implies (#[trigger] after[i])@.len() == w by {
        vstd::seq_lib::to_multiset_contains(after, after[i]);
        vstd::seq_lib::to_multiset_contains(before, after[i]);
        assert(after.contains(after[i]));
        let k = choose|k: int| 0 <= k < before.len() && before[k] == after[i];
        assert(before[k]@.len() == w);
    }
}

} // verus!
