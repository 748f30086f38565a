//! The value model: tagged scalar values with a total order.
//!
//! A float is held as the bit pattern of an IEEE-754 binary64 number, and
//! compared through that pattern; an integer and a float compare as the reals
//! they stand for.
use vstd::prelude::*;
use vstd::arithmetic::power2::{pow2, lemma_pow2_adds, lemma_pow2_unfold, lemma_pow2_pos};
use core::cmp::Ordering;

verus! {

/// A number: a 64-bit integer, or a binary64 float given by its bit pattern.
#[derive(Clone, Copy, Debug)]
pub enum Number {
    Int(i64),
    Float(u64),
}

/// A value.
#[derive(Debug)]
pub enum Data {
    Null,
    Bool(bool),
    Number(Number),
    String(String),
}

pub open spec fn exponent(b: u64) -> int {
    (b as int / 0x10_0000_0000_0000) % 0x800
}

pub open spec fn mantissa(b: u64) -> int {
    b as int % 0x10_0000_0000_0000
}

pub open spec fn negative(b: u64) -> bool {
    b >= 0x8000_0000_0000_0000
}

pub open spec fn is_nan(b: u64) -> bool {
    exponent(b) == 0x7ff && mantissa(b) != 0
}

pub open spec fn is_infinite(b: u64) -> bool {
    exponent(b) == 0x7ff && mantissa(b) == 0
}

/// A key that orders the floats that are not NaN as the reals (and the
/// infinities) they stand for; both zeros get the key 0.
pub open spec fn float_key(b: u64) -> int {
    if negative(b) {
        -(b as int - 0x8000_0000_0000_0000)
    } else {
        b as int
    }
}

pub open spec fn significand(b: u64) -> int {
    if exponent(b) == 0 {
        mantissa(b)
    } else {
        mantissa(b) + 0x10_0000_0000_0000
    }
}

/// A finite float is `significand * 2^scale`, with its sign.
pub open spec fn scale(b: u64) -> int {
    (if exponent(b) == 0 {
        1
    } else {
        exponent(b)
    }) - 1075
}

pub open spec fn signed_significand(b: u64) -> int {
    if negative(b) {
        -significand(b)
    } else {
        significand(b)
    }
}

pub open spec fn cmp_ints(a: int, b: int) -> Ordering {
    if a < b {
        Ordering::Less
    } else if a == b {
        Ordering::Equal
    } else {
        Ordering::Greater
    }
}

pub open spec fn reverse(o: Ordering) -> Ordering {
    match o {
        Ordering::Less => Ordering::Greater,
        Ordering::Equal => Ordering::Equal,
        Ordering::Greater => Ordering::Less,
    }
}

/// An integer against a finite float, as reals: both sides scaled to integers.
pub open spec fn cmp_int_finite(n: int, b: u64) -> Ordering {
    if scale(b) >= 0 {
        cmp_ints(n, signed_significand(b) * pow2(scale(b) as nat))
    } else {
        cmp_ints(n * pow2((-scale(b)) as nat), signed_significand(b))
    }
}

/// An integer against a float; NaN is above every other number.
pub open spec fn cmp_int_float(n: int, b: u64) -> Ordering {
    if is_nan(b) {
        Ordering::Less
    } else if is_infinite(b) {
        if negative(b) {
            Ordering::Greater
        } else {
            Ordering::Less
        }
    } else {
        cmp_int_finite(n, b)
    }
}

/// Two floats: NaNs are equal to each other and above every other number.
pub open spec fn cmp_floats(a: u64, b: u64) -> Ordering {
    if is_nan(a) && is_nan(b) {
        Ordering::Equal
    } else if is_nan(a) {
        Ordering::Greater
    } else if is_nan(b) {
        Ordering::Less
    } else {
        cmp_ints(float_key(a), float_key(b))
    }
}

pub open spec fn cmp_numbers(a: Number, b: Number) -> Ordering {
    match (a, b) {
        (Number::Int(x), Number::Int(y)) => cmp_ints(x as int, y as int),
        (Number::Int(x), Number::Float(y)) => cmp_int_float(x as int, y),
        (Number::Float(x), Number::Int(y)) => reverse(cmp_int_float(y as int, x)),
        (Number::Float(x), Number::Float(y)) => cmp_floats(x, y),
    }
}

/// Lexicographic order of character sequences, by code point.
pub open spec fn cmp_chars(a: Seq<char>, b: Seq<char>) -> Ordering
    decreases a.len(),
{
    if a.len() == 0 && b.len() == 0 {
        Ordering::Equal
    } else if a.len() == 0 {
        Ordering::Less
    } else if b.len() == 0 {
        Ordering::Greater
    } else if a[0] < b[0] {
        Ordering::Less
    } else if a[0] > b[0] {
        Ordering::Greater
    } else {
        cmp_chars(a.drop_first(), b.drop_first())
    }
}

pub open spec fn rank(d: Data) -> int {
    match d {
        Data::Null => 0,
        Data::Bool(_) => 1,
        Data::Number(_) => 2,
        Data::String(_) => 3,
    }
}

/// The total order of values: Null < Bool < Number < String, and within a
/// variant by its payload.
pub open spec fn cmp_data(a: Data, b: Data) -> Ordering {
    match (a, b) {
        (Data::Bool(x), Data::Bool(y)) => cmp_ints(
            if x {
                1
            } else {
                0
            },
            if y {
                1
            } else {
                0
            },
        ),
        (Data::Number(x), Data::Number(y)) => cmp_numbers(x, y),
        (Data::String(x), Data::String(y)) => cmp_chars(x@, y@),
        _ => cmp_ints(rank(a), rank(b)),
    }
}

/// Equality of values: equal in the order.
pub open spec fn data_eq(a: Data, b: Data) -> bool {
    cmp_data(a, b) == Ordering::Equal
}

fn compare_ints(a: i128, b: i128) -> (r: Ordering)
    ensures
        r == cmp_ints(a as int, b as int),
{
    if a < b {
        Ordering::Less
    } else if a == b {
        Ordering::Equal
    } else {
        Ordering::Greater
    }
}

fn exponent_of(b: u64) -> (r: u64)
    ensures
        r == exponent(b),
        r < 0x800,
{
    (b / 0x10_0000_0000_0000) % 0x800
}

fn nan(b: u64) -> (r: bool)
    ensures
        r == is_nan(b),
{
    exponent_of(b) == 0x7ff && b % 0x10_0000_0000_0000 != 0
}

fn key_of(b: u64) -> (r: i128)
    ensures
        r == float_key(b),
{
    if b >= 0x8000_0000_0000_0000 {
        -((b - 0x8000_0000_0000_0000) as i128)
    } else {
        b as i128
    }
}

/// An integer against a finite float, as reals.
fn compare_int_finite(n: i64, b: u64) -> (r: Ordering)
    requires
        !is_nan(b),
        !is_infinite(b),
    ensures
        r == cmp_int_finite(n as int, b),
{
    let e = exponent_of(b);
    let m = b % 0x10_0000_0000_0000;
    let sig: u64 = if e == 0 { m } else { m + 0x10_0000_0000_0000 };
    let neg = b >= 0x8000_0000_0000_0000;
    let s: i128 = if neg { -(sig as i128) } else { sig as i128 };
    let base: u64 = if e == 0 { 1 } else { e };
    assert(sig as int == significand(b));
    assert(s as int == signed_significand(b));
    assert(sig < 0x20_0000_0000_0000);
    if base >= 1075 {
        let sh: u64 = base - 1075;
        let mut v: u128 = sig as u128;
        let mut k: u64 = 0;
        proof {
            reveal(vstd::arithmetic::power::pow);
            assert(pow2(0) == 1) by {
                vstd::arithmetic::power2::lemma2_to64();
            }
        }
        while k < sh && v < 0x1_0000_0000_0000_0000
            invariant
                k <= sh,
                v == sig * pow2(k as nat),
                v < 0x2_0000_0000_0000_0000,
            decreases sh - k,
        {
            proof {
                lemma_pow2_unfold((k + 1) as nat);
                assert(sig * pow2((k + 1) as nat) == 2 * (sig * pow2(k as nat))) by (nonlinear_arith)
                    requires
                        pow2((k + 1) as nat) == 2 * pow2(k as nat);
            }
            v = v * 2;
            k = k + 1;
        }
        if k == sh {
            let rv: i128 = if neg { -(v as i128) } else { v as i128 };
            proof {
                if neg {
                    assert(rv == -(sig * pow2(sh as nat)));
                    assert(signed_significand(b) * pow2(sh as nat) == -(sig * pow2(sh as nat))) by (nonlinear_arith)
                        requires
                            signed_significand(b) == -(sig as int);
                } else {
                    assert(signed_significand(b) * pow2(sh as nat) == sig * pow2(sh as nat));
                }
            }
            compare_ints(n as i128, rv)
        } else {
            proof {
                let rest = (sh - k) as nat;
                lemma_pow2_adds(k as nat, rest);
                lemma_pow2_pos(rest);
                assert(sig * pow2(sh as nat) >= v) by (nonlinear_arith)
                    requires
                        pow2(sh as nat) == pow2(k as nat) * pow2(rest),
                        pow2(rest) >= 1,
                        v == sig * pow2(k as nat),
                        sig >= 0,
                ;
                if neg {
                    assert(signed_significand(b) * pow2(sh as nat) == -(sig * pow2(sh as nat))) by (nonlinear_arith)
                        requires
                            signed_significand(b) == -(sig as int);
                }
            }
            if neg {
                Ordering::Greater
            } else {
                Ordering::Less
            }
        }
    } else {
        let d: u64 = 1075 - base;
        let mut w: i128 = n as i128;
        let mut k: u64 = 0;
        proof {
            reveal(vstd::arithmetic::power::pow);
            assert(pow2(0) == 1) by {
                vstd::arithmetic::power2::lemma2_to64();
            }
        }
        while k < d && -0x40_0000_0000_0000 < w && w < 0x40_0000_0000_0000
            invariant
                k <= d,
                w == n * pow2(k as nat),
                -0x80_0000_0000_0000_0000 < w < 0x80_0000_0000_0000_0000,
            decreases d - k,
        {
            proof {
                lemma_pow2_unfold((k + 1) as nat);
                assert(n * pow2((k + 1) as nat) == 2 * (n * pow2(k as nat))) by (nonlinear_arith)
                    requires
                        pow2((k + 1) as nat) == 2 * pow2(k as nat);
            }
            w = w * 2;
            k = k + 1;
        }
        if k == d {
            compare_ints(w, s)
        } else {
            proof {
                let rest = (d - k) as nat;
                lemma_pow2_adds(k as nat, rest);
                lemma_pow2_pos(rest);
                assert(n * pow2(d as nat) == w * pow2(rest)) by (nonlinear_arith)
                    requires
                        pow2(d as nat) == pow2(k as nat) * pow2(rest),
                        w == n * pow2(k as nat),
                ;
                if w > 0 {
                    assert(w * pow2(rest) >= w) by (nonlinear_arith)
                        requires
                            pow2(rest) >= 1,
                            w > 0,
                    ;
                } else {
                    assert(w * pow2(rest) <= w) by (nonlinear_arith)
                        requires
                            pow2(rest) >= 1,
                            w < 0,
                    ;
                }
            }
            if w > 0 {
                Ordering::Greater
            } else {
                Ordering::Less
            }
        }
    }
}


fn compare_int_float(n: i64, b: u64) -> (r: Ordering)
    ensures
        r == cmp_int_float(n as int, b),
{
    if nan(b) {
        Ordering::Less
    } else if exponent_of(b) == 0x7ff {
        if b >= 0x8000_0000_0000_0000 {
            Ordering::Greater
        } else {
            Ordering::Less
        }
    } else {
        compare_int_finite(n, b)
    }
}

fn reversed(o: Ordering) -> (r: Ordering)
    ensures
        r == reverse(o),
{
    match o {
        Ordering::Less => Ordering::Greater,
        Ordering::Equal => Ordering::Equal,
        Ordering::Greater => Ordering::Less,
    }
}

fn compare_floats(a: u64, b: u64) -> (r: Ordering)
    ensures
        r == cmp_floats(a, b),
{
    let na = nan(a);
    let nb = nan(b);
    if na && nb {
        Ordering::Equal
    } else if na {
        Ordering::Greater
    } else if nb {
        Ordering::Less
    } else {
        compare_ints(key_of(a), key_of(b))
    }
}

fn compare_chars(a: &Vec<char>, b: &Vec<char>) -> (r: Ordering)
    ensures
        r == cmp_chars(a@, b@),
{
    let mut i: usize = 0;
    proof {
        assert(a@.subrange(0, a@.len() as int) =~= a@);
        assert(b@.subrange(0, b@.len() as int) =~= b@);
    }
    while i < a.len() && i < b.len() && a[i] == b[i]
        invariant
            i <= a@.len(),
            i <= b@.len(),
            cmp_chars(a@, b@) == cmp_chars(a@.subrange(i as int, a@.len() as int), b@.subrange(i as int, b@.len() as int)),
        decreases a@.len() - i,
    {
        proof {
            let x = a@.subrange(i as int, a@.len() as int);
            let y = b@.subrange(i as int, b@.len() as int);
            assert(x.drop_first() =~= a@.subrange(i as int + 1, a@.len() as int));
            assert(y.drop_first() =~= b@.subrange(i as int + 1, b@.len() as int));
        }
        i = i + 1;
    }
    proof {
        let x = a@.subrange(i as int, a@.len() as int);
        let y = b@.subrange(i as int, b@.len() as int);
        if i < a@.len() && i < b@.len() {
            assert(x[0] == a@[i as int]);
            assert(y[0] == b@[i as int]);
        }
    }
    if i == a.len() && i == b.len() {
        Ordering::Equal
    } else if i == a.len() {
        Ordering::Less
    } else if i == b.len() {
        Ordering::Greater
    } else if a[i] < b[i] {
        Ordering::Less
    } else {
        Ordering::Greater
    }
}

impl Number {
    /// Compares two numbers.
    pub fn compare(&self, other: &Number) -> (r: Ordering)
        ensures
            r == cmp_numbers(*self, *other),
    {
        match (self, other) {
            (Number::Int(x), Number::Int(y)) => compare_ints(*x as i128, *y as i128),
            (Number::Int(x), Number::Float(y)) => compare_int_float(*x, *y),
            (Number::Float(x), Number::Int(y)) => reversed(compare_int_float(*y, *x)),
            (Number::Float(x), Number::Float(y)) => compare_floats(*x, *y),
        }
    }
}

impl PartialEq for Number {
    fn eq(&self, other: &Number) -> (r: bool) {
        match self.compare(other) {
            Ordering::Equal => true,
            _ => false,
        }
    }
}

impl vstd::std_specs::cmp::PartialEqSpecImpl for Number {
    open spec fn obeys_eq_spec() -> bool {
        true
    }

    open spec fn eq_spec(&self, other: &Number) -> bool {
        cmp_numbers(*self, *other) == Ordering::Equal
    }
}

fn rank_of(d: &Data) -> (r: u8)
    ensures
        r as int == rank(*d),
{
    match d {
        Data::Null => 0,
        Data::Bool(_) => 1,
        Data::Number(_) => 2,
        Data::String(_) => 3,
    }
}

impl Data {
    /// Compares two values in the total order of values.
    pub fn compare(&self, other: &Data) -> (r: Ordering)
        ensures
            r == cmp_data(*self, *other),
    {
        match (self, other) {
            (Data::Bool(x), Data::Bool(y)) => compare_ints(
                if *x { 1 } else { 0 },
                if *y { 1 } else { 0 },
            ),
            (Data::Number(x), Data::Number(y)) => x.compare(y),
            (Data::String(x), Data::String(y)) => compare_chars(
                &crate::text::chars_of(x.as_str()),
                &crate::text::chars_of(y.as_str()),
            ),
            _ => compare_ints(rank_of(self) as i128, rank_of(other) as i128),
        }
    }

    /// Whether two values are equal.
    pub fn equals(&self, other: &Data) -> (r: bool)
        ensures
            r == data_eq(*self, *other),
    {
        match self.compare(other) {
            Ordering::Equal => true,
            _ => false,
        }
    }

    /// A copy of this value.
    pub fn copy(&self) -> (r: Data)
        ensures
            r == *self,
    {
        match self {
            Data::Null => Data::Null,
            Data::Bool(b) => Data::Bool(*b),
            Data::Number(n) => Data::Number(*n),
            Data::String(s) => Data::String(s.clone()),
        }
    }
}

impl PartialEq for Data {
    fn eq(&self, other: &Data) -> (r: bool) {
        self.equals(other)
    }
}

impl vstd::std_specs::cmp::PartialEqSpecImpl for Data {
    open spec fn obeys_eq_spec() -> bool {
        true
    }

    open spec fn eq_spec(&self, other: &Data) -> bool {
        data_eq(*self, *other)
    }
}

impl Clone for Data {
    fn clone(&self) -> (r: Data)
        ensures
            r == *self,
    {
        self.copy()
    }
}


proof fn lemma_cmp_chars_reflexive(a: Seq<char>)
    ensures
        cmp_chars(a, a) == Ordering::Equal,
    decreases a.len(),
{
    if a.len() > 0 {
        lemma_cmp_chars_reflexive(a.drop_first());
    }
}

/// Every value equals itself.
pub proof fn lemma_data_eq_reflexive(d: Data)
    ensures
        data_eq(d, d),
{
    match d {
        Data::String(s) => lemma_cmp_chars_reflexive(s@),
        _ => {},
    }
}


proof fn lemma_cmp_chars_antisymmetric(a: Seq<char>, b: Seq<char>)
    ensures
        cmp_chars(b, a) == reverse(cmp_chars(a, b)),
    decreases a.len(),
{
    if a.len() > 0 && b.len() > 0 && a[0] == b[0] {
        lemma_cmp_chars_antisymmetric(a.drop_first(), b.drop_first());
    }
}

/// Swapping the two values reverses their order.
pub proof fn lemma_cmp_data_antisymmetric(a: Data, b: Data)
    ensures
        cmp_data(b, a) == reverse(cmp_data(a, b)),
{
    match (a, b) {
        (Data::String(x), Data::String(y)) => lemma_cmp_chars_antisymmetric(x@, y@),
        (Data::Number(x), Data::Number(y)) => {
            match (x, y) {
                (Number::Float(p), Number::Int(q)) => {
                    let o = cmp_int_float(q as int, p);
                    assert(reverse(reverse(o)) == o);
                },
                _ => {},
            }
        },
        _ => {},
    }
}

} // verus!
