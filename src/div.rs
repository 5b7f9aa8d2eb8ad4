//! Division of primitive arrays, slot by slot or by a scalar.
use vstd::prelude::*;

use crate::array::PrimitiveArray;

verus! {

/// The quotient of `a` by `b` rounded toward zero, as integer `/` rounds.
pub open spec fn trunc_div(a: int, b: int) -> int {
    let q = (if a < 0 { -a } else { a }) / (if b < 0 { -b } else { b });
    if (a < 0) != (b < 0) {
        -q
    } else {
        q
    }
}

/// Whether `a / b` is defined on `i64`.
pub open spec fn divides_i64(a: i64, b: i64) -> bool {
    b != 0 && !(a == i64::MIN && b == -1)
}

/// Relies on `num_traits::CheckedDiv` for `i64`, which forwards to
/// `i64::checked_div`: `None` on a zero divisor or on overflow, else the
/// quotient rounded toward zero.
#[verifier::external_body]
fn checked_quotient(a: i64, b: i64) -> (r: Option<i64>)
    ensures
        r is Some <==> divides_i64(a, b),
        r is Some ==> r.unwrap() as int == trunc_div(a as int, b as int),
{
    num_traits::CheckedDiv::checked_div(&a, &b)
}

/// `strength_reduce::StrengthReducedU64`, a divisor prepared for fast
/// division; opaque here.
#[verifier::external_type_specification]
#[verifier::external_body]
pub struct ExStrengthReducedU64(strength_reduce::StrengthReducedU64);

/// A divisor prepared for repeated division of `u64` values. Its fields are
/// private and only `new` builds it, so `reduced` always stands for `divisor`.
pub struct ReducedDivisor {
    divisor: u64,
    reduced: strength_reduce::StrengthReducedU64,
}

impl ReducedDivisor {
    pub closed spec fn divisor(&self) -> u64 {
        self.divisor
    }

    /// Relies on `strength_reduce::StrengthReducedU64::new`, which asserts a
    /// positive divisor.
    #[verifier::external_body]
    fn new(divisor: u64) -> (r: Self)
        requires
            divisor > 0,
        ensures
            r.divisor() == divisor,
    {
        ReducedDivisor { divisor, reduced: strength_reduce::StrengthReducedU64::new(divisor) }
    }

    /// Relies on `u64 / StrengthReducedU64`, which gives the quotient by the
    /// divisor that the reducer was built from (here `self.divisor`, see `new`).
    #[verifier::external_body]
    fn divide(&self, a: u64) -> (r: u64)
        ensures
            r == a / self.divisor(),
    {
        a / self.reduced
    }
}

/// Whether slot `i` is valid in both arrays.
pub open spec fn both_valid<T>(lhs: &PrimitiveArray<T>, rhs: &PrimitiveArray<T>, i: int) -> bool {
    lhs.is_valid(i) && rhs.is_valid(i)
}

fn copy_validity(validity: &Option<Vec<bool>>) -> (r: Option<Vec<bool>>)
    ensures
        r is Some <==> validity is Some,
        r is Some ==> r.unwrap()@ == validity.unwrap()@,
{
    match validity {
        None => None,
        Some(v) => {
            let mut out: Vec<bool> = Vec::with_capacity(v.len());
            let mut i: usize = 0;
            while i < v.len()
                invariant
                    i <= v@.len(),
                    out@ =~= v@.take(i as int),
                decreases v@.len() - i,
            {
                out.push(v[i]);
                i = i + 1;
                assert(v@.take(i as int) =~= v@.take(i - 1).push(v@[i - 1]));
            }
            assert(v@.take(i as int) =~= v@);
            Some(out)
        },
    }
}

fn and_validity(lhs: &Option<Vec<bool>>, rhs: &Option<Vec<bool>>, len: usize) -> (r: Option<Vec<bool>>)
    requires
        lhs is Some ==> lhs.unwrap()@.len() == len,
        rhs is Some ==> rhs.unwrap()@.len() == len,
    ensures
        r is None <==> (lhs is None && rhs is None),
        r is Some ==> r.unwrap()@.len() == len,
        r is Some ==> forall|i: int|
            0 <= i < len ==> #[trigger] r.unwrap()@[i] == ((match lhs {
                Some(v) => v@[i],
                None => true,
            }) && (match rhs {
                Some(v) => v@[i],
                None => true,
            })),
{
    if lhs.is_none() && rhs.is_none() {
        return None;
    }
    let mut out: Vec<bool> = Vec::with_capacity(len);
    let mut i: usize = 0;
    while i < len
        invariant
            i <= len,
            lhs is Some ==> lhs.unwrap()@.len() == len,
            rhs is Some ==> rhs.unwrap()@.len() == len,
            out@.len() == i,
            forall|j: int|
                0 <= j < i ==> #[trigger] out@[j] == ((match lhs {
                    Some(v) => v@[j],
                    None => true,
                }) && (match rhs {
                    Some(v) => v@[j],
                    None => true,
                })),
        decreases len - i,
    {
        let a = match lhs {
            Some(v) => v[i],
            None => true,
        };
        let b = match rhs {
            Some(v) => v[i],
            None => true,
        };
        out.push(a && b);
        i = i + 1;
    }
    Some(out)
}

/// Whether every slot of `a` is valid.
pub open spec fn all_valid<T>(a: &PrimitiveArray<T>) -> bool {
    forall|i: int| 0 <= i < a.values@.len() ==> #[trigger] a.is_valid(i)
}

/// Divides two primitive arrays slot by slot. A slot is valid where it is
/// valid in both; there it holds the quotient rounded toward zero, elsewhere
/// zero. Every pair that is divided must have a defined quotient: where the
/// divisor has no null every pair is divided, else the pairs valid in both.
pub fn div(lhs: &PrimitiveArray<i64>, rhs: &PrimitiveArray<i64>) -> (r: PrimitiveArray<i64>)
    requires
        lhs.well_formed(),
        rhs.well_formed(),
        lhs.values@.len() == rhs.values@.len(),
        forall|i: int|
            0 <= i < lhs.values@.len() && (#[trigger] both_valid(lhs, rhs, i) || all_valid(rhs))
                ==> divides_i64(lhs.values@[i], rhs.values@[i]),
    ensures
        r.well_formed(),
        r.data_type == lhs.data_type,
        r.values@.len() == lhs.values@.len(),
        r.validity is None <==> (lhs.validity is None && rhs.validity is None),
        forall|i: int| 0 <= i < r.values@.len() ==> #[trigger] r.is_valid(i) == both_valid(lhs, rhs, i),
        forall|i: int|
            0 <= i < r.values@.len() ==> #[trigger] r.values@[i] == if both_valid(lhs, rhs, i) {
                trunc_div(lhs.values@[i] as int, rhs.values@[i] as int)
            } else {
                0
            },
{
    let n = lhs.values.len();
    let validity = and_validity(&lhs.validity, &rhs.validity, n);
    let mut values: Vec<i64> = Vec::with_capacity(n);
    let mut i: usize = 0;
    while i < n
        invariant
            i <= n,
            n == lhs.values@.len(),
            n == rhs.values@.len(),
            lhs.well_formed(),
            rhs.well_formed(),
            forall|j: int|
                0 <= j < n && (#[trigger] both_valid(lhs, rhs, j) || all_valid(rhs)) ==> divides_i64(
                    lhs.values@[j],
                    rhs.values@[j],
                ),
            values@.len() == i,
            forall|j: int|
                0 <= j < i ==> #[trigger] values@[j] == if both_valid(lhs, rhs, j) {
                    trunc_div(lhs.values@[j] as int, rhs.values@[j] as int)
                } else {
                    0
                },
        decreases n - i,
    {
        let valid = match &lhs.validity {
            Some(v) => v[i],
            None => true,
        } && match &rhs.validity {
            Some(v) => v[i],
            None => true,
        };
        if valid {
            assert(both_valid(lhs, rhs, i as int));
            let q = match checked_quotient(lhs.values[i], rhs.values[i]) {
                Some(q) => q,
                None => 0,
            };
            values.push(q);
        } else {
            values.push(0);
        }
        i = i + 1;
    }
    let r = PrimitiveArray::from_data(lhs.data_type, values, validity);
    assert forall|i: int| 0 <= i < r.values@.len() implies #[trigger] r.is_valid(i) == both_valid(lhs, rhs, i) by {
    }
    r
}


/// Divides two primitive arrays slot by slot. A slot is valid where it is
/// valid in both and its quotient is defined; there it holds the quotient
/// rounded toward zero, elsewhere zero.
pub fn checked_div(lhs: &PrimitiveArray<i64>, rhs: &PrimitiveArray<i64>) -> (r: PrimitiveArray<i64>)
    requires
        lhs.well_formed(),
        rhs.well_formed(),
        lhs.values@.len() == rhs.values@.len(),
    ensures
        r.well_formed(),
        r.data_type == lhs.data_type,
        r.values@.len() == lhs.values@.len(),
        forall|i: int|
            0 <= i < r.values@.len() ==> #[trigger] r.is_valid(i) == (both_valid(lhs, rhs, i)
                && divides_i64(lhs.values@[i], rhs.values@[i])),
        forall|i: int|
            0 <= i < r.values@.len() ==> #[trigger] r.values@[i] == if r.is_valid(i) {
                trunc_div(lhs.values@[i] as int, rhs.values@[i] as int)
            } else {
                0
            },
{
    let n = lhs.values.len();
    let mut values: Vec<i64> = Vec::with_capacity(n);
    let mut validity: Vec<bool> = Vec::with_capacity(n);
    let mut i: usize = 0;
    while i < n
        invariant
            i <= n,
            n == lhs.values@.len(),
            n == rhs.values@.len(),
            lhs.well_formed(),
            rhs.well_formed(),
            values@.len() == i,
            validity@.len() == i,
            forall|j: int|
                0 <= j < i ==> #[trigger] validity@[j] == (both_valid(lhs, rhs, j) && divides_i64(
                    lhs.values@[j],
                    rhs.values@[j],
                )),
            forall|j: int|
                0 <= j < i ==> #[trigger] values@[j] == if validity@[j] {
                    trunc_div(lhs.values@[j] as int, rhs.values@[j] as int)
                } else {
                    0
                },
        decreases n - i,
    {
        let valid = match &lhs.validity {
            Some(v) => v[i],
            None => true,
        } && match &rhs.validity {
            Some(v) => v[i],
            None => true,
        };
        let q = if valid {
            checked_quotient(lhs.values[i], rhs.values[i])
        } else {
            None
        };
        match q {
            Some(q) => {
                values.push(q);
                validity.push(true);
            },
            None => {
                values.push(0);
                validity.push(false);
            },
        }
        i = i + 1;
    }
    PrimitiveArray::from_data(lhs.data_type, values, Some(validity))
}

/// Divides every slot of an array by a positive scalar, with the divisor
/// prepared once for repeated division. Validity is kept.
pub fn div_scalar(lhs: &PrimitiveArray<u64>, rhs: &u64) -> (r: PrimitiveArray<u64>)
    requires
        *rhs > 0,
    ensures
        r.data_type == lhs.data_type,
        r.values@.len() == lhs.values@.len(),
        r.validity is Some <==> lhs.validity is Some,
        r.validity is Some ==> r.validity.unwrap()@ == lhs.validity.unwrap()@,
        forall|i: int| 0 <= i < r.values@.len() ==> #[trigger] r.values@[i] == lhs.values@[i] / *rhs,
{
    let reduced = ReducedDivisor::new(*rhs);
    let n = lhs.values.len();
    let mut values: Vec<u64> = Vec::with_capacity(n);
    let mut i: usize = 0;
    while i < n
        invariant
            i <= n,
            n == lhs.values@.len(),
            reduced.divisor() == *rhs,
            values@.len() == i,
            forall|j: int| 0 <= j < i ==> #[trigger] values@[j] == lhs.values@[j] / *rhs,
        decreases n - i,
    {
        values.push(reduced.divide(lhs.values[i]));
        i = i + 1;
    }
    PrimitiveArray::from_data(lhs.data_type, values, copy_validity(&lhs.validity))
}

/// Divides every slot of an array by a scalar. A slot is valid where it was
/// and its quotient is defined; there it holds the quotient rounded toward
/// zero, elsewhere zero.
pub fn checked_div_scalar(lhs: &PrimitiveArray<i64>, rhs: &i64) -> (r: PrimitiveArray<i64>)
    requires
        lhs.well_formed(),
    ensures
        r.well_formed(),
        r.data_type == lhs.data_type,
        r.values@.len() == lhs.values@.len(),
        forall|i: int|
            0 <= i < r.values@.len() ==> #[trigger] r.is_valid(i) == (lhs.is_valid(i) && divides_i64(
                lhs.values@[i],
                *rhs,
            )),
        forall|i: int|
            0 <= i < r.values@.len() ==> #[trigger] r.values@[i] == if r.is_valid(i) {
                trunc_div(lhs.values@[i] as int, *rhs as int)
            } else {
                0
            },
{
    let n = lhs.values.len();
    let mut values: Vec<i64> = Vec::with_capacity(n);
    let mut validity: Vec<bool> = Vec::with_capacity(n);
    let mut i: usize = 0;
    while i < n
        invariant
            i <= n,
            n == lhs.values@.len(),
            lhs.well_formed(),
            values@.len() == i,
            validity@.len() == i,
            forall|j: int|
                0 <= j < i ==> #[trigger] validity@[j] == (lhs.is_valid(j) && divides_i64(lhs.values@[j], *rhs)),
            forall|j: int|
                0 <= j < i ==> #[trigger] values@[j] == if validity@[j] {
                    trunc_div(lhs.values@[j] as int, *rhs as int)
                } else {
                    0
                },
        decreases n - i,
    {
        let valid = match &lhs.validity {
            Some(v) => v[i],
            None => true,
        };
        let q = if valid {
            checked_quotient(lhs.values[i], *rhs)
        } else {
            None
        };
        match q {
            Some(q) => {
                values.push(q);
                validity.push(true);
            },
            None => {
                values.push(0);
                validity.push(false);
            },
        }
        i = i + 1;
    }
    PrimitiveArray::from_data(lhs.data_type, values, Some(validity))
}

} // verus!
