use arrow2::array::PrimitiveArray;
use arrow2::datatypes::PrimitiveType;
use arrow2::div::{checked_div, checked_div_scalar, div, div_scalar};

fn from_options(values: &[Option<i64>]) -> PrimitiveArray<i64> {
    let validity = values.iter().map(|v| v.is_some()).collect();
    let values = values.iter().map(|v| v.unwrap_or(0)).collect();
    PrimitiveArray::from_data(PrimitiveType::Int32, values, Some(validity))
}

fn to_options(array: &PrimitiveArray<i64>) -> Vec<Option<i64>> {
    (0..array.values.len())
        .map(|i| match &array.validity {
            Some(v) if !v[i] => None,
            _ => Some(array.values[i]),
        })
        .collect()
}

#[test]
fn div_with_nulls() {
    let a = from_options(&[Some(10), Some(1), Some(6)]);
    let b = from_options(&[Some(5), None, Some(6)]);
    let r = div(&a, &b);
    assert_eq!(to_options(&r), vec![Some(2), None, Some(1)]);
    assert_eq!(r.data_type, PrimitiveType::Int32);
}

#[test]
fn div_rounds_toward_zero() {
    let a = PrimitiveArray::from_data(PrimitiveType::Int64, vec![-7, 7, -7], None);
    let b = PrimitiveArray::from_data(PrimitiveType::Int64, vec![2, -2, -2], None);
    let r = div(&a, &b);
    assert_eq!(r.values, vec![-3, -3, 3]);
    assert!(r.validity.is_none());
}

#[test]
fn checked_div_overflow_and_zero() {
    let a = from_options(&[Some(-100), Some(10), Some(i64::MIN), None]);
    let b = from_options(&[Some(100), Some(0), Some(-1), Some(1)]);
    let r = checked_div(&a, &b);
    assert_eq!(to_options(&r), vec![Some(-1), None, None, None]);
}

#[test]
fn div_scalar_keeps_nulls() {
    let a = PrimitiveArray::from_data(
        PrimitiveType::UInt64,
        vec![0u64, 6, 0, 7],
        Some(vec![false, true, false, true]),
    );
    let r = div_scalar(&a, &2);
    assert_eq!(r.values[1], 3);
    assert_eq!(r.values[3], 3);
    assert_eq!(r.validity, Some(vec![false, true, false, true]));
}

#[test]
fn checked_div_scalar_by_zero_and_value() {
    let a = from_options(&[Some(-100)]);
    assert_eq!(to_options(&checked_div_scalar(&a, &100)), vec![Some(-1)]);
    assert_eq!(to_options(&checked_div_scalar(&a, &0)), vec![None]);
}
