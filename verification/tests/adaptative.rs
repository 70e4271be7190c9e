use ngrammatic::adaptative_vector::AdaptativeVector;
use ngrammatic::adaptative_vector::AdaptativeVectorValue;
use ngrammatic::adaptative_vector::AdaptativeVectorValue::{U16, U32, U64, U8};

#[test]
fn smallest_width_of_values() {
    assert_eq!(AdaptativeVectorValue::smallest(U64(7)), U8(7));
    assert_eq!(AdaptativeVectorValue::smallest(U64(255)), U8(255));
    assert_eq!(AdaptativeVectorValue::smallest(U64(256)), U16(256));
    assert_eq!(AdaptativeVectorValue::smallest(U32(65_535)), U16(65_535));
    assert_eq!(AdaptativeVectorValue::smallest(U64(u32::MAX as u64)), U32(u32::MAX));
    assert_eq!(AdaptativeVectorValue::smallest(U16(254)), U8(254));
    assert_eq!(AdaptativeVectorValue::smallest(U8(255)), U8(255));
    assert_eq!(AdaptativeVectorValue::smallest(U64(u64::MAX)), U64(u64::MAX));
}

#[test]
fn sums_widen_on_overflow() {
    assert_eq!(U8(200).add(U8(55)), U8(255));
    assert_eq!(U8(200).add(U8(56)), U16(256));
    assert_eq!(U8(1).add(U16(2)), U16(3));
    assert_eq!(U16(65_535).add(U8(1)), U32(65_536));
    assert_eq!(U32(u32::MAX).add(U32(1)), U64(1 << 32));
    let mut v = U8(250);
    v.add_assign(U8(10));
    assert_eq!(v, U16(260));
    assert_eq!(AdaptativeVectorValue::default(), U8(0));
    assert_eq!(AdaptativeVectorValue::from(5usize), U64(5));
}

#[test]
fn vector_upgrades_as_needed() {
    let mut v = AdaptativeVector::with_capacity(4);
    assert_eq!(v.len(), 0);
    assert_eq!(v.max(), AdaptativeVectorValue::U8(0));
    assert!(!v.push(AdaptativeVectorValue::U64(3)));
    assert!(!v.push(AdaptativeVectorValue::U8(200)));
    assert_eq!(v.type_max(), 255);
    assert!(v.push(AdaptativeVectorValue::U32(70_000)));
    assert_eq!(v.type_max(), u32::MAX as u64);
    assert!(!v.push(AdaptativeVectorValue::U16(9)));
    assert_eq!(v.len(), 4);
    assert_eq!(v.max(), AdaptativeVectorValue::U32(70_000));
    match v {
        AdaptativeVector::U32(values) => assert_eq!(values, vec![3, 200, 70_000, 9]),
        _ => panic!("the vector should hold u32 values"),
    }
    let w = AdaptativeVector::from(vec![1u16, 2]);
    assert_eq!(w.max(), AdaptativeVectorValue::U16(2));
}

#[test]
fn a_value_that_fits_does_not_convert() {
    let mut v = AdaptativeVector::with_capacity(1);
    assert!(!v.push(AdaptativeVectorValue::from(255usize)));
    match v {
        AdaptativeVector::U8(values) => assert_eq!(values, vec![255]),
        _ => panic!("255 fits a u8"),
    }
}
