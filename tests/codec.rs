use cw_factory::error::ContractError;
use cw_factory::math::{add_u128, add_u32, add_u64, div_u128, mul_u128, sub_u128, sub_u32, sub_u64};
use cw_factory::codec::IndexValue;
use cw_factory::msg::NameValue;
use cw_factory::util::{
    build_index_storage_key, build_reverse_mapping_storage_key, pad_vec, prepare_limit_and_desc,
    unpad_vec,
};

#[test]
fn integers_encode_little_endian_at_their_width() {
    assert_eq!(IndexValue::Uint16(0x0102).to_bytes(), vec![2, 1]);
    assert_eq!(IndexValue::Uint32(1).to_bytes(), vec![1, 0, 0, 0]);
    assert_eq!(IndexValue::Uint64(258).to_bytes(), vec![2, 1, 0, 0, 0, 0, 0, 0]);
    assert_eq!(IndexValue::Uint128(1).to_bytes().len(), 16);
    assert_eq!(IndexValue::Int8(-1).to_bytes(), vec![255]);
    assert_eq!(IndexValue::Int32(-2).to_bytes(), vec![254, 255, 255, 255]);
    assert_eq!(IndexValue::Int64(-1).to_bytes(), vec![255; 8]);
    assert_eq!(IndexValue::Int128(-1).to_bytes(), vec![255; 16]);
    assert_eq!(IndexValue::Int16(256).to_bytes(), vec![0, 1]);
    assert_eq!(IndexValue::Uint8(7).to_bytes(), vec![7]);
}

#[test]
fn bools_and_raw_bytes_encode_as_they_are() {
    assert_eq!(IndexValue::Bool(true).to_bytes(), vec![1]);
    assert_eq!(IndexValue::Bool(false).to_bytes(), vec![0]);
    assert_eq!(IndexValue::Bytes(vec![9, 8]).to_bytes(), vec![9, 8]);
    assert_eq!(IndexValue::Binary(vec![]).to_bytes(), Vec::<u8>::new());
}

#[test]
fn strings_encode_at_a_fixed_width() {
    let b = IndexValue::String("ab".to_string()).to_bytes();
    assert_eq!(b.len(), 128);
    assert_eq!(&b[..2], b"ab");
    assert!(b[2..].iter().all(|x| *x == 0));
    let long = "x".repeat(200);
    let b = IndexValue::String(long).to_bytes();
    assert_eq!(b, vec![b'x'; 128]);
    assert_eq!(IndexValue::String(String::new()).to_bytes(), vec![0; 128]);
}

#[test]
fn edge_bytes_are_label_then_value() {
    let nv = NameValue { name: "k".to_string(), value: Some(IndexValue::Uint8(5)) };
    let e = nv.as_edge_bytes();
    assert_eq!(e.len(), 129);
    assert_eq!(e[0], b'k');
    assert_eq!(e[128], 5);
    let bare = NameValue { name: "k".to_string(), value: None };
    assert_eq!(bare.as_edge_bytes().len(), 128);
}

#[test]
fn limits_are_clamped_with_a_default() {
    assert_eq!(prepare_limit_and_desc(None, None), (100, false));
    assert_eq!(prepare_limit_and_desc(Some(0), Some(true)), (1, true));
    assert_eq!(prepare_limit_and_desc(Some(600), Some(false)), (500, false));
    assert_eq!(prepare_limit_and_desc(Some(42), None), (42, false));
}

#[test]
fn unpad_drops_trailing_zeros_but_keeps_the_first_byte() {
    assert_eq!(unpad_vec(vec![1, 2, 0, 0]), vec![1, 2]);
    assert_eq!(unpad_vec(vec![0, 0, 0]), vec![0]);
    assert_eq!(unpad_vec(vec![3]), vec![3]);
    assert_eq!(unpad_vec(vec![0, 4]), vec![0, 4]);
}

#[test]
fn pad_extends_with_zeros() {
    assert_eq!(pad_vec(vec![1], 3), vec![1, 0, 0]);
    assert_eq!(pad_vec(vec![1, 2, 3], 2), vec![1, 2, 3]);
}

#[test]
fn storage_keys_are_prefixed() {
    assert_eq!(build_index_storage_key(&"score".to_string()), "_ix_score");
    assert_eq!(build_reverse_mapping_storage_key(&"score".to_string()), "_id_2_score");
}

#[test]
fn checked_arithmetic_reports_overflow_and_division_by_zero() {
    assert_eq!(add_u32(2, 3).unwrap(), 5);
    assert!(matches!(add_u32(u32::MAX, 1), Err(ContractError::Overflow)));
    assert!(matches!(sub_u32(1, 2), Err(ContractError::Overflow)));
    assert_eq!(sub_u64(9, 4).unwrap(), 5);
    assert!(matches!(add_u64(u64::MAX, 1), Err(ContractError::Overflow)));
    assert_eq!(mul_u128(6, 7).unwrap(), 42);
    assert!(matches!(mul_u128(u128::MAX, 2), Err(ContractError::Overflow)));
    assert_eq!(add_u128(1, 1).unwrap(), 2);
    assert!(matches!(sub_u128(0, 1), Err(ContractError::Overflow)));
    assert_eq!(div_u128(7, 2).unwrap(), 3);
    assert!(matches!(div_u128(7, 0), Err(ContractError::DivideByZero)));
}
