//! Rust types as HDF5 datatypes.

use rust_hdf5::format::messages::datatype::DatatypeMessage;
use rust_hdf5::types::{
    Complex32, Complex64, CompoundType, Double, H5Type, HBool, Single, VarLenUnicode,
};

#[test]
fn u8_type_matches() {
    assert_eq!(u8::element_size(), 1);
    assert_eq!(u8::hdf5_type(), DatatypeMessage::u8_type());
}

#[test]
fn i8_type_matches() {
    assert_eq!(i8::element_size(), 1);
    assert_eq!(i8::hdf5_type(), DatatypeMessage::i8_type());
}

#[test]
fn u16_type_matches() {
    assert_eq!(u16::element_size(), 2);
    assert_eq!(u16::hdf5_type(), DatatypeMessage::u16_type());
}

#[test]
fn i16_type_matches() {
    assert_eq!(i16::element_size(), 2);
    assert_eq!(i16::hdf5_type(), DatatypeMessage::i16_type());
}

#[test]
fn u32_type_matches() {
    assert_eq!(u32::element_size(), 4);
    assert_eq!(u32::hdf5_type(), DatatypeMessage::u32_type());
}

#[test]
fn i32_type_matches() {
    assert_eq!(i32::element_size(), 4);
    assert_eq!(i32::hdf5_type(), DatatypeMessage::i32_type());
}

#[test]
fn u64_type_matches() {
    assert_eq!(u64::element_size(), 8);
    assert_eq!(u64::hdf5_type(), DatatypeMessage::u64_type());
}

#[test]
fn i64_type_matches() {
    assert_eq!(i64::element_size(), 8);
    assert_eq!(i64::hdf5_type(), DatatypeMessage::i64_type());
}

#[test]
fn f32_type_matches() {
    assert_eq!(Single::element_size(), 4);
    assert_eq!(Single::hdf5_type(), DatatypeMessage::f32_type());
}

#[test]
fn f64_type_matches() {
    assert_eq!(Double::element_size(), 8);
    assert_eq!(Double::hdf5_type(), DatatypeMessage::f64_type());
}

#[test]
fn element_size_matches_std_mem() {
    assert_eq!(u8::element_size(), std::mem::size_of::<u8>());
    assert_eq!(i16::element_size(), std::mem::size_of::<i16>());
    assert_eq!(u32::element_size(), std::mem::size_of::<u32>());
    assert_eq!(Double::element_size(), std::mem::size_of::<f64>());
}

#[test]
fn values_are_their_bytes() {
    assert_eq!((-2i16).to_bytes(), vec![0xfe, 0xff]);
    assert_eq!(i16::from_bytes(&[0xfe, 0xff]), -2);
    assert_eq!(0x0102030405060708u64.to_bytes(), vec![8, 7, 6, 5, 4, 3, 2, 1]);
    assert_eq!(Single { bits: 1.5f32.to_bits() }.to_bytes(), 1.5f32.to_le_bytes());
    assert_eq!(Double::from_bytes(&2.5f64.to_le_bytes()).bits, 2.5f64.to_bits());
    let c = Complex32 { re: Single { bits: 1 }, im: Single { bits: 2 } };
    assert_eq!(c.to_bytes(), vec![1, 0, 0, 0, 2, 0, 0, 0]);
    assert_eq!(Complex32::from_bytes(&c.to_bytes()), c);
    assert_eq!(Complex64::element_size(), 16);
}

#[test]
fn booleans_are_zero_or_not() {
    assert_eq!(HBool::from(true), HBool(1));
    assert_eq!(HBool::from(false).to_bytes(), vec![0]);
    assert!(bool::from(HBool::from_bytes(&[7])));
    assert!(!bool::from(HBool(0)));
}

#[test]
fn compound_types_have_members() {
    let t = CompoundType {
        members: vec![
            ("a".to_string(), DatatypeMessage::u8_type(), 0),
            ("b".to_string(), DatatypeMessage::f64_type(), 8),
        ],
        total_size: 16,
    };
    match t.to_datatype() {
        DatatypeMessage::Compound { size, members } => {
            assert_eq!(size, 16);
            assert_eq!(members.len(), 2);
            assert_eq!(members[1].name, "b");
            assert_eq!(members[1].offset, 8);
            assert_eq!(members[1].datatype, DatatypeMessage::f64_type());
        }
        dt => panic!("{:?}", dt),
    }
}

#[test]
fn texts_are_kept() {
    let v: VarLenUnicode = "gr\u{fc}n".parse().unwrap();
    assert_eq!(v, VarLenUnicode::from("gr\u{fc}n"));
    assert_eq!(v.to_text(), "gr\u{fc}n");
    assert_eq!(String::from(VarLenUnicode::from("x".to_string())), "x");
}
