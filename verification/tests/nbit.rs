//! The n-bit filter and the conversion that follows it.

use rust_hdf5::format::FormatError;
use rust_hdf5::format::messages::datatype::{ByteOrder, DatatypeMessage};
use rust_hdf5::format::nbit_scaleoffset::tree::{
    NBIT_ARRAY, NBIT_ATOMIC, NBIT_COMPOUND, NBIT_NOOPTYPE, NBIT_ORDER_BE, NBIT_ORDER_LE,
};
use rust_hdf5::format::nbit_scaleoffset::{
    apply_datatype_conversion, apply_nbit, datatype_needs_bit_conversion,
};

/// Build an nbit cd_values list for an unsigned little-endian atomic int.
fn nbit_atomic_cd(d_nelmts: u32, size: u32, precision: u32, offset: u32) -> Vec<u32> {
    // [0]=nparms [1]=need_not_compress [2]=d_nelmts [3]=class [4]=size
    // [5]=order [6]=precision [7]=offset
    let need_not_compress = if offset == 0 && precision == size * 8 {
        1
    } else {
        0
    };
    vec![
        8,
        need_not_compress,
        d_nelmts,
        NBIT_ATOMIC,
        size,
        NBIT_ORDER_LE,
        precision,
        offset,
    ]
}

#[test]
fn nbit_roundtrip_u16_precision12() {
    // 16-bit storage, 12-bit precision, offset 0.
    let values: Vec<u16> = (0..40u16).map(|i| (i * 71) & 0x0FFF).collect();
    let mut raw = Vec::new();
    for &v in &values {
        raw.extend_from_slice(&v.to_le_bytes());
    }
    let cd = nbit_atomic_cd(values.len() as u32, 2, 12, 0);
    let packed = apply_nbit(&raw, &cd, true).unwrap();
    assert!(packed.len() <= raw.len());
    let unpacked = apply_nbit(&packed, &cd, false).unwrap();
    assert_eq!(unpacked, raw);
}

#[test]
fn nbit_roundtrip_u32_precision20_offset4() {
    let values: Vec<u32> = (0..32u32).map(|i| ((i * 9999) & 0xFFFFF) << 4).collect();
    let mut raw = Vec::new();
    for &v in &values {
        raw.extend_from_slice(&v.to_le_bytes());
    }
    let cd = nbit_atomic_cd(values.len() as u32, 4, 20, 4);
    let packed = apply_nbit(&raw, &cd, true).unwrap();
    let unpacked = apply_nbit(&packed, &cd, false).unwrap();
    assert_eq!(unpacked, raw);
}

#[test]
fn nbit_passthrough_full_precision() {
    let raw: Vec<u8> = (0..64).collect();
    let cd = nbit_atomic_cd(16, 4, 32, 0); // full precision -> need_not_compress
    let packed = apply_nbit(&raw, &cd, true).unwrap();
    assert_eq!(packed, raw);
    let unpacked = apply_nbit(&packed, &cd, false).unwrap();
    assert_eq!(unpacked, raw);
}

#[test]
fn nbit_roundtrip_big_endian() {
    let values: Vec<u16> = (0..24u16).map(|i| (i * 53) & 0x03FF).collect();
    let mut raw = Vec::new();
    for &v in &values {
        raw.extend_from_slice(&v.to_be_bytes());
    }
    let mut cd = nbit_atomic_cd(values.len() as u32, 2, 10, 0);
    cd[5] = NBIT_ORDER_BE;
    let packed = apply_nbit(&raw, &cd, true).unwrap();
    let unpacked = apply_nbit(&packed, &cd, false).unwrap();
    assert_eq!(unpacked, raw);
}

// ---------------------------------------------------------------
//  Post-filter datatype conversion
// ---------------------------------------------------------------

fn fixed(size: u32, signed: bool, offset: u16, precision: u16) -> DatatypeMessage {
    DatatypeMessage::FixedPoint {
        size,
        byte_order: ByteOrder::LittleEndian,
        signed,
        bit_offset: offset,
        bit_precision: precision,
    }
}

#[test]
fn conversion_noop_for_full_width_types() {
    // 32-bit unsigned, offset 0, precision 32 -> plain integer, no-op.
    let dt = fixed(4, false, 0, 32);
    assert!(!datatype_needs_bit_conversion(&dt));
    let mut buf = vec![0x78, 0x56, 0x34, 0x12, 0xFF, 0xFF, 0xFF, 0xFF];
    let before = buf.clone();
    apply_datatype_conversion(&mut buf, &dt).unwrap();
    assert_eq!(buf, before);
}

#[test]
fn conversion_noop_for_non_numeric_types() {
    let dt = DatatypeMessage::fixed_string(8);
    assert!(!datatype_needs_bit_conversion(&dt));
    let mut buf = b"hello!!\0".to_vec();
    let before = buf.clone();
    apply_datatype_conversion(&mut buf, &dt).unwrap();
    assert_eq!(buf, before);
}

#[test]
fn conversion_unsigned_offset_shifts_right() {
    // u16, bit_offset 3, precision 10. The value lives in bits [3,13).
    // Raw element layout (LE u16): value 0x2A5 placed at offset 3 ->
    // 0x2A5 << 3 = 0x1528.
    let dt = fixed(2, false, 3, 10);
    assert!(datatype_needs_bit_conversion(&dt));
    let mut buf = (0x1528u16).to_le_bytes().to_vec();
    apply_datatype_conversion(&mut buf, &dt).unwrap();
    assert_eq!(u16::from_le_bytes([buf[0], buf[1]]), 0x2A5);
}

#[test]
fn conversion_signed_negative_sign_extends() {
    // i16, bit_offset 4, precision 8. Store -3 (8-bit two's complement
    // = 0xFD) at offset 4: 0xFD << 4 = 0xFD0.
    let dt = fixed(2, true, 4, 8);
    let mut buf = (0x0FD0u16).to_le_bytes().to_vec();
    apply_datatype_conversion(&mut buf, &dt).unwrap();
    assert_eq!(i16::from_le_bytes([buf[0], buf[1]]), -3);
}

#[test]
fn conversion_signed_positive_stays_positive() {
    // i16, bit_offset 4, precision 8. Store +5 at offset 4 -> 0x050.
    let dt = fixed(2, true, 4, 8);
    let mut buf = (0x0050u16).to_le_bytes().to_vec();
    apply_datatype_conversion(&mut buf, &dt).unwrap();
    assert_eq!(i16::from_le_bytes([buf[0], buf[1]]), 5);
}

#[test]
fn conversion_reduced_precision_offset_zero() {
    // i32, bit_offset 0, precision 20 -> still non-trivial (precision <
    // size*8). Store -1 in 20 bits = 0xFFFFF.
    let dt = fixed(4, true, 0, 20);
    assert!(datatype_needs_bit_conversion(&dt));
    let mut buf = (0x000FFFFFu32).to_le_bytes().to_vec();
    apply_datatype_conversion(&mut buf, &dt).unwrap();
    assert_eq!(i32::from_le_bytes(buf.clone().try_into().unwrap()), -1);
}

#[test]
fn conversion_big_endian_signed() {
    // i16, BE, bit_offset 4, precision 8, value -3.
    let dt = DatatypeMessage::FixedPoint {
        size: 2,
        byte_order: ByteOrder::BigEndian,
        signed: true,
        bit_offset: 4,
        bit_precision: 8,
    };
    let mut buf = (0x0FD0u16).to_be_bytes().to_vec();
    apply_datatype_conversion(&mut buf, &dt).unwrap();
    assert_eq!(i16::from_be_bytes([buf[0], buf[1]]), -3);
}

#[test]
fn conversion_multiple_elements() {
    // u32, bit_offset 5, precision 16. Three elements.
    let dt = fixed(4, false, 5, 16);
    let vals: [u32; 3] = [0x1234, 0xABCD, 0x0001];
    let mut buf = Vec::new();
    for v in vals {
        buf.extend_from_slice(&(v << 5).to_le_bytes());
    }
    apply_datatype_conversion(&mut buf, &dt).unwrap();
    for (i, v) in vals.iter().enumerate() {
        let e = u32::from_le_bytes(buf[i * 4..i * 4 + 4].try_into().unwrap());
        assert_eq!(e, *v);
    }
}

#[test]
fn conversion_rejects_non_standard_float() {
    // A float with a non-IEEE bit layout must error, not corrupt data.
    let dt = DatatypeMessage::FloatingPoint {
        size: 4,
        byte_order: ByteOrder::LittleEndian,
        sign_location: 30,
        bit_offset: 1,
        bit_precision: 31,
        exponent_location: 22,
        exponent_size: 8,
        mantissa_location: 0,
        mantissa_size: 22,
        exponent_bias: 127,
    };
    assert!(datatype_needs_bit_conversion(&dt));
    let mut buf = vec![0u8; 4];
    assert!(apply_datatype_conversion(&mut buf, &dt).is_err());
}

#[test]
fn conversion_standard_float_is_noop() {
    let dt = DatatypeMessage::f64_type();
    assert!(!datatype_needs_bit_conversion(&dt));
    let mut buf = 12.5f64.to_le_bytes().to_vec();
    let before = buf.clone();
    apply_datatype_conversion(&mut buf, &dt).unwrap();
    assert_eq!(buf, before);
}

#[test]
fn conversion_rejects_bad_buffer_length() {
    let dt = fixed(4, false, 3, 16);
    let mut buf = vec![0u8; 5]; // not a multiple of 4
    assert!(apply_datatype_conversion(&mut buf, &dt).is_err());
}

#[test]
fn nbit_checks_the_input_size_first() {
    // The precision is wrong, but so is the size of the input.
    let cd = nbit_atomic_cd(4, 2, 99, 0);
    match apply_nbit(&[0; 7], &cd, true).unwrap_err() {
        FormatError::InvalidData(m) => assert_eq!(m, "nbit: input size 7 != expected 8"),
        e => panic!("{:?}", e),
    }
    let cd = vec![7, 0, 4, NBIT_ARRAY, 2, NBIT_ARRAY, 0];
    assert!(apply_nbit(&[0; 7], &cd, true).is_err());
}

#[test]
fn nbit_tells_that_the_buffer_is_too_short_first() {
    // The second member lacks its size, but there are no bits for the first one.
    let cd = vec![
        14, 0, 1, NBIT_COMPOUND, 2, 2, 0, NBIT_ATOMIC, 1, NBIT_ORDER_LE, 8, 0, 1, NBIT_NOOPTYPE,
    ];
    match apply_nbit(&[], &cd, false).unwrap_err() {
        FormatError::InvalidData(m) => assert_eq!(m, "nbit: buffer too short"),
        e => panic!("{:?}", e),
    }
}
