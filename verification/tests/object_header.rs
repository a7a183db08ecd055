//! Object headers.

use rust_hdf5::format::object_header::ObjectHeader;
use rust_hdf5::format::FormatError;

/// Build a minimal v1 object header with given messages.
fn build_v1_header(messages: &[(u16, u8, &[u8])]) -> Vec<u8> {
    let mut msg_data = Vec::new();
    for (msg_type, flags, data) in messages {
        msg_data.extend_from_slice(&msg_type.to_le_bytes());
        msg_data.extend_from_slice(&(data.len() as u16).to_le_bytes());
        msg_data.push(*flags);
        msg_data.extend_from_slice(&[0u8; 3]); // reserved
        msg_data.extend_from_slice(data);
        // Pad to 8-byte alignment
        let aligned = (msg_data.len() + 7) & !7;
        msg_data.resize(aligned, 0);
    }

    let mut buf = Vec::new();
    buf.push(1); // version
    buf.push(0); // reserved
    buf.extend_from_slice(&(messages.len() as u16).to_le_bytes());
    buf.extend_from_slice(&1u32.to_le_bytes()); // ref count
    buf.extend_from_slice(&(msg_data.len() as u32).to_le_bytes());
    buf.extend_from_slice(&[0u8; 4]); // reserved padding (align to 16 bytes)
    buf.extend_from_slice(&msg_data);
    buf
}

#[test]
fn test_decode_v1_empty() {
    let buf = build_v1_header(&[]);
    let (hdr, consumed) = ObjectHeader::decode_v1(&buf).unwrap();
    assert_eq!(consumed, 16); // 16-byte prefix, no messages
    assert!(hdr.messages.is_empty());
}

#[test]
fn test_decode_v1_single_message() {
    let data = vec![0xAA, 0xBB, 0xCC];
    let buf = build_v1_header(&[(0x03, 0x00, &data)]);
    let (hdr, _consumed) = ObjectHeader::decode_v1(&buf).unwrap();
    assert_eq!(hdr.messages.len(), 1);
    assert_eq!(hdr.messages[0].msg_type, 0x03);
    assert_eq!(hdr.messages[0].data, data);
}

#[test]
fn test_decode_v1_multiple_messages() {
    let buf = build_v1_header(&[
        (0x01, 0x00, &[1, 2, 3, 4]),
        (0x03, 0x01, &[10, 20]),
        (0x08, 0x00, &[0xFF; 16]),
    ]);
    let (hdr, _) = ObjectHeader::decode_v1(&buf).unwrap();
    assert_eq!(hdr.messages.len(), 3);
    assert_eq!(hdr.messages[0].msg_type, 0x01);
    assert_eq!(hdr.messages[1].msg_type, 0x03);
    assert_eq!(hdr.messages[2].msg_type, 0x08);
    assert_eq!(hdr.messages[2].data, vec![0xFF; 16]);
}

#[test]
fn test_decode_v1_skips_null_messages() {
    let buf = build_v1_header(&[
        (0x00, 0x00, &[0; 8]), // null message (type 0)
        (0x03, 0x00, &[1, 2]),
    ]);
    let (hdr, _) = ObjectHeader::decode_v1(&buf).unwrap();
    assert_eq!(hdr.messages.len(), 1);
    assert_eq!(hdr.messages[0].msg_type, 0x03);
}

#[test]
fn test_decode_any_v2() {
    let mut hdr = ObjectHeader::new();
    hdr.add_message(0x01, 0x00, vec![1, 2, 3]);
    let encoded = hdr.encode();
    let (decoded, _) = ObjectHeader::decode_any(&encoded).unwrap();
    assert_eq!(decoded.messages.len(), 1);
}

#[test]
fn headers_without_a_signature_have_a_version() {
    assert!(matches!(
        ObjectHeader::decode_any(&[0u8; 32]),
        Err(FormatError::InvalidVersion(0))
    ));
}

#[test]
fn test_decode_any_v1() {
    let buf = build_v1_header(&[(0x03, 0x00, &[1, 2])]);
    let (decoded, _) = ObjectHeader::decode_any(&buf).unwrap();
    assert_eq!(decoded.messages.len(), 1);
    assert_eq!(decoded.messages[0].msg_type, 0x03);
}

#[test]
fn test_decode_v1_bad_version() {
    let mut buf = build_v1_header(&[]);
    buf[0] = 5;
    assert!(matches!(
        ObjectHeader::decode_v1(&buf).unwrap_err(),
        FormatError::InvalidVersion(5)
    ));
}

#[test]
fn test_decode_v1_buffer_too_short() {
    assert!(matches!(
        ObjectHeader::decode_v1(&[1, 0, 0]).unwrap_err(),
        FormatError::BufferTooShort { .. }
    ));
}

#[test]
fn test_empty_header_roundtrip() {
    let hdr = ObjectHeader::new();
    let encoded = hdr.encode();

    // OHDR(4) + version(1) + flags(1) + chunk0_size(4) + checksum(4) = 14
    assert_eq!(encoded.len(), 14);
    assert_eq!(&encoded[..4], b"OHDR");
    assert_eq!(encoded[4], 2); // version

    let (decoded, consumed) = ObjectHeader::decode(&encoded).expect("decode failed");
    assert_eq!(consumed, encoded.len());
    assert_eq!(decoded, hdr);
}

#[test]
fn test_single_message_roundtrip() {
    let mut hdr = ObjectHeader::new();
    hdr.add_message(0x01, 0x00, vec![0xAA, 0xBB, 0xCC]);

    let encoded = hdr.encode();
    let (decoded, consumed) = ObjectHeader::decode(&encoded).expect("decode failed");
    assert_eq!(consumed, encoded.len());
    assert_eq!(decoded.messages.len(), 1);
    assert_eq!(decoded.messages[0].msg_type, 0x01);
    assert_eq!(decoded.messages[0].flags, 0x00);
    assert_eq!(decoded.messages[0].data, vec![0xAA, 0xBB, 0xCC]);
}

#[test]
fn test_multiple_messages_roundtrip() {
    let mut hdr = ObjectHeader::new();
    hdr.add_message(0x01, 0x00, vec![1, 2, 3, 4]);
    hdr.add_message(0x03, 0x01, vec![10, 20]);
    hdr.add_message(0x0C, 0x00, vec![]);

    let encoded = hdr.encode();
    let (decoded, consumed) = ObjectHeader::decode(&encoded).expect("decode failed");
    assert_eq!(consumed, encoded.len());
    assert_eq!(decoded.messages.len(), 3);
    assert_eq!(decoded, hdr);
}

#[test]
fn test_with_creation_order() {
    let mut hdr = ObjectHeader {
        flags: 0x02 | 0x04,
        messages: Vec::new(),
    };
    hdr.add_message(0x01, 0x00, vec![0xFF; 8]);
    hdr.add_message(0x03, 0x00, vec![0xEE; 4]);

    let encoded = hdr.encode();
    let (decoded, consumed) = ObjectHeader::decode(&encoded).expect("decode failed");
    assert_eq!(consumed, encoded.len());
    assert_eq!(decoded.messages.len(), 2);
    assert_eq!(decoded.messages[0].data, vec![0xFF; 8]);
    assert_eq!(decoded.messages[1].data, vec![0xEE; 4]);
}

#[test]
fn test_chunk0_size_1byte() {
    // flags bits 0-1 = 0 => 1-byte chunk0 size
    let mut hdr = ObjectHeader {
        flags: 0x00,
        messages: Vec::new(),
    };
    hdr.add_message(0x01, 0x00, vec![42]);

    let encoded = hdr.encode();
    let (decoded, consumed) = ObjectHeader::decode(&encoded).expect("decode failed");
    assert_eq!(consumed, encoded.len());
    assert_eq!(decoded.messages[0].data, vec![42]);
}

#[test]
fn test_chunk0_size_2byte() {
    // flags bits 0-1 = 1 => 2-byte chunk0 size
    let mut hdr = ObjectHeader {
        flags: 0x01,
        messages: Vec::new(),
    };
    hdr.add_message(0x01, 0x00, vec![1, 2, 3]);

    let encoded = hdr.encode();
    let (decoded, consumed) = ObjectHeader::decode(&encoded).expect("decode failed");
    assert_eq!(consumed, encoded.len());
    assert_eq!(decoded.messages[0].data, vec![1, 2, 3]);
}

#[test]
fn test_chunk0_size_8byte() {
    // flags bits 0-1 = 3 => 8-byte chunk0 size
    let mut hdr = ObjectHeader {
        flags: 0x03,
        messages: Vec::new(),
    };
    hdr.add_message(0x01, 0x00, vec![0xDE, 0xAD]);

    let encoded = hdr.encode();
    let (decoded, consumed) = ObjectHeader::decode(&encoded).expect("decode failed");
    assert_eq!(consumed, encoded.len());
    assert_eq!(decoded.messages[0].data, vec![0xDE, 0xAD]);
}

#[test]
fn object_header_test_decode_bad_signature() {
    let mut data = vec![0u8; 20];
    data[0..4].copy_from_slice(b"XHDR");
    let err = ObjectHeader::decode(&data).unwrap_err();
    assert!(matches!(err, FormatError::InvalidSignature));
}

#[test]
fn object_header_test_decode_bad_version() {
    let hdr = ObjectHeader::new();
    let mut encoded = hdr.encode();
    encoded[4] = 99; // corrupt version
    let err = ObjectHeader::decode(&encoded).unwrap_err();
    assert!(matches!(err, FormatError::InvalidVersion(99)));
}

#[test]
fn object_header_test_decode_checksum_mismatch() {
    let mut hdr = ObjectHeader::new();
    hdr.add_message(0x01, 0x00, vec![1, 2, 3]);
    let mut encoded = hdr.encode();
    // Corrupt a message byte
    let last_data = encoded.len() - 5;
    encoded[last_data] ^= 0xFF;
    let err = ObjectHeader::decode(&encoded).unwrap_err();
    assert!(matches!(err, FormatError::ChecksumMismatch { .. }));
}

#[test]
fn object_header_test_decode_buffer_too_short() {
    let err = ObjectHeader::decode(&[0u8; 5]).unwrap_err();
    assert!(matches!(err, FormatError::BufferTooShort { .. }));
}

#[test]
fn test_decode_with_trailing_data() {
    let mut hdr = ObjectHeader::new();
    hdr.add_message(0x01, 0x00, vec![7, 8, 9]);
    let mut encoded = hdr.encode();
    let original_len = encoded.len();
    encoded.extend_from_slice(&[0xBB; 50]); // trailing garbage

    let (decoded, consumed) = ObjectHeader::decode(&encoded).expect("decode failed");
    assert_eq!(consumed, original_len);
    assert_eq!(decoded, hdr);
}

#[test]
fn test_large_message_payload() {
    let mut hdr = ObjectHeader::new();
    let big_data = vec![0x42; 1000];
    hdr.add_message(0x0C, 0x00, big_data.clone());

    let encoded = hdr.encode();
    let (decoded, consumed) = ObjectHeader::decode(&encoded).expect("decode failed");
    assert_eq!(consumed, encoded.len());
    assert_eq!(decoded.messages[0].data.len(), 1000);
    assert_eq!(decoded.messages[0].data, big_data);
}

#[test]
fn test_default() {
    let hdr = ObjectHeader::default();
    assert_eq!(hdr.flags, 0x02);
    assert!(hdr.messages.is_empty());
}
