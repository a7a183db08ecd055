//! Superblocks.

use rust_hdf5::format::superblock::{
    detect_superblock_version, SuperblockV0V1, SuperblockV2V3, FLAG_FILE_OK, FLAG_SWMR_WRITE,
    FLAG_WRITE_ACCESS, HDF5_SIGNATURE, SUPERBLOCK_V2, SUPERBLOCK_V3,
};
use rust_hdf5::format::{FormatError, UNDEF_ADDR};

#[test]
fn test_encoded_size() {
    let sb = SuperblockV2V3 {
        version: SUPERBLOCK_V3,
        sizeof_offsets: 8,
        sizeof_lengths: 8,
        file_consistency_flags: 0,
        base_address: 0,
        superblock_extension_address: UNDEF_ADDR,
        end_of_file_address: 4096,
        root_group_object_header_address: 48,
    };
    // 12 + 4*8 + 4 = 48
    assert_eq!(sb.encoded_size(), 48);
}

#[test]
fn test_roundtrip_v3_offset8() {
    let original = SuperblockV2V3 {
        version: SUPERBLOCK_V3,
        sizeof_offsets: 8,
        sizeof_lengths: 8,
        file_consistency_flags: FLAG_FILE_OK,
        base_address: 0,
        superblock_extension_address: UNDEF_ADDR,
        end_of_file_address: 0x1_0000,
        root_group_object_header_address: 48,
    };

    let encoded = original.encode();
    assert_eq!(encoded.len(), original.encoded_size());

    // Verify signature
    assert_eq!(&encoded[..8], &HDF5_SIGNATURE);

    let decoded = SuperblockV2V3::decode(&encoded).expect("decode failed");
    assert_eq!(decoded, original);
}

#[test]
fn test_roundtrip_v2_offset4() {
    let original = SuperblockV2V3 {
        version: SUPERBLOCK_V2,
        sizeof_offsets: 4,
        sizeof_lengths: 4,
        file_consistency_flags: 0,
        base_address: 0,
        superblock_extension_address: 0xFFFF_FFFF,
        end_of_file_address: 8192,
        root_group_object_header_address: 28,
    };

    let encoded = original.encode();
    // 12 + 4*4 + 4 = 32
    assert_eq!(encoded.len(), 32);

    let decoded = SuperblockV2V3::decode(&encoded).expect("decode failed");
    assert_eq!(decoded, original);
}

#[test]
fn superblock_test_decode_bad_signature() {
    let mut data = vec![0u8; 48];
    // Wrong signature
    data[0] = 0x00;
    let err = SuperblockV2V3::decode(&data).unwrap_err();
    assert!(matches!(err, FormatError::InvalidSignature));
}

#[test]
fn superblock_test_decode_bad_version() {
    let sb = SuperblockV2V3 {
        version: SUPERBLOCK_V3,
        sizeof_offsets: 8,
        sizeof_lengths: 8,
        file_consistency_flags: 0,
        base_address: 0,
        superblock_extension_address: UNDEF_ADDR,
        end_of_file_address: 4096,
        root_group_object_header_address: 48,
    };
    let mut encoded = sb.encode();
    // Corrupt version to 1
    encoded[8] = 1;
    let err = SuperblockV2V3::decode(&encoded).unwrap_err();
    assert!(matches!(err, FormatError::InvalidVersion(1)));
}

#[test]
fn superblock_test_decode_checksum_mismatch() {
    let sb = SuperblockV2V3 {
        version: SUPERBLOCK_V3,
        sizeof_offsets: 8,
        sizeof_lengths: 8,
        file_consistency_flags: 0,
        base_address: 0,
        superblock_extension_address: UNDEF_ADDR,
        end_of_file_address: 4096,
        root_group_object_header_address: 48,
    };
    let mut encoded = sb.encode();
    // Corrupt a data byte
    encoded[12] = 0xFF;
    let err = SuperblockV2V3::decode(&encoded).unwrap_err();
    assert!(matches!(err, FormatError::ChecksumMismatch { .. }));
}

#[test]
fn superblock_test_decode_buffer_too_short() {
    let err = SuperblockV2V3::decode(&[0u8; 4]).unwrap_err();
    assert!(matches!(err, FormatError::BufferTooShort { .. }));
}

#[test]
fn test_flags() {
    let sb = SuperblockV2V3 {
        version: SUPERBLOCK_V3,
        sizeof_offsets: 8,
        sizeof_lengths: 8,
        file_consistency_flags: FLAG_WRITE_ACCESS | FLAG_SWMR_WRITE,
        base_address: 0,
        superblock_extension_address: UNDEF_ADDR,
        end_of_file_address: 4096,
        root_group_object_header_address: 48,
    };
    let encoded = sb.encode();
    let decoded = SuperblockV2V3::decode(&encoded).unwrap();
    assert_eq!(
        decoded.file_consistency_flags,
        FLAG_WRITE_ACCESS | FLAG_SWMR_WRITE
    );
}

#[test]
fn test_roundtrip_with_extra_trailing_data() {
    // decode should succeed even if the buffer is longer than needed
    let sb = SuperblockV2V3 {
        version: SUPERBLOCK_V3,
        sizeof_offsets: 8,
        sizeof_lengths: 8,
        file_consistency_flags: 0,
        base_address: 0,
        superblock_extension_address: UNDEF_ADDR,
        end_of_file_address: 4096,
        root_group_object_header_address: 48,
    };
    let mut encoded = sb.encode();
    encoded.extend_from_slice(&[0xAA; 100]); // trailing garbage
    let decoded = SuperblockV2V3::decode(&encoded).unwrap();
    assert_eq!(decoded, sb);
}

/// Build a minimal v0 superblock for testing.
fn build_v0_superblock(
    root_obj_header_addr: u64,
    btree_addr: u64,
    heap_addr: u64,
    eof: u64,
) -> Vec<u8> {
    let sizeof_addr: usize = 8;
    let sizeof_size: usize = 8;
    let mut buf = Vec::new();

    // Signature (8 bytes)
    buf.extend_from_slice(&HDF5_SIGNATURE);
    // Version 0
    buf.push(0);
    // Free-space version
    buf.push(0);
    // Root group STE version
    buf.push(0);
    // Reserved
    buf.push(0);
    // Shared header version
    buf.push(0);
    // sizeof_addr
    buf.push(sizeof_addr as u8);
    // sizeof_size
    buf.push(sizeof_size as u8);
    // Reserved
    buf.push(0);

    // sym_leaf_k = 4
    buf.extend_from_slice(&4u16.to_le_bytes());
    // btree_internal_k = 32
    buf.extend_from_slice(&32u16.to_le_bytes());
    // file_consistency_flags = 0
    buf.extend_from_slice(&0u32.to_le_bytes());

    // base_addr = 0
    buf.extend_from_slice(&0u64.to_le_bytes()[..sizeof_addr]);
    // extension_addr = UNDEF
    buf.extend_from_slice(&UNDEF_ADDR.to_le_bytes()[..sizeof_addr]);
    // eof_addr
    buf.extend_from_slice(&eof.to_le_bytes()[..sizeof_addr]);
    // driver_info_addr = UNDEF
    buf.extend_from_slice(&UNDEF_ADDR.to_le_bytes()[..sizeof_addr]);

    // Root group symbol table entry:
    // name_offset (sizeof_size)
    buf.extend_from_slice(&0u64.to_le_bytes()[..sizeof_size]);
    // obj_header_addr (sizeof_addr)
    buf.extend_from_slice(&root_obj_header_addr.to_le_bytes()[..sizeof_addr]);
    // cache_type = 1 (stab)
    buf.extend_from_slice(&1u32.to_le_bytes());
    // reserved
    buf.extend_from_slice(&0u32.to_le_bytes());
    // scratch pad: btree_addr + heap_addr
    buf.extend_from_slice(&btree_addr.to_le_bytes()[..sizeof_addr]);
    buf.extend_from_slice(&heap_addr.to_le_bytes()[..sizeof_addr]);

    buf
}

#[test]
fn test_decode_v0() {
    let buf = build_v0_superblock(0x100, 0x200, 0x300, 0x1000);
    let sb = SuperblockV0V1::decode(&buf).expect("decode failed");
    assert_eq!(sb.version, 0);
    assert_eq!(sb.sizeof_offsets, 8);
    assert_eq!(sb.sizeof_lengths, 8);
    assert_eq!(sb.sym_leaf_k, 4);
    assert_eq!(sb.btree_internal_k, 32);
    assert_eq!(sb.file_consistency_flags, 0);
    assert_eq!(sb.indexed_storage_k, None);
    assert_eq!(sb.base_address, 0);
    assert_eq!(sb.end_of_file_address, 0x1000);
    assert_eq!(sb.root_symbol_table_entry.obj_header_addr, 0x100);
    assert_eq!(sb.root_symbol_table_entry.cache_type, 1);
    assert_eq!(sb.root_symbol_table_entry.btree_addr, 0x200);
    assert_eq!(sb.root_symbol_table_entry.heap_addr, 0x300);
}

#[test]
fn test_decode_v1() {
    // Build a v1 superblock (includes indexed_storage_k)
    let sizeof_addr: usize = 8;
    let sizeof_size: usize = 8;
    let mut buf = Vec::new();
    buf.extend_from_slice(&HDF5_SIGNATURE);
    buf.push(1); // version 1
    buf.push(0);
    buf.push(0);
    buf.push(0);
    buf.push(0);
    buf.push(sizeof_addr as u8);
    buf.push(sizeof_size as u8);
    buf.push(0);
    buf.extend_from_slice(&4u16.to_le_bytes());
    buf.extend_from_slice(&32u16.to_le_bytes());
    buf.extend_from_slice(&0u32.to_le_bytes());
    // indexed_storage_k = 16
    buf.extend_from_slice(&16u16.to_le_bytes());
    // reserved
    buf.extend_from_slice(&0u16.to_le_bytes());
    // addresses
    buf.extend_from_slice(&0u64.to_le_bytes()[..sizeof_addr]);
    buf.extend_from_slice(&UNDEF_ADDR.to_le_bytes()[..sizeof_addr]);
    buf.extend_from_slice(&0x2000u64.to_le_bytes()[..sizeof_addr]);
    buf.extend_from_slice(&UNDEF_ADDR.to_le_bytes()[..sizeof_addr]);
    // STE
    buf.extend_from_slice(&0u64.to_le_bytes()[..sizeof_size]);
    buf.extend_from_slice(&0x100u64.to_le_bytes()[..sizeof_addr]);
    buf.extend_from_slice(&1u32.to_le_bytes());
    buf.extend_from_slice(&0u32.to_le_bytes());
    buf.extend_from_slice(&0x200u64.to_le_bytes()[..sizeof_addr]);
    buf.extend_from_slice(&0x300u64.to_le_bytes()[..sizeof_addr]);

    let sb = SuperblockV0V1::decode(&buf).expect("decode failed");
    assert_eq!(sb.version, 1);
    assert_eq!(sb.indexed_storage_k, Some(16));
    assert_eq!(sb.root_symbol_table_entry.btree_addr, 0x200);
}

#[test]
fn test_detect_version() {
    let v0 = build_v0_superblock(0x100, 0x200, 0x300, 0x1000);
    assert_eq!(detect_superblock_version(&v0).unwrap(), 0);

    let sb_v3 = SuperblockV2V3 {
        version: SUPERBLOCK_V3,
        sizeof_offsets: 8,
        sizeof_lengths: 8,
        file_consistency_flags: 0,
        base_address: 0,
        superblock_extension_address: UNDEF_ADDR,
        end_of_file_address: 4096,
        root_group_object_header_address: 48,
    };
    let v3 = sb_v3.encode();
    assert_eq!(detect_superblock_version(&v3).unwrap(), 3);
}

#[test]
fn versions_above_three_are_unknown() {
    let mut buf = build_v0_superblock(0x100, 0x200, 0x300, 0x1000);
    buf[8] = 7;
    assert!(matches!(detect_superblock_version(&buf), Err(FormatError::InvalidVersion(7))));
    buf[8] = 4;
    assert!(matches!(detect_superblock_version(&buf), Err(FormatError::InvalidVersion(4))));
}

#[test]
fn test_bad_sig() {
    let mut buf = build_v0_superblock(0x100, 0x200, 0x300, 0x1000);
    buf[0] = 0;
    assert!(matches!(
        SuperblockV0V1::decode(&buf).unwrap_err(),
        FormatError::InvalidSignature
    ));
}

#[test]
fn test_bad_version() {
    let mut buf = build_v0_superblock(0x100, 0x200, 0x300, 0x1000);
    buf[8] = 5; // invalid version
    assert!(matches!(
        SuperblockV0V1::decode(&buf).unwrap_err(),
        FormatError::InvalidVersion(5)
    ));
}
