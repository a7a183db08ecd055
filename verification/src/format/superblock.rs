//! The superblock: the start of a file.
//!
//! Versions 2 and 3 are written and read; versions 0 and 1 are read.

use crate::format::bytes::{
    le_bytes, le_value, lemma_le_bytes_len, lemma_le_roundtrip_exact, lemma_pow256_values, pow256,
    push_le, read_le_at,
};
use crate::format::checksum::{checksum, checksum_metadata};
use crate::format::{too_short, ErrorView, FormatError, FormatResult, UNDEF_ADDR};
use crate::text::{append_decimal, decimal};
use vstd::prelude::*;
use vstd::slice::slice_subrange;
use vstd::string::StringExecFns;

verus! {

/// The signature at the start of every superblock.
pub const HDF5_SIGNATURE: [u8; 8] = [0x89, 0x48, 0x44, 0x46, 0x0d, 0x0a, 0x1a, 0x0a];

/// Superblock version 2.
pub const SUPERBLOCK_V2: u8 = 2;

/// Superblock version 3, with support for single-writer/multiple-reader access.
pub const SUPERBLOCK_V3: u8 = 3;

/// Consistency flag: the file is open for writing.
pub const FLAG_WRITE_ACCESS: u8 = 0x01;

/// Consistency flag: the file was closed properly.
pub const FLAG_FILE_OK: u8 = 0x02;

/// Consistency flag: the file is open for single-writer/multiple-reader access.
pub const FLAG_SWMR_WRITE: u8 = 0x04;

/// A superblock of version 2 or 3.
///
/// ```text
/// signature (8), version (1), sizes of offsets and lengths (1 + 1), flags (1),
/// base address, extension address, end of file, root group header
/// (one offset each), checksum (4)
/// ```
#[derive(Debug, Clone, Copy, PartialEq, Eq, Structural)]
pub struct SuperblockV2V3 {
    /// 2 or 3.
    pub version: u8,
    /// Bytes of a file offset.
    pub sizeof_offsets: u8,
    /// Bytes of a length.
    pub sizeof_lengths: u8,
    /// Consistency flags.
    pub file_consistency_flags: u8,
    /// Address that the others are relative to.
    pub base_address: u64,
    /// Address of the superblock extension, or no address.
    pub superblock_extension_address: u64,
    /// End of the file.
    pub end_of_file_address: u64,
    /// Address of the object header of the root group.
    pub root_group_object_header_address: u64,
}

/// The signature.
pub open spec fn signature() -> Seq<u8> {
    seq![0x89u8, 0x48, 0x44, 0x46, 0x0d, 0x0a, 0x1a, 0x0a]
}

/// Whether `buf` starts with the signature.
pub open spec fn signed(buf: Seq<u8>) -> bool {
    buf.subrange(0, 8) == signature()
}

/// Whether a size of offsets or lengths is supported.
pub open spec fn sizeof_ok(v: u8) -> bool {
    v == 2 || v == 4 || v == 8
}

/// The message about an unsupported size.
pub open spec fn sizeof_message(name: Seq<char>, v: u8) -> Seq<char> {
    "unsupported superblock "@ + name + " = "@ + decimal(v as nat) + " (only 2, 4, 8 are supported)"@
}

/// The number in `buf[pos .. pos + n]`.
pub open spec fn number_at(buf: Seq<u8>, pos: int, n: nat) -> nat {
    le_value(buf.subrange(pos, pos + n))
}

impl SuperblockV2V3 {
    /// Bytes of the superblock.
    pub open spec fn spec_encoded_size(self) -> nat {
        16 + 4 * self.sizeof_offsets as nat
    }

    /// The bytes that the checksum covers.
    pub open spec fn body(self) -> Seq<u8> {
        let o = self.sizeof_offsets as nat;
        signature() + seq![
            self.version,
            self.sizeof_offsets,
            self.sizeof_lengths,
            self.file_consistency_flags,
        ] + le_bytes(self.base_address as nat, o) + le_bytes(
            self.superblock_extension_address as nat,
            o,
        ) + le_bytes(self.end_of_file_address as nat, o) + le_bytes(
            self.root_group_object_header_address as nat,
            o,
        )
    }

    /// The bytes of the superblock.
    pub open spec fn bytes(self) -> Seq<u8> {
        self.body() + le_bytes(checksum(self.body()) as nat, 4)
    }

    /// Whether the fields can be written and read back: the version and the
    /// sizes are supported, and the addresses fit.
    pub open spec fn valid(self) -> bool {
        let limit = pow256(self.sizeof_offsets as nat);
        &&& self.version == 2 || self.version == 3
        &&& sizeof_ok(self.sizeof_offsets)
        &&& sizeof_ok(self.sizeof_lengths)
        &&& self.base_address < limit
        &&& self.superblock_extension_address < limit
        &&& self.end_of_file_address < limit
        &&& self.root_group_object_header_address < limit
    }

    /// Bytes of the superblock.
    pub fn encoded_size(&self) -> (n: usize)
        ensures
            n == self.spec_encoded_size(),
    {
        12 + 4 * (self.sizeof_offsets as usize) + 4
    }

    /// The bytes of the superblock, the checksum included.
    pub fn encode(&self) -> (buf: Vec<u8>)
        requires
            self.sizeof_offsets <= 8,
        ensures
            buf@ == self.bytes(),
            buf@.len() == self.spec_encoded_size(),
    {
        let mut buf: Vec<u8> = Vec::with_capacity(self.encoded_size());
        push_signature(&mut buf);
        buf.push(self.version);
        buf.push(self.sizeof_offsets);
        buf.push(self.sizeof_lengths);
        buf.push(self.file_consistency_flags);
        let o: usize = self.sizeof_offsets as usize;
        push_le(&mut buf, self.base_address, o);
        push_le(&mut buf, self.superblock_extension_address, o);
        push_le(&mut buf, self.end_of_file_address, o);
        push_le(&mut buf, self.root_group_object_header_address, o);
        proof {
            lemma_body_len(*self);
            lemma_le_bytes_len(checksum(self.body()) as nat, 4);
        }
        assert(buf@ =~= self.body());
        let sum: u32 = checksum_metadata(buf.as_slice());
        push_le(&mut buf, sum as u64, 4);
        buf
    }

    /// Decode a superblock of version 2 or 3 at the start of `buf`.
    pub fn decode(buf: &[u8]) -> (r: FormatResult<Self>)
        ensures
            view_of(r) == parsed_v2v3(buf@),
    {
        let len: usize = buf.len();
        if len < 12 {
            return Err(too_short(12, len));
        }
        if !has_signature(buf) {
            return Err(FormatError::InvalidSignature);
        }
        let version: u8 = buf[8];
        if version != SUPERBLOCK_V2 && version != SUPERBLOCK_V3 {
            return Err(FormatError::InvalidVersion(version));
        }
        let sizeof_offsets: u8 = buf[9];
        let sizeof_lengths: u8 = buf[10];
        let file_consistency_flags: u8 = buf[11];
        match validate_sizeof(sizeof_offsets, sizeof_lengths) {
            Ok(_) => {},
            Err(e) => return Err(e),
        }
        let o: usize = sizeof_offsets as usize;
        let end: usize = 12 + 4 * o;
        if len < end + 4 {
            return Err(too_short(end + 4, len));
        }
        proof {
            lemma_pow256_values();
        }
        let stored: u32 = read_le_at(buf, end, 4) as u32;
        assert(buf@.subrange(0, end as int) =~= buf@.take(end as int));
        let computed: u32 = checksum_metadata(slice_subrange(buf, 0, end));
        if stored != computed {
            return Err(FormatError::ChecksumMismatch { expected: stored, computed });
        }
        Ok(
            SuperblockV2V3 {
                version,
                sizeof_offsets,
                sizeof_lengths,
                file_consistency_flags,
                base_address: read_le_at(buf, 12, o),
                superblock_extension_address: read_le_at(buf, 12 + o, o),
                end_of_file_address: read_le_at(buf, 12 + 2 * o, o),
                root_group_object_header_address: read_le_at(buf, 12 + 3 * o, o),
            },
        )
    }
}

/// What a decoding function returns.
pub open spec fn view_of<T>(r: FormatResult<T>) -> Result<T, ErrorView> {
    match r {
        Ok(v) => Ok(v),
        Err(e) => Err(e@),
    }
}

/// What is wrong with the sizes of offsets and lengths.
pub open spec fn sizeof_error(offsets: u8, lengths: u8) -> Option<ErrorView> {
    if !sizeof_ok(offsets) {
        Some(ErrorView::InvalidData(sizeof_message("sizeof_offsets"@, offsets)))
    } else if !sizeof_ok(lengths) {
        Some(ErrorView::InvalidData(sizeof_message("sizeof_lengths"@, lengths)))
    } else {
        None
    }
}

/// The superblock of version 2 or 3 that `buf` starts with.
pub open spec fn parsed_v2v3(buf: Seq<u8>) -> Result<SuperblockV2V3, ErrorView> {
    let o = buf[9] as nat;
    let oi = buf[9] as int;
    let end = 12 + 4 * o;
    if buf.len() < 12 {
        Err(ErrorView::BufferTooShort { needed: 12, available: buf.len() })
    } else if !signed(buf) {
        Err(ErrorView::InvalidSignature)
    } else if buf[8] != 2 && buf[8] != 3 {
        Err(ErrorView::InvalidVersion(buf[8]))
    } else if let Some(e) = sizeof_error(buf[9], buf[10]) {
        Err(e)
    } else if buf.len() < end + 4 {
        Err(ErrorView::BufferTooShort { needed: end + 4, available: buf.len() })
    } else if number_at(buf, end as int, 4) as u32 != checksum(buf.take(end as int)) {
        Err(
            ErrorView::ChecksumMismatch {
                expected: number_at(buf, end as int, 4) as u32,
                computed: checksum(buf.take(end as int)),
            },
        )
    } else {
        Ok(
            SuperblockV2V3 {
                version: buf[8],
                sizeof_offsets: buf[9],
                sizeof_lengths: buf[10],
                file_consistency_flags: buf[11],
                base_address: number_at(buf, 12, o) as u64,
                superblock_extension_address: number_at(buf, 12 + oi, o) as u64,
                end_of_file_address: number_at(buf, 12 + 2 * oi, o) as u64,
                root_group_object_header_address: number_at(buf, 12 + 3 * oi, o) as u64,
            },
        )
    }
}

fn push_signature(buf: &mut Vec<u8>)
    ensures
        final(buf)@ == old(buf)@ + signature(),
{
    buf.push(0x89);
    buf.push(0x48);
    buf.push(0x44);
    buf.push(0x46);
    buf.push(0x0d);
    buf.push(0x0a);
    buf.push(0x1a);
    buf.push(0x0a);
    assert(buf@ =~= old(buf)@ + signature());
}

/// Whether `buf` starts with the signature.
pub fn has_signature(buf: &[u8]) -> (r: bool)
    requires
        buf@.len() >= 8,
    ensures
        r == signed(buf@),
{
    let ghost head = buf@.subrange(0, 8);
    let r: bool = buf[0] == 0x89 && buf[1] == 0x48 && buf[2] == 0x44 && buf[3] == 0x46 && buf[4]
        == 0x0d && buf[5] == 0x0a && buf[6] == 0x1a && buf[7] == 0x0a;
    proof {
        let want = signature();
        if r {
            assert(head =~= want);
        } else {
            assert(head[0] == buf@[0] && head[1] == buf@[1] && head[2] == buf@[2] && head[3]
                == buf@[3]);
            assert(head[4] == buf@[4] && head[5] == buf@[5] && head[6] == buf@[6] && head[7]
                == buf@[7]);
            assert(want[0] == 0x89 && want[1] == 0x48 && want[2] == 0x44 && want[3] == 0x46);
            assert(want[4] == 0x0d && want[5] == 0x0a && want[6] == 0x1a && want[7] == 0x0a);
        }
    }
    r
}

fn bad_sizeof(name: &str, v: u8) -> (e: FormatError)
    ensures
        e@ == ErrorView::InvalidData(sizeof_message(name@, v)),
{
    let mut s = "unsupported superblock ".to_owned();
    s.append(name);
    s.append(" = ");
    append_decimal(&mut s, v as u64);
    s.append(" (only 2, 4, 8 are supported)");
    FormatError::InvalidData(s)
}

/// Refuse sizes of offsets and lengths other than 2, 4 and 8 bytes.
fn validate_sizeof(sizeof_offsets: u8, sizeof_lengths: u8) -> (r: FormatResult<()>)
    ensures
        match sizeof_error(sizeof_offsets, sizeof_lengths) {
            Some(v) => r matches Err(e) && e@ == v,
            None => r is Ok,
        },
{
    if sizeof_offsets != 2 && sizeof_offsets != 4 && sizeof_offsets != 8 {
        return Err(bad_sizeof("sizeof_offsets", sizeof_offsets));
    }
    if sizeof_lengths != 2 && sizeof_lengths != 4 && sizeof_lengths != 8 {
        return Err(bad_sizeof("sizeof_lengths", sizeof_lengths));
    }
    Ok(())
}

/// An entry of a symbol table, as the superblock holds it of the root group.
#[derive(Debug, Clone, Copy, PartialEq, Eq, Structural)]
pub struct SymbolTableEntry {
    /// Offset of the name in the local heap.
    pub name_offset: u64,
    /// Address of the object header.
    pub obj_header_addr: u64,
    /// What is cached: 0 for nothing, 1 for a symbol table.
    pub cache_type: u32,
    /// Address of the B-tree of a cached symbol table.
    pub btree_addr: u64,
    /// Address of the local heap of a cached symbol table.
    pub heap_addr: u64,
}

/// A superblock of version 0 or 1.
///
/// ```text
/// signature (8), version (1), free-space version (1), entry version (1), 0,
/// header version (1), sizes of offsets and lengths (1 + 1), 0,
/// symbol table leaf size (2), B-tree internal size (2), flags (4),
/// [version 1: chunk B-tree size (2), 0, 0],
/// base address, extension address, end of file, driver information
/// (one offset each), symbol table entry of the root group
/// ```
#[derive(Debug, Clone, Copy, PartialEq, Eq, Structural)]
pub struct SuperblockV0V1 {
    pub version: u8,
    pub sizeof_offsets: u8,
    pub sizeof_lengths: u8,
    pub file_consistency_flags: u32,
    pub sym_leaf_k: u16,
    pub btree_internal_k: u16,
    pub indexed_storage_k: Option<u16>,
    pub base_address: u64,
    pub superblock_extension_address: u64,
    pub end_of_file_address: u64,
    pub driver_info_address: u64,
    pub root_symbol_table_entry: SymbolTableEntry,
}

/// Bytes of a symbol table entry.
pub open spec fn entry_size(sizeof_addr: nat, sizeof_size: nat) -> nat {
    sizeof_size + sizeof_addr + 24
}

/// The symbol table entry at `pos`.
pub open spec fn parsed_entry(buf: Seq<u8>, pos: int, sizeof_addr: nat, sizeof_size: nat) -> Result<
    SymbolTableEntry,
    ErrorView,
> {
    let end = pos + entry_size(sizeof_addr, sizeof_size);
    let kind_at = pos + sizeof_size + sizeof_addr;
    let cache_type = number_at(buf, kind_at, 4) as u32;
    let scratch = kind_at + 8;
    if buf.len() < end {
        Err(ErrorView::BufferTooShort { needed: end as nat, available: buf.len() })
    } else {
        Ok(
            SymbolTableEntry {
                name_offset: number_at(buf, pos, sizeof_size) as u64,
                obj_header_addr: number_at(buf, pos + sizeof_size, sizeof_addr) as u64,
                cache_type,
                btree_addr: if cache_type == 1 {
                    number_at(buf, scratch, sizeof_addr) as u64
                } else {
                    UNDEF_ADDR
                },
                heap_addr: if cache_type == 1 {
                    number_at(buf, scratch + sizeof_addr, sizeof_addr) as u64
                } else {
                    UNDEF_ADDR
                },
            },
        )
    }
}

/// The superblock of version 0 or 1 that `buf` starts with.
pub open spec fn parsed_v0v1(buf: Seq<u8>) -> Result<SuperblockV0V1, ErrorView> {
    let version = buf[8];
    let o = buf[13] as nat;
    let addrs: nat = if version == 1 {
        28
    } else {
        24
    };
    let short = |needed: nat| ErrorView::BufferTooShort { needed, available: buf.len() };
    if buf.len() < 16 {
        Err(short(16))
    } else if !signed(buf) {
        Err(ErrorView::InvalidSignature)
    } else if version != 0 && version != 1 {
        Err(ErrorView::InvalidVersion(version))
    } else if let Some(e) = sizeof_error(buf[13], buf[14]) {
        Err(e)
    } else if buf.len() < 20 {
        Err(short(20))
    } else if buf.len() < 24 {
        Err(short(24))
    } else if buf.len() < addrs {
        Err(short(addrs))
    } else if buf.len() < addrs + 4 * o {
        Err(short(addrs + 4 * o))
    } else {
        match parsed_entry(buf, (addrs + 4 * o) as int, o, buf[14] as nat) {
            Err(e) => Err(e),
            Ok(entry) => Ok(
                SuperblockV0V1 {
                    version,
                    sizeof_offsets: buf[13],
                    sizeof_lengths: buf[14],
                    file_consistency_flags: number_at(buf, 20, 4) as u32,
                    sym_leaf_k: number_at(buf, 16, 2) as u16,
                    btree_internal_k: number_at(buf, 18, 2) as u16,
                    indexed_storage_k: if version == 1 {
                        Some(number_at(buf, 24, 2) as u16)
                    } else {
                        None
                    },
                    base_address: number_at(buf, addrs as int, o) as u64,
                    superblock_extension_address: number_at(buf, (addrs + o) as int, o) as u64,
                    end_of_file_address: number_at(buf, (addrs + 2 * o) as int, o) as u64,
                    driver_info_address: number_at(buf, (addrs + 3 * o) as int, o) as u64,
                    root_symbol_table_entry: entry,
                },
            ),
        }
    }
}

impl SuperblockV0V1 {
    /// Decode a superblock of version 0 or 1 at the start of `buf`.
    pub fn decode(buf: &[u8]) -> (r: FormatResult<Self>)
        ensures
            view_of(r) == parsed_v0v1(buf@),
    {
        let len: usize = buf.len();
        if len < 16 {
            return Err(too_short(16, len));
        }
        if !has_signature(buf) {
            return Err(FormatError::InvalidSignature);
        }
        let version: u8 = buf[8];
        if version != 0 && version != 1 {
            return Err(FormatError::InvalidVersion(version));
        }
        let sizeof_offsets: u8 = buf[13];
        let sizeof_lengths: u8 = buf[14];
        match validate_sizeof(sizeof_offsets, sizeof_lengths) {
            Ok(_) => {},
            Err(e) => return Err(e),
        }
        let o: usize = sizeof_offsets as usize;
        if len < 20 {
            return Err(too_short(20, len));
        }
        proof {
            lemma_pow256_values();
        }
        let sym_leaf_k: u16 = read_le_at(buf, 16, 2) as u16;
        let btree_internal_k: u16 = read_le_at(buf, 18, 2) as u16;
        if len < 24 {
            return Err(too_short(24, len));
        }
        let file_consistency_flags: u32 = read_le_at(buf, 20, 4) as u32;
        let mut pos: usize = 24;
        let mut indexed_storage_k: Option<u16> = None;
        if version == 1 {
            if len < 28 {
                return Err(too_short(28, len));
            }
            indexed_storage_k = Some(read_le_at(buf, 24, 2) as u16);
            pos = 28;
        }
        let addrs: usize = pos;
        if len < addrs + 4 * o {
            return Err(too_short(addrs + 4 * o, len));
        }
        pos = addrs + 4 * o;
        let entry = match decode_symbol_table_entry(buf, &mut pos, o, sizeof_lengths as usize) {
            Ok(entry) => entry,
            Err(e) => return Err(e),
        };
        Ok(
            SuperblockV0V1 {
                version,
                sizeof_offsets,
                sizeof_lengths,
                file_consistency_flags,
                sym_leaf_k,
                btree_internal_k,
                indexed_storage_k,
                base_address: read_le_at(buf, addrs, o),
                superblock_extension_address: read_le_at(buf, addrs + o, o),
                end_of_file_address: read_le_at(buf, addrs + 2 * o, o),
                driver_info_address: read_le_at(buf, addrs + 3 * o, o),
                root_symbol_table_entry: entry,
            },
        )
    }
}

/// Decode the symbol table entry at `pos`, and move `pos` behind it.
pub fn decode_symbol_table_entry(
    buf: &[u8],
    pos: &mut usize,
    sizeof_addr: usize,
    sizeof_size: usize,
) -> (r: FormatResult<SymbolTableEntry>)
    requires
        sizeof_addr <= 8,
        sizeof_size <= 8,
        *old(pos) + entry_size(sizeof_addr as nat, sizeof_size as nat) <= usize::MAX,
    ensures
        view_of(r) == parsed_entry(
            buf@,
            *old(pos) as int,
            sizeof_addr as nat,
            sizeof_size as nat,
        ),
        *final(pos) == if r is Ok {
            *old(pos) + entry_size(sizeof_addr as nat, sizeof_size as nat)
        } else {
            *old(pos) as int
        },
{
    let start: usize = *pos;
    let end: usize = start + sizeof_size + sizeof_addr + 24;
    if buf.len() < end {
        return Err(too_short(end, buf.len()));
    }
    proof {
        lemma_pow256_values();
    }
    let name_offset: u64 = read_le_at(buf, start, sizeof_size);
    let obj_header_addr: u64 = read_le_at(buf, start + sizeof_size, sizeof_addr);
    let kind_at: usize = start + sizeof_size + sizeof_addr;
    let cache_type: u32 = read_le_at(buf, kind_at, 4) as u32;
    let scratch: usize = kind_at + 8;
    *pos = end;
    if cache_type == 1 {
        Ok(
            SymbolTableEntry {
                name_offset,
                obj_header_addr,
                cache_type,
                btree_addr: read_le_at(buf, scratch, sizeof_addr),
                heap_addr: read_le_at(buf, scratch + sizeof_addr, sizeof_addr),
            },
        )
    } else {
        Ok(
            SymbolTableEntry {
                name_offset,
                obj_header_addr,
                cache_type,
                btree_addr: UNDEF_ADDR,
                heap_addr: UNDEF_ADDR,
            },
        )
    }
}

/// The version of the superblock that `buf` starts with.
pub open spec fn detected_version(buf: Seq<u8>) -> Result<u8, ErrorView> {
    if buf.len() < 9 {
        Err(ErrorView::BufferTooShort { needed: 9, available: buf.len() })
    } else if !signed(buf) {
        Err(ErrorView::InvalidSignature)
    } else if buf[8] > 3 {
        Err(ErrorView::InvalidVersion(buf[8]))
    } else {
        Ok(buf[8])
    }
}

/// Tell the version of the superblock that `buf` starts with.
pub fn detect_superblock_version(buf: &[u8]) -> (r: FormatResult<u8>)
    ensures
        view_of(r) == detected_version(buf@),
{
    if buf.len() < 9 {
        return Err(too_short(9, buf.len()));
    }
    if !has_signature(buf) {
        return Err(FormatError::InvalidSignature);
    }
    if buf[8] > 3 {
        return Err(FormatError::InvalidVersion(buf[8]));
    }
    Ok(buf[8])
}

proof fn lemma_body_len(sb: SuperblockV2V3)
    ensures
        sb.body().len() == 12 + 4 * sb.sizeof_offsets as nat,
{
    let o = sb.sizeof_offsets as nat;
    lemma_le_bytes_len(sb.base_address as nat, o);
    lemma_le_bytes_len(sb.superblock_extension_address as nat, o);
    lemma_le_bytes_len(sb.end_of_file_address as nat, o);
    lemma_le_bytes_len(sb.root_group_object_header_address as nat, o);
}

/// The parts of an encoded superblock.
pub proof fn lemma_superblock_parts(sb: SuperblockV2V3, tail: Seq<u8>)
    ensures
        ({
            let buf = sb.bytes() + tail;
            let o = sb.sizeof_offsets as nat;
            let oi = sb.sizeof_offsets as int;
            let end = 12 + 4 * o;
            &&& sb.bytes().len() == end + 4
            &&& signed(buf)
            &&& buf[8] == sb.version
            &&& buf[9] == sb.sizeof_offsets
            &&& buf[10] == sb.sizeof_lengths
            &&& buf[11] == sb.file_consistency_flags
            &&& buf.subrange(12, 12 + oi) == le_bytes(sb.base_address as nat, o)
            &&& buf.subrange(12 + oi, 12 + 2 * oi) == le_bytes(
                sb.superblock_extension_address as nat,
                o,
            )
            &&& buf.subrange(12 + 2 * oi, 12 + 3 * oi) == le_bytes(sb.end_of_file_address as nat, o)
            &&& buf.subrange(12 + 3 * oi, 12 + 4 * oi) == le_bytes(
                sb.root_group_object_header_address as nat,
                o,
            )
            &&& buf.take(end as int) == sb.body()
            &&& buf.subrange(end as int, end as int + 4) == le_bytes(checksum(sb.body()) as nat, 4)
        }),
{
    let buf = sb.bytes() + tail;
    let o = sb.sizeof_offsets as nat;
    let oi = sb.sizeof_offsets as int;
    let end = 12 + 4 * o;
    lemma_body_len(sb);
    lemma_le_bytes_len(sb.base_address as nat, o);
    lemma_le_bytes_len(sb.superblock_extension_address as nat, o);
    lemma_le_bytes_len(sb.end_of_file_address as nat, o);
    lemma_le_bytes_len(sb.root_group_object_header_address as nat, o);
    lemma_le_bytes_len(checksum(sb.body()) as nat, 4);
    assert(buf.subrange(0, 8) =~= signature());
    assert(buf.subrange(12, 12 + oi) =~= le_bytes(sb.base_address as nat, o));
    assert(buf.subrange(12 + oi, 12 + 2 * oi) =~= le_bytes(
        sb.superblock_extension_address as nat,
        o,
    ));
    assert(buf.subrange(12 + 2 * oi, 12 + 3 * oi) =~= le_bytes(sb.end_of_file_address as nat, o));
    assert(buf.subrange(12 + 3 * oi, 12 + 4 * oi) =~= le_bytes(
        sb.root_group_object_header_address as nat,
        o,
    ));
    assert(buf.take(end as int) =~= sb.body());
    assert(buf.subrange(end as int, end as int + 4) =~= le_bytes(checksum(sb.body()) as nat, 4));
}

/// Decoding what was encoded gives the superblock back, and ignores what
/// follows it; its version is told from the same bytes.
pub proof fn lemma_superblock_roundtrip(sb: SuperblockV2V3, tail: Seq<u8>)
    requires
        sb.valid(),
    ensures
        parsed_v2v3(sb.bytes() + tail) == Ok::<SuperblockV2V3, ErrorView>(sb),
        detected_version(sb.bytes() + tail) == Ok::<u8, ErrorView>(sb.version),
{
    let o = sb.sizeof_offsets as nat;
    lemma_superblock_parts(sb, tail);
    lemma_pow256_values();
    lemma_le_roundtrip_exact(sb.base_address as nat, o);
    lemma_le_roundtrip_exact(sb.superblock_extension_address as nat, o);
    lemma_le_roundtrip_exact(sb.end_of_file_address as nat, o);
    lemma_le_roundtrip_exact(sb.root_group_object_header_address as nat, o);
    lemma_le_roundtrip_exact(checksum(sb.body()) as nat, 4);
}

} // verus!
