//! Superblocks of versions 0 and 1, as they are laid out in a file.

use crate::format::bytes::{
    le_bytes, lemma_le_bytes_len, lemma_le_roundtrip_exact, lemma_pow256_values, pow256,
};
use crate::format::superblock::{
    detected_version, number_at, parsed_entry, parsed_v0v1, signature, sizeof_ok, SuperblockV0V1,
    SymbolTableEntry,
};
use crate::format::{ErrorView, UNDEF_ADDR};
use vstd::prelude::*;

verus! {

/// The entry of the root group: where its name stands, its header, the kind of its cache and
/// four reserved bytes, and 16 bytes that hold the addresses of the B-tree and the heap where
/// the kind is 1.
pub open spec fn entry_bytes(e: SymbolTableEntry, o: nat, l: nat, scratch: Seq<u8>) -> Seq<u8> {
    le_bytes(e.name_offset as nat, l) + le_bytes(e.obj_header_addr as nat, o) + le_bytes(
        e.cache_type as nat,
        4,
    ) + seq![0u8, 0u8, 0u8, 0u8] + scratch
}

/// The fields in front of the addresses. `other` are the versions of parts of the file.
pub open spec fn head_bytes(sb: SuperblockV0V1, other: Seq<u8>) -> Seq<u8> {
    signature() + seq![
        sb.version,
        other[0],
        other[1],
        0u8,
        other[2],
        sb.sizeof_offsets,
        sb.sizeof_lengths,
        0u8,
    ] + le_bytes(sb.sym_leaf_k as nat, 2) + le_bytes(sb.btree_internal_k as nat, 2) + le_bytes(
        sb.file_consistency_flags as nat,
        4,
    )
}

/// The field that only version 1 has.
pub open spec fn storage_bytes(sb: SuperblockV0V1) -> Seq<u8> {
    match sb.indexed_storage_k {
        Some(k) => le_bytes(k as nat, 2) + seq![0u8, 0u8],
        None => Seq::empty(),
    }
}

/// The addresses.
pub open spec fn address_bytes(sb: SuperblockV0V1) -> Seq<u8> {
    let o = sb.sizeof_offsets as nat;
    le_bytes(sb.base_address as nat, o) + le_bytes(sb.superblock_extension_address as nat, o)
        + le_bytes(sb.end_of_file_address as nat, o) + le_bytes(sb.driver_info_address as nat, o)
}

/// The fields of a superblock of version 0 or 1, one behind the other.
pub open spec fn superblock_bytes(sb: SuperblockV0V1, other: Seq<u8>, scratch: Seq<u8>) -> Seq<u8> {
    head_bytes(sb, other) + storage_bytes(sb) + address_bytes(sb) + entry_bytes(
        sb.root_symbol_table_entry,
        sb.sizeof_offsets as nat,
        sb.sizeof_lengths as nat,
        scratch,
    )
}

/// Whether the fields can be laid out: sizes are supported, addresses fit, and version 1
/// alone has the field for indexed storage.
pub open spec fn layable(sb: SuperblockV0V1, other: Seq<u8>, scratch: Seq<u8>) -> bool {
    let o = sb.sizeof_offsets as nat;
    let e = sb.root_symbol_table_entry;
    let limit = pow256(o);
    &&& sizeof_ok(sb.sizeof_offsets)
    &&& sizeof_ok(sb.sizeof_lengths)
    &&& other.len() == 3
    &&& scratch.len() == 16
    &&& if sb.version == 0 {
        sb.indexed_storage_k is None
    } else {
        sb.version == 1 && sb.indexed_storage_k is Some
    }
    &&& sb.base_address < limit
    &&& sb.superblock_extension_address < limit
    &&& sb.end_of_file_address < limit
    &&& sb.driver_info_address < limit
    &&& e.name_offset < pow256(sb.sizeof_lengths as nat)
    &&& e.obj_header_addr < limit
    &&& if e.cache_type == 1 {
        &&& e.btree_addr < limit
        &&& e.heap_addr < limit
        &&& scratch.take(o as int) == le_bytes(e.btree_addr as nat, o)
        &&& scratch.subrange(o as int, 2 * o as int) == le_bytes(e.heap_addr as nat, o)
    } else {
        e.btree_addr == UNDEF_ADDR && e.heap_addr == UNDEF_ADDR
    }
}

/// What stands at `at` is `x`.
pub open spec fn stands(buf: Seq<u8>, at: int, x: Seq<u8>) -> bool {
    &&& 0 <= at
    &&& at + x.len() <= buf.len()
    &&& buf.subrange(at, at + x.len()) == x
}

proof fn lemma_stands(buf: Seq<u8>, at: int, x: Seq<u8>, y: Seq<u8>)
    requires
        stands(buf, at, x + y),
    ensures
        stands(buf, at, x),
        stands(buf, at + x.len(), y),
{
    let z = x + y;
    let s = buf.subrange(at, at + z.len());
    assert(buf.subrange(at, at + x.len()) =~= x) by {
        assert forall|i: int| 0 <= i < x.len() implies buf[at + i] == x[i] by {
            assert(s[i] == z[i]);
        }
    }
    assert(buf.subrange(at + x.len(), at + x.len() + y.len()) =~= y) by {
        assert forall|i: int| 0 <= i < y.len() implies buf[at + x.len() + i] == y[i] by {
            assert(s[x.len() + i] == z[x.len() + i]);
        }
    }
}

proof fn lemma_field(buf: Seq<u8>, at: int, x: nat, n: nat)
    requires
        x < pow256(n),
        stands(buf, at, le_bytes(x, n)),
    ensures
        number_at(buf, at, n) == x,
        le_bytes(x, n).len() == n,
{
    lemma_le_roundtrip_exact(x, n);
}

proof fn lemma_head(sb: SuperblockV0V1, other: Seq<u8>, buf: Seq<u8>)
    requires
        other.len() == 3,
        stands(buf, 0, head_bytes(sb, other)),
    ensures
        head_bytes(sb, other).len() == 24,
        buf.subrange(0, 8) == signature(),
        buf[8] == sb.version,
        buf[13] == sb.sizeof_offsets,
        buf[14] == sb.sizeof_lengths,
        number_at(buf, 16, 2) == sb.sym_leaf_k,
        number_at(buf, 18, 2) == sb.btree_internal_k,
        number_at(buf, 20, 4) == sb.file_consistency_flags,
{
    lemma_pow256_values();
    let m = seq![
        sb.version,
        other[0],
        other[1],
        0u8,
        other[2],
        sb.sizeof_offsets,
        sb.sizeof_lengths,
        0u8,
    ];
    let a = le_bytes(sb.sym_leaf_k as nat, 2);
    let b = le_bytes(sb.btree_internal_k as nat, 2);
    let c = le_bytes(sb.file_consistency_flags as nat, 4);
    lemma_le_bytes_len(sb.sym_leaf_k as nat, 2);
    lemma_le_bytes_len(sb.btree_internal_k as nat, 2);
    lemma_le_bytes_len(sb.file_consistency_flags as nat, 4);
    lemma_stands(buf, 0, signature() + m + a + b, c);
    lemma_stands(buf, 0, signature() + m + a, b);
    lemma_stands(buf, 0, signature() + m, a);
    lemma_stands(buf, 0, signature(), m);
    lemma_field(buf, 16, sb.sym_leaf_k as nat, 2);
    lemma_field(buf, 18, sb.btree_internal_k as nat, 2);
    lemma_field(buf, 20, sb.file_consistency_flags as nat, 4);
    let s = buf.subrange(8, 16);
    assert(s == m);
    assert(s[0] == buf[8] && s[5] == buf[13] && s[6] == buf[14]);
}

proof fn lemma_addresses(sb: SuperblockV0V1, buf: Seq<u8>, at: int)
    requires
        sb.base_address < pow256(sb.sizeof_offsets as nat),
        sb.superblock_extension_address < pow256(sb.sizeof_offsets as nat),
        sb.end_of_file_address < pow256(sb.sizeof_offsets as nat),
        sb.driver_info_address < pow256(sb.sizeof_offsets as nat),
        stands(buf, at, address_bytes(sb)),
    ensures
        ({
            let o = sb.sizeof_offsets as nat;
            &&& address_bytes(sb).len() == 4 * o
            &&& number_at(buf, at, o) == sb.base_address
            &&& number_at(buf, at + o, o) == sb.superblock_extension_address
            &&& number_at(buf, at + 2 * o, o) == sb.end_of_file_address
            &&& number_at(buf, at + 3 * o, o) == sb.driver_info_address
        }),
{
    let o = sb.sizeof_offsets as nat;
    let a = le_bytes(sb.base_address as nat, o);
    let b = le_bytes(sb.superblock_extension_address as nat, o);
    let c = le_bytes(sb.end_of_file_address as nat, o);
    let d = le_bytes(sb.driver_info_address as nat, o);
    lemma_le_bytes_len(sb.base_address as nat, o);
    lemma_le_bytes_len(sb.superblock_extension_address as nat, o);
    lemma_le_bytes_len(sb.end_of_file_address as nat, o);
    lemma_le_bytes_len(sb.driver_info_address as nat, o);
    lemma_stands(buf, at, a + b + c, d);
    lemma_stands(buf, at, a + b, c);
    lemma_stands(buf, at, a, b);
    lemma_field(buf, at, sb.base_address as nat, o);
    lemma_field(buf, at + o, sb.superblock_extension_address as nat, o);
    lemma_field(buf, at + 2 * o, sb.end_of_file_address as nat, o);
    lemma_field(buf, at + 3 * o, sb.driver_info_address as nat, o);
}

proof fn lemma_entry(e: SymbolTableEntry, o: nat, l: nat, scratch: Seq<u8>, buf: Seq<u8>, at: int)
    requires
        o <= 8,
        scratch.len() == 16,
        e.name_offset < pow256(l),
        e.obj_header_addr < pow256(o),
        if e.cache_type == 1 {
            &&& e.btree_addr < pow256(o)
            &&& e.heap_addr < pow256(o)
            &&& scratch.take(o as int) == le_bytes(e.btree_addr as nat, o)
            &&& scratch.subrange(o as int, 2 * o as int) == le_bytes(e.heap_addr as nat, o)
        } else {
            e.btree_addr == UNDEF_ADDR && e.heap_addr == UNDEF_ADDR
        },
        stands(buf, at, entry_bytes(e, o, l, scratch)),
    ensures
        parsed_entry(buf, at, o, l) == Ok::<SymbolTableEntry, ErrorView>(e),
{
    lemma_pow256_values();
    let a = le_bytes(e.name_offset as nat, l);
    let b = le_bytes(e.obj_header_addr as nat, o);
    let c = le_bytes(e.cache_type as nat, 4);
    let d = seq![0u8, 0u8, 0u8, 0u8];
    lemma_le_bytes_len(e.name_offset as nat, l);
    lemma_le_bytes_len(e.obj_header_addr as nat, o);
    lemma_le_bytes_len(e.cache_type as nat, 4);
    lemma_stands(buf, at, a + b + c + d, scratch);
    lemma_stands(buf, at, a + b + c, d);
    lemma_stands(buf, at, a + b, c);
    lemma_stands(buf, at, a, b);
    lemma_field(buf, at, e.name_offset as nat, l);
    lemma_field(buf, at + l, e.obj_header_addr as nat, o);
    lemma_field(buf, at + l + o, e.cache_type as nat, 4);
    if e.cache_type == 1 {
        let p = at + l + o + 8;
        let x = scratch.take(o as int);
        let y = scratch.subrange(o as int, 2 * o as int);
        let z = scratch.skip(2 * o as int);
        assert(scratch =~= x + y + z);
        lemma_stands(buf, p, x + y, z);
        lemma_stands(buf, p, x, y);
        lemma_field(buf, p, e.btree_addr as nat, o);
        lemma_field(buf, p + o, e.heap_addr as nat, o);
    }
}

/// Superblocks of versions 0 and 1 read back: every field that is laid out is the field that
/// is decoded, whatever follows.
pub proof fn lemma_superblock_v0_reads_back(
    sb: SuperblockV0V1,
    other: Seq<u8>,
    scratch: Seq<u8>,
    tail: Seq<u8>,
)
    requires
        layable(sb, other, scratch),
    ensures
        parsed_v0v1(superblock_bytes(sb, other, scratch) + tail) == Ok::<SuperblockV0V1, ErrorView>(
            sb,
        ),
        detected_version(superblock_bytes(sb, other, scratch) + tail) == Ok::<u8, ErrorView>(
            sb.version,
        ),
{
    lemma_pow256_values();
    let o = sb.sizeof_offsets as nat;
    let e = sb.root_symbol_table_entry;
    let buf = superblock_bytes(sb, other, scratch) + tail;
    let h = head_bytes(sb, other);
    let k = storage_bytes(sb);
    let a = address_bytes(sb);
    let r = entry_bytes(e, o, sb.sizeof_lengths as nat, scratch);
    assert(buf.subrange(0, buf.len() as int) =~= buf);
    lemma_stands(buf, 0, h + k + a + r, tail);
    lemma_stands(buf, 0, h + k + a, r);
    lemma_stands(buf, 0, h + k, a);
    lemma_stands(buf, 0, h, k);
    lemma_head(sb, other, buf);
    let at = 24 + k.len() as int;
    match sb.indexed_storage_k {
        Some(v) => {
            lemma_le_bytes_len(v as nat, 2);
            lemma_stands(buf, 24, le_bytes(v as nat, 2), seq![0u8, 0u8]);
            lemma_field(buf, 24, v as nat, 2);
        },
        None => {},
    }
    lemma_addresses(sb, buf, at);
    lemma_entry(e, o, sb.sizeof_lengths as nat, scratch, buf, at + 4 * o);
}

} // verus!
