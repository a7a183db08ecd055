//! Global heaps: where values of variable length are stored.

use crate::format::bytes::{
    le_bytes, le_value, lemma_le_bytes_len, lemma_le_roundtrip_exact, lemma_pow256_values, push_le,
    read_le_at,
};
use crate::format::{too_short, ErrorView, FormatContext, FormatResult};
use vstd::prelude::*;

verus! {

/// Largest heap that is read.
pub const MAX_COLLECTION: u64 = 0x400_0000;

/// An object of a heap.
#[derive(Debug)]
pub struct HeapObject {
    /// Number of the object within its heap.
    pub index: u16,
    /// The value.
    pub data: Vec<u8>,
}

/// Bytes of a reference to an object.
pub open spec fn reference_size(ctx: FormatContext) -> nat {
    8 + ctx.sizeof_addr as nat
}

/// Bytes of a reference to an object.
pub fn vlen_reference_size(ctx: &FormatContext) -> (n: usize)
    ensures
        n == reference_size(*ctx),
{
    8 + ctx.sizeof_addr as usize
}

/// A reference: the length of the value, the address of the heap and the number
/// of the object.
pub open spec fn reference_bytes(len: u32, addr: u64, index: u32, ctx: FormatContext) -> Seq<u8> {
    le_bytes(len as nat, 4) + le_bytes(addr as nat, ctx.sizeof_addr as nat) + le_bytes(
        index as nat,
        4,
    )
}

/// Encode a reference to an object.
pub fn encode_vlen_reference(seq_len: u32, addr: u64, index: u32, ctx: &FormatContext) -> (b: Vec<
    u8,
>)
    ensures
        b@ == reference_bytes(seq_len, addr, index, *ctx),
        b@.len() == reference_size(*ctx),
{
    let mut b: Vec<u8> = Vec::new();
    push_le(&mut b, seq_len as u64, 4);
    push_le(&mut b, addr, ctx.sizeof_addr as usize);
    push_le(&mut b, index as u64, 4);
    proof {
        lemma_le_bytes_len(seq_len as nat, 4);
        lemma_le_bytes_len(addr as nat, ctx.sizeof_addr as nat);
        lemma_le_bytes_len(index as nat, 4);
        assert(b@ =~= reference_bytes(seq_len, addr, index, *ctx));
    }
    b
}

/// What the reference at the start of `b` says.
pub open spec fn reference_at(b: Seq<u8>, ctx: FormatContext) -> (u32, u64, u32) {
    let sa = ctx.sizeof_addr as int;
    (
        le_value(b.subrange(0, 4)) as u32,
        le_value(b.subrange(4, 4 + sa)) as u64,
        le_value(b.subrange(4 + sa, 8 + sa)) as u32,
    )
}

/// Decode a reference to an object.
pub fn decode_vlen_reference(b: &[u8], ctx: &FormatContext) -> (r: FormatResult<(u32, u64, u32)>)
    requires
        ctx.sizeof_addr <= 8,
    ensures
        match r {
            Ok(v) => b@.len() >= reference_size(*ctx) && v == reference_at(b@, *ctx),
            Err(e) => b@.len() < reference_size(*ctx) && e@ == (ErrorView::BufferTooShort {
                needed: reference_size(*ctx),
                available: b@.len(),
            }),
        },
{
    let sa: usize = ctx.sizeof_addr as usize;
    if b.len() < 8 + sa {
        return Err(too_short(8 + sa, b.len()));
    }
    proof {
        lemma_pow256_values();
    }
    let len: u64 = read_le_at(b, 0, 4);
    let addr: u64 = read_le_at(b, 4, sa);
    let index: u64 = read_le_at(b, 4 + sa, 4);
    Ok((len as u32, addr, index as u32))
}

/// A reference that has been encoded is decoded again.
pub proof fn lemma_reference_roundtrip(len: u32, addr: u64, index: u32, ctx: FormatContext)
    requires
        ctx.sizeof_addr <= 8,
        addr < crate::format::bytes::pow256(ctx.sizeof_addr as nat),
    ensures
        reference_bytes(len, addr, index, ctx).len() == reference_size(ctx),
        reference_at(reference_bytes(len, addr, index, ctx), ctx) == (len, addr, index),
{
    let sa = ctx.sizeof_addr as nat;
    lemma_pow256_values();
    lemma_le_roundtrip_exact(len as nat, 4);
    lemma_le_roundtrip_exact(addr as nat, sa);
    lemma_le_roundtrip_exact(index as nat, 4);
    let b = reference_bytes(len, addr, index, ctx);
    let s = sa as int;
    assert(b.subrange(0, 4) =~= le_bytes(len as nat, 4));
    assert(b.subrange(4, 4 + s) =~= le_bytes(addr as nat, sa));
    assert(b.subrange(4 + s, 8 + s) =~= le_bytes(index as nat, 4));
}

/// The size of the heap whose first bytes are `b`, if it is one that can be read.
pub open spec fn heap_size(b: Seq<u8>, ctx: FormatContext) -> Option<u64> {
    let ss = ctx.sizeof_size as int;
    if b.len() < 8 + ss || b.subrange(0, 4) != seq![0x47u8, 0x43u8, 0x4fu8, 0x4cu8] {
        None
    } else {
        let n = le_value(b.subrange(8, 8 + ss)) as u64;
        if n == 0 || n > MAX_COLLECTION {
            None
        } else {
            Some(n)
        }
    }
}

/// The size of the heap whose first bytes are `b`, if it is one that can be read.
pub fn collection_size(b: &[u8], ctx: &FormatContext) -> (r: Option<u64>)
    requires
        ctx.sizeof_size <= 8,
    ensures
        r == heap_size(b@, *ctx),
{
    let ss: usize = ctx.sizeof_size as usize;
    if b.len() < 8 + ss {
        return None;
    }
    let magic: bool = b[0] == 0x47 && b[1] == 0x43 && b[2] == 0x4f && b[3] == 0x4c;
    assert(magic == (b@.subrange(0, 4) == seq![0x47u8, 0x43u8, 0x4fu8, 0x4cu8])) by {
        let want = seq![0x47u8, 0x43u8, 0x4fu8, 0x4cu8];
        let got = b@.subrange(0, 4);
        if magic {
            assert(got =~= want);
        }
        if got == want {
            assert(got[0] == want[0] && got[1] == want[1] && got[2] == want[2] && got[3]
                == want[3]);
        }
    }
    if !magic {
        return None;
    }
    let n: u64 = read_le_at(b, 8, ss);
    if n == 0 || n > MAX_COLLECTION {
        None
    } else {
        Some(n)
    }
}

/// The value of the last of the first `n` objects that has this number; empty if
/// there is none.
pub open spec fn object_value(objects: Seq<HeapObject>, index: u16, n: nat) -> Seq<u8>
    decreases n,
{
    if n == 0 {
        Seq::empty()
    } else if objects[n - 1].index == index {
        objects[n - 1].data@
    } else {
        object_value(objects, index, (n - 1) as nat)
    }
}

/// The value of the object with this number; empty if there is none.
pub fn find_object(objects: &Vec<HeapObject>, index: u16) -> (v: Vec<u8>)
    ensures
        v@ == object_value(objects@, index, objects@.len()),
{
    let mut n: usize = objects.len();
    while n > 0
        invariant
            n <= objects.len(),
            object_value(objects@, index, n as nat) == object_value(
                objects@,
                index,
                objects@.len(),
            ),
        decreases n,
    {
        if objects[n - 1].index == index {
            let d = &objects[n - 1].data;
            return crate::format::bytes::copy_range(d.as_slice(), 0, d.len());
        }
        n = n - 1;
    }
    Vec::new()
}

/// A heap is known by its signature, a version and three bytes that are not used, and says
/// its size after these. Heaps without bytes and heaps that are too large are not read.
pub proof fn lemma_heap_sized(size: u64, four: Seq<u8>, rest: Seq<u8>, ctx: FormatContext)
    requires
        four.len() == 4,
        size < crate::format::bytes::pow256(ctx.sizeof_size as nat),
    ensures
        heap_size(
            seq![0x47u8, 0x43u8, 0x4fu8, 0x4cu8] + four + le_bytes(
                size as nat,
                ctx.sizeof_size as nat,
            ) + rest,
            ctx,
        ) == if 0 < size <= MAX_COLLECTION {
            Some(size)
        } else {
            None
        },
{
    let ss = ctx.sizeof_size as nat;
    let magic = seq![0x47u8, 0x43u8, 0x4fu8, 0x4cu8];
    let b = magic + four + le_bytes(size as nat, ss) + rest;
    lemma_le_bytes_len(size as nat, ss);
    lemma_le_roundtrip_exact(size as nat, ss);
    assert(b.subrange(0, 4) =~= magic);
    assert(b.subrange(8, 8 + ss as int) =~= le_bytes(size as nat, ss));
}

/// An object is found by its number, wherever in the heap it stands; what has no object is
/// empty.
pub proof fn lemma_object_found(objects: Seq<HeapObject>, index: u16, k: int, n: nat)
    requires
        n <= objects.len(),
        forall|i: int, j: int|
            0 <= i < j < n ==> (#[trigger] objects[i]).index != (#[trigger] objects[j]).index,
    ensures
        0 <= k < n && objects[k].index == index ==> object_value(objects, index, n)
            == objects[k].data@,
        (forall|i: int| 0 <= i < n ==> (#[trigger] objects[i]).index != index) ==> object_value(
            objects,
            index,
            n,
        ).len() == 0,
    decreases n,
{
    if n > 0 {
        lemma_object_found(objects, index, k, (n - 1) as nat);
    }
}

} // verus!
