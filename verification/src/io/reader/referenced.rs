//! References to strings.

use crate::format::bytes::{lemma_joined_uniform, pow256};
use crate::format::global_heap::{
    lemma_reference_roundtrip, reference_bytes, reference_size, HeapObject,
};
use crate::format::messages::attribute::AttributeView;
use crate::format::{FormatContext, UNDEF_ADDR};
use crate::io::reader::catalog::{string_value, variable, StringValueView};
use crate::io::reader::strings::{reference_of, strings_upto};
use crate::io::writer::vlen::{references, string_reference};
use vstd::prelude::*;
use vstd::utf8::encode_utf8;

verus! {

/// The reference to a string says how many bytes the string has in UTF-8, where its heap
/// stands and which object of the heap it is; references stand one behind the other.
pub proof fn lemma_references_say(
    strings: Seq<Seq<char>>,
    indices: Seq<u16>,
    addr: u64,
    ctx: FormatContext,
    i: int,
)
    requires
        ctx.sizeof_addr <= 8,
        addr < pow256(ctx.sizeof_addr as nat),
        0 <= i < strings.len(),
        encode_utf8(strings[i]).len() <= u32::MAX,
        encode_utf8(strings[i]).len() <= usize::MAX,
    ensures
        reference_of(references(strings, indices, addr, ctx), ctx, i) == (
            encode_utf8(strings[i]).len() as u32,
            addr,
            indices[i] as u32,
        ),
{
    let n = reference_size(ctx);
    let items = Seq::new(strings.len(), |k: int| string_reference(strings, indices, addr, ctx, k));
    assert forall|k: int| 0 <= k < items.len() implies (#[trigger] items[k]).len() == n by {
        lemma_reference_roundtrip(
            (encode_utf8(strings[k]).len() as usize) as u32,
            addr,
            indices[k] as u32,
            ctx,
        );
    }
    lemma_joined_uniform(items, n, i);
    lemma_reference_roundtrip(
        encode_utf8(strings[i]).len() as u32,
        addr,
        indices[i] as u32,
        ctx,
    );
}

/// A string without a heap is empty, and no heap is needed for it.
pub proof fn lemma_no_heap(
    raw: Seq<u8>,
    ctx: FormatContext,
    heaps: Map<u64, Option<Vec<HeapObject>>>,
    k: nat,
)
    requires
        strings_upto(raw, ctx, heaps, k).need is None,
        reference_of(raw, ctx, k as int).1 == 0 || reference_of(raw, ctx, k as int).1 == UNDEF_ADDR,
    ensures
        strings_upto(raw, ctx, heaps, k + 1).need is None,
        strings_upto(raw, ctx, heaps, k + 1).strings == strings_upto(raw, ctx, heaps, k).strings.push(
            Seq::empty(),
        ),
{
    reveal_strlit("");
    assert(""@ =~= Seq::<char>::empty());
}

/// The text of an attribute of variable length stands in the heap that its reference names;
/// without a heap it is empty.
pub proof fn lemma_attribute_reference(
    a: AttributeView,
    len: u32,
    addr: u64,
    index: u32,
    ctx: FormatContext,
)
    requires
        variable(a),
        ctx.sizeof_addr <= 8,
        addr < pow256(ctx.sizeof_addr as nat),
        a.data == reference_bytes(len, addr, index, ctx),
        index <= u16::MAX,
    ensures
        string_value(a, ctx) == if addr == 0 || addr == UNDEF_ADDR {
            StringValueView::Here(Seq::empty())
        } else {
            StringValueView::InHeap { addr, index: index as u16 }
        },
{
    reveal_strlit("");
    assert(""@ =~= Seq::<char>::empty());
    lemma_reference_roundtrip(len, addr, index, ctx);
}

/// As long as a heap is needed, it is one that a string stands in and that has not been read.
pub proof fn lemma_heap_needed(
    raw: Seq<u8>,
    ctx: FormatContext,
    heaps: Map<u64, Option<Vec<HeapObject>>>,
    k: nat,
)
    ensures
        match strings_upto(raw, ctx, heaps, k).need {
            Some(a) => {
                &&& !heaps.contains_key(a)
                &&& a != 0 && a != UNDEF_ADDR
                &&& exists|i: int| 0 <= i < k && (#[trigger] reference_of(raw, ctx, i)).1 == a
            },
            None => {
                &&& strings_upto(raw, ctx, heaps, k).strings.len() == k
                &&& forall|i: int|
                    0 <= i < k ==> {
                        let a = (#[trigger] reference_of(raw, ctx, i)).1;
                        a == 0 || a == UNDEF_ADDR || heaps.contains_key(a)
                    }
            },
        },
    decreases k,
{
    if k > 0 {
        lemma_heap_needed(raw, ctx, heaps, (k - 1) as nat);
        let r = reference_of(raw, ctx, k - 1);
        assert(r.1 == reference_of(raw, ctx, k - 1).1);
    }
}

} // verus!
