//! The elements of the pages of an extensible array.

use crate::format::bytes::{le_value, lemma_pow256_values, read_le_at};
use crate::format::chunk_index::extensible_array::EA_CLS_FILT_CHUNK;
use crate::format::FormatContext;
use crate::io::ea::{ChunkEntry, ExtensibleArrayHeader};
use crate::io::reader::fixed::{shape_ok, ElementShape};
use vstd::prelude::*;

verus! {

/// How the elements of an extensible array are stored, if its header can be right.
pub open spec fn array_elements(h: ExtensibleArrayHeader, ctx: FormatContext) -> Option<
    ElementShape,
> {
    let sa = ctx.sizeof_addr as int;
    let raw = h.raw_elmt_size as int;
    if h.class_id != EA_CLS_FILT_CHUNK {
        Some(ElementShape { filtered: false, chunk_size_len: 0, elem_size: sa as usize })
    } else if sa + 4 <= raw <= sa + 12 {
        Some(
            ElementShape {
                filtered: true,
                chunk_size_len: (raw - sa - 4) as usize,
                elem_size: raw as usize,
            },
        )
    } else {
        None
    }
}

/// How the elements of an extensible array are stored, if its header can be right.
pub fn elements_of(h: &ExtensibleArrayHeader, ctx: &FormatContext) -> (r: Option<ElementShape>)
    requires
        ctx.sizeof_addr <= 8,
    ensures
        r == array_elements(*h, *ctx),
        r matches Some(s) ==> shape_ok(s, *ctx),
{
    let sa: usize = ctx.sizeof_addr as usize;
    let raw: usize = h.raw_elmt_size as usize;
    if h.class_id != EA_CLS_FILT_CHUNK {
        Some(ElementShape { filtered: false, chunk_size_len: 0, elem_size: sa })
    } else if sa + 4 <= raw && raw <= sa + 12 {
        Some(ElementShape { filtered: true, chunk_size_len: raw - sa - 4, elem_size: raw })
    } else {
        None
    }
}

/// Element `i` of a page. Chunks without filters have their full size.
pub open spec fn page_element(b: Seq<u8>, s: ElementShape, sa: int, chunk_bytes: u64, i: int) ->
    ChunkEntry {
    let at = i * s.elem_size as int;
    let addr = le_value(b.subrange(at, at + sa)) as u64;
    if s.filtered {
        let csl = s.chunk_size_len as int;
        ChunkEntry {
            addr,
            nbytes: le_value(b.subrange(at + sa, at + sa + csl)) as u64,
            filter_mask: le_value(b.subrange(at + sa + csl, at + sa + csl + 4)) as u32,
        }
    } else {
        ChunkEntry { addr, nbytes: chunk_bytes, filter_mask: 0 }
    }
}

/// The `n` elements of a page.
pub fn page_elements(
    b: &[u8],
    n: usize,
    s: &ElementShape,
    ctx: &FormatContext,
    chunk_bytes: u64,
) -> (r: Vec<ChunkEntry>)
    requires
        shape_ok(*s, *ctx),
        n * s.elem_size <= b@.len(),
    ensures
        r@ == Seq::new(
            n as nat,
            |i: int| page_element(b@, *s, ctx.sizeof_addr as int, chunk_bytes, i),
        ),
{
    let ghost want = Seq::new(
        n as nat,
        |i: int| page_element(b@, *s, ctx.sizeof_addr as int, chunk_bytes, i),
    );
    let sa: usize = ctx.sizeof_addr as usize;
    let len: usize = b.len();
    let mut r: Vec<ChunkEntry> = Vec::new();
    let mut i: usize = 0;
    assert(r@ =~= want.take(0));
    while i < n
        invariant
            i <= n,
            shape_ok(*s, *ctx),
            sa == ctx.sizeof_addr,
            len == b@.len(),
            n * s.elem_size <= len,
            want == Seq::new(
                n as nat,
                |i: int| page_element(b@, *s, ctx.sizeof_addr as int, chunk_bytes, i),
            ),
            r@ == want.take(i as int),
        decreases n - i,
    {
        proof {
            let ii = i as int;
            let nn = n as int;
            let e = s.elem_size as int;
            assert(0 <= ii * e && ii * e + e <= nn * e) by (nonlinear_arith)
                requires
                    0 <= ii,
                    ii + 1 <= nn,
                    e >= 0,
            ;
            lemma_pow256_values();
        }
        let at: usize = i * s.elem_size;
        let addr: u64 = read_le_at(b, at, sa);
        let one: ChunkEntry = if s.filtered {
            let nbytes: u64 = read_le_at(b, at + sa, s.chunk_size_len);
            let filter_mask: u32 = read_le_at(b, at + sa + s.chunk_size_len, 4) as u32;
            ChunkEntry { addr, nbytes, filter_mask }
        } else {
            ChunkEntry { addr, nbytes: chunk_bytes, filter_mask: 0 }
        };
        assert(one == want[i as int]);
        r.push(one);
        i = i + 1;
        assert(r@ =~= want.take(i as int));
    }
    assert(want.take(n as int) =~= want);
    r
}

} // verus!
