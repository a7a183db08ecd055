//! Where the elements of an extensible array stand.

use crate::format::bitstream::stream_of;
use crate::format::bytes::{
    joined, le_bytes, lemma_joined_uniform, lemma_le_bytes_len, lemma_le_roundtrip_exact,
    lemma_pow256_values, pow256,
};
use crate::format::chunk_index::extensible_array::{
    lemma_sblk_next, sblk_dblk_nelmts, sblk_ndblks, sblk_start, sblk_start_dblk, EaGeometry,
    EA_CLS_FILT_CHUNK,
};
use crate::format::{FormatContext, UNDEF_ADDR};
use crate::io::ea::{
    covers, lemma_entry, page_addr, page_count, page_init_len, ChunkEntry, EaRequest, EaView,
    EaWidths, ExtensibleArrayHeader, SuperView,
};
use crate::io::reader::chunked::array_range;
use crate::io::reader::fixed::{shape_ok, ElementShape};
use crate::io::reader::pages::{array_elements, page_element};
use crate::io::reader::selection::frame_range;
use vstd::arithmetic::div_mod::lemma_fundamental_div_mod_converse;
use vstd::arithmetic::power2::{lemma2_to64, lemma_pow2_unfold, pow2};
use vstd::prelude::*;

verus! {

/// Super blocks grow by turns: from an even one to the next the data blocks become twice as
/// large, from an odd one to the next there are twice as many of them. The first has one data
/// block of the smallest size.
pub proof fn lemma_levels_grow(a: nat, u: nat)
    ensures
        sblk_ndblks(0) == 1,
        sblk_dblk_nelmts(a, 0) == pow2(a),
        sblk_start(a, 0) == 0,
        sblk_start_dblk(0) == 0,
        u % 2 == 0 ==> {
            &&& sblk_ndblks(u + 1) == sblk_ndblks(u)
            &&& sblk_dblk_nelmts(a, u + 1) == 2 * sblk_dblk_nelmts(a, u)
        },
        u % 2 == 1 ==> {
            &&& sblk_ndblks(u + 1) == 2 * sblk_ndblks(u)
            &&& sblk_dblk_nelmts(a, u + 1) == sblk_dblk_nelmts(a, u)
        },
        sblk_start(a, u + 1) == sblk_start(a, u) + sblk_ndblks(u) * sblk_dblk_nelmts(a, u),
        sblk_start_dblk(u + 1) == sblk_start_dblk(u) + sblk_ndblks(u),
{
    lemma2_to64();
    lemma_sblk_next(a, u);
    let p = pow2(a) as int;
    assert(sblk_dblk_nelmts(a, 0) == p) by {
        assert((0nat + 1) / 2 == 0);
        assert(1 * p == p);
    }
    if u % 2 == 0 {
        let h = (u + 1) / 2;
        assert((u + 2) / 2 == h + 1);
        lemma_pow2_unfold(h + 1);
        let x = pow2(h) as int;
        assert((2 * x) * p == 2 * (x * p)) by (nonlinear_arith);
    } else {
        let h = u / 2;
        assert((u + 1) / 2 == h + 1);
        assert((u + 2) / 2 == h + 1);
        lemma_pow2_unfold(h + 1);
    }
}

/// Elements are numbered one behind the other: those of the index block first, then those of
/// each data block, data block by data block and super block by super block.
pub proof fn lemma_numbers_follow(g: EaGeometry, u: int, d: int, off: int)
    requires
        g.wf(),
        g.has(u, d, off),
    ensures
        g.number(0, 0, 0) == g.idx_blk_elmts,
        g.has(u, d, off + 1) ==> g.number(u, d, off + 1) == g.number(u, d, off) + 1,
        g.has(u, d + 1, 0) && !g.has(u, d, off + 1) ==> g.number(u, d + 1, 0) == g.number(u, d, off)
            + 1,
        g.has(u + 1, 0, 0) && !g.has(u, d + 1, 0) && !g.has(u, d, off + 1) ==> g.number(u + 1, 0, 0)
            == g.number(u, d, off) + 1,
{
    let a = g.min_bits();
    lemma_levels_grow(a, u as nat);
    lemma_sblk_next(a, u as nat);
    let n = g.nelmts(u);
    let k = sblk_ndblks(u as nat) as int;
    assert((d + 1) * n == d * n + n) by (nonlinear_arith);
    assert(0 * g.nelmts(0) == 0 && 0 * g.nelmts(u + 1) == 0);
    if !g.has(u, d, off + 1) {
        assert(off + 1 == n);
        if !g.has(u, d + 1, 0) {
            assert(d + 1 == k);
        }
    }
}

/// The pages of a data block stand behind its prefix (signature, version, class, address of
/// the header, number of the first element, checksum), each directly behind the one before: its
/// elements and a checksum.
pub proof fn lemma_pages_follow(g: EaGeometry, w: EaWidths, addr: u64, p: int)
    requires
        g.wf(),
        0 <= p,
        addr + 4 + 1 + 1 + w.sizeof_addr + (g.params.max_nelmts_bits + 7) / 8 + 4 + (p + 1) * (
        g.dblk_page_nelmts * w.raw_elmt_size + 4) <= u64::MAX,
    ensures
        page_addr(g, w, addr, 0) == addr + 4 + 1 + 1 + w.sizeof_addr + (g.params.max_nelmts_bits
            + 7) / 8 + 4,
        page_addr(g, w, addr, p + 1) == page_addr(g, w, addr, p) + g.dblk_page_nelmts
            * w.raw_elmt_size + 4,
{
    let n = g.dblk_page_nelmts as int;
    let r = w.raw_elmt_size as int;
    assert(0 <= n * r) by (nonlinear_arith)
        requires
            0 <= n,
            0 <= r,
    ;
    let size = n * r + 4;
    assert((p + 1) * size == p * size + size && 0 <= p * size) by (nonlinear_arith)
        requires
            0 <= p,
            0 <= size,
    ;
    assert(0 * size == 0);
}

/// Element `r` of page `p` of a paged data block is the entry of the chunk with that number.
/// Chunks of pages that were never written have none.
pub proof fn lemma_paged_entry(
    v: EaView,
    g: EaGeometry,
    w: EaWidths,
    u: int,
    d: int,
    p: int,
    r: int,
    i: int,
)
    requires
        g.wf(),
        g.paged(u),
        0 <= p,
        0 <= r < g.dblk_page_nelmts,
        g.has(u, d, p * g.dblk_page_nelmts + r),
        i == g.number(u, d, 0) + p * g.dblk_page_nelmts + r,
        v.dblk_addr(g, u, d) != UNDEF_ADDR,
    ensures
        v.page_used(g, u, d, p) ==> v.entry(g, w, i) == v.pages[page_addr(
            g,
            w,
            v.dblk_addr(g, u, d),
            p,
        )][r],
        !v.page_used(g, u, d, p) ==> v.entry(g, w, i).addr == UNDEF_ADDR,
{
    let n = g.dblk_page_nelmts as int;
    let off = p * n + r;
    lemma_fundamental_div_mod_converse(off, n, p, r);
    lemma_entry(v, g, w, u, d, off);
}

/// The bytes of an element: the address of a chunk, and if it went through filters its size
/// and its filter mask.
pub open spec fn element_bytes(e: ChunkEntry, sa: nat, filtered: bool, csl: nat) -> Seq<u8> {
    if filtered {
        le_bytes(e.addr as nat, sa) + le_bytes(e.nbytes as nat, csl) + le_bytes(
            e.filter_mask as nat,
            4,
        )
    } else {
        le_bytes(e.addr as nat, sa)
    }
}

/// The elements of a page read back as they were written, one behind the other. Chunks without
/// filters have their full size.
pub proof fn lemma_page_reads_back(
    entries: Seq<ChunkEntry>,
    rest: Seq<u8>,
    s: ElementShape,
    ctx: FormatContext,
    chunk_bytes: u64,
    i: int,
)
    requires
        shape_ok(s, ctx),
        0 <= i < entries.len(),
        entries[i].addr < pow256(ctx.sizeof_addr as nat),
        entries[i].nbytes < pow256(s.chunk_size_len as nat) || !s.filtered,
    ensures
        page_element(
            joined(
                Seq::new(
                    entries.len(),
                    |k: int|
                        element_bytes(
                            entries[k],
                            ctx.sizeof_addr as nat,
                            s.filtered,
                            s.chunk_size_len as nat,
                        ),
                ),
            ) + rest,
            s,
            ctx.sizeof_addr as int,
            chunk_bytes,
            i,
        ) == if s.filtered {
            entries[i]
        } else {
            ChunkEntry { addr: entries[i].addr, nbytes: chunk_bytes, filter_mask: 0 }
        },
{
    let sa = ctx.sizeof_addr as nat;
    let csl = s.chunk_size_len as nat;
    let w = s.elem_size as nat;
    let items = Seq::new(entries.len(), |k: int| element_bytes(entries[k], sa, s.filtered, csl));
    assert forall|k: int| 0 <= k < items.len() implies (#[trigger] items[k]).len() == w by {
        let e = entries[k];
        lemma_le_bytes_len(e.addr as nat, sa);
        lemma_le_bytes_len(e.nbytes as nat, csl);
        lemma_le_bytes_len(e.filter_mask as nat, 4);
    }
    lemma_joined_uniform(items, w, i);
    let b = joined(items) + rest;
    let at = i * w;
    assert(0 <= at) by (nonlinear_arith)
        requires
            0 <= i,
            at == i * w,
    ;
    let e = entries[i];
    let item = b.subrange(at, at + w);
    assert(item =~= joined(items).subrange(at, at + w));
    lemma_pow256_values();
    lemma_le_bytes_len(e.addr as nat, sa);
    lemma_le_bytes_len(e.nbytes as nat, csl);
    lemma_le_bytes_len(e.filter_mask as nat, 4);
    lemma_le_roundtrip_exact(e.addr as nat, sa);
    let si = sa as int;
    let ci = csl as int;
    assert(b.subrange(at, at + si) =~= item.subrange(0, si));
    assert(item.subrange(0, si) =~= le_bytes(e.addr as nat, sa));
    if s.filtered {
        lemma_le_roundtrip_exact(e.nbytes as nat, csl);
        lemma_le_roundtrip_exact(e.filter_mask as nat, 4);
        assert(b.subrange(at + si, at + si + ci) =~= item.subrange(si, si + ci));
        assert(item.subrange(si, si + ci) =~= le_bytes(e.nbytes as nat, csl));
        assert(b.subrange(at + si + ci, at + si + ci + 4) =~= item.subrange(si + ci, si + ci + 4));
        assert(item.subrange(si + ci, si + ci + 4) =~= le_bytes(e.filter_mask as nat, 4));
    }
}

/// The width of the size of a filtered chunk is what the address and the filter mask leave of
/// an element; it is never more than eight bytes.
pub proof fn lemma_element_widths(h: ExtensibleArrayHeader, ctx: FormatContext, csl: int)
    requires
        ctx.sizeof_addr <= 8,
        h.class_id == EA_CLS_FILT_CHUNK,
        h.raw_elmt_size == ctx.sizeof_addr + csl + 4,
    ensures
        match array_elements(h, ctx) {
            Some(s) => {
                &&& 0 <= csl <= 8
                &&& s.filtered
                &&& s.chunk_size_len == csl
                &&& shape_ok(s, ctx)
            },
            None => !(0 <= csl <= 8),
        },
{
}

proof fn lemma_mask(b: u8, i: u8)
    by (bit_vector)
    requires
        i < 8,
    ensures
        (b & (0x80u8 >> i) != 0) == ((b >> ((7 - i) as u8)) & 1u8 == 1u8),
{
}

/// The bitmap of a super block has a bit for every page of its data blocks, in their order, the
/// first in the highest bit of the first byte.
pub proof fn lemma_page_marked(v: EaView, g: EaGeometry, u: int, d: int, p: int, s: SuperView)
    requires
        g.wf(),
        g.has(u, d, p * g.dblk_page_nelmts),
        0 <= p,
        v.super_block(g, u) == Some(s),
        0 <= d * (g.nelmts(u) / g.dblk_page_nelmts as int) + p < 8 * s.page_init.len(),
    ensures
        v.page_used(g, u, d, p) == stream_of(s.page_init)[d * (g.nelmts(u)
            / g.dblk_page_nelmts as int) + p],
{
    let n = d * (g.nelmts(u) / g.dblk_page_nelmts as int) + p;
    lemma_mask(s.page_init[n / 8], (n % 8) as u8);
}

/// A request for a block of the index is for one that the index knows: a super block and a data
/// block with all of its elements. What has been read is not asked for again.
pub proof fn lemma_requests(v: EaView, g: EaGeometry, w: EaWidths, u: int, d: int)
    requires
        g.wf(),
        g.has(u, d, 0),
    ensures
        match v.missing(g, w, u, d) {
            Some(EaRequest::Super { addr, ndblks, .. }) => {
                &&& u >= g.iblock_nsblks
                &&& addr == v.sblk_addrs[u - g.iblock_nsblks]
                &&& addr != UNDEF_ADDR
                &&& ndblks == sblk_ndblks(u as nat)
                &&& !(v.supers.contains_key(addr) && v.supers[addr].dblk_addrs.len() == ndblks
                    && v.supers[addr].page_init.len() == page_init_len(g, u))
            },
            Some(EaRequest::Data { addr, nelmts }) => {
                &&& addr == v.dblk_addr(g, u, d)
                &&& addr != UNDEF_ADDR
                &&& nelmts == sblk_dblk_nelmts(g.min_bits(), u as nat)
                &&& !(v.data.contains_key(addr) && v.data[addr].len() == nelmts)
            },
            Some(EaRequest::Page { addr, nelmts }) => {
                &&& g.paged(u)
                &&& nelmts == g.dblk_page_nelmts
                &&& !(v.pages.contains_key(addr) && v.pages[addr].len() == nelmts)
            },
            None => v.dblk_addr(g, u, d) != UNDEF_ADDR && !g.paged(u) ==> {
                &&& v.data.contains_key(v.dblk_addr(g, u, d))
                &&& v.data[v.dblk_addr(g, u, d)].len() == g.nelmts(u)
            },
        },
{
    g.lemma_info(u);
    if g.paged(u) {
        lemma_page_request(v, g, w, u, d, page_count(g, u));
    }
}

proof fn lemma_page_request(v: EaView, g: EaGeometry, w: EaWidths, u: int, d: int, n: int)
    ensures
        match v.pages_missing(g, w, u, d, n) {
            Some(EaRequest::Page { addr, nelmts }) => {
                &&& nelmts == g.dblk_page_nelmts
                &&& !(v.pages.contains_key(addr) && v.pages[addr].len() == nelmts)
                &&& exists|p: int|
                    0 <= p < n && #[trigger] v.page_used(g, u, d, p) && addr == page_addr(
                        g,
                        w,
                        v.dblk_addr(g, u, d),
                        p,
                    )
            },
            Some(_) => false,
            None => forall|p: int|
                0 <= p < n && #[trigger] v.page_used(g, u, d, p) ==> {
                    let a = page_addr(g, w, v.dblk_addr(g, u, d), p);
                    v.pages.contains_key(a) && v.pages[a].len() == g.dblk_page_nelmts
                },
        },
    decreases n,
{
    if n > 0 {
        lemma_page_request(v, g, w, u, d, n - 1);
        if v.pages_missing(g, w, u, d, n - 1) is None && v.page_used(g, u, d, n - 1) {
            assert(v.page_used(g, u, d, n - 1));
        }
    }
}

/// Pages are asked for exactly as long as one that was written has not been read.
pub proof fn lemma_pages_requested(v: EaView, g: EaGeometry, w: EaWidths, u: int, d: int, p: int)
    requires
        g.wf(),
        g.has(u, d, 0),
        g.paged(u),
        v.missing(g, w, u, d) is None,
        v.dblk_addr(g, u, d) != UNDEF_ADDR,
        0 <= p < g.nelmts(u) / g.dblk_page_nelmts as int,
        v.page_used(g, u, d, p),
    ensures
        ({
            let a = page_addr(g, w, v.dblk_addr(g, u, d), p);
            v.pages.contains_key(a) && v.pages[a].len() == g.dblk_page_nelmts
        }),
{
    lemma_page_request(v, g, w, u, d, page_count(g, u));
}

/// A chunk of a dataset with filters is read where its entry says and with its size, if it can
/// stand in the file; otherwise it is missing. Without filters every chunk that has an address
/// is read.
pub proof fn lemma_entry_read(e: ChunkEntry, file_size: u64)
    ensures
        match array_range(e, true, file_size) {
            Some(r) => {
                &&& r.addr == e.addr
                &&& r.len == e.nbytes
                &&& r.exact
                &&& e.addr != UNDEF_ADDR
            },
            None => e.addr == UNDEF_ADDR || e.nbytes == 0 || e.addr + e.nbytes > file_size,
        },
        0 < e.nbytes && e.addr + e.nbytes <= file_size && e.addr != UNDEF_ADDR ==> array_range(
            e,
            true,
            file_size,
        ) is Some,
        match array_range(e, false, file_size) {
            Some(r) => r.addr == e.addr && r.len == e.nbytes && !r.exact && e.addr != UNDEF_ADDR,
            None => e.addr == UNDEF_ADDR,
        },
{
}

/// What is read of an index reaches to the chunk that is wanted, or to its end.
pub proof fn lemma_reaches(g: EaGeometry, len: int, wanted: int)
    requires
        covers(g, len, wanted),
    ensures
        wanted <= len || len == g.capacity(),
{
}

/// The chunk of a frame is read where its entry says, whole; a frame that the index does not
/// know, or whose chunk was never written, is missing.
pub proof fn lemma_frame_read(entries: Seq<ChunkEntry>, i: int)
    requires
        0 <= i,
    ensures
        match frame_range(entries, i) {
            Some(r) => {
                &&& i < entries.len()
                &&& r.addr == entries[i].addr
                &&& r.len == entries[i].nbytes
                &&& r.exact
                &&& r.addr != UNDEF_ADDR
            },
            None => i >= entries.len() || entries[i].addr == UNDEF_ADDR,
        },
{
}

} // verus!
