//! What the fixed arrays of a file hold.

use crate::format::chunk_index::fixed_array::{
    block_meta, page_bitmap, page_count, page_defined, page_end, page_error,
    page_start, parsed_prefix, prefix_len, FixedArrayDataBlock, FixedArrayHeader,
    FA_CLIENT_FILT_CHUNK,
};
use crate::format::bytes::{
    joined, le_bytes, lemma_le_bytes_len, lemma_le_roundtrip_exact, lemma_pow256_values, pow256,
};
use crate::format::checksum::checksum;
use crate::format::{FormatContext, UNDEF_ADDR};
use crate::io::array::{
    ints, lemma_linear_bound, lemma_place_of_linear, place, volume,
};
use crate::io::chunks::{
    assembled, chunk_cut, chunked, chunks_of, grid, lemma_all_chunks_roundtrip, shaped,
};
use crate::io::ea::ChunkEntry;
use crate::io::reader::chunked::fetched;
use crate::io::reader::fixed::{
    array_fits, block_error, element_at, element_shape, fixed_range, fixed_step, no_entry, page_content,
    page_nelmts, page_range, pages, pages_collected, page_there, ElementShape,
    FixedStepView, PagesView,
};
use crate::io::writer::blocks::{
    dblk_bytes, dblk_defined, dblk_items, elements_fit,
    item_width, lemma_dblk_size, lemma_flat_roundtrip, lemma_page_roundtrip,
    lemma_prefix_roundtrip,
};
use crate::io::writer::datasets::byte_len;
use crate::io::writer::fixed_chunks::{
    chunk_number, coord_error, fixed_chunk_error, fixed_ready, fixed_recorded,
};
use crate::io::writer::state::{DatasetInfo, FixedArrayDatasetInfo};
use crate::io::IoErrorView;
use vstd::prelude::*;

verus! {

/// Whether `b` stands in the file at `at`.
pub open spec fn holds_at(file: Seq<u8>, at: int, b: Seq<u8>) -> bool {
    &&& 0 <= at
    &&& at + b.len() <= file.len()
    &&& file.subrange(at, at + b.len()) == b
}

/// Where an array says that chunk `i` stands, and how many bytes it takes there. Chunks
/// without filters take `chunk_bytes` bytes.
pub open spec fn recorded(
    hdr: FixedArrayHeader,
    dblk: FixedArrayDataBlock,
    chunk_bytes: u64,
    i: int,
) -> ChunkEntry {
    if hdr.client_id == FA_CLIENT_FILT_CHUNK {
        let e = dblk.filtered_elements@[i];
        ChunkEntry { addr: e.address, nbytes: e.chunk_size as u64, filter_mask: e.filter_mask }
    } else {
        ChunkEntry { addr: dblk.elements@[i], nbytes: chunk_bytes, filter_mask: 0 }
    }
}

/// Whether `v` says of the first chunks what the array says of them. Of a chunk that was
/// never written only that matters.
pub open spec fn tells(
    v: Seq<ChunkEntry>,
    hdr: FixedArrayHeader,
    dblk: FixedArrayDataBlock,
    chunk_bytes: u64,
) -> bool {
    forall|i: int|
        0 <= i < v.len() ==> {
            let want = recorded(hdr, dblk, chunk_bytes, i);
            (#[trigger] v[i]).addr == want.addr && (want.addr != UNDEF_ADDR ==> v[i] == want)
        }
}

/// Whether an array and its block fit together and in the fields that hold them.
pub open spec fn writable(
    ctx: FormatContext,
    hdr: FixedArrayHeader,
    dblk: FixedArrayDataBlock,
    s: ElementShape,
    ndims: nat,
) -> bool {
    &&& ctx.sizeof_addr <= 8
    &&& hdr.wf()
    &&& hdr.num_elmts == dblk_items(ctx, hdr, dblk).len()
    &&& hdr.element_size == item_width(ctx, hdr)
    &&& elements_fit(ctx, hdr, dblk)
    &&& dblk.header_addr < pow256(ctx.sizeof_addr as nat)
    &&& element_shape(hdr, ctx.sizeof_addr as int, ndims, ndims) == Ok::<_, IoErrorView>(s)
    &&& array_fits(hdr, s, ctx)
}

proof fn lemma_nelmts(h: FixedArrayHeader)
    requires
        h.wf(),
    ensures
        page_nelmts(h) == 1024,
        pages(h) == page_count(h.num_elmts as nat),
{
    vstd::arithmetic::power2::lemma2_to64();
}

/// What follows a page says nothing of it.
proof fn lemma_cut(buf: Seq<u8>, n: nat, s: ElementShape, sa: nat, chunk_bytes: u64, i: int)
    requires
        s.elem_size == if s.filtered {
            sa + s.chunk_size_len + 4
        } else {
            sa as int
        },
        n * s.elem_size + 4 <= buf.len(),
        0 <= i < n,
    ensures
        ({
            let b = buf.take(n * s.elem_size + 4);
            &&& page_error(b, n * s.elem_size as nat) == page_error(buf, n * s.elem_size as nat)
            &&& element_at(b, s, sa, chunk_bytes, i) == element_at(buf, s, sa, chunk_bytes, i)
        }),
{
    let w = s.elem_size as int;
    let size = n * w;
    let b = buf.take(size + 4);
    let at = i * w;
    assert(0 <= at && at + w <= size) by (nonlinear_arith)
        requires
            at == i * w,
            size == n * w,
            0 <= i,
            i + 1 <= n,
            0 <= w,
    ;
    assert(b.subrange(size, size + 4) =~= buf.subrange(size, size + 4));
    assert(b.take(size) =~= buf.take(size));
    let si = sa as int;
    let ci = s.chunk_size_len as int;
    assert(b.subrange(at, at + si) =~= buf.subrange(at, at + si));
    if s.filtered {
        assert(at == i * (sa + s.chunk_size_len as nat + 4));
        assert(b.subrange(at + si, at + si + ci) =~= buf.subrange(at + si, at + si + ci));
        assert(b.subrange(at + si + ci, at + si + ci + 4) =~= buf.subrange(
            at + si + ci,
            at + si + ci + 4,
        ));
    }
}

proof fn lemma_cut_prefix(buf: Seq<u8>, sa: nat, npages: nat)
    requires
        prefix_len(sa, npages) <= buf.len(),
    ensures
        parsed_prefix(buf.take(prefix_len(sa, npages) as int), sa, npages) == parsed_prefix(
            buf,
            sa,
            npages,
        ),
{
    let k = prefix_len(sa, npages) as int;
    let b = buf.take(k);
    assert(b.subrange(k - 4, k) =~= buf.subrange(k - 4, k));
    assert(b.take(k - 4) =~= buf.take(k - 4));
    assert(b.subrange(6, 6 + sa as int) =~= buf.subrange(6, 6 + sa as int));
    assert(b.subrange(6 + sa as int, k - 4) =~= buf.subrange(6 + sa as int, k - 4));
}

/// A page stands inside of the block, and all of its elements can be read there.
proof fn lemma_page(
    ctx: FormatContext,
    hdr: FixedArrayHeader,
    dblk: FixedArrayDataBlock,
    s: ElementShape,
    ndims: nat,
    file: Seq<u8>,
    chunk_bytes: u64,
    p: int,
)
    requires
        writable(ctx, hdr, dblk, s, ndims),
        hdr.spec_is_paged(),
        holds_at(file, hdr.data_blk_addr as int, dblk_bytes(ctx, hdr, dblk)),
        0 <= p < hdr.spec_npages(),
    ensures
        ({
            let sa = ctx.sizeof_addr as nat;
            let r = page_range(
                hdr,
                s.elem_size as int,
                prefix_len(sa, hdr.spec_npages()) as int,
                p,
            );
            let n = page_end(p, hdr.num_elmts as nat) - page_start(p);
            &&& r.nelmts == n
            &&& n > 0
            &&& r.addr + r.size <= file.len()
            &&& ({
                let page = file.subrange(r.addr as int, r.addr + r.size);
                &&& page_error(page, n as nat * s.elem_size as nat) is None
                &&& forall|i: int|
                    0 <= i < n ==> #[trigger] element_at(page, s, sa, chunk_bytes, i) == recorded(
                        hdr,
                        dblk,
                        chunk_bytes,
                        page_start(p) + i,
                    )
            })
        }),
{
    let sa = ctx.sizeof_addr as nat;
    let w = s.elem_size as int;
    let np = hdr.spec_npages() as int;
    let head = prefix_len(sa, hdr.spec_npages()) as int;
    let b = dblk_bytes(ctx, hdr, dblk);
    let n = page_end(p, hdr.num_elmts as nat) - page_start(p);
    let off = head + p * (1024 * w + 4);
    let buf = b.skip(off);
    lemma_nelmts(hdr);
    lemma_dblk_size(ctx, hdr, dblk);
    assert(w == item_width(ctx, hdr));
    let total = hdr.num_elmts as int;
    assert(0 <= p * (1024 * w + 4) && p * (1024 * w + 4) + n * w + 4 <= total * w + np * 4 && 0 <= n
        * w) by (nonlinear_arith)
        requires
            0 <= p,
            p + 1 <= np,
            0 <= w,
            0 <= n,
            1024 * p + n <= total,
    ;
    assert(b.len() == head + total * w + np * 4);
    assert(np * (1024 * w + 4) >= p * (1024 * w + 4) + 1024 * w + 4) by (nonlinear_arith)
        requires
            p + 1 <= np,
            0 <= w,
    ;
    assert(n * w <= 1024 * w) by (nonlinear_arith)
        requires
            n <= 1024,
            0 <= w,
    ;
    let r = page_range(hdr, w, head, p);
    assert(r.nelmts == n);
    assert(r.size == n * w + 4);
    assert(r.addr == hdr.data_blk_addr + off);
    let page = file.subrange(r.addr as int, r.addr + r.size);
    assert(page =~= buf.take(n * w + 4)) by {
        let at = hdr.data_blk_addr as int;
        assert(file.subrange(at, at + b.len()) == b);
        assert forall|k: int| 0 <= k < n * w + 4 implies page[k] == buf[k] by {
            assert(file.subrange(at, at + b.len())[off + k] == b[off + k]);
        }
    }
    lemma_page_roundtrip(ctx, hdr, dblk, p, 0);
    lemma_cut(buf, n as nat, s, sa, chunk_bytes, 0);
    assert forall|i: int| 0 <= i < n implies #[trigger] element_at(page, s, sa, chunk_bytes, i)
        == recorded(hdr, dblk, chunk_bytes, page_start(p) + i) by {
        lemma_page_roundtrip(ctx, hdr, dblk, p, i);
        lemma_cut(buf, n as nat, s, sa, chunk_bytes, i);
    }
}

/// Whether every page that was read is what the file has where the page stands.
pub open spec fn pages_read(
    file: Seq<u8>,
    read: Map<u64, Vec<u8>>,
    h: FixedArrayHeader,
    s: ElementShape,
    prefix: int,
) -> bool {
    forall|p: u64| #[trigger]
        read.contains_key(p) ==> {
            let r = page_range(h, s.elem_size as int, prefix, p as int);
            read[p]@ == file.subrange(r.addr as int, r.addr + r.size)
        }
}

proof fn lemma_more(
    v: Seq<ChunkEntry>,
    more: Seq<ChunkEntry>,
    hdr: FixedArrayHeader,
    dblk: FixedArrayDataBlock,
    chunk_bytes: u64,
)
    requires
        tells(v, hdr, dblk, chunk_bytes),
        forall|i: int|
            0 <= i < more.len() ==> {
                let want = recorded(hdr, dblk, chunk_bytes, v.len() + i);
                (#[trigger] more[i]).addr == want.addr && (want.addr != UNDEF_ADDR ==> more[i]
                    == want)
            },
    ensures
        tells(v + more, hdr, dblk, chunk_bytes),
{
    let all = v + more;
    assert forall|i: int| 0 <= i < all.len() implies {
        let want = recorded(hdr, dblk, chunk_bytes, i);
        (#[trigger] all[i]).addr == want.addr && (want.addr != UNDEF_ADDR ==> all[i] == want)
    } by {
        if i < v.len() {
            assert(all[i] == v[i]);
        } else {
            assert(all[i] == more[i - v.len()]);
        }
    }
}

/// Nothing of a page that is not marked was ever written.
proof fn lemma_unmarked(
    ctx: FormatContext,
    hdr: FixedArrayHeader,
    dblk: FixedArrayDataBlock,
    p: int,
    i: int,
    chunk_bytes: u64,
)
    requires
        hdr.spec_is_paged(),
        hdr.num_elmts == dblk_items(ctx, hdr, dblk).len(),
        dblk.header_addr < pow256(ctx.sizeof_addr as nat),
        0 <= p < hdr.spec_npages(),
        !page_there(page_bitmap(dblk_defined(hdr, dblk)), p),
        page_start(p) <= i < page_end(p, hdr.num_elmts as nat),
    ensures
        recorded(hdr, dblk, chunk_bytes, i).addr == UNDEF_ADDR,
{
    lemma_prefix_roundtrip(ctx, hdr, dblk, p);
    let defined = dblk_defined(hdr, dblk);
    assert(defined.len() == hdr.num_elmts);
    assert(p / 8 < page_bitmap(defined).len());
    if defined[i] {
        assert(page_defined(defined, p));
    }
}

proof fn lemma_collected(
    ctx: FormatContext,
    hdr: FixedArrayHeader,
    dblk: FixedArrayDataBlock,
    s: ElementShape,
    ndims: nat,
    file: Seq<u8>,
    read: Map<u64, Vec<u8>>,
    chunk_bytes: u64,
    n: nat,
)
    requires
        writable(ctx, hdr, dblk, s, ndims),
        hdr.spec_is_paged(),
        holds_at(file, hdr.data_blk_addr as int, dblk_bytes(ctx, hdr, dblk)),
        pages_read(
            file,
            read,
            hdr,
            s,
            prefix_len(ctx.sizeof_addr as nat, hdr.spec_npages()) as int,
        ),
        n <= hdr.spec_npages(),
    ensures
        match pages_collected(
            hdr,
            s,
            ctx.sizeof_addr as nat,
            page_bitmap(dblk_defined(hdr, dblk)),
            read,
            chunk_bytes,
            n,
        ) {
            PagesView::Entries(v) => {
                &&& v.len() == if n == 0 {
                    0
                } else {
                    page_end(n - 1, hdr.num_elmts as nat)
                }
                &&& tells(v, hdr, dblk, chunk_bytes)
            },
            PagesView::Need(p) => p < n && !read.contains_key(p),
            PagesView::Bad(_) => false,
        },
    decreases n,
{
    let sa = ctx.sizeof_addr as nat;
    let bitmap = page_bitmap(dblk_defined(hdr, dblk));
    if n > 0 {
        let p = n - 1;
        lemma_collected(ctx, hdr, dblk, s, ndims, file, read, chunk_bytes, p as nat);
        lemma_nelmts(hdr);
        let size = page_range(hdr, s.elem_size as int, 0, p).nelmts as nat;
        assert(size == page_end(p, hdr.num_elmts as nat) - page_start(p));
        match pages_collected(hdr, s, sa, bitmap, read, chunk_bytes, p as nat) {
            PagesView::Entries(v) => {
                assert(v.len() == page_start(p));
                if !page_there(bitmap, p) {
                    let none = Seq::new(size, |i: int| no_entry());
                    assert forall|i: int| 0 <= i < size implies {
                        let want = recorded(hdr, dblk, chunk_bytes, v.len() + i);
                        (#[trigger] none[i]).addr == want.addr && want.addr == UNDEF_ADDR
                    } by {
                        lemma_unmarked(ctx, hdr, dblk, p, v.len() + i, chunk_bytes);
                    }
                    lemma_more(v, none, hdr, dblk, chunk_bytes);
                } else if read.contains_key(p as u64) {
                    lemma_page(ctx, hdr, dblk, s, ndims, file, chunk_bytes, p);
                    let page = read[p as u64]@;
                    let more = page_content(page, size, s, sa, chunk_bytes);
                    assert forall|i: int| 0 <= i < size implies (#[trigger] more[i]) == recorded(
                        hdr,
                        dblk,
                        chunk_bytes,
                        v.len() + i,
                    ) by {
                        assert(more[i] == element_at(page, s, sa, chunk_bytes, i));
                    }
                    lemma_more(v, more, hdr, dblk, chunk_bytes);
                }
            },
            _ => {},
        }
    }
}

proof fn lemma_empty(ctx: FormatContext, hdr: FixedArrayHeader, dblk: FixedArrayDataBlock)
    requires
        hdr.num_elmts == 0,
        dblk_items(ctx, hdr, dblk).len() == 0,
    ensures
        block_error(dblk_bytes(ctx, hdr, dblk), ctx.sizeof_addr as nat, 0) is None,
{
    let sa = ctx.sizeof_addr as nat;
    let body = block_meta(dblk.client_id, dblk.header_addr, sa);
    let b = dblk_bytes(ctx, hdr, dblk);
    lemma_le_bytes_len(dblk.header_addr as nat, sa);
    lemma_le_bytes_len(checksum(body) as nat, 4);
    lemma_pow256_values();
    lemma_le_roundtrip_exact(checksum(body) as nat, 4);
    assert(body + joined(dblk_items(ctx, hdr, dblk)) =~= body);
    let end = body.len() as int;
    assert(b.take(end) =~= body);
    assert(b.subrange(end, end + 4) =~= le_bytes(checksum(body) as nat, 4));
}

/// The entries of a fixed array are found in a file that holds its data block, whether
/// the block is read at once or by pages: as long as pages are asked for, they are new
/// ones that stand inside of the file, and once there are none left, entry `i` is what
/// was recorded for chunk `i`.
pub proof fn lemma_array_found(
    ctx: FormatContext,
    hdr: FixedArrayHeader,
    dblk: FixedArrayDataBlock,
    s: ElementShape,
    ndims: nat,
    file: Seq<u8>,
    read: Map<u64, Vec<u8>>,
    chunk_bytes: u64,
)
    requires
        writable(ctx, hdr, dblk, s, ndims),
        holds_at(file, hdr.data_blk_addr as int, dblk_bytes(ctx, hdr, dblk)),
        pages_read(
            file,
            read,
            hdr,
            s,
            prefix_len(ctx.sizeof_addr as nat, hdr.spec_npages()) as int,
        ),
    ensures
        match fixed_step(hdr, s, ctx.sizeof_addr as nat, None, read, chunk_bytes) {
            Ok(FixedStepView::Block { addr, size }) => {
                &&& addr == hdr.data_blk_addr
                &&& addr + size <= file.len()
                &&& match fixed_step(
                    hdr,
                    s,
                    ctx.sizeof_addr as nat,
                    Some(file.subrange(addr as int, addr + size)),
                    read,
                    chunk_bytes,
                ) {
                    Ok(FixedStepView::Page { number, range }) => {
                        &&& number * 1024 < hdr.num_elmts
                        &&& !read.contains_key(number)
                        &&& range.addr + range.size <= file.len()
                    },
                    Ok(FixedStepView::Done(v)) => {
                        &&& v.len() == hdr.num_elmts
                        &&& tells(v, hdr, dblk, chunk_bytes)
                    },
                    _ => false,
                }
            },
            _ => false,
        },
{
    let sa = ctx.sizeof_addr as nat;
    let w = s.elem_size as int;
    let b = dblk_bytes(ctx, hdr, dblk);
    let at = hdr.data_blk_addr as int;
    lemma_nelmts(hdr);
    lemma_dblk_size(ctx, hdr, dblk);
    assert(w == item_width(ctx, hdr));
    assert(file.subrange(at, at + b.len()) == b);
    let total = hdr.num_elmts as int;
    assert(0 <= total * w) by (nonlinear_arith)
        requires
            0 <= total,
            0 <= w,
    ;
    if hdr.spec_is_paged() {
        let np = hdr.spec_npages();
        let k = prefix_len(sa, np) as int;
        assert(b.len() == k + total * w + np * 4);
        assert(file.subrange(at, at + k) =~= b.take(k));
        lemma_cut_prefix(b, sa, np);
        lemma_prefix_roundtrip(ctx, hdr, dblk, 0);
        lemma_collected(ctx, hdr, dblk, s, ndims, file, read, chunk_bytes, np);
        let bitmap = page_bitmap(dblk_defined(hdr, dblk));
        match pages_collected(hdr, s, sa, bitmap, read, chunk_bytes, np) {
            PagesView::Need(p) => {
                lemma_page(ctx, hdr, dblk, s, ndims, file, chunk_bytes, p as int);
            },
            _ => {},
        }
    } else {
        assert(b.len() == 6 + sa + total * w + 4);
        let v = page_content(b.skip(6 + sa as int), hdr.num_elmts as nat, s, sa, chunk_bytes);
        assert forall|i: int| 0 <= i < v.len() implies #[trigger] v[i] == recorded(
            hdr,
            dblk,
            chunk_bytes,
            i,
        ) by {
            lemma_flat_roundtrip(ctx, hdr, dblk, i);
        }
        if total > 0 {
            lemma_flat_roundtrip(ctx, hdr, dblk, 0);
        } else {
            lemma_empty(ctx, hdr, dblk);
        }
    }
}

proof fn lemma_no_coord_error(c: Seq<u64>, g: Seq<u64>, lo: int)
    requires
        0 <= lo,
    ensures
        coord_error(c, g, lo) is None <==> forall|d: int| lo <= d < g.len() ==> #[trigger] c[d] < g[d],
    decreases g.len() - lo,
{
    if lo < g.len() {
        lemma_no_coord_error(c, g, lo + 1);
        assert(coord_error(c, g, lo) is None ==> c[lo] < g[lo]);
        if forall|d: int| lo <= d < g.len() ==> #[trigger] c[d] < g[d] {
            assert(c[lo] < g[lo]);
        }
    }
}

/// A chunk of the right size is taken exactly where the grid has a place for it. It is
/// then found under its coordinates, with its size if it went through filters, and what
/// is recorded for chunks at other coordinates stays.
pub proof fn lemma_chunk_recorded(
    d: DatasetInfo,
    b: FixedArrayDatasetInfo,
    coords: Seq<u64>,
    other: Seq<u64>,
    data_len: nat,
    at: u64,
    len: nat,
    chunk_bytes: u64,
)
    requires
        d.fixed_array is Some,
        fixed_ready(d),
        data_len == volume(d.fixed_array->0.chunk_dims@) * d.datatype.spec_element_size(),
        (d.fixed_array->0.fa_header.client_id == FA_CLIENT_FILT_CHUNK) == (d.filter_pipeline is Some),
        coords.len() == d.dataspace.dims@.len(),
        other.len() == coords.len(),
        len <= u32::MAX,
    ensures
        ({
            let a = d.fixed_array->0;
            let g = grid(d.dataspace.dims@, a.chunk_dims@);
            let filtered = d.filter_pipeline is Some;
            let n = if filtered {
                a.fa_dblk.filtered_elements@.len()
            } else {
                a.fa_dblk.elements@.len()
            };
            let i = chunk_number(d, coords);
            &&& fixed_chunk_error(d, coords, data_len) is None <==> forall|k: int|
                0 <= k < g.len() ==> #[trigger] coords[k] < g[k]
            &&& (fixed_chunk_error(d, coords, data_len) is None && fixed_chunk_error(
                d,
                other,
                data_len,
            ) is None && n == volume(g) && fixed_recorded(a, b, filtered, i, at, len)) ==> {
                &&& 0 <= i < n
                &&& place(i, g) == ints(coords)
                &&& recorded(b.fa_header, b.fa_dblk, chunk_bytes, i) == (ChunkEntry {
                    addr: at,
                    nbytes: if filtered {
                        len as u64
                    } else {
                        chunk_bytes
                    },
                    filter_mask: 0,
                })
                &&& other != coords ==> recorded(
                    b.fa_header,
                    b.fa_dblk,
                    chunk_bytes,
                    chunk_number(d, other),
                ) == recorded(a.fa_header, a.fa_dblk, chunk_bytes, chunk_number(d, other))
            }
        }),
{
    let a = d.fixed_array->0;
    let g = grid(d.dataspace.dims@, a.chunk_dims@);
    lemma_no_coord_error(coords, g, 0);
    lemma_no_coord_error(other, g, 0);
    if fixed_chunk_error(d, coords, data_len) is None && fixed_chunk_error(d, other, data_len)
        is None {
        let x = ints(coords);
        let y = ints(other);
        assert forall|k: int| 0 <= k < x.len() implies 0 <= #[trigger] x[k] < g[k] by {
            assert(coords[k] < g[k]);
        }
        assert forall|k: int| 0 <= k < y.len() implies 0 <= #[trigger] y[k] < g[k] by {
            assert(other[k] < g[k]);
        }
        lemma_linear_bound(x, g);
        lemma_linear_bound(y, g);
        lemma_place_of_linear(x, g);
        lemma_place_of_linear(y, g);
        if other != coords {
            if x == y {
                assert forall|k: int| 0 <= k < other.len() implies other[k] == coords[k] by {
                    assert(x[k] == y[k]);
                }
                assert(other =~= coords);
            }
        }
    }
}

/// A dataset without filters reads back as it was written: if the array knows the place
/// of every chunk, and the chunks stand there, reading gives the data.
pub proof fn lemma_fixed_reads_back(
    file: Seq<u8>,
    hdr: FixedArrayHeader,
    dblk: FixedArrayDataBlock,
    entries: Seq<ChunkEntry>,
    out: Seq<u8>,
    data: Seq<u8>,
    dims: Seq<u64>,
    cd: Seq<u64>,
    es: nat,
    pads: Seq<Seq<u8>>,
)
    requires
        es > 0,
        cd.len() == dims.len(),
        dims.len() > 0,
        chunked(cd),
        shaped(out.len(), dims, es),
        shaped(data.len(), dims, es),
        byte_len(cd, es) <= u64::MAX,
        hdr.client_id != FA_CLIENT_FILT_CHUNK,
        tells(entries, hdr, dblk, byte_len(cd, es) as u64),
        entries.len() == volume(grid(dims, cd)),
        pads.len() == volume(grid(dims, cd)),
        forall|i: int|
            0 <= i < volume(grid(dims, cd)) ==> {
                let at = #[trigger] dblk.elements@[i];
                &&& at != UNDEF_ADDR
                &&& holds_at(
                    file,
                    at as int,
                    chunk_cut(data, dims, cd, place(i, grid(dims, cd)), es as int, pads[i]),
                )
            },
    ensures
        assembled(
            out,
            dims,
            cd,
            es as int,
            fetched(
                file,
                Seq::new(
                    entries.len(),
                    |i: int| fixed_range(entries[i], false, byte_len(cd, es) as u64),
                ),
            ),
            entries.len(),
        ) == data,
{
    let cb = byte_len(cd, es) as u64;
    let ranges = Seq::new(entries.len(), |i: int| fixed_range(entries[i], false, cb));
    let chunks = fetched(file, ranges);
    assert forall|i: int| 0 <= i < chunks.len() implies #[trigger] chunks[i] == Some(
        chunk_cut(data, dims, cd, place(i, grid(dims, cd)), es as int, pads[i]),
    ) by {
        assert(dblk.elements@[i] != UNDEF_ADDR);
        assert(entries[i] == recorded(hdr, dblk, cb, i));
        assert(ranges[i] == fixed_range(entries[i], false, cb));
    }
    assert(chunks_of(data, dims, cd, es as int, chunks, pads));
    lemma_all_chunks_roundtrip(out, data, dims, cd, es, chunks, pads);
}

} // verus!
