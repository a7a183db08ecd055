//! Data blocks of fixed arrays, flat or in pages.

use crate::format::bitstream::{
    bit_at, byte_bit, lemma_byte_of_bits, packed_byte, read_bits,
};
use crate::format::bytes::{
    joined, le_bytes, lemma_joined_at, lemma_joined_len, lemma_joined_uniform, lemma_le_bytes_len,
    lemma_le_roundtrip_exact, lemma_pow256_values, pow256, push_slice,
};
use crate::format::checksum::checksum;
use crate::format::chunk_index::fixed_array::{
    address_at, address_items, bitmap_byte, bitmap_len, block_meta, encode_filtered_page,
    encode_unfiltered_page, filtered_at, filtered_item, filtered_items, flat_block,
    page_bitmap, page_count, page_defined, page_end, page_error, page_items, page_start,
    paged_block, parsed_prefix, prefix_len, with_checksum, FixedArrayDataBlock,
    FixedArrayFilteredChunkElement, FixedArrayHeader, FixedArrayPagedPrefix, FA_CLIENT_FILT_CHUNK,
};
use crate::format::{ErrorView, FormatContext, UNDEF_ADDR};
use crate::io::reader::fixed::block_error;
use vstd::prelude::*;
use vstd::slice::slice_subrange;

verus! {

/// Bytes of the data block of a fixed array.
pub open spec fn dblk_disk_size(sa: nat, hdr: FixedArrayHeader) -> nat {
    let elements = hdr.num_elmts as nat * hdr.element_size as nat;
    if hdr.spec_is_paged() {
        prefix_len(sa, hdr.spec_npages()) + elements + 4 * hdr.spec_npages()
    } else {
        6 + sa + elements + 4
    }
}

/// Bytes of the size of a filtered chunk.
pub open spec fn chunk_size_width(ctx: FormatContext, hdr: FixedArrayHeader) -> nat {
    if hdr.element_size >= ctx.sizeof_addr + 4 {
        (hdr.element_size - ctx.sizeof_addr - 4) as nat
    } else {
        0
    }
}

/// The encoded elements of a data block.
pub open spec fn dblk_items(
    ctx: FormatContext,
    hdr: FixedArrayHeader,
    dblk: FixedArrayDataBlock,
) -> Seq<Seq<u8>> {
    let sa = ctx.sizeof_addr as nat;
    if hdr.client_id == FA_CLIENT_FILT_CHUNK {
        filtered_items(dblk.filtered_elements@, sa, chunk_size_width(ctx, hdr))
    } else {
        address_items(dblk.elements@, sa)
    }
}

/// Which elements of a data block have a defined address.
pub open spec fn dblk_defined(hdr: FixedArrayHeader, dblk: FixedArrayDataBlock) -> Seq<bool> {
    if hdr.client_id == FA_CLIENT_FILT_CHUNK {
        Seq::new(
            dblk.filtered_elements@.len(),
            |i: int| dblk.filtered_elements@[i].address != UNDEF_ADDR,
        )
    } else {
        Seq::new(dblk.elements@.len(), |i: int| dblk.elements@[i] != UNDEF_ADDR)
    }
}

/// The bytes of a data block.
pub open spec fn dblk_bytes(
    ctx: FormatContext,
    hdr: FixedArrayHeader,
    dblk: FixedArrayDataBlock,
) -> Seq<u8> {
    let sa = ctx.sizeof_addr as nat;
    let items = dblk_items(ctx, hdr, dblk);
    if hdr.spec_is_paged() {
        paged_block(
            block_meta(hdr.client_id, dblk.header_addr, sa),
            items,
            dblk_defined(hdr, dblk),
        )
    } else {
        flat_block(block_meta(dblk.client_id, dblk.header_addr, sa), items)
    }
}

/// Bytes of the data block of a fixed array on disk.
///
/// A flat block is a prefix, the elements and a checksum. A paged block is a
/// prefix with a bitmap of the pages and a checksum, and pages with a checksum
/// each.
pub fn fixed_array_dblk_disk_size(ctx: &FormatContext, hdr: &FixedArrayHeader) -> (n: u64)
    requires
        hdr.wf(),
        dblk_disk_size(ctx.sizeof_addr as nat, *hdr) <= u64::MAX,
    ensures
        n == dblk_disk_size(ctx.sizeof_addr as nat, *hdr),
{
    let es: u64 = hdr.element_size as u64;
    let sa: u64 = ctx.sizeof_addr as u64;
    let elements: u64 = hdr.num_elmts * es;
    let meta: u64 = 4 + 1 + 1 + sa;
    if hdr.is_paged() {
        let npages: u64 = hdr.npages();
        let bitmap: u64 = if npages % 8 == 0 {
            npages / 8
        } else {
            npages / 8 + 1
        };
        (meta + bitmap + 4) + elements + npages * 4
    } else {
        meta + elements + 4
    }
}

/// Whether an element from `start` to `end` has a defined address.
fn any_defined(hdr: &FixedArrayHeader, dblk: &FixedArrayDataBlock, start: usize, end: usize) -> (r:
    bool)
    requires
        start <= end <= dblk_defined(*hdr, *dblk).len(),
    ensures
        r == exists|i: int| start <= i < end && #[trigger] dblk_defined(*hdr, *dblk)[i],
{
    let ghost defined = dblk_defined(*hdr, *dblk);
    let filtered: bool = hdr.client_id == FA_CLIENT_FILT_CHUNK;
    let mut i: usize = start;
    while i < end
        invariant
            start <= i <= end <= defined.len(),
            defined == dblk_defined(*hdr, *dblk),
            filtered == (hdr.client_id == FA_CLIENT_FILT_CHUNK),
            forall|k: int| start <= k < i ==> !(#[trigger] defined[k]),
        decreases end - i,
    {
        let addr: u64 = if filtered {
            dblk.filtered_elements[i].address
        } else {
            dblk.elements[i]
        };
        assert(defined[i as int] == (addr != UNDEF_ADDR));
        if addr != UNDEF_ADDR {
            return true;
        }
        i = i + 1;
    }
    false
}

/// One byte of the bitmap of the pages.
fn encode_bitmap_byte(
    hdr: &FixedArrayHeader,
    dblk: &FixedArrayDataBlock,
    npages: usize,
    nelmts: usize,
    j: usize,
) -> (v: u8)
    requires
        nelmts == dblk_defined(*hdr, *dblk).len(),
        npages == page_count(nelmts as nat),
        j < bitmap_len(npages as nat),
        nelmts + 1024 <= usize::MAX,
    ensures
        v == bitmap_byte(dblk_defined(*hdr, *dblk), npages as nat, j as int),
{
    let ghost defined = dblk_defined(*hdr, *dblk);
    let ghost bits = Seq::new(npages as nat, |p: int| page_defined(defined, p));
    let mut v: u8 = 0;
    let mut x: usize = 0;
    while x < 8
        invariant
            x <= 8,
            nelmts == defined.len(),
            npages == page_count(nelmts as nat),
            j < bitmap_len(npages as nat),
            nelmts + 1024 <= usize::MAX,
            defined == dblk_defined(*hdr, *dblk),
            bits == Seq::new(npages as nat, |p: int| page_defined(defined, p)),
            v == read_bits(bits, 8 * j as int, x as nat),
            x == 0 ==> v < 1,
            x == 1 ==> v < 2,
            x == 2 ==> v < 4,
            x == 3 ==> v < 8,
            x == 4 ==> v < 16,
            x == 5 ==> v < 32,
            x == 6 ==> v < 64,
            x == 7 ==> v < 128,
        decreases 8 - x,
    {
        let p: usize = 8 * j + x;
        let bit: bool = if p < npages {
            let start: usize = 1024 * p;
            let end: usize = if nelmts - start <= 1024 {
                nelmts
            } else {
                start + 1024
            };
            let b: bool = any_defined(hdr, dblk, start, end);
            assert(start == page_start(p as int));
            assert(end == page_end(p as int, nelmts as nat));
            assert(b == bits[p as int]);
            b
        } else {
            false
        };
        assert(bit == bit_at(bits, 8 * j as int + (x + 1) - 1));
        v = 2 * v + if bit {
            1
        } else {
            0
        };
        x = x + 1;
    }
    v
}

/// The bytes of the data block of a fixed array.
///
/// A page is marked in the bitmap when one of its addresses is defined; other
/// pages are written all the same.
pub fn encode_fixed_array_dblk(
    ctx: &FormatContext,
    hdr: &FixedArrayHeader,
    dblk: &FixedArrayDataBlock,
) -> (buf: Vec<u8>)
    requires
        hdr.wf(),
        hdr.num_elmts == dblk_items(*ctx, *hdr, *dblk).len(),
        hdr.num_elmts + 1024 <= usize::MAX,
        prefix_len(ctx.sizeof_addr as nat, hdr.spec_npages()) <= usize::MAX,
    ensures
        buf@ == dblk_bytes(*ctx, *hdr, *dblk),
{
    let filtered: bool = hdr.client_id == FA_CLIENT_FILT_CHUNK;
    let sa: usize = ctx.sizeof_addr as usize;
    let csl: usize = if hdr.element_size as usize >= sa + 4 {
        hdr.element_size as usize - sa - 4
    } else {
        0
    };
    if !hdr.is_paged() {
        return if filtered {
            dblk.encode_filtered(ctx, csl)
        } else {
            dblk.encode_unfiltered(ctx)
        };
    }
    let nelmts: usize = hdr.num_elmts as usize;
    let npages: usize = hdr.npages() as usize;
    let ghost defined = dblk_defined(*hdr, *dblk);
    let ghost items = dblk_items(*ctx, *hdr, *dblk);
    let bits: usize = (npages + 7) / 8;
    let mut bitmap: Vec<u8> = Vec::with_capacity(bits);
    let mut j: usize = 0;
    while j < bits
        invariant
            j <= bits,
            bits == bitmap_len(npages as nat),
            nelmts == defined.len(),
            npages == page_count(nelmts as nat),
            nelmts + 1024 <= usize::MAX,
            defined == dblk_defined(*hdr, *dblk),
            bitmap@ == Seq::new(j as nat, |j: int| bitmap_byte(defined, npages as nat, j)),
        decreases bits - j,
    {
        let v: u8 = encode_bitmap_byte(hdr, dblk, npages, nelmts, j);
        bitmap.push(v);
        j = j + 1;
        assert(bitmap@ =~= Seq::new(j as nat, |j: int| bitmap_byte(defined, npages as nat, j)));
    }
    assert(bitmap@ =~= page_bitmap(defined));
    let prefix = FixedArrayPagedPrefix {
        client_id: hdr.client_id,
        header_addr: dblk.header_addr,
        page_init_bitmap: bitmap,
        prefix_size: 4 + 1 + 1 + sa + bits + 4,
    };
    let mut buf: Vec<u8> = prefix.encode(ctx);
    let ghost head = buf@;
    let ghost pages = page_items(items);
    let mut p: usize = 0;
    assert(buf@ =~= head + joined(pages.take(0)));
    while p < npages
        invariant
            p <= npages,
            filtered == (hdr.client_id == FA_CLIENT_FILT_CHUNK),
            csl == chunk_size_width(*ctx, *hdr),
            nelmts == items.len(),
            items == dblk_items(*ctx, *hdr, *dblk),
            npages == page_count(nelmts as nat),
            nelmts + 1024 <= usize::MAX,
            pages == page_items(items),
            buf@ == head + joined(pages.take(p as int)),
        decreases npages - p,
    {
        let start: usize = 1024 * p;
        let end: usize = if nelmts - start <= 1024 {
            nelmts
        } else {
            start + 1024
        };
        assert(start == page_start(p as int));
        assert(end == page_end(p as int, nelmts as nat));
        let ghost before = buf@;
        let ghost sub = items.subrange(start as int, end as int);
        if filtered {
            let part = slice_subrange(dblk.filtered_elements.as_slice(), start, end);
            assert(filtered_items(part@, ctx.sizeof_addr as nat, csl as nat) =~= sub);
            let page = encode_filtered_page(part, ctx, csl);
            push_slice(&mut buf, page.as_slice());
        } else {
            let part = slice_subrange(dblk.elements.as_slice(), start, end);
            assert(address_items(part@, ctx.sizeof_addr as nat) =~= sub);
            let page = encode_unfiltered_page(part, ctx);
            push_slice(&mut buf, page.as_slice());
        }
        proof {
            let t = pages.take(p + 1);
            assert(t.drop_last() =~= pages.take(p as int));
            assert(t.last() == pages[p as int]);
            assert(buf@ =~= before + pages[p as int]);
            assert(buf@ =~= head + joined(t));
        }
        p = p + 1;
    }
    assert(pages.take(p as int) =~= pages);
    buf
}

/// Bytes of an element.
pub open spec fn item_width(ctx: FormatContext, hdr: FixedArrayHeader) -> nat {
    if hdr.client_id == FA_CLIENT_FILT_CHUNK {
        ctx.sizeof_addr as nat + chunk_size_width(ctx, hdr) + 4
    } else {
        ctx.sizeof_addr as nat
    }
}

proof fn lemma_item_width(ctx: FormatContext, hdr: FixedArrayHeader, dblk: FixedArrayDataBlock)
    ensures
        forall|i: int|
            0 <= i < dblk_items(ctx, hdr, dblk).len() ==> (#[trigger] dblk_items(
                ctx,
                hdr,
                dblk,
            )[i]).len() == item_width(ctx, hdr),
{
    let items = dblk_items(ctx, hdr, dblk);
    let sa = ctx.sizeof_addr as nat;
    let csl = chunk_size_width(ctx, hdr);
    assert forall|i: int| 0 <= i < items.len() implies (#[trigger] items[i]).len() == item_width(
        ctx,
        hdr,
    ) by {
        if hdr.client_id == FA_CLIENT_FILT_CHUNK {
            let e = dblk.filtered_elements@[i];
            lemma_le_bytes_len(e.address as nat, sa);
            lemma_le_bytes_len(e.chunk_size as nat, csl);
            lemma_le_bytes_len(e.filter_mask as nat, 4);
        } else {
            lemma_le_bytes_len(dblk.elements@[i] as nat, sa);
        }
    }
}

proof fn lemma_checksum_len(b: Seq<u8>)
    ensures
        with_checksum(b).len() == b.len() + 4,
{
    lemma_le_bytes_len(checksum(b) as nat, 4);
}

/// How many bytes the first `n` pages take.
proof fn lemma_pages_len(items: Seq<Seq<u8>>, width: nat, n: int)
    requires
        forall|i: int| 0 <= i < items.len() ==> (#[trigger] items[i]).len() == width,
        0 <= n <= page_count(items.len()),
    ensures
        joined(page_items(items).take(n)).len() == 4 * n + width * if n == 0 {
            0
        } else {
            page_end(n - 1, items.len())
        },
        n < page_count(items.len()) ==> joined(page_items(items).take(n)).len() == n * (1024 * width
            + 4),
    decreases n,
{
    let pages = page_items(items);
    if n > 0 {
        lemma_pages_len(items, width, n - 1);
        let p = n - 1;
        let start = page_start(p);
        let end = page_end(p, items.len());
        let sub = items.subrange(start, end);
        assert forall|k: int| 0 <= k < sub.len() implies (#[trigger] sub[k]).len() == width by {
            assert(sub[k] == items[start + k]);
        }
        lemma_joined_len(sub, width);
        lemma_checksum_len(joined(sub));
        assert(pages.take(n).drop_last() =~= pages.take(p));
        assert(pages.take(n).last() == pages[p]);
        let before = if p == 0 {
            0
        } else {
            page_end(p - 1, items.len())
        };
        assert(before == start);
        assert(width * end == width * start + (end - start) * width) by (nonlinear_arith);
        if n < page_count(items.len()) {
            assert(end == 1024 * n);
            assert(4 * n + width * (1024 * n) == n * (1024 * width + 4)) by (nonlinear_arith);
        }
    } else {
        assert(pages.take(n).len() == 0);
        assert(width * 0 == 0) by (nonlinear_arith);
        assert(n * (1024 * width + 4) == 0) by (nonlinear_arith)
            requires
                n == 0,
        ;
    }
}

/// A data block takes the space that is set aside for it.
pub proof fn lemma_dblk_size(ctx: FormatContext, hdr: FixedArrayHeader, dblk: FixedArrayDataBlock)
    requires
        hdr.num_elmts == dblk_items(ctx, hdr, dblk).len(),
        hdr.element_size == item_width(ctx, hdr),
    ensures
        dblk_bytes(ctx, hdr, dblk).len() == dblk_disk_size(ctx.sizeof_addr as nat, hdr),
{
    let sa = ctx.sizeof_addr as nat;
    let items = dblk_items(ctx, hdr, dblk);
    let width = item_width(ctx, hdr);
    let n = items.len();
    lemma_item_width(ctx, hdr, dblk);
    lemma_le_bytes_len(dblk.header_addr as nat, sa);
    lemma_joined_len(items, width);
    if hdr.spec_is_paged() {
        let meta = block_meta(hdr.client_id, dblk.header_addr, sa);
        let defined = dblk_defined(hdr, dblk);
        lemma_checksum_len(meta + page_bitmap(defined));
        let pages = page_items(items);
        let np = page_count(n) as int;
        lemma_pages_len(items, width, np);
        assert(pages.take(np) =~= pages);
        assert(page_end(np - 1, n) == n);
        assert(width * n == n * width) by (nonlinear_arith);
    } else {
        lemma_checksum_len(
            block_meta(dblk.client_id, dblk.header_addr, sa) + joined(items),
        );
    }
}

/// Whether the addresses and sizes of the elements fit in their fields.
pub open spec fn elements_fit(
    ctx: FormatContext,
    hdr: FixedArrayHeader,
    dblk: FixedArrayDataBlock,
) -> bool {
    let sa = ctx.sizeof_addr as nat;
    let csl = chunk_size_width(ctx, hdr);
    if hdr.client_id == FA_CLIENT_FILT_CHUNK {
        forall|i: int|
            0 <= i < dblk.filtered_elements@.len() ==> (
            #[trigger] dblk.filtered_elements@[i]).address < pow256(sa)
                && dblk.filtered_elements@[i].chunk_size < pow256(csl)
    } else {
        forall|i: int| 0 <= i < dblk.elements@.len() ==> #[trigger] dblk.elements@[i] < pow256(sa)
    }
}

/// Bit `p` of packed bits.
proof fn lemma_packed_bit(bits: Seq<bool>, p: int)
    requires
        0 <= p < bits.len(),
    ensures
        byte_bit(packed_byte(bits, p / 8), p % 8) == bits[p],
{
    let j = p / 8;
    let b = packed_byte(bits, j);
    reveal_with_fuel(read_bits, 9);
    lemma_byte_of_bits(
        bit_at(bits, 8 * j + 0),
        bit_at(bits, 8 * j + 1),
        bit_at(bits, 8 * j + 2),
        bit_at(bits, 8 * j + 3),
        bit_at(bits, 8 * j + 4),
        bit_at(bits, 8 * j + 5),
        bit_at(bits, 8 * j + 6),
        bit_at(bits, 8 * j + 7),
        b,
    );
    assert(bit_at(bits, 8 * j + p % 8) == bits[p]);
}

/// A prefix reads back as it was written.
proof fn lemma_prefix_parts(
    client_id: u8,
    header_addr: u64,
    sa: nat,
    bitmap: Seq<u8>,
    npages: nat,
    tail: Seq<u8>,
)
    requires
        header_addr < pow256(sa),
        bitmap.len() == bitmap_len(npages),
    ensures
        parsed_prefix(
            with_checksum(block_meta(client_id, header_addr, sa) + bitmap) + tail,
            sa,
            npages,
        ) == Ok::<(u8, u64, Seq<u8>), ErrorView>((client_id, header_addr, bitmap)),
{
    let si = sa as int;
    let body = block_meta(client_id, header_addr, sa) + bitmap;
    let buf = with_checksum(body) + tail;
    let end = body.len() as int;
    lemma_le_bytes_len(header_addr as nat, sa);
    lemma_le_roundtrip_exact(header_addr as nat, sa);
    lemma_le_bytes_len(checksum(body) as nat, 4);
    lemma_pow256_values();
    lemma_le_roundtrip_exact(checksum(body) as nat, 4);
    assert(buf.take(end) =~= body);
    assert(buf.subrange(end, end + 4) =~= le_bytes(checksum(body) as nat, 4));
    assert(buf.subrange(6, 6 + si) =~= le_bytes(header_addr as nat, sa));
    assert(buf.subrange(6 + si, end) =~= bitmap);
}

/// The prefix of a paged block reads back as it was written, and bit `p` of its
/// bitmap tells whether page `p` holds a defined address.
pub proof fn lemma_prefix_roundtrip(
    ctx: FormatContext,
    hdr: FixedArrayHeader,
    dblk: FixedArrayDataBlock,
    p: int,
)
    requires
        hdr.spec_is_paged(),
        hdr.num_elmts == dblk_items(ctx, hdr, dblk).len(),
        dblk.header_addr < pow256(ctx.sizeof_addr as nat),
        0 <= p < hdr.spec_npages(),
    ensures
        parsed_prefix(
            dblk_bytes(ctx, hdr, dblk),
            ctx.sizeof_addr as nat,
            hdr.spec_npages(),
        ) == Ok::<(u8, u64, Seq<u8>), ErrorView>(
            (hdr.client_id, dblk.header_addr, page_bitmap(dblk_defined(hdr, dblk))),
        ),
        byte_bit(page_bitmap(dblk_defined(hdr, dblk))[p / 8], p % 8) == page_defined(
            dblk_defined(hdr, dblk),
            p,
        ),
{
    let defined = dblk_defined(hdr, dblk);
    lemma_prefix_parts(
        hdr.client_id,
        dblk.header_addr,
        ctx.sizeof_addr as nat,
        page_bitmap(defined),
        hdr.spec_npages(),
        joined(page_items(dblk_items(ctx, hdr, dblk))),
    );
    lemma_packed_bit(Seq::new(hdr.spec_npages(), |q: int| page_defined(defined, q)), p);
}

/// A page of a block starts with its elements and their checksum.
proof fn lemma_page_at(items: Seq<Seq<u8>>, width: nat, head: Seq<u8>, p: int)
    requires
        forall|i: int| 0 <= i < items.len() ==> (#[trigger] items[i]).len() == width,
        0 <= p < page_count(items.len()),
    ensures
        ({
            let off = head.len() + p * (1024 * width + 4);
            let sub = items.subrange(page_start(p), page_end(p, items.len()));
            let buf = (head + joined(page_items(items))).skip(off);
            &&& off <= (head + joined(page_items(items))).len()
            &&& joined(sub).len() == sub.len() * width
            &&& buf.len() >= joined(sub).len() + 4
            &&& buf.take(joined(sub).len() as int) == joined(sub)
            &&& page_error(buf, joined(sub).len()) is None
        }),
{
    let pages = page_items(items);
    let off = head.len() + p * (1024 * width + 4);
    let start = page_start(p);
    let sub = items.subrange(start, page_end(p, items.len()));
    let whole = head + joined(pages);
    let buf = whole.skip(off);
    assert forall|k: int| 0 <= k < sub.len() implies (#[trigger] sub[k]).len() == width by {
        assert(sub[k] == items[start + k]);
    }
    lemma_joined_len(sub, width);
    lemma_pages_len(items, width, p);
    lemma_joined_at(pages, p);
    let body = joined(sub);
    lemma_checksum_len(body);
    let from = joined(pages.take(p)).len() as int;
    let to = joined(pages.take(p + 1)).len() as int;
    assert(pages[p] == with_checksum(body));
    assert(joined(pages).subrange(from, to) == pages[p]);
    let size = body.len() as int;
    assert(buf.take(size) =~= body) by {
        assert forall|k: int| 0 <= k < size implies buf[k] == body[k] by {
            assert(joined(pages).subrange(from, to)[k] == pages[p][k]);
        }
    }
    let sum = le_bytes(checksum(body) as nat, 4);
    lemma_le_bytes_len(checksum(body) as nat, 4);
    assert(buf.subrange(size, size + 4) =~= sum) by {
        assert forall|k: int| 0 <= k < 4 implies buf[size + k] == sum[k] by {
            assert(joined(pages).subrange(from, to)[size + k] == pages[p][size + k]);
        }
    }
    lemma_pow256_values();
    lemma_le_roundtrip_exact(checksum(body) as nat, 4);
}

/// Where element `i` of page `p` stands.
proof fn lemma_item_at(items: Seq<Seq<u8>>, width: nat, head: Seq<u8>, p: int, i: int)
    requires
        forall|i: int| 0 <= i < items.len() ==> (#[trigger] items[i]).len() == width,
        0 <= p < page_count(items.len()),
        0 <= i < page_end(p, items.len()) - page_start(p),
    ensures
        ({
            let off = head.len() + p * (1024 * width + 4);
            let n = (page_end(p, items.len()) - page_start(p)) as nat;
            let buf = (head + joined(page_items(items))).skip(off);
            &&& page_error(buf, n * width) is None
            &&& i * width + width <= buf.len()
            &&& buf.subrange(i * width, i * width + width) == items[page_start(p) + i]
        }),
{
    let off = head.len() + p * (1024 * width + 4);
    let buf = (head + joined(page_items(items))).skip(off);
    let start = page_start(p);
    let sub = items.subrange(start, page_end(p, items.len()));
    lemma_page_at(items, width, head, p);
    assert forall|k: int| 0 <= k < sub.len() implies (#[trigger] sub[k]).len() == width by {
        assert(sub[k] == items[start + k]);
    }
    lemma_joined_uniform(sub, width, i);
    let at = i * width;
    let body = joined(sub);
    assert(buf.subrange(at, at + width) =~= buf.take(body.len() as int).subrange(at, at + width));
}

/// A filtered chunk reads back as it was written.
proof fn lemma_filtered_fields(
    e: FixedArrayFilteredChunkElement,
    sa: nat,
    csl: nat,
    buf: Seq<u8>,
    i: int,
)
    requires
        0 <= i * (sa + csl + 4),
        i * (sa + csl + 4) + (sa + csl + 4) <= buf.len(),
        buf.subrange(i * (sa + csl + 4), i * (sa + csl + 4) + (sa + csl + 4)) == filtered_item(
            e,
            sa,
            csl,
        ),
        e.address < pow256(sa),
        e.chunk_size < pow256(csl),
    ensures
        filtered_at(buf, sa, csl, i) == e,
{
    let at = i * (sa + csl + 4);
    let item = buf.subrange(at, at + (sa + csl + 4));
    lemma_le_bytes_len(e.address as nat, sa);
    lemma_le_bytes_len(e.chunk_size as nat, csl);
    lemma_le_bytes_len(e.filter_mask as nat, 4);
    lemma_pow256_values();
    lemma_le_roundtrip_exact(e.address as nat, sa);
    lemma_le_roundtrip_exact(e.chunk_size as nat, csl);
    lemma_le_roundtrip_exact(e.filter_mask as nat, 4);
    let si = sa as int;
    let ci = csl as int;
    assert(buf.subrange(at, at + si) =~= item.subrange(0, si));
    assert(item.subrange(0, si) =~= le_bytes(e.address as nat, sa));
    assert(buf.subrange(at + si, at + si + ci) =~= item.subrange(si, si + ci));
    assert(item.subrange(si, si + ci) =~= le_bytes(e.chunk_size as nat, csl));
    assert(buf.subrange(at + si + ci, at + si + ci + 4) =~= item.subrange(si + ci, si + ci + 4));
    assert(item.subrange(si + ci, si + ci + 4) =~= le_bytes(e.filter_mask as nat, 4));
}

/// Every page of a block, at a fixed distance from the page before it, reads
/// back as it was written.
pub proof fn lemma_page_roundtrip(
    ctx: FormatContext,
    hdr: FixedArrayHeader,
    dblk: FixedArrayDataBlock,
    p: int,
    i: int,
)
    requires
        hdr.spec_is_paged(),
        hdr.num_elmts == dblk_items(ctx, hdr, dblk).len(),
        elements_fit(ctx, hdr, dblk),
        0 <= p < hdr.spec_npages(),
        0 <= i < page_end(p, hdr.num_elmts as nat) - page_start(p),
    ensures
        ({
            let sa = ctx.sizeof_addr as nat;
            let csl = chunk_size_width(ctx, hdr);
            let width = item_width(ctx, hdr);
            let n = (page_end(p, hdr.num_elmts as nat) - page_start(p)) as nat;
            let off = prefix_len(sa, hdr.spec_npages()) + p * (1024 * width + 4);
            let buf = dblk_bytes(ctx, hdr, dblk).skip(off);
            &&& page_error(buf, n * width) is None
            &&& if hdr.client_id == FA_CLIENT_FILT_CHUNK {
                filtered_at(buf, sa, csl, i) == dblk.filtered_elements@[page_start(p) + i]
            } else {
                address_at(buf, sa, i) == dblk.elements@[page_start(p) + i]
            }
        }),
{
    let sa = ctx.sizeof_addr as nat;
    let csl = chunk_size_width(ctx, hdr);
    let width = item_width(ctx, hdr);
    let items = dblk_items(ctx, hdr, dblk);
    let body = block_meta(hdr.client_id, dblk.header_addr, sa) + page_bitmap(
        dblk_defined(hdr, dblk),
    );
    let head = with_checksum(body);
    lemma_item_width(ctx, hdr, dblk);
    lemma_le_bytes_len(dblk.header_addr as nat, sa);
    lemma_checksum_len(body);
    assert(head.len() == prefix_len(sa, hdr.spec_npages()));
    lemma_item_at(items, width, head, p, i);
    let off = head.len() + p * (1024 * width + 4);
    let buf = dblk_bytes(ctx, hdr, dblk).skip(off);
    let at = page_start(p) + i;
    assert(0 <= i * width) by (nonlinear_arith)
        requires
            0 <= i,
    ;
    if hdr.client_id == FA_CLIENT_FILT_CHUNK {
        lemma_filtered_fields(dblk.filtered_elements@[at], sa, csl, buf, i);
    } else {
        lemma_le_roundtrip_exact(dblk.elements@[at] as nat, sa);
    }
}

/// A block without pages reads back as it was written.
pub proof fn lemma_flat_roundtrip(
    ctx: FormatContext,
    hdr: FixedArrayHeader,
    dblk: FixedArrayDataBlock,
    i: int,
)
    requires
        !hdr.spec_is_paged(),
        hdr.num_elmts == dblk_items(ctx, hdr, dblk).len(),
        elements_fit(ctx, hdr, dblk),
        0 <= i < hdr.num_elmts,
    ensures
        ({
            let sa = ctx.sizeof_addr as nat;
            let csl = chunk_size_width(ctx, hdr);
            let b = dblk_bytes(ctx, hdr, dblk);
            let rest = b.skip(6 + sa as int);
            &&& block_error(b, sa, hdr.num_elmts as nat * item_width(ctx, hdr)) is None
            &&& if hdr.client_id == FA_CLIENT_FILT_CHUNK {
                filtered_at(rest, sa, csl, i) == dblk.filtered_elements@[i]
            } else {
                address_at(rest, sa, i) == dblk.elements@[i]
            }
        }),
{
    let sa = ctx.sizeof_addr as nat;
    let csl = chunk_size_width(ctx, hdr);
    let width = item_width(ctx, hdr);
    let items = dblk_items(ctx, hdr, dblk);
    let meta = block_meta(dblk.client_id, dblk.header_addr, sa);
    let body = meta + joined(items);
    let b = with_checksum(body);
    let end = body.len() as int;
    lemma_item_width(ctx, hdr, dblk);
    lemma_joined_len(items, width);
    lemma_joined_uniform(items, width, i);
    lemma_le_bytes_len(dblk.header_addr as nat, sa);
    lemma_le_bytes_len(checksum(body) as nat, 4);
    lemma_pow256_values();
    lemma_le_roundtrip_exact(checksum(body) as nat, 4);
    assert(b.take(end) =~= body);
    assert(b.subrange(end, end + 4) =~= le_bytes(checksum(body) as nat, 4));
    let rest = b.skip(6 + sa as int);
    let at = i * width;
    assert(0 <= at) by (nonlinear_arith)
        requires
            0 <= i,
            at == i * width,
    ;
    assert(rest.subrange(at, at + width) =~= joined(items).subrange(at, at + width));
    if hdr.client_id == FA_CLIENT_FILT_CHUNK {
        lemma_filtered_fields(dblk.filtered_elements@[i], sa, csl, rest, i);
    } else {
        lemma_le_roundtrip_exact(dblk.elements@[i] as nat, sa);
    }
}

} // verus!
