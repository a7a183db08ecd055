//! Fixed arrays: the index of the chunks of a dataset of fixed shape.
//!
//! A data block holds one element per chunk. Blocks of more than a page of
//! elements are paged: a bitmap tells which pages hold a defined address, and
//! every page has a checksum of its own.

use crate::format::bytes::{
    copy_range, joined, le_bytes, le_value, lemma_pow256_values, push_le, push_slice, read_le_at,
};
use crate::format::checksum::{checksum, checksum_metadata};
use crate::format::{too_short, ErrorView, FormatContext, FormatError, FormatResult, UNDEF_ADDR};
use vstd::prelude::*;
use vstd::slice::slice_subrange;

verus! {

/// Client of an array of chunk addresses.
pub const FA_CLIENT_CHUNK: u8 = 0;

/// Client of an array of addresses, sizes and masks of filtered chunks.
pub const FA_CLIENT_FILT_CHUNK: u8 = 1;

/// Elements of a page, as a power of two.
pub const FA_PAGE_BITS: u8 = 10;

/// Elements of a page.
pub const FA_PAGE_NELMTS: u64 = 1024;

/// The header of a fixed array.
#[derive(Debug, Clone, Copy, PartialEq, Eq, Structural)]
pub struct FixedArrayHeader {
    /// What the elements are.
    pub client_id: u8,
    /// Bytes of an element.
    pub element_size: u8,
    /// Elements of a page, as a power of two.
    pub max_dblk_page_nelmts_bits: u8,
    /// Number of elements.
    pub num_elmts: u64,
    /// Address of the data block.
    pub data_blk_addr: u64,
}

/// An element of an array of filtered chunks.
#[derive(Debug, Clone, Copy, PartialEq, Eq, Structural)]
pub struct FixedArrayFilteredChunkElement {
    /// Address of the chunk.
    pub address: u64,
    /// Bytes of the filtered chunk.
    pub chunk_size: u32,
    /// Filters that were skipped.
    pub filter_mask: u32,
}

/// The data block of a fixed array.
#[derive(Debug)]
pub struct FixedArrayDataBlock {
    /// What the elements are.
    pub client_id: u8,
    /// Address of the header.
    pub header_addr: u64,
    /// Addresses of chunks.
    pub elements: Vec<u64>,
    /// Filtered chunks.
    pub filtered_elements: Vec<FixedArrayFilteredChunkElement>,
}

/// What stands in front of the pages of a data block.
#[derive(Debug)]
pub struct FixedArrayPagedPrefix {
    /// What the elements are.
    pub client_id: u8,
    /// Address of the header.
    pub header_addr: u64,
    /// One bit per page, most significant first: whether the page holds a
    /// defined address.
    pub page_init_bitmap: Vec<u8>,
    /// Bytes of the prefix.
    pub prefix_size: usize,
}

impl FixedArrayHeader {
    /// Whether pages have the usual number of elements.
    pub open spec fn wf(self) -> bool {
        self.max_dblk_page_nelmts_bits == FA_PAGE_BITS
    }

    /// Whether the data block is paged.
    pub open spec fn spec_is_paged(self) -> bool {
        self.num_elmts > FA_PAGE_NELMTS
    }

    /// Number of pages.
    pub open spec fn spec_npages(self) -> nat {
        page_count(self.num_elmts as nat)
    }

    /// The header of an array of `num_elmts` chunk addresses.
    pub fn new_for_chunks(ctx: &FormatContext, num_elmts: u64) -> (h: Self)
        ensures
            h == (FixedArrayHeader {
                client_id: FA_CLIENT_CHUNK,
                element_size: ctx.sizeof_addr,
                max_dblk_page_nelmts_bits: FA_PAGE_BITS,
                num_elmts,
                data_blk_addr: UNDEF_ADDR,
            }),
    {
        FixedArrayHeader {
            client_id: FA_CLIENT_CHUNK,
            element_size: ctx.sizeof_addr,
            max_dblk_page_nelmts_bits: FA_PAGE_BITS,
            num_elmts,
            data_blk_addr: UNDEF_ADDR,
        }
    }

    /// The header of an array of `num_elmts` filtered chunks, whose sizes take
    /// `chunk_size_len` bytes.
    pub fn new_for_filtered_chunks(ctx: &FormatContext, num_elmts: u64, chunk_size_len: u8) -> (h:
        Self)
        requires
            ctx.sizeof_addr + chunk_size_len + 4 <= 255,
        ensures
            h == (FixedArrayHeader {
                client_id: FA_CLIENT_FILT_CHUNK,
                element_size: (ctx.sizeof_addr + chunk_size_len + 4) as u8,
                max_dblk_page_nelmts_bits: FA_PAGE_BITS,
                num_elmts,
                data_blk_addr: UNDEF_ADDR,
            }),
    {
        FixedArrayHeader {
            client_id: FA_CLIENT_FILT_CHUNK,
            element_size: ctx.sizeof_addr + chunk_size_len + 4,
            max_dblk_page_nelmts_bits: FA_PAGE_BITS,
            num_elmts,
            data_blk_addr: UNDEF_ADDR,
        }
    }

    /// Elements of a page.
    pub fn dblk_page_nelmts(&self) -> (n: u64)
        requires
            self.wf(),
        ensures
            n == FA_PAGE_NELMTS,
    {
        FA_PAGE_NELMTS
    }

    /// Whether the data block is paged.
    pub fn is_paged(&self) -> (r: bool)
        requires
            self.wf(),
        ensures
            r == self.spec_is_paged(),
    {
        self.num_elmts > FA_PAGE_NELMTS
    }

    /// Number of pages.
    pub fn npages(&self) -> (n: u64)
        requires
            self.wf(),
        ensures
            n == self.spec_npages(),
    {
        if self.num_elmts % FA_PAGE_NELMTS == 0 {
            self.num_elmts / FA_PAGE_NELMTS
        } else {
            self.num_elmts / FA_PAGE_NELMTS + 1
        }
    }
}

/// How many pages hold `n` elements.
pub open spec fn page_count(n: nat) -> nat {
    (n + 1023) / 1024
}

/// How many bytes hold `n` bits.
pub open spec fn bitmap_len(n: nat) -> nat {
    (n + 7) / 8
}

/// The first element of page `p`.
pub open spec fn page_start(p: int) -> int {
    1024 * p
}

/// The end of page `p` of `n` elements.
pub open spec fn page_end(p: int, n: nat) -> int {
    if 1024 * (p + 1) <= n {
        1024 * (p + 1)
    } else {
        n as int
    }
}

/// `b` with its checksum behind it.
pub open spec fn with_checksum(b: Seq<u8>) -> Seq<u8> {
    b + le_bytes(checksum(b) as nat, 4)
}

/// The encoded addresses.
pub open spec fn address_items(elements: Seq<u64>, sa: nat) -> Seq<Seq<u8>> {
    Seq::new(elements.len(), |i: int| le_bytes(elements[i] as nat, sa))
}

/// An encoded filtered chunk.
pub open spec fn filtered_item(e: FixedArrayFilteredChunkElement, sa: nat, csl: nat) -> Seq<u8> {
    le_bytes(e.address as nat, sa) + le_bytes(e.chunk_size as nat, csl) + le_bytes(
        e.filter_mask as nat,
        4,
    )
}

/// The encoded filtered chunks.
pub open spec fn filtered_items(
    elements: Seq<FixedArrayFilteredChunkElement>,
    sa: nat,
    csl: nat,
) -> Seq<Seq<u8>> {
    Seq::new(elements.len(), |i: int| filtered_item(elements[i], sa, csl))
}

/// What every data block starts with.
pub open spec fn block_meta(client_id: u8, header_addr: u64, sa: nat) -> Seq<u8> {
    seq![0x46u8, 0x41, 0x44, 0x42, 0, client_id] + le_bytes(header_addr as nat, sa)
}

/// Whether page `p` holds a defined address.
pub open spec fn page_defined(defined: Seq<bool>, p: int) -> bool {
    exists|i: int| page_start(p) <= i < page_end(p, defined.len()) && #[trigger] defined[i]
}

/// Byte `j` of the bitmap of `npages` pages.
pub open spec fn bitmap_byte(defined: Seq<bool>, npages: nat, j: int) -> u8 {
    crate::format::bitstream::packed_byte(
        Seq::new(npages, |p: int| page_defined(defined, p)),
        j,
    )
}

/// The bitmap of the pages.
pub open spec fn page_bitmap(defined: Seq<bool>) -> Seq<u8> {
    let npages = page_count(defined.len());
    Seq::new(bitmap_len(npages), |j: int| bitmap_byte(defined, npages, j))
}

/// The pages.
pub open spec fn page_items(items: Seq<Seq<u8>>) -> Seq<Seq<u8>> {
    Seq::new(
        page_count(items.len()),
        |p: int| with_checksum(joined(items.subrange(page_start(p), page_end(p, items.len())))),
    )
}

/// A data block without pages.
pub open spec fn flat_block(meta: Seq<u8>, items: Seq<Seq<u8>>) -> Seq<u8> {
    with_checksum(meta + joined(items))
}

/// A data block with pages.
pub open spec fn paged_block(meta: Seq<u8>, items: Seq<Seq<u8>>, defined: Seq<bool>) -> Seq<u8> {
    with_checksum(meta + page_bitmap(defined)) + joined(page_items(items))
}

impl FixedArrayDataBlock {
    /// A block of `n` undefined chunk addresses.
    pub fn new_unfiltered(header_addr: u64, n: usize) -> (b: Self)
        ensures
            b.client_id == FA_CLIENT_CHUNK,
            b.header_addr == header_addr,
            b.elements@ == Seq::new(n as nat, |i: int| UNDEF_ADDR),
            b.filtered_elements@.len() == 0,
    {
        let mut elements: Vec<u64> = Vec::with_capacity(n);
        let mut i: usize = 0;
        while i < n
            invariant
                i <= n,
                elements@ == Seq::new(i as nat, |i: int| UNDEF_ADDR),
            decreases n - i,
        {
            elements.push(UNDEF_ADDR);
            i = i + 1;
            assert(elements@ =~= Seq::new(i as nat, |i: int| UNDEF_ADDR));
        }
        FixedArrayDataBlock {
            client_id: FA_CLIENT_CHUNK,
            header_addr,
            elements,
            filtered_elements: Vec::new(),
        }
    }

    /// A block of `n` undefined filtered chunks.
    pub fn new_filtered(header_addr: u64, n: usize) -> (b: Self)
        ensures
            b.client_id == FA_CLIENT_FILT_CHUNK,
            b.header_addr == header_addr,
            b.elements@.len() == 0,
            b.filtered_elements@ == Seq::new(
                n as nat,
                |i: int|
                    FixedArrayFilteredChunkElement {
                        address: UNDEF_ADDR,
                        chunk_size: 0,
                        filter_mask: 0,
                    },
            ),
    {
        let mut filtered_elements: Vec<FixedArrayFilteredChunkElement> = Vec::with_capacity(n);
        let e = FixedArrayFilteredChunkElement {
            address: UNDEF_ADDR,
            chunk_size: 0,
            filter_mask: 0,
        };
        let mut i: usize = 0;
        while i < n
            invariant
                i <= n,
                filtered_elements@ == Seq::new(i as nat, |i: int| e),
            decreases n - i,
        {
            filtered_elements.push(e);
            i = i + 1;
            assert(filtered_elements@ =~= Seq::new(i as nat, |i: int| e));
        }
        assert(filtered_elements@ =~= Seq::new(
            n as nat,
            |i: int|
                FixedArrayFilteredChunkElement {
                    address: UNDEF_ADDR,
                    chunk_size: 0,
                    filter_mask: 0,
                },
        ));
        FixedArrayDataBlock {
            client_id: FA_CLIENT_FILT_CHUNK,
            header_addr,
            elements: Vec::new(),
            filtered_elements,
        }
    }

    /// The bytes of a block of chunk addresses without pages.
    pub fn encode_unfiltered(&self, ctx: &FormatContext) -> (buf: Vec<u8>)
        ensures
            buf@ == flat_block(
                block_meta(self.client_id, self.header_addr, ctx.sizeof_addr as nat),
                address_items(self.elements@, ctx.sizeof_addr as nat),
            ),
    {
        let mut buf = encode_meta(ctx, self.client_id, self.header_addr);
        push_addresses(&mut buf, self.elements.as_slice(), ctx);
        push_checksum(&mut buf);
        buf
    }

    /// The bytes of a block of filtered chunks without pages.
    pub fn encode_filtered(&self, ctx: &FormatContext, chunk_size_len: usize) -> (buf: Vec<u8>)
        ensures
            buf@ == flat_block(
                block_meta(self.client_id, self.header_addr, ctx.sizeof_addr as nat),
                filtered_items(
                    self.filtered_elements@,
                    ctx.sizeof_addr as nat,
                    chunk_size_len as nat,
                ),
            ),
    {
        let mut buf = encode_meta(ctx, self.client_id, self.header_addr);
        push_filtered(&mut buf, self.filtered_elements.as_slice(), ctx, chunk_size_len);
        push_checksum(&mut buf);
        buf
    }
}

fn encode_meta(ctx: &FormatContext, client_id: u8, header_addr: u64) -> (buf: Vec<u8>)
    ensures
        buf@ == block_meta(client_id, header_addr, ctx.sizeof_addr as nat),
{
    let mut buf: Vec<u8> = Vec::new();
    buf.push(0x46);
    buf.push(0x41);
    buf.push(0x44);
    buf.push(0x42);
    buf.push(0);
    buf.push(client_id);
    assert(buf@ =~= seq![0x46u8, 0x41, 0x44, 0x42, 0, client_id]);
    push_le(&mut buf, header_addr, ctx.sizeof_addr as usize);
    buf
}

/// Append the checksum of what stands in `buf`.
fn push_checksum(buf: &mut Vec<u8>)
    ensures
        final(buf)@ == with_checksum(old(buf)@),
{
    let sum: u32 = checksum_metadata(buf.as_slice());
    push_le(buf, sum as u64, 4);
}

fn push_addresses(buf: &mut Vec<u8>, elements: &[u64], ctx: &FormatContext)
    ensures
        final(buf)@ == old(buf)@ + joined(address_items(elements@, ctx.sizeof_addr as nat)),
{
    let ghost items = address_items(elements@, ctx.sizeof_addr as nat);
    let mut i: usize = 0;
    assert(buf@ =~= old(buf)@ + joined(items.take(0)));
    while i < elements.len()
        invariant
            i <= elements@.len(),
            items == address_items(elements@, ctx.sizeof_addr as nat),
            buf@ == old(buf)@ + joined(items.take(i as int)),
        decreases elements@.len() - i,
    {
        let ghost before = buf@;
        push_le(buf, elements[i], ctx.sizeof_addr as usize);
        proof {
            let t = items.take(i + 1);
            assert(t.drop_last() =~= items.take(i as int));
            assert(t.last() == items[i as int]);
            assert(buf@ =~= old(buf)@ + joined(t));
        }
        i = i + 1;
    }
    assert(items.take(i as int) =~= items);
}

fn push_filtered(
    buf: &mut Vec<u8>,
    elements: &[FixedArrayFilteredChunkElement],
    ctx: &FormatContext,
    chunk_size_len: usize,
)
    ensures
        final(buf)@ == old(buf)@ + joined(
            filtered_items(elements@, ctx.sizeof_addr as nat, chunk_size_len as nat),
        ),
{
    let ghost items = filtered_items(elements@, ctx.sizeof_addr as nat, chunk_size_len as nat);
    let mut i: usize = 0;
    assert(buf@ =~= old(buf)@ + joined(items.take(0)));
    while i < elements.len()
        invariant
            i <= elements@.len(),
            items == filtered_items(elements@, ctx.sizeof_addr as nat, chunk_size_len as nat),
            buf@ == old(buf)@ + joined(items.take(i as int)),
        decreases elements@.len() - i,
    {
        let ghost before = buf@;
        push_le(buf, elements[i].address, ctx.sizeof_addr as usize);
        push_le(buf, elements[i].chunk_size as u64, chunk_size_len);
        push_le(buf, elements[i].filter_mask as u64, 4);
        proof {
            let t = items.take(i + 1);
            assert(t.drop_last() =~= items.take(i as int));
            assert(t.last() == items[i as int]);
            assert(buf@ =~= before + items[i as int]);
            assert(buf@ =~= old(buf)@ + joined(t));
        }
        i = i + 1;
    }
    assert(items.take(i as int) =~= items);
}

/// The bytes of a page of chunk addresses.
pub fn encode_unfiltered_page(elements: &[u64], ctx: &FormatContext) -> (buf: Vec<u8>)
    ensures
        buf@ == with_checksum(joined(address_items(elements@, ctx.sizeof_addr as nat))),
{
    let mut buf: Vec<u8> = Vec::new();
    push_addresses(&mut buf, elements, ctx);
    assert(buf@ =~= joined(address_items(elements@, ctx.sizeof_addr as nat)));
    push_checksum(&mut buf);
    buf
}

/// The bytes of a page of filtered chunks.
pub fn encode_filtered_page(
    elements: &[FixedArrayFilteredChunkElement],
    ctx: &FormatContext,
    chunk_size_len: usize,
) -> (buf: Vec<u8>)
    ensures
        buf@ == with_checksum(
            joined(filtered_items(elements@, ctx.sizeof_addr as nat, chunk_size_len as nat)),
        ),
{
    let mut buf: Vec<u8> = Vec::new();
    push_filtered(&mut buf, elements, ctx, chunk_size_len);
    assert(buf@ =~= joined(
        filtered_items(elements@, ctx.sizeof_addr as nat, chunk_size_len as nat),
    ));
    push_checksum(&mut buf);
    buf
}

impl FixedArrayPagedPrefix {
    /// The bytes of the prefix.
    pub fn encode(&self, ctx: &FormatContext) -> (buf: Vec<u8>)
        ensures
            buf@ == with_checksum(
                block_meta(self.client_id, self.header_addr, ctx.sizeof_addr as nat)
                    + self.page_init_bitmap@,
            ),
    {
        let mut buf = encode_meta(ctx, self.client_id, self.header_addr);
        push_slice(&mut buf, self.page_init_bitmap.as_slice());
            push_checksum(&mut buf);
        buf
    }

    /// Decode the prefix of a block of `npages` pages.
    pub fn decode(buf: &[u8], ctx: &FormatContext, npages: u64) -> (r: FormatResult<Self>)
        requires
            ctx.sizeof_addr <= 8,
            prefix_len(ctx.sizeof_addr as nat, npages as nat) <= usize::MAX,
        ensures
            match parsed_prefix(buf@, ctx.sizeof_addr as nat, npages as nat) {
                Err(v) => r matches Err(e) && e@ == v,
                Ok((client_id, header_addr, bitmap)) => r matches Ok(p) && {
                    &&& p.client_id == client_id
                    &&& p.header_addr == header_addr
                    &&& p.page_init_bitmap@ == bitmap
                    &&& p.prefix_size == prefix_len(ctx.sizeof_addr as nat, npages as nat)
                },
            },
    {
        let sa: usize = ctx.sizeof_addr as usize;
        let bits: u64 = if npages % 8 == 0 {
            npages / 8
        } else {
            npages / 8 + 1
        };
        let end: usize = 6 + sa + bits as usize;
        if buf.len() < end + 4 {
            return Err(too_short(end + 4, buf.len()));
        }
        if !(buf[0] == 0x46 && buf[1] == 0x41 && buf[2] == 0x44 && buf[3] == 0x42) {
            return Err(FormatError::InvalidSignature);
        }
        if buf[4] != 0 {
            return Err(FormatError::InvalidVersion(buf[4]));
        }
        proof {
            lemma_pow256_values();
        }
        let stored: u32 = read_le_at(buf, end, 4) as u32;
        assert(buf@.subrange(0, end as int) =~= buf@.take(end as int));
        let computed: u32 = checksum_metadata(slice_subrange(buf, 0, end));
        if stored != computed {
            return Err(FormatError::ChecksumMismatch { expected: stored, computed });
        }
        Ok(
            FixedArrayPagedPrefix {
                client_id: buf[5],
                header_addr: read_le_at(buf, 6, sa),
                page_init_bitmap: copy_range(buf, 6 + sa, end),
                prefix_size: end + 4,
            },
        )
    }

    /// Whether page `p` holds a defined address.
    pub fn page_initialized(&self, p: usize) -> (r: bool)
        ensures
            r == (p / 8 < self.page_init_bitmap@.len() && crate::format::bitstream::byte_bit(
                self.page_init_bitmap@[p as int / 8],
                p as int % 8,
            )),
    {
        let byte: usize = p / 8;
        if byte < self.page_init_bitmap.len() {
            let shift: u8 = 7 - (p % 8) as u8;
            (self.page_init_bitmap[byte] >> shift) & 1 == 1
        } else {
            false
        }
    }
}

/// Bytes of the prefix of a block of `npages` pages.
pub open spec fn prefix_len(sa: nat, npages: nat) -> nat {
    6 + sa + bitmap_len(npages) + 4
}

/// Client, header address and bitmap of the prefix that `buf` starts with.
pub open spec fn parsed_prefix(buf: Seq<u8>, sa: nat, npages: nat) -> Result<
    (u8, u64, Seq<u8>),
    ErrorView,
> {
    let end = 6 + sa + bitmap_len(npages);
    if buf.len() < end + 4 {
        Err(ErrorView::BufferTooShort { needed: end + 4, available: buf.len() })
    } else if !(buf[0] == 0x46 && buf[1] == 0x41 && buf[2] == 0x44 && buf[3] == 0x42) {
        Err(ErrorView::InvalidSignature)
    } else if buf[4] != 0 {
        Err(ErrorView::InvalidVersion(buf[4]))
    } else {
        let stored = le_value(buf.subrange(end as int, end as int + 4)) as u32;
        let computed = checksum(buf.take(end as int));
        if stored != computed {
            Err(ErrorView::ChecksumMismatch { expected: stored, computed })
        } else {
            Ok(
                (
                    buf[5],
                    le_value(buf.subrange(6, 6 + sa as int)) as u64,
                    buf.subrange(6 + sa as int, end as int),
                ),
            )
        }
    }
}

/// What is wrong with a page of `size` bytes of elements, if anything.
pub open spec fn page_error(buf: Seq<u8>, size: nat) -> Option<ErrorView> {
    if buf.len() < size + 4 {
        Some(ErrorView::BufferTooShort { needed: size + 4, available: buf.len() })
    } else {
        let stored = le_value(buf.subrange(size as int, size as int + 4)) as u32;
        let computed = checksum(buf.take(size as int));
        if stored != computed {
            Some(ErrorView::ChecksumMismatch { expected: stored, computed })
        } else {
            None
        }
    }
}

fn check_page(buf: &[u8], size: usize) -> (r: FormatResult<()>)
    requires
        size + 4 <= usize::MAX,
    ensures
        match page_error(buf@, size as nat) {
            Some(v) => r matches Err(e) && e@ == v,
            None => r is Ok,
        },
{
    if buf.len() < size + 4 {
        return Err(too_short(size + 4, buf.len()));
    }
    proof {
        lemma_pow256_values();
    }
    let stored: u32 = read_le_at(buf, size, 4) as u32;
    assert(buf@.subrange(0, size as int) =~= buf@.take(size as int));
    let computed: u32 = checksum_metadata(slice_subrange(buf, 0, size));
    if stored != computed {
        return Err(FormatError::ChecksumMismatch { expected: stored, computed });
    }
    Ok(())
}

/// Element `i` of a page of chunk addresses.
pub open spec fn address_at(buf: Seq<u8>, sa: nat, i: int) -> u64 {
    le_value(buf.subrange(i * sa, i * sa + sa)) as u64
}

/// Decode a page of `n` chunk addresses.
pub fn decode_unfiltered_page(buf: &[u8], ctx: &FormatContext, n: usize) -> (r: FormatResult<
    Vec<u64>,
>)
    requires
        ctx.sizeof_addr <= 8,
        n * ctx.sizeof_addr + 4 <= usize::MAX,
    ensures
        match page_error(buf@, n as nat * ctx.sizeof_addr as nat) {
            Some(v) => r matches Err(e) && e@ == v,
            None => r matches Ok(out) && out@ == Seq::new(
                n as nat,
                |i: int| address_at(buf@, ctx.sizeof_addr as nat, i),
            ),
        },
{
    let sa: usize = ctx.sizeof_addr as usize;
    match check_page(buf, n * sa) {
        Ok(_) => {},
        Err(e) => return Err(e),
    }
    let mut out: Vec<u64> = Vec::with_capacity(n);
    let mut i: usize = 0;
    while i < n
        invariant
            i <= n,
            sa == ctx.sizeof_addr,
            sa <= 8,
            n * sa + 4 <= buf.len(),
            out@ == Seq::new(i as nat, |i: int| address_at(buf@, sa as nat, i)),
        decreases n - i,
    {
        proof {
            assert(i * sa + sa <= n * sa) by (nonlinear_arith)
                requires
                    i + 1 <= n,
            ;
        }
        out.push(read_le_at(buf, i * sa, sa));
        i = i + 1;
        assert(out@ =~= Seq::new(i as nat, |i: int| address_at(buf@, sa as nat, i)));
    }
    Ok(out)
}

/// Element `i` of a page of filtered chunks.
pub open spec fn filtered_at(buf: Seq<u8>, sa: nat, csl: nat, i: int) ->
    FixedArrayFilteredChunkElement {
    let at = i * (sa + csl + 4);
    FixedArrayFilteredChunkElement {
        address: le_value(buf.subrange(at, at + sa)) as u64,
        chunk_size: le_value(buf.subrange(at + sa, at + sa + csl)) as u32,
        filter_mask: le_value(buf.subrange(at + sa + csl, at + sa + csl + 4)) as u32,
    }
}

/// Decode a page of `n` filtered chunks.
///
/// A chunk size that does not fit in 32 bits is cut to them.
pub fn decode_filtered_page(
    buf: &[u8],
    ctx: &FormatContext,
    n: usize,
    chunk_size_len: usize,
) -> (r: FormatResult<Vec<FixedArrayFilteredChunkElement>>)
    requires
        ctx.sizeof_addr <= 8,
        chunk_size_len <= 8,
        n * (ctx.sizeof_addr + chunk_size_len + 4) + 4 <= usize::MAX,
    ensures
        match page_error(
            buf@,
            n as nat * (ctx.sizeof_addr as nat + chunk_size_len as nat + 4),
        ) {
            Some(v) => r matches Err(e) && e@ == v,
            None => r matches Ok(out) && out@ == Seq::new(
                n as nat,
                |i: int|
                    filtered_at(buf@, ctx.sizeof_addr as nat, chunk_size_len as nat, i),
            ),
        },
{
    let sa: usize = ctx.sizeof_addr as usize;
    let width: usize = sa + chunk_size_len + 4;
    match check_page(buf, n * width) {
        Ok(_) => {},
        Err(e) => return Err(e),
    }
    let mut out: Vec<FixedArrayFilteredChunkElement> = Vec::with_capacity(n);
    let mut i: usize = 0;
    while i < n
        invariant
            i <= n,
            sa == ctx.sizeof_addr,
            sa <= 8,
            chunk_size_len <= 8,
            width == sa + chunk_size_len + 4,
            n * width + 4 <= buf.len(),
            out@ == Seq::new(
                i as nat,
                |i: int| filtered_at(buf@, sa as nat, chunk_size_len as nat, i),
            ),
        decreases n - i,
    {
        proof {
            assert(i * width + width <= n * width) by (nonlinear_arith)
                requires
                    i + 1 <= n,
            ;
            lemma_pow256_values();
        }
        let at: usize = i * width;
        let size: u64 = read_le_at(buf, at + sa, chunk_size_len);
        out.push(
            FixedArrayFilteredChunkElement {
                address: read_le_at(buf, at, sa),
                chunk_size: #[verifier::truncate]
                (size as u32),
                filter_mask: read_le_at(buf, at + sa + chunk_size_len, 4) as u32,
            },
        );
        i = i + 1;
        assert(out@ =~= Seq::new(
            i as nat,
            |i: int| filtered_at(buf@, sa as nat, chunk_size_len as nat, i),
        ));
    }
    Ok(out)
}

} // verus!
