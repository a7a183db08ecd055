//! Chunks indexed by a fixed array.

use crate::format::bitstream::byte_bit;
use crate::format::bytes::{lemma_pow256_values, le_value, power_of_two, read_le_at};
use crate::format::checksum::{checksum, checksum_metadata};
use crate::format::chunk_index::fixed_array::{
    address_at, decode_filtered_page, decode_unfiltered_page, filtered_at, page_error,
    parsed_prefix, prefix_len, FixedArrayFilteredChunkElement, FixedArrayHeader,
    FixedArrayPagedPrefix, FA_CLIENT_FILT_CHUNK,
};
use crate::format::messages::fill_value::opt_bytes;
use crate::format::{too_short, ErrorView, FormatContext, FormatError, FormatResult, UNDEF_ADDR};
use crate::io::ea::ChunkEntry;
use crate::io::reader::chunked::ReadRange;
use crate::io::{invalid_state, IoErrorView, IoResult};
use crate::text::{decimal, Text};
use std::collections::HashMap;
use vstd::arithmetic::div_mod::{lemma_fundamental_div_mod, lemma_mod_bound};
use vstd::arithmetic::power2::pow2;
use vstd::prelude::*;
use vstd::slice::slice_subrange;

verus! {

/// How the elements of a fixed array are stored.
#[derive(Debug, Clone, Copy, PartialEq, Eq, Structural)]
pub struct ElementShape {
    /// Whether the elements are those of filtered chunks.
    pub filtered: bool,
    /// Bytes of the size of a filtered chunk.
    pub chunk_size_len: usize,
    /// Bytes of an element.
    pub elem_size: usize,
}

/// How the elements of a fixed array are stored, or why they cannot be read.
pub open spec fn element_shape(h: FixedArrayHeader, sa: int, ndims: nat, rank: nat) -> Result<
    ElementShape,
    IoErrorView,
> {
    let filtered = h.client_id == FA_CLIENT_FILT_CHUNK;
    let csl = h.element_size - sa - 4;
    if rank != ndims {
        Err(
            IoErrorView::InvalidState(
                "fixed-array dataset rank "@ + decimal(ndims) + " does not match chunk rank "@
                    + decimal(rank),
            ),
        )
    } else if !filtered {
        Ok(ElementShape { filtered, chunk_size_len: 0, elem_size: sa as usize })
    } else if csl < 0 {
        Err(IoErrorView::InvalidState("fixed array filtered element_size too small"@))
    } else if csl > 8 {
        Err(
            IoErrorView::InvalidState(
                "fixed array filtered chunk-size width "@ + decimal(csl as nat)
                    + " exceeds 8 bytes"@,
            ),
        )
    } else {
        Ok(
            ElementShape {
                filtered,
                chunk_size_len: csl as usize,
                elem_size: (sa + csl + 4) as usize,
            },
        )
    }
}

/// How the elements of a fixed array are stored. `ndims` is the rank of the dataset,
/// `rank` that of its chunks.
pub fn check_fixed_array(h: &FixedArrayHeader, ctx: &FormatContext, ndims: usize, rank: usize) -> (r:
    IoResult<ElementShape>)
    ensures
        match element_shape(*h, ctx.sizeof_addr as int, ndims as nat, rank as nat) {
            Ok(s) => r matches Ok(x) && x == s,
            Err(v) => r matches Err(e) && e@ == v,
        },
{
    let sa: usize = ctx.sizeof_addr as usize;
    if rank != ndims {
        return Err(
            invalid_state(
                Text::new("fixed-array dataset rank ").number(ndims as u64).text(
                    " does not match chunk rank ",
                ).number(rank as u64),
            ),
        );
    }
    if h.client_id != FA_CLIENT_FILT_CHUNK {
        return Ok(ElementShape { filtered: false, chunk_size_len: 0, elem_size: sa });
    }
    let es: usize = h.element_size as usize;
    if es < sa + 4 {
        return Err(invalid_state(Text::new("fixed array filtered element_size too small")));
    }
    let csl: usize = es - sa - 4;
    if csl > 8 {
        return Err(
            invalid_state(
                Text::new("fixed array filtered chunk-size width ").number(csl as u64).text(
                    " exceeds 8 bytes",
                ),
            ),
        );
    }
    Ok(ElementShape { filtered: true, chunk_size_len: csl, elem_size: sa + csl + 4 })
}

/// Whether a chunk has no extent in a dimension.
pub open spec fn flat(cd: Seq<u64>) -> bool {
    exists|d: int| 0 <= d < cd.len() && #[trigger] cd[d] == 0
}

/// Refuse chunks without extent.
pub fn check_chunk_extent(chunk_dims: &[u64]) -> (r: IoResult<()>)
    ensures
        if flat(chunk_dims@) {
            r matches Err(e) && e@ == IoErrorView::InvalidState(
                "fixed-array layout has a zero chunk dimension"@,
            )
        } else {
            r is Ok
        },
{
    let n: usize = chunk_dims.len();
    let mut d: usize = 0;
    while d < n
        invariant
            d <= n,
            n == chunk_dims@.len(),
            forall|k: int| 0 <= k < d ==> #[trigger] chunk_dims@[k] != 0,
        decreases n - d,
    {
        if chunk_dims[d] == 0 {
            return Err(
                invalid_state(Text::new("fixed-array layout has a zero chunk dimension")),
            );
        }
        d = d + 1;
    }
    Ok(())
}

/// Elements of a page.
pub open spec fn page_nelmts(h: FixedArrayHeader) -> int {
    pow2(h.max_dblk_page_nelmts_bits as nat) as int
}

/// Whether the elements stand in pages.
pub open spec fn in_pages(h: FixedArrayHeader) -> bool {
    h.num_elmts > page_nelmts(h)
}

/// How many pages there are.
pub open spec fn pages(h: FixedArrayHeader) -> int {
    (h.num_elmts + page_nelmts(h) - 1) / page_nelmts(h)
}

/// A page: how many elements it has, and where it stands.
#[derive(Debug, Clone, Copy, PartialEq, Eq, Structural)]
pub struct PageRange {
    /// Number of elements.
    pub nelmts: u64,
    /// Where the page begins.
    pub addr: u64,
    /// Bytes of the page.
    pub size: u64,
}

/// Page `p`. All pages are equally far apart; only the last one may have fewer
/// elements. A checksum stands behind the elements.
pub open spec fn page_range(h: FixedArrayHeader, elem_size: int, prefix: int, p: int) -> PageRange {
    let full = page_nelmts(h);
    let rest = h.num_elmts - p * full;
    let n = if rest < full {
        rest
    } else {
        full
    };
    PageRange {
        nelmts: n as u64,
        addr: (h.data_blk_addr + prefix + p * (full * elem_size + 4)) as u64,
        size: (n * elem_size + 4) as u64,
    }
}

/// Whether the pages stand where addresses can tell.
pub open spec fn pages_fit(h: FixedArrayHeader, elem_size: int, prefix: int) -> bool {
    &&& h.max_dblk_page_nelmts_bits < 64
    &&& h.data_blk_addr + prefix + pages(h) * (page_nelmts(h) * elem_size + 4) <= u64::MAX
}

proof fn lemma_pages(h: FixedArrayHeader, elem_size: int, prefix: int, p: int)
    requires
        pages_fit(h, elem_size, prefix),
        0 <= p < pages(h),
        0 <= elem_size,
        0 <= prefix,
    ensures
        0 < page_nelmts(h) <= u64::MAX,
        0 <= p * page_nelmts(h) < h.num_elmts,
        0 <= page_nelmts(h) * elem_size,
        0 <= p * (page_nelmts(h) * elem_size + 4),
        h.data_blk_addr + prefix + p * (page_nelmts(h) * elem_size + 4) <= u64::MAX,
        page_nelmts(h) * elem_size + 4 <= u64::MAX,
        ({
            let rest = h.num_elmts - p * page_nelmts(h);
            let n = if rest < page_nelmts(h) {
                rest
            } else {
                page_nelmts(h)
            };
            0 < n && 0 <= n * elem_size && n * elem_size + 4 <= page_nelmts(h) * elem_size + 4
        }),
{
    let full = page_nelmts(h);
    let b = h.max_dblk_page_nelmts_bits as nat;
    vstd::arithmetic::power2::lemma_pow2_pos(b);
    vstd::arithmetic::power2::lemma2_to64_rest();
    vstd::arithmetic::power2::lemma_pow2_strictly_increases(b, 64);
    let n = h.num_elmts as int;
    let np = pages(h);
    lemma_fundamental_div_mod(n + full - 1, full);
    lemma_mod_bound(n + full - 1, full);
    assert(0 <= p * full < n) by (nonlinear_arith)
        requires
            n + full - 1 == full * np + (n + full - 1) % full,
            0 <= (n + full - 1) % full,
            0 <= p,
            p + 1 <= np,
            full > 0,
    ;
    assert(0 <= full * elem_size) by (nonlinear_arith)
        requires
            full > 0,
            elem_size >= 0,
    ;
    let stride = full * elem_size + 4;
    assert(0 <= p * stride && p * stride <= np * stride && stride <= np * stride)
        by (nonlinear_arith)
        requires
            0 <= p,
            p + 1 <= np,
            stride > 0,
    ;
    let rest = n - p * full;
    let m = if rest < full {
        rest
    } else {
        full
    };
    assert(0 <= m * elem_size && m * elem_size <= full * elem_size) by (nonlinear_arith)
        requires
            0 < m <= full,
            elem_size >= 0,
    ;
}

/// The pages of a fixed array.
pub fn fixed_array_pages(h: &FixedArrayHeader, elem_size: usize, prefix: usize) -> (r: Vec<PageRange>)
    requires
        pages_fit(*h, elem_size as int, prefix as int),
    ensures
        r@ == Seq::new(
            pages(*h) as nat,
            |p: int| page_range(*h, elem_size as int, prefix as int, p),
        ),
{
    let ghost es = elem_size as int;
    let ghost pre = prefix as int;
    proof {
        let b = h.max_dblk_page_nelmts_bits as nat;
        vstd::arithmetic::power2::lemma_pow2_pos(b);
        vstd::arithmetic::power2::lemma2_to64_rest();
        vstd::arithmetic::power2::lemma_pow2_strictly_increases(b, 64);
    }
    let full: u64 = power_of_two(h.max_dblk_page_nelmts_bits as u32) as u64;
    let n: u64 = h.num_elmts;
    let np: u64 = ((n as u128 + full as u128 - 1) / full as u128) as u64;
    proof {
        crate::io::chunks::lemma_parts(n as int, full as int);
        assert(np == pages(*h));
    }
    let mut r: Vec<PageRange> = Vec::new();
    let mut p: u64 = 0;
    let ghost want = Seq::new(pages(*h) as nat, |p: int| page_range(*h, es, pre, p));
    assert(r@ =~= want.take(0));
    while p < np
        invariant
            p <= np,
            np == pages(*h),
            full == page_nelmts(*h),
            n == h.num_elmts,
            es == elem_size,
            pre == prefix,
            pages_fit(*h, es, pre),
            want == Seq::new(pages(*h) as nat, |p: int| page_range(*h, es, pre, p)),
            r@ == want.take(p as int),
        decreases np - p,
    {
        proof {
            lemma_pages(*h, es, pre, p as int);
        }
        let rest: u64 = n - p * full;
        let m: u64 = if rest < full {
            rest
        } else {
            full
        };
        let stride: u64 = full * (elem_size as u64) + 4;
        let one = PageRange {
            nelmts: m,
            addr: h.data_blk_addr + prefix as u64 + p * stride,
            size: m * (elem_size as u64) + 4,
        };
        assert(one == want[p as int]);
        r.push(one);
        p = p + 1;
        assert(r@ =~= want.take(p as int));
    }
    assert(want.take(np as int) =~= want);
    r
}

/// How the data block of a fixed array is to be read.
#[derive(Debug, Clone, Copy, PartialEq, Eq, Structural)]
pub enum FixedBlock {
    /// At once: so many bytes.
    Flat { size: u64 },
    /// A prefix of so many bytes first, which tells which of the pages are there.
    Paged { npages: u64, prefix: u64 },
}

/// How the data block of a fixed array is to be read.
pub open spec fn block_reading(h: FixedArrayHeader, elem_size: int, sa: int) -> FixedBlock {
    if in_pages(h) {
        FixedBlock::Paged {
            npages: pages(h) as u64,
            prefix: prefix_len(sa as nat, pages(h) as nat) as u64,
        }
    } else {
        FixedBlock::Flat { size: (6 + sa + h.num_elmts * elem_size + 4) as u64 }
    }
}

/// Find out how the data block of a fixed array is to be read.
pub fn fixed_block(h: &FixedArrayHeader, elem_size: usize, ctx: &FormatContext) -> (b: FixedBlock)
    requires
        h.max_dblk_page_nelmts_bits < 64,
        h.num_elmts * elem_size + 300 <= u64::MAX,
        h.num_elmts + 300 <= u64::MAX,
    ensures
        b == block_reading(*h, elem_size as int, ctx.sizeof_addr as int),
{
    proof {
        let b = h.max_dblk_page_nelmts_bits as nat;
        vstd::arithmetic::power2::lemma_pow2_pos(b);
        vstd::arithmetic::power2::lemma2_to64_rest();
        vstd::arithmetic::power2::lemma_pow2_strictly_increases(b, 64);
    }
    let full: u64 = power_of_two(h.max_dblk_page_nelmts_bits as u32) as u64;
    let n: u64 = h.num_elmts;
    let sa: u64 = ctx.sizeof_addr as u64;
    if n > full {
        proof {
            crate::io::chunks::lemma_parts(n as int, full as int);
        }
        let npages: u64 = ((n as u128 + full as u128 - 1) / full as u128) as u64;
        FixedBlock::Paged { npages, prefix: 6 + sa + (npages + 7) / 8 + 4 }
    } else {
        FixedBlock::Flat { size: 6 + sa + n * (elem_size as u64) + 4 }
    }
}

/// The entry of a chunk whose page was never written.
pub open spec fn no_entry() -> ChunkEntry {
    ChunkEntry { addr: UNDEF_ADDR, nbytes: 0, filter_mask: 0 }
}

/// Element `i` among bytes. Chunks without filters have their full size.
pub open spec fn element_at(b: Seq<u8>, s: ElementShape, sa: nat, chunk_bytes: u64, i: int) ->
    ChunkEntry {
    if s.filtered {
        let e = filtered_at(b, sa, s.chunk_size_len as nat, i);
        ChunkEntry { addr: e.address, nbytes: e.chunk_size as u64, filter_mask: e.filter_mask }
    } else {
        ChunkEntry { addr: address_at(b, sa, i), nbytes: chunk_bytes, filter_mask: 0 }
    }
}

/// Whether a shape is that of a fixed array.
pub open spec fn shape_ok(s: ElementShape, ctx: FormatContext) -> bool {
    &&& ctx.sizeof_addr <= 8
    &&& s.chunk_size_len <= 8
    &&& s.elem_size == if s.filtered {
        ctx.sizeof_addr + s.chunk_size_len + 4
    } else {
        ctx.sizeof_addr as int
    }
}

fn entries_of(
    e: Vec<FixedArrayFilteredChunkElement>,
    Ghost(want): Ghost<Seq<ChunkEntry>>,
) -> (r: Vec<ChunkEntry>)
    requires
        want.len() == e@.len(),
        forall|i: int|
            0 <= i < e@.len() ==> #[trigger] want[i] == (ChunkEntry {
                addr: e@[i].address,
                nbytes: e@[i].chunk_size as u64,
                filter_mask: e@[i].filter_mask,
            }),
    ensures
        r@ == want,
{
    let mut r: Vec<ChunkEntry> = Vec::new();
    let mut i: usize = 0;
    while i < e.len()
        invariant
            i <= e.len(),
            want.len() == e@.len(),
            r@.len() == i,
            forall|k: int| 0 <= k < i ==> #[trigger] r@[k] == want[k],
            forall|i: int|
                0 <= i < e@.len() ==> #[trigger] want[i] == (ChunkEntry {
                    addr: e@[i].address,
                    nbytes: e@[i].chunk_size as u64,
                    filter_mask: e@[i].filter_mask,
                }),
        decreases e.len() - i,
    {
        let x: FixedArrayFilteredChunkElement = e[i];
        r.push(
            ChunkEntry {
                addr: x.address,
                nbytes: x.chunk_size as u64,
                filter_mask: x.filter_mask,
            },
        );
        i = i + 1;
    }
    assert(r@ =~= want);
    r
}

/// The entries of a page. A page that was never written has none.
pub fn page_entries(
    page: Option<&[u8]>,
    n: usize,
    s: &ElementShape,
    ctx: &FormatContext,
    chunk_bytes: u64,
) -> (r: FormatResult<Vec<ChunkEntry>>)
    requires
        shape_ok(*s, *ctx),
        n * s.elem_size + 4 <= usize::MAX,
    ensures
        match page {
            None => r matches Ok(v) && v@ == Seq::new(n as nat, |i: int| no_entry()),
            Some(b) => match page_error(b@, n as nat * s.elem_size as nat) {
                Some(x) => r matches Err(e) && e@ == x,
                None => r matches Ok(v) && v@ == Seq::new(
                    n as nat,
                    |i: int| element_at(b@, *s, ctx.sizeof_addr as nat, chunk_bytes, i),
                ),
            },
        },
{
    match page {
        None => {
            let mut v: Vec<ChunkEntry> = Vec::new();
            let mut i: usize = 0;
            while i < n
                invariant
                    i <= n,
                    v@ == Seq::new(i as nat, |i: int| no_entry()),
                decreases n - i,
            {
                v.push(ChunkEntry { addr: UNDEF_ADDR, nbytes: 0, filter_mask: 0 });
                i = i + 1;
                assert(v@ =~= Seq::new(i as nat, |i: int| no_entry()));
            }
            Ok(v)
        },
        Some(b) => {
            let ghost want = Seq::new(
                n as nat,
                |i: int| element_at(b@, *s, ctx.sizeof_addr as nat, chunk_bytes, i),
            );
            if s.filtered {
                match decode_filtered_page(b, ctx, n, s.chunk_size_len) {
                    Err(e) => Err(e),
                    Ok(e) => Ok(entries_of(e, Ghost(want))),
                }
            } else {
                match decode_unfiltered_page(b, ctx, n) {
                    Err(e) => Err(e),
                    Ok(a) => Ok(addresses_of(a, chunk_bytes, Ghost(want))),
                }
            }
        },
    }
}

fn addresses_of(a: Vec<u64>, chunk_bytes: u64, Ghost(want): Ghost<Seq<ChunkEntry>>) -> (r: Vec<
    ChunkEntry,
>)
    requires
        want.len() == a@.len(),
        forall|i: int|
            0 <= i < a@.len() ==> #[trigger] want[i] == (ChunkEntry {
                addr: a@[i],
                nbytes: chunk_bytes,
                filter_mask: 0,
            }),
    ensures
        r@ == want,
{
    let mut r: Vec<ChunkEntry> = Vec::new();
    let mut i: usize = 0;
    while i < a.len()
        invariant
            i <= a.len(),
            want.len() == a@.len(),
            r@.len() == i,
            forall|k: int| 0 <= k < i ==> #[trigger] r@[k] == want[k],
            forall|i: int|
                0 <= i < a@.len() ==> #[trigger] want[i] == (ChunkEntry {
                    addr: a@[i],
                    nbytes: chunk_bytes,
                    filter_mask: 0,
                }),
        decreases a.len() - i,
    {
        r.push(ChunkEntry { addr: a[i], nbytes: chunk_bytes, filter_mask: 0 });
        i = i + 1;
    }
    assert(r@ =~= want);
    r
}

/// Where a chunk of a fixed array stands. The size of a filtered chunk that is not
/// known is taken to be at most twice that of the chunk.
pub open spec fn fixed_range(e: ChunkEntry, filters: bool, chunk_bytes: u64) -> Option<ReadRange> {
    if e.addr == UNDEF_ADDR {
        None
    } else if filters {
        Some(
            ReadRange {
                addr: e.addr,
                len: if e.nbytes > 0 {
                    e.nbytes
                } else {
                    (2 * chunk_bytes) as u64
                },
                exact: false,
            },
        )
    } else {
        Some(ReadRange { addr: e.addr, len: chunk_bytes, exact: true })
    }
}

/// Where the chunks of a fixed array stand.
pub fn fixed_ranges(entries: &Vec<ChunkEntry>, filters: bool, chunk_bytes: u64) -> (r: Vec<
    Option<ReadRange>,
>)
    requires
        2 * chunk_bytes <= u64::MAX,
    ensures
        r@ == Seq::new(
            entries@.len(),
            |i: int| fixed_range(entries@[i], filters, chunk_bytes),
        ),
{
    let ghost want = Seq::new(
        entries@.len(),
        |i: int| fixed_range(entries@[i], filters, chunk_bytes),
    );
    let mut r: Vec<Option<ReadRange>> = Vec::new();
    let mut i: usize = 0;
    assert(r@ =~= want.take(0));
    while i < entries.len()
        invariant
            i <= entries.len(),
            2 * chunk_bytes <= u64::MAX,
            want == Seq::new(
                entries@.len(),
                |i: int| fixed_range(entries@[i], filters, chunk_bytes),
            ),
            r@ == want.take(i as int),
        decreases entries.len() - i,
    {
        let e: ChunkEntry = entries[i];
        let one: Option<ReadRange> = if e.addr == UNDEF_ADDR {
            None
        } else if filters {
            let len: u64 = if e.nbytes > 0 {
                e.nbytes
            } else {
                2 * chunk_bytes
            };
            Some(ReadRange { addr: e.addr, len, exact: false })
        } else {
            Some(ReadRange { addr: e.addr, len: chunk_bytes, exact: true })
        };
        assert(one == want[i as int]);
        r.push(one);
        i = i + 1;
        assert(r@ =~= want.take(i as int));
    }
    assert(want.take(i as int) =~= want);
    r
}

/// What is wrong with a data block whose elements take `size` bytes, if anything.
pub open spec fn block_error(b: Seq<u8>, sa: nat, size: nat) -> Option<ErrorView> {
    let end = 6 + sa + size;
    if b.len() < end + 4 {
        Some(ErrorView::BufferTooShort { needed: end + 4, available: b.len() })
    } else if !(b[0] == 0x46 && b[1] == 0x41 && b[2] == 0x44 && b[3] == 0x42) {
        Some(ErrorView::InvalidSignature)
    } else if b[4] != 0 {
        Some(ErrorView::InvalidVersion(b[4]))
    } else {
        let stored = le_value(b.subrange(end as int, end as int + 4)) as u32;
        let computed = checksum(b.take(end as int));
        if stored != computed {
            Some(ErrorView::ChecksumMismatch { expected: stored, computed })
        } else {
            None
        }
    }
}

/// The entries of a data block without pages.
pub fn block_entries(
    b: &[u8],
    n: usize,
    s: &ElementShape,
    ctx: &FormatContext,
    chunk_bytes: u64,
) -> (r: FormatResult<Vec<ChunkEntry>>)
    requires
        shape_ok(*s, *ctx),
        n * s.elem_size + 18 <= usize::MAX,
    ensures
        match block_error(b@, ctx.sizeof_addr as nat, n as nat * s.elem_size as nat) {
            Some(x) => r matches Err(e) && e@ == x,
            None => r matches Ok(v) && v@ == Seq::new(
                n as nat,
                |i: int|
                    element_at(
                        b@.skip(6 + ctx.sizeof_addr),
                        *s,
                        ctx.sizeof_addr as nat,
                        chunk_bytes,
                        i,
                    ),
            ),
        },
{
    let sa: usize = ctx.sizeof_addr as usize;
    let len: usize = b.len();
    proof {
        let a = n as int;
        let e = s.elem_size as int;
        assert(0 <= a * e) by (nonlinear_arith)
            requires
                a >= 0,
                e >= 0,
        ;
    }
    let size: usize = n * s.elem_size;
    let end: usize = 6 + sa + size;
    if len < end + 4 {
        return Err(too_short(end + 4, len));
    }
    if !(b[0] == 0x46 && b[1] == 0x41 && b[2] == 0x44 && b[3] == 0x42) {
        return Err(FormatError::InvalidSignature);
    }
    if b[4] != 0 {
        return Err(FormatError::InvalidVersion(b[4]));
    }
    proof {
        lemma_pow256_values();
    }
    let stored: u32 = read_le_at(b, end, 4) as u32;
    assert(b@.subrange(0, end as int) =~= b@.take(end as int));
    let computed: u32 = checksum_metadata(slice_subrange(b, 0, end));
    if stored != computed {
        return Err(FormatError::ChecksumMismatch { expected: stored, computed });
    }
    let rest = slice_subrange(b, 6 + sa, len);
    assert(rest@ =~= b@.skip(6 + sa));
    let ghost want = Seq::new(
        n as nat,
        |i: int| element_at(rest@, *s, sa as nat, chunk_bytes, i),
    );
    let mut v: Vec<ChunkEntry> = Vec::new();
    let mut i: usize = 0;
    assert(v@ =~= want.take(0));
    while i < n
        invariant
            i <= n,
            shape_ok(*s, *ctx),
            sa == ctx.sizeof_addr,
            size == n * s.elem_size,
            size <= rest@.len() <= usize::MAX,
            want == Seq::new(
                n as nat,
                |i: int| element_at(rest@, *s, sa as nat, chunk_bytes, i),
            ),
            v@ == want.take(i as int),
        decreases n - i,
    {
        proof {
            let ii = i as int;
            let nn = n as int;
            let e = s.elem_size as int;
            assert(0 <= ii * e && ii * e + e <= nn * e) by (nonlinear_arith)
                requires
                    0 <= ii,
                    ii + 1 <= nn,
                    e >= 0,
            ;
            lemma_pow256_values();
        }
        let at: usize = i * s.elem_size;
        let addr: u64 = read_le_at(rest, at, sa);
        let one: ChunkEntry = if s.filtered {
            let size: u64 = read_le_at(rest, at + sa, s.chunk_size_len);
            let mask: u32 = read_le_at(rest, at + sa + s.chunk_size_len, 4) as u32;
            ChunkEntry {
                addr,
                nbytes: (#[verifier::truncate]
                (size as u32)) as u64,
                filter_mask: mask,
            }
        } else {
            ChunkEntry { addr, nbytes: chunk_bytes, filter_mask: 0 }
        };
        assert(one == want[i as int]);
        v.push(one);
        i = i + 1;
        assert(v@ =~= want.take(i as int));
    }
    assert(want.take(n as int) =~= want);
    Ok(v)
}

/// Whether page `p` holds a defined address.
pub open spec fn page_there(bitmap: Seq<u8>, p: int) -> bool {
    p / 8 < bitmap.len() && byte_bit(bitmap[p / 8], p % 8)
}

/// What the pages that have been read give, or which is needed next, or what is wrong.
#[verifier::ext_equal]
pub enum PagesView {
    Entries(Seq<ChunkEntry>),
    Need(u64),
    Bad(ErrorView),
}

/// The entries of page `p` with `n` elements.
pub open spec fn page_content(
    page: Seq<u8>,
    n: nat,
    s: ElementShape,
    sa: nat,
    chunk_bytes: u64,
) -> Seq<ChunkEntry> {
    Seq::new(n, |i: int| element_at(page, s, sa, chunk_bytes, i))
}

/// The first `n` pages of a fixed array.
pub open spec fn pages_collected(
    h: FixedArrayHeader,
    s: ElementShape,
    sa: nat,
    bitmap: Seq<u8>,
    read: Map<u64, Vec<u8>>,
    chunk_bytes: u64,
    n: nat,
) -> PagesView
    decreases n,
{
    if n == 0 {
        PagesView::Entries(Seq::empty())
    } else {
        let p = n - 1;
        let size = page_range(h, s.elem_size as int, 0, p).nelmts as nat;
        match pages_collected(h, s, sa, bitmap, read, chunk_bytes, p as nat) {
            PagesView::Entries(v) => if !page_there(bitmap, p) {
                PagesView::Entries(v + Seq::new(size, |i: int| no_entry()))
            } else if !read.contains_key(p as u64) {
                PagesView::Need(p as u64)
            } else {
                match page_error(read[p as u64]@, size * s.elem_size as nat) {
                    Some(e) => PagesView::Bad(e),
                    None => PagesView::Entries(
                        v + page_content(read[p as u64]@, size, s, sa, chunk_bytes),
                    ),
                }
            },
            stop => stop,
        }
    }
}

/// Whether the data block of a fixed array stands where addresses can tell.
pub open spec fn array_fits(h: FixedArrayHeader, s: ElementShape, ctx: FormatContext) -> bool {
    &&& h.max_dblk_page_nelmts_bits < 64
    &&& h.num_elmts * s.elem_size + 300 <= usize::MAX
    &&& h.num_elmts + 300 <= usize::MAX
    &&& in_pages(h) ==> pages_fit(
        h,
        s.elem_size as int,
        prefix_len(ctx.sizeof_addr as nat, pages(h) as nat) as int,
    )
}

/// Find out whether the data block of a fixed array stands where addresses can tell.
pub fn check_array_fits(h: &FixedArrayHeader, s: &ElementShape, ctx: &FormatContext) -> (r: bool)
    requires
        shape_ok(*s, *ctx),
    ensures
        r == array_fits(*h, *s, *ctx),
{
    if h.max_dblk_page_nelmts_bits >= 64 {
        return false;
    }
    proof {
        let b = h.max_dblk_page_nelmts_bits as nat;
        vstd::arithmetic::power2::lemma_pow2_pos(b);
        vstd::arithmetic::power2::lemma2_to64_rest();
        vstd::arithmetic::power2::lemma_pow2_strictly_increases(b, 64);
        let n = h.num_elmts as int;
        let e = s.elem_size as int;
        assert(0 <= n * e <= n * 20) by (nonlinear_arith)
            requires
                0 <= n,
                0 <= e <= 20,
        ;
    }
    let max: u128 = usize::MAX as u128;
    let n: u64 = h.num_elmts;
    let es: u128 = s.elem_size as u128;
    if n as u128 * es + 300 > max || n as u128 + 300 > max {
        return false;
    }
    let full: u64 = power_of_two(h.max_dblk_page_nelmts_bits as u32) as u64;
    if n <= full {
        return true;
    }
    proof {
        crate::io::chunks::lemma_parts(n as int, full as int);
        let f = full as int;
        let e = s.elem_size as int;
        assert(0 <= f * e <= f * 20) by (nonlinear_arith)
            requires
                0 <= f,
                0 <= e <= 20,
        ;
    }
    let np: u128 = (n as u128 + full as u128 - 1) / full as u128;
    let stride: u128 = full as u128 * es + 4;
    let ghost npi = np as int;
    let ghost st = stride as int;
    proof {
        assert(npi >= 1) by (nonlinear_arith)
            requires
                npi == (n + full - 1) / full as int,
                n > full,
                full > 0,
        ;
        assert(npi * st >= st) by (nonlinear_arith)
            requires
                npi >= 1,
                st >= 0,
        ;
    }
    if stride > u64::MAX as u128 {
        return false;
    }
    proof {
        assert(0 <= npi * st <= 0xffff_ffff_ffff_ffff * 0xffff_ffff_ffff_ffff) by (nonlinear_arith)
            requires
                0 <= npi <= 0xffff_ffff_ffff_ffff,
                0 <= st <= 0xffff_ffff_ffff_ffff,
        ;
    }
    let prefix: u128 = 6 + ctx.sizeof_addr as u128 + (np + 7) / 8 + 4;
    h.data_blk_addr as u128 + prefix + np * stride <= u64::MAX as u128
}

/// What is needed of a fixed array, or what it gives.
#[derive(Debug)]
pub enum FixedStep {
    /// Up to so many bytes from this address: the data block, or its prefix.
    Block { addr: u64, size: u64 },
    /// A page: its number and its place.
    Page { number: u64, range: PageRange },
    /// Nothing: these are the entries, one per chunk.
    Done(Vec<ChunkEntry>),
}

/// What is needed of a fixed array, or what it gives.
#[verifier::ext_equal]
pub enum FixedStepView {
    Block { addr: u64, size: u64 },
    Page { number: u64, range: PageRange },
    Done(Seq<ChunkEntry>),
}

impl View for FixedStep {
    type V = FixedStepView;

    open spec fn view(&self) -> FixedStepView {
        match *self {
            FixedStep::Block { addr, size } => FixedStepView::Block { addr, size },
            FixedStep::Page { number, range } => FixedStepView::Page { number, range },
            FixedStep::Done(v) => FixedStepView::Done(v@),
        }
    }
}

/// What is needed of a fixed array, what it gives, or what is wrong. `block` is what has
/// been read of the data block, `read` the pages that have been read.
pub open spec fn fixed_step(
    h: FixedArrayHeader,
    s: ElementShape,
    sa: nat,
    block: Option<Seq<u8>>,
    read: Map<u64, Vec<u8>>,
    chunk_bytes: u64,
) -> Result<FixedStepView, ErrorView> {
    match (block, block_reading(h, s.elem_size as int, sa as int)) {
        (None, FixedBlock::Flat { size }) => Ok(
            FixedStepView::Block { addr: h.data_blk_addr, size },
        ),
        (None, FixedBlock::Paged { prefix, .. }) => Ok(
            FixedStepView::Block { addr: h.data_blk_addr, size: prefix },
        ),
        (Some(b), FixedBlock::Flat { .. }) => match block_error(
            b,
            sa,
            h.num_elmts as nat * s.elem_size as nat,
        ) {
            Some(e) => Err(e),
            None => Ok(
                FixedStepView::Done(
                    page_content(b.skip(6 + sa as int), h.num_elmts as nat, s, sa, chunk_bytes),
                ),
            ),
        },
        (Some(b), FixedBlock::Paged { npages, .. }) => match parsed_prefix(b, sa, npages as nat) {
            Err(e) => Err(e),
            Ok((_, _, bitmap)) => match pages_collected(
                h,
                s,
                sa,
                bitmap,
                read,
                chunk_bytes,
                npages as nat,
            ) {
                PagesView::Entries(v) => Ok(FixedStepView::Done(v)),
                PagesView::Need(p) => Ok(
                    FixedStepView::Page {
                        number: p,
                        range: page_range(
                            h,
                            s.elem_size as int,
                            prefix_len(sa, npages as nat) as int,
                            p as int,
                        ),
                    },
                ),
                PagesView::Bad(e) => Err(e),
            },
        },
    }
}

proof fn lemma_pages_stop(
    h: FixedArrayHeader,
    s: ElementShape,
    sa: nat,
    bitmap: Seq<u8>,
    read: Map<u64, Vec<u8>>,
    chunk_bytes: u64,
    k: nat,
    n: nat,
)
    requires
        k <= n,
        !(pages_collected(h, s, sa, bitmap, read, chunk_bytes, k) is Entries),
    ensures
        pages_collected(h, s, sa, bitmap, read, chunk_bytes, n) == pages_collected(
            h,
            s,
            sa,
            bitmap,
            read,
            chunk_bytes,
            k,
        ),
    decreases n,
{
    if k < n {
        lemma_pages_stop(h, s, sa, bitmap, read, chunk_bytes, k, (n - 1) as nat);
    }
}

/// Find out what is needed next of a fixed array, or its entries.
pub fn read_fixed_array(
    h: &FixedArrayHeader,
    s: &ElementShape,
    ctx: &FormatContext,
    block: Option<&[u8]>,
    read: &HashMap<u64, Vec<u8>>,
    chunk_bytes: u64,
) -> (r: FormatResult<FixedStep>)
    requires
        shape_ok(*s, *ctx),
        array_fits(*h, *s, *ctx),
    ensures
        match fixed_step(
            *h,
            *s,
            ctx.sizeof_addr as nat,
            opt_bytes(block),
            read@,
            chunk_bytes,
        ) {
            Ok(v) => r matches Ok(x) && x@ == v,
            Err(v) => r matches Err(e) && e@ == v,
        },
{
    proof {
        lemma_parts_fit(*h, *s);
    }
    let reading = fixed_block(h, s.elem_size, ctx);
    let b = match block {
        None => {
            let size: u64 = match reading {
                FixedBlock::Flat { size } => size,
                FixedBlock::Paged { npages: _, prefix } => prefix,
            };
            return Ok(FixedStep::Block { addr: h.data_blk_addr, size });
        },
        Some(b) => b,
    };
    let npages: u64 = match reading {
        FixedBlock::Flat { size: _ } => {
            return match block_entries(b, h.num_elmts as usize, s, ctx, chunk_bytes) {
                Ok(v) => Ok(FixedStep::Done(v)),
                Err(e) => Err(e),
            };
        },
        FixedBlock::Paged { npages, prefix: _ } => npages,
    };
    let p = match FixedArrayPagedPrefix::decode(b, ctx, npages) {
        Ok(p) => p,
        Err(e) => {
            return Err(e);
        },
    };
    let ghost sa = ctx.sizeof_addr as nat;
    let ghost bitmap = p.page_init_bitmap@;
    let ranges = fixed_array_pages(h, s.elem_size, p.prefix_size);
    let mut all: Vec<ChunkEntry> = Vec::new();
    let mut k: usize = 0;
    while k < ranges.len()
        invariant
            k <= ranges@.len(),
            shape_ok(*s, *ctx),
            array_fits(*h, *s, *ctx),
            in_pages(*h),
            sa == ctx.sizeof_addr,
            bitmap == p.page_init_bitmap@,
            npages == pages(*h),
            p.prefix_size == prefix_len(sa, npages as nat),
            parsed_prefix(b@, sa, npages as nat) matches Ok(t) && t.2 == bitmap,
            block == Some(b),
            block_reading(*h, s.elem_size as int, sa as int) matches FixedBlock::Paged {
                npages: m,
                ..
            } && m == npages,
            ranges@ == Seq::new(
                pages(*h) as nat,
                |q: int| page_range(*h, s.elem_size as int, p.prefix_size as int, q),
            ),
            pages_collected(*h, *s, sa, bitmap, read@, chunk_bytes, k as nat)
                == PagesView::Entries(all@),
        decreases ranges@.len() - k,
    {
        broadcast use vstd::std_specs::hash::group_hash_axioms;

        let range: PageRange = ranges[k];
        let ghost got = pages_collected(*h, *s, sa, bitmap, read@, chunk_bytes, (k + 1) as nat);
        let ghost last = pages_collected(*h, *s, sa, bitmap, read@, chunk_bytes, npages as nat);
        proof {
            lemma_pages(*h, s.elem_size as int, p.prefix_size as int, k as int);
            lemma_page_fits(*h, *s, k as int);
        }
        let n: usize = range.nelmts as usize;
        if !p.page_initialized(k) {
            match page_entries(None, n, s, ctx, chunk_bytes) {
                Ok(v) => {
                    push_entries(&mut all, &v);
                },
                Err(e) => {
                    return Err(e);
                },
            }
        } else {
            match read.get(&(k as u64)) {
                None => {
                    proof {
                        lemma_pages_stop(
                            *h,
                            *s,
                            sa,
                            bitmap,
                            read@,
                            chunk_bytes,
                            (k + 1) as nat,
                            npages as nat,
                        );
                    }
                    return Ok(FixedStep::Page { number: k as u64, range });
                },
                Some(page) => match page_entries(Some(page.as_slice()), n, s, ctx, chunk_bytes) {
                    Ok(v) => {
                        push_entries(&mut all, &v);
                    },
                    Err(e) => {
                        proof {
                            lemma_pages_stop(
                                *h,
                                *s,
                                sa,
                                bitmap,
                                read@,
                                chunk_bytes,
                                (k + 1) as nat,
                                npages as nat,
                            );
                        }
                        return Err(e);
                    },
                },
            }
        }
        k = k + 1;
    }
    Ok(FixedStep::Done(all))
}

fn push_entries(all: &mut Vec<ChunkEntry>, v: &Vec<ChunkEntry>)
    ensures
        final(all)@ == old(all)@ + v@,
{
    let ghost before = all@;
    let n: usize = v.len();
    let mut i: usize = 0;
    assert(before + v@.take(0) =~= before);
    while i < n
        invariant
            i <= n,
            n == v@.len(),
            all@ == before + v@.take(i as int),
        decreases n - i,
    {
        let e: ChunkEntry = v[i];
        all.push(e);
        i = i + 1;
        assert(all@ =~= before + v@.take(i as int));
    }
    assert(v@.take(n as int) =~= v@);
}

/// The prefix of a data block that fits has no more pages than elements.
proof fn lemma_parts_fit(h: FixedArrayHeader, s: ElementShape)
    requires
        h.max_dblk_page_nelmts_bits < 64,
    ensures
        0 <= pages(h) <= h.num_elmts,
{
    let b = h.max_dblk_page_nelmts_bits as nat;
    vstd::arithmetic::power2::lemma_pow2_pos(b);
    vstd::arithmetic::power2::lemma2_to64_rest();
    vstd::arithmetic::power2::lemma_pow2_strictly_increases(b, 64);
    crate::io::chunks::lemma_parts(h.num_elmts as int, page_nelmts(h));
}

/// The elements of a page of an array that fits.
proof fn lemma_page_fits(h: FixedArrayHeader, s: ElementShape, p: int)
    requires
        h.num_elmts * s.elem_size + 300 <= usize::MAX,
        h.num_elmts <= usize::MAX,
        0 < page_nelmts(h) <= u64::MAX,
        0 <= p * page_nelmts(h) < h.num_elmts,
    ensures
        ({
            let n = page_range(h, s.elem_size as int, 0, p).nelmts;
            &&& n <= usize::MAX
            &&& 0 <= n * s.elem_size
            &&& n * s.elem_size + 4 <= usize::MAX
        }),
{
    let full = page_nelmts(h);
    let rest = h.num_elmts - p * full;
    let n = if rest < full {
        rest
    } else {
        full
    };
    let all = h.num_elmts as int;
    let e = s.elem_size as int;
    assert(0 <= n * e <= all * e) by (nonlinear_arith)
        requires
            0 <= n <= all,
            0 <= e,
    ;
}

} // verus!
