//! The chunks of a growing dataset in its extensible-array index.
//!
//! The index block is kept in memory. Super blocks, data blocks and data block
//! pages are kept once they have been read; an operation that needs one that is
//! not there yet answers with a request for it.

use crate::format::chunk_index::extensible_array::{
    lemma_dblk_order, lemma_number_bounds, lemma_number_injective, lemma_sblk_next,
    lemma_sblk_order, sblk_ndblks, sblk_start, sblk_start_dblk, EaDblkLoc, EaDblkPath, EaGeometry,
    EarrayParams,
};
use crate::format::UNDEF_ADDR;
use crate::io::allocator::{align8, FileAllocator};
use std::collections::HashMap;
use vstd::arithmetic::power2::{
    lemma_pow2_adds, lemma_pow2_pos, lemma_pow2_strictly_increases, pow2,
};
use vstd::prelude::*;

verus! {

/// Where a chunk stands in the file.
#[derive(Debug, Clone, Copy, PartialEq, Eq, Structural)]
pub struct ChunkEntry {
    /// Address of the chunk.
    pub addr: u64,
    /// Bytes of the chunk.
    pub nbytes: u64,
    /// Filters that were skipped.
    pub filter_mask: u32,
}

/// The entry of a chunk that was never written.
pub open spec fn vacant() -> ChunkEntry {
    ChunkEntry { addr: UNDEF_ADDR, nbytes: 0, filter_mask: 0 }
}

/// The entry of a chunk that was never written.
pub fn vacant_entry() -> (e: ChunkEntry)
    ensures
        e == vacant(),
{
    ChunkEntry { addr: UNDEF_ADDR, nbytes: 0, filter_mask: 0 }
}

/// An entry as it is used. An index of chunks without filters holds addresses only: every
/// chunk that stands in the file has the bytes of the chunk shape.
pub open spec fn sized(e: ChunkEntry, filtered: bool, chunk_bytes: u64) -> ChunkEntry {
    if filtered || e.addr == UNDEF_ADDR {
        e
    } else {
        ChunkEntry { addr: e.addr, nbytes: chunk_bytes, filter_mask: 0 }
    }
}

/// An entry as it is used.
pub fn sized_entry(e: ChunkEntry, filtered: bool, chunk_bytes: u64) -> (r: ChunkEntry)
    ensures
        r == sized(e, filtered, chunk_bytes),
{
    if filtered || e.addr == UNDEF_ADDR {
        e
    } else {
        ChunkEntry { addr: e.addr, nbytes: chunk_bytes, filter_mask: 0 }
    }
}

/// The entries of a block as they are used.
pub open spec fn all_sized(es: Seq<ChunkEntry>, filtered: bool, chunk_bytes: u64) -> Seq<
    ChunkEntry,
> {
    Seq::new(es.len(), |i: int| sized(es[i], filtered, chunk_bytes))
}

/// The entries of a block that has been read, as they are used.
pub fn sized_entries(es: &Vec<ChunkEntry>, filtered: bool, chunk_bytes: u64) -> (r: Vec<ChunkEntry>)
    ensures
        r@ == all_sized(es@, filtered, chunk_bytes),
{
    let mut r: Vec<ChunkEntry> = Vec::new();
    let mut i: usize = 0;
    while i < es.len()
        invariant
            i <= es.len(),
            r@ == all_sized(es@, filtered, chunk_bytes).take(i as int),
        decreases es.len() - i,
    {
        r.push(sized_entry(es[i], filtered, chunk_bytes));
        i = i + 1;
        assert(r@ =~= all_sized(es@, filtered, chunk_bytes).take(i as int));
    }
    assert(r@ =~= all_sized(es@, filtered, chunk_bytes));
    r
}

/// The index block.
#[derive(Debug)]
pub struct EaIndexBlock {
    /// The first elements.
    pub elements: Vec<ChunkEntry>,
    /// Addresses of data blocks.
    pub dblk_addrs: Vec<u64>,
    /// Addresses of super blocks.
    pub sblk_addrs: Vec<u64>,
}

/// A super block.
#[derive(Debug)]
pub struct EaSuperBlock {
    /// Addresses of data blocks.
    pub dblk_addrs: Vec<u64>,
    /// Which pages of the data blocks are initialised, most significant bit
    /// first.
    pub page_init: Vec<u8>,
}

/// The blocks that have been read, by their addresses.
pub struct EaBlocks {
    /// Super blocks.
    pub supers: HashMap<u64, EaSuperBlock>,
    /// Data blocks that are not paged.
    pub data: HashMap<u64, Vec<ChunkEntry>>,
    /// Pages of data blocks.
    pub pages: HashMap<u64, Vec<ChunkEntry>>,
}

impl EaBlocks {
    /// No block has been read yet.
    pub fn new() -> (c: Self)
        ensures
            c.supers@ == Map::<u64, EaSuperBlock>::empty(),
            c.data@ == Map::<u64, Vec<ChunkEntry>>::empty(),
            c.pages@ == Map::<u64, Vec<ChunkEntry>>::empty(),
    {
        EaBlocks { supers: HashMap::new(), data: HashMap::new(), pages: HashMap::new() }
    }

    /// Keep a data block that has been read at `addr`. Without filters, each of its chunks
    /// that stands in the file has `chunk_bytes` bytes.
    pub fn keep_data(&mut self, addr: u64, es: &Vec<ChunkEntry>, filtered: bool, chunk_bytes: u64)
        ensures
            final(self).supers == old(self).supers,
            final(self).pages == old(self).pages,
            final(self).data@.dom() == old(self).data@.dom().insert(addr),
            final(self).data@[addr]@ == all_sized(es@, filtered, chunk_bytes),
            forall|a: u64|
                a != addr && old(self).data@.contains_key(a) ==> #[trigger] final(self).data@[a]
                    == old(self).data@[a],
    {
        broadcast use vstd::std_specs::hash::group_hash_axioms;

        let b = sized_entries(es, filtered, chunk_bytes);
        self.data.insert(addr, b);
    }

    /// Keep a page that has been read at `addr`, as `keep_data` keeps a data block.
    pub fn keep_page(&mut self, addr: u64, es: &Vec<ChunkEntry>, filtered: bool, chunk_bytes: u64)
        ensures
            final(self).supers == old(self).supers,
            final(self).data == old(self).data,
            final(self).pages@.dom() == old(self).pages@.dom().insert(addr),
            final(self).pages@[addr]@ == all_sized(es@, filtered, chunk_bytes),
            forall|a: u64|
                a != addr && old(self).pages@.contains_key(a) ==> #[trigger] final(self).pages@[a]
                    == old(self).pages@[a],
    {
        broadcast use vstd::std_specs::hash::group_hash_axioms;

        let b = sized_entries(es, filtered, chunk_bytes);
        self.pages.insert(addr, b);
    }
}

/// What a super block says.
#[verifier::ext_equal]
pub struct SuperView {
    pub dblk_addrs: Seq<u64>,
    pub page_init: Seq<u8>,
}

/// What an index says.
#[verifier::ext_equal]
pub struct EaView {
    pub elements: Seq<ChunkEntry>,
    pub dblk_addrs: Seq<u64>,
    pub sblk_addrs: Seq<u64>,
    pub supers: Map<u64, SuperView>,
    pub data: Map<u64, Seq<ChunkEntry>>,
    pub pages: Map<u64, Seq<ChunkEntry>>,
}

impl View for EaSuperBlock {
    type V = SuperView;

    open spec fn view(&self) -> SuperView {
        SuperView { dblk_addrs: self.dblk_addrs@, page_init: self.page_init@ }
    }
}

/// What the index block and the blocks say together.
pub open spec fn ea_view(ib: EaIndexBlock, c: EaBlocks) -> EaView {
    EaView {
        elements: ib.elements@,
        dblk_addrs: ib.dblk_addrs@,
        sblk_addrs: ib.sblk_addrs@,
        supers: c.supers@.map_values(|s: EaSuperBlock| s@),
        data: c.data@.map_values(|b: Vec<ChunkEntry>| b@),
        pages: c.pages@.map_values(|b: Vec<ChunkEntry>| b@),
    }
}

/// A block that has to be read.
#[derive(Debug, Clone, Copy, PartialEq, Eq, Structural)]
pub enum EaRequest {
    /// A super block with so many data blocks and bitmap bytes.
    Super { addr: u64, ndblks: u64, page_init: u64 },
    /// A data block of so many elements.
    Data { addr: u64, nelmts: u64 },
    /// A page of so many elements.
    Page { addr: u64, nelmts: u64 },
}

/// Widths of the fields of the index.
#[derive(Debug, Clone, Copy, PartialEq, Eq, Structural)]
pub struct EaWidths {
    /// Bytes of an address.
    pub sizeof_addr: u8,
    /// Bytes of an element.
    pub raw_elmt_size: u8,
}

/// Pages of a data block of super block `u`.
pub open spec fn page_count(g: EaGeometry, u: int) -> int {
    g.nelmts(u) / g.dblk_page_nelmts as int
}

/// Bytes of the bitmap of super block `u`.
pub open spec fn page_init_len(g: EaGeometry, u: int) -> int {
    if g.paged(u) {
        sblk_ndblks(u as nat) * ((page_count(g, u) + 7) / 8)
    } else {
        0
    }
}

/// Bytes of a data block before its elements, with the checksum.
pub open spec fn dblk_prefix(g: EaGeometry, w: EaWidths) -> int {
    4 + 1 + 1 + w.sizeof_addr + (g.params.max_nelmts_bits + 7) / 8 + 4
}

/// Bytes of a page.
pub open spec fn page_size(g: EaGeometry, w: EaWidths) -> int {
    g.dblk_page_nelmts * w.raw_elmt_size + 4
}

/// Where page `p` of the data block at `addr` stands.
pub open spec fn page_addr(g: EaGeometry, w: EaWidths, addr: u64, p: int) -> u64 {
    ((addr + dblk_prefix(g, w) + p * page_size(g, w)) % 0x1_0000_0000_0000_0000) as u64
}

/// Bit `n` of a bitmap, most significant bit first.
pub open spec fn bit_set(bitmap: Seq<u8>, n: int) -> bool {
    bitmap[n / 8] & (0x80u8 >> (n % 8) as u8) != 0
}

impl EaView {
    /// The index block has the shape of the geometry.
    pub open spec fn shaped(self, g: EaGeometry) -> bool {
        &&& self.elements.len() == g.idx_blk_elmts
        &&& self.dblk_addrs.len() == g.ndblk_addrs
        &&& self.sblk_addrs.len() == g.nsblk_addrs
    }

    /// Address of the super block of level `u`.
    pub open spec fn super_addr(self, g: EaGeometry, u: int) -> u64 {
        self.sblk_addrs[u - g.iblock_nsblks]
    }

    /// The super block of level `u`, if it has been read.
    pub open spec fn super_block(self, g: EaGeometry, u: int) -> Option<SuperView> {
        let s = self.super_addr(g, u);
        if self.supers.contains_key(s) && self.supers[s].dblk_addrs.len() == sblk_ndblks(u as nat)
            && self.supers[s].page_init.len() == page_init_len(g, u) {
            Some(self.supers[s])
        } else {
            None
        }
    }

    /// The request for the super block of level `u`, if it has to be read.
    pub open spec fn super_missing(self, g: EaGeometry, u: int) -> Option<EaRequest> {
        if u >= g.iblock_nsblks && self.super_addr(g, u) != UNDEF_ADDR
            && self.super_block(g, u) is None {
            Some(
                EaRequest::Super {
                    addr: self.super_addr(g, u),
                    ndblks: sblk_ndblks(u as nat) as u64,
                    page_init: page_init_len(g, u) as u64,
                },
            )
        } else {
            None
        }
    }

    /// Address of data block `d` of level `u`.
    pub open spec fn dblk_addr(self, g: EaGeometry, u: int, d: int) -> u64 {
        if u < g.iblock_nsblks {
            self.dblk_addrs[sblk_start_dblk(u as nat) + d]
        } else if self.super_addr(g, u) == UNDEF_ADDR {
            UNDEF_ADDR
        } else {
            match self.super_block(g, u) {
                Some(s) => s.dblk_addrs[d],
                None => UNDEF_ADDR,
            }
        }
    }

    /// Whether a page of data block `d` of level `u` is initialised.
    pub open spec fn page_used(self, g: EaGeometry, u: int, d: int, p: int) -> bool {
        match self.super_block(g, u) {
            Some(s) => bit_set(s.page_init, d * page_count(g, u) + p),
            None => false,
        }
    }

    /// The request for one of the first `n` pages, if one has to be read.
    pub open spec fn pages_missing(
        self,
        g: EaGeometry,
        w: EaWidths,
        u: int,
        d: int,
        n: int,
    ) -> Option<EaRequest>
        decreases n,
    {
        if n <= 0 {
            None
        } else {
            match self.pages_missing(g, w, u, d, n - 1) {
                Some(r) => Some(r),
                None => {
                    let a = page_addr(g, w, self.dblk_addr(g, u, d), n - 1);
                    if self.page_used(g, u, d, n - 1) && !(self.pages.contains_key(a)
                        && self.pages[a].len() == g.dblk_page_nelmts) {
                        Some(EaRequest::Page { addr: a, nelmts: g.dblk_page_nelmts })
                    } else {
                        None
                    }
                },
            }
        }
    }

    /// The request for a block that has to be read before the entries of data
    /// block `d` of level `u` are known.
    pub open spec fn missing(self, g: EaGeometry, w: EaWidths, u: int, d: int) -> Option<EaRequest> {
        match self.super_missing(g, u) {
            Some(r) => Some(r),
            None => {
                let a = self.dblk_addr(g, u, d);
                if a == UNDEF_ADDR {
                    None
                } else if g.paged(u) {
                    self.pages_missing(g, w, u, d, page_count(g, u))
                } else if self.data.contains_key(a) && self.data[a].len() == g.nelmts(u) {
                    None
                } else {
                    Some(EaRequest::Data { addr: a, nelmts: g.nelmts(u) as u64 })
                }
            },
        }
    }

    /// Element `off` of data block `d` of level `u`.
    pub open spec fn block_entry(
        self,
        g: EaGeometry,
        w: EaWidths,
        u: int,
        d: int,
        off: int,
    ) -> ChunkEntry {
        let a = self.dblk_addr(g, u, d);
        if a == UNDEF_ADDR {
            vacant()
        } else if g.paged(u) {
            let p = off / g.dblk_page_nelmts as int;
            if self.page_used(g, u, d, p) {
                self.pages[page_addr(g, w, a, p)][off % g.dblk_page_nelmts as int]
            } else {
                vacant()
            }
        } else {
            self.data[a][off]
        }
    }

    /// The entry of chunk `i`.
    pub open spec fn entry(self, g: EaGeometry, w: EaWidths, i: int) -> ChunkEntry {
        if i < g.idx_blk_elmts {
            self.elements[i]
        } else {
            let (u, d, off) = choose|u: int, d: int, off: int| #[trigger]
                g.has(u, d, off) && g.number(u, d, off) == i;
            self.block_entry(g, w, u, d, off)
        }
    }
}

/// The entry of a chunk is the element that stands at its number.
pub proof fn lemma_entry(v: EaView, g: EaGeometry, w: EaWidths, u: int, d: int, off: int)
    requires
        g.wf(),
        g.has(u, d, off),
    ensures
        g.number(u, d, off) >= g.idx_blk_elmts,
        v.entry(g, w, g.number(u, d, off)) == v.block_entry(g, w, u, d, off),
{
    let i = g.number(u, d, off);
    lemma_number_bounds(g, u, d, off);
    lemma_sblk_next(g.min_bits(), u as nat);
    let (x, y, z) = choose|x: int, y: int, z: int| #[trigger]
        g.has(x, y, z) && g.number(x, y, z) == i;
    assert(g.has(u, d, off) && g.number(u, d, off) == i);
    lemma_number_injective(g, u, d, off, x, y, z);
}

/// The bitmap of a super block has a bit for every page.
proof fn lemma_pages(g: EaGeometry, u: int)
    requires
        g.wf(),
        0 <= u < g.nsblks(),
        g.paged(u),
    ensures
        page_count(g, u) > 0,
        page_count(g, u) * g.dblk_page_nelmts == g.nelmts(u),
        sblk_ndblks(u as nat) * page_count(g, u) <= u64::MAX,
        0 <= page_init_len(g, u) <= u64::MAX,
{
    g.lemma_info(u);
    let a = g.min_bits();
    lemma_sblk_next(a, u as nat);
    lemma_sblk_order(a, (u + 1) as nat, g.nsblks());
    let n = g.nelmts(u);
    let pn = g.dblk_page_nelmts as int;
    let k = sblk_ndblks(u as nat) as int;
    let np = page_count(g, u);
    // Both sizes are powers of two, so that the smaller divides the larger.
    let x = (((u + 1) as nat) / 2 + a) as nat;
    let y = g.params.max_dblk_page_nelmts_bits as nat;
    lemma_pow2_adds(((u + 1) as nat) / 2, a);
    assert(n == pow2(x));
    assert(pn == pow2(y));
    lemma_pow2_pos(y);
    if x < y {
        lemma_pow2_strictly_increases(x, y);
    }
    let q = (x - y) as nat;
    lemma_pow2_adds(q, y);
    lemma_pow2_pos(q);
    assert(np == pow2(q)) by {
        assert((pow2(q) * pow2(y)) as int / pn == pow2(q)) by (nonlinear_arith)
            requires
                pn == pow2(y),
                pn > 0,
        ;
    }
    assert(k * np <= k * n) by (nonlinear_arith)
        requires
            np * pn == n,
            pn >= 1,
            np >= 0,
            k >= 0,
    ;
    let c = (np + 7) / 8;
    assert(c <= np && np <= 8 * c);
    assert(0 <= k * c <= k * np) by (nonlinear_arith)
        requires
            0 <= c <= np,
            k >= 0,
    ;
}

/// The bit of a page stands in the bitmap.
proof fn lemma_page_bit(g: EaGeometry, u: int, d: int, p: int)
    requires
        g.wf(),
        0 <= u < g.nsblks(),
        g.paged(u),
        0 <= d < sblk_ndblks(u as nat),
        0 <= p < page_count(g, u),
    ensures
        0 <= d * page_count(g, u),
        d * page_count(g, u) + p < 8 * page_init_len(g, u),
        d * page_count(g, u) + p <= u64::MAX,
{
    lemma_pages(g, u);
    let k = sblk_ndblks(u as nat) as int;
    let np = page_count(g, u);
    let c = (np + 7) / 8;
    assert(0 <= d * np && d * np + p < k * np) by (nonlinear_arith)
        requires
            0 <= d < k,
            0 <= p < np,
    ;
    assert(k * np <= 8 * (k * c)) by (nonlinear_arith)
        requires
            np <= 8 * c,
            k >= 0,
    ;
}

/// Bytes of the bitmap of super block `u`.
fn bitmap_bytes(g: &EaGeometry, u: usize) -> (n: u64)
    requires
        g.wf(),
        u < g.nsblks(),
    ensures
        n == page_init_len(*g, u as int),
{
    if !g.is_sblk_paged(u) {
        return 0;
    }
    let s = g.sblk[u];
    proof {
        g.lemma_info(u as int);
        lemma_pages(*g, u as int);
    }
    let np: u64 = s.dblk_nelmts / g.dblk_page_nelmts;
    let c: u64 = if np % 8 == 0 {
        np / 8
    } else {
        np / 8 + 1
    };
    assert(c == (page_count(*g, u as int) + 7) / 8);
    s.ndblks * c
}

/// The super block at `addr`, if it has been read.
fn find_super<'a>(c: &'a EaBlocks, addr: u64, ndblks: u64, init: u64) -> (r: Option<
    &'a EaSuperBlock,
>)
    ensures
        match r {
            Some(s) => c.supers@.contains_key(addr) && *s == c.supers@[addr]
                && s.dblk_addrs@.len() == ndblks && s.page_init@.len() == init,
            None => !(c.supers@.contains_key(addr) && c.supers@[addr].dblk_addrs@.len() == ndblks
                && c.supers@[addr].page_init@.len() == init),
        },
{
    broadcast use vstd::std_specs::hash::group_hash_axioms;

    match c.supers.get(&addr) {
        Some(s) => {
            if s.dblk_addrs.len() as u64 == ndblks && s.page_init.len() as u64 == init {
                Some(s)
            } else {
                None
            }
        },
        None => None,
    }
}

/// The block at `addr`, if it has been read.
fn find_block<'a>(m: &'a HashMap<u64, Vec<ChunkEntry>>, addr: u64, n: u64) -> (r: Option<
    &'a Vec<ChunkEntry>,
>)
    ensures
        match r {
            Some(b) => m@.contains_key(addr) && *b == m@[addr] && b@.len() == n,
            None => !(m@.contains_key(addr) && m@[addr]@.len() == n),
        },
{
    broadcast use vstd::std_specs::hash::group_hash_axioms;

    match m.get(&addr) {
        Some(b) => {
            if b.len() as u64 == n {
                Some(b)
            } else {
                None
            }
        },
        None => None,
    }
}

/// Append the entries of a block.
fn extend_entries(out: &mut Vec<ChunkEntry>, b: &Vec<ChunkEntry>)
    ensures
        final(out)@ == old(out)@ + b@,
{
    let mut i: usize = 0;
    while i < b.len()
        invariant
            i <= b.len(),
            out@ == old(out)@ + b@.take(i as int),
        decreases b.len() - i,
    {
        out.push(b[i]);
        assert(b@.take(i + 1) =~= b@.take(i as int).push(b@[i as int]));
        i = i + 1;
    }
    assert(b@.take(b@.len() as int) =~= b@);
}

/// Append `n` entries of chunks that were never written.
fn extend_vacant(out: &mut Vec<ChunkEntry>, n: u64)
    ensures
        final(out)@ == old(out)@ + Seq::new(n as nat, |i: int| vacant()),
{
    let mut i: u64 = 0;
    while i < n
        invariant
            i <= n,
            out@ == old(out)@ + Seq::new(i as nat, |i: int| vacant()),
        decreases n - i,
    {
        out.push(vacant_entry());
        assert(Seq::new((i + 1) as nat, |i: int| vacant()) =~= Seq::new(
            i as nat,
            |i: int| vacant(),
        ).push(vacant()));
        i = i + 1;
    }
}

/// Where page `p` of the data block at `addr` stands.
fn page_address(g: &EaGeometry, w: &EaWidths, addr: u64, p: u64) -> (a: u64)
    requires
        g.wf(),
        p * g.dblk_page_nelmts <= u64::MAX,
    ensures
        a == page_addr(*g, *w, addr, p as int),
{
    let bits: u128 = g.params.max_nelmts_bits as u128;
    let prefix: u128 = 4 + 1 + 1 + w.sizeof_addr as u128 + (bits + 7) / 8 + 4;
    let pn: u128 = g.dblk_page_nelmts as u128;
    let raw: u128 = w.raw_elmt_size as u128;
    let q: u128 = p as u128;
    assert(pn * raw <= 0xffff_ffff_ffff_ffff * 255) by (nonlinear_arith)
        requires
            pn <= 0xffff_ffff_ffff_ffff,
            raw <= 255,
    ;
    let size: u128 = pn * raw + 4;
    assert(0 <= q * size <= 0xffff_ffff_ffff_ffff * 300) by (nonlinear_arith)
        requires
            q * pn <= 0xffff_ffff_ffff_ffff,
            0 <= q <= 0xffff_ffff_ffff_ffff,
            0 <= raw <= 255,
            pn >= 0,
            size == pn * raw + 4,
    ;
    let at: u128 = addr as u128 + prefix + q * size;
    (at % 0x1_0000_0000_0000_0000) as u64
}

/// The entries of data block `d` of level `u`, or a request for a block that
/// has to be read first.
pub fn block_entries(
    g: &EaGeometry,
    w: &EaWidths,
    ib: &EaIndexBlock,
    c: &EaBlocks,
    u: usize,
    d: u64,
) -> (r: Result<Vec<ChunkEntry>, EaRequest>)
    requires
        g.wf(),
        g.direct_flat(),
        ea_view(*ib, *c).shaped(*g),
        u < g.nsblks(),
        d < sblk_ndblks(u as nat),
    ensures
        ({
            let v = ea_view(*ib, *c);
            match r {
                Ok(es) => {
                    &&& v.missing(*g, *w, u as int, d as int) is None
                    &&& es@.len() == g.nelmts(u as int)
                    &&& forall|off: int|
                        0 <= off < es@.len() ==> #[trigger] es@[off] == v.block_entry(
                            *g,
                            *w,
                            u as int,
                            d as int,
                            off,
                        )
                },
                Err(q) => v.missing(*g, *w, u as int, d as int) == Some(q),
            }
        }),
{
    let ghost v = ea_view(*ib, *c);
    let s = g.sblk[u];
    proof {
        g.lemma_info(u as int);
    }
    let init: u64 = bitmap_bytes(g, u);
    let mut bitmap: Option<&Vec<u8>> = None;
    let addr: u64 = if u < g.iblock_nsblks {
        proof {
            lemma_dblk_order(u as nat, g.iblock_nsblks as nat);
        }
        ib.dblk_addrs[(s.start_dblk + d) as usize]
    } else {
        let sa: u64 = ib.sblk_addrs[u - g.iblock_nsblks];
        if sa == UNDEF_ADDR {
            UNDEF_ADDR
        } else {
            match find_super(c, sa, s.ndblks, init) {
                None => {
                    return Err(
                        EaRequest::Super { addr: sa, ndblks: s.ndblks, page_init: init },
                    );
                },
                Some(sb) => {
                    bitmap = Some(&sb.page_init);
                    sb.dblk_addrs[d as usize]
                },
            }
        }
    };
    assert(addr == v.dblk_addr(*g, u as int, d as int));
    assert(v.super_missing(*g, u as int) is None);
    let mut out: Vec<ChunkEntry> = Vec::new();
    if addr == UNDEF_ADDR {
        extend_vacant(&mut out, s.dblk_nelmts);
        return Ok(out);
    }
    if !g.is_sblk_paged(u) {
        match find_block(&c.data, addr, s.dblk_nelmts) {
            Some(b) => {
                extend_entries(&mut out, b);
                return Ok(out);
            },
            None => {
                return Err(EaRequest::Data { addr, nelmts: s.dblk_nelmts });
            },
        }
    }
    proof {
        lemma_pages(*g, u as int);
        assert(u >= g.iblock_nsblks);
    }
    match bitmap {
        None => {
            assert(false);
            Ok(out)
        },
        Some(bm) => {
            let np: u64 = s.dblk_nelmts / g.dblk_page_nelmts;
            let mut p: u64 = 0;
            let ghost pn = g.dblk_page_nelmts as int;
            while p < np
                invariant
                    g.wf(),
                    u < g.nsblks(),
                    g.paged(u as int),
                    d < sblk_ndblks(u as nat),
                    v == ea_view(*ib, *c),
                    addr == v.dblk_addr(*g, u as int, d as int),
                    addr != UNDEF_ADDR,
                    v.super_missing(*g, u as int) is None,
                    v.super_block(*g, u as int) is Some,
                    bm@ == v.super_block(*g, u as int)->0.page_init,
                    bm@.len() == page_init_len(*g, u as int),
                    np == page_count(*g, u as int),
                    pn == g.dblk_page_nelmts,
                    p <= np,
                    out@.len() == p * pn,
                    v.pages_missing(*g, *w, u as int, d as int, p as int) is None,
                    forall|off: int|
                        0 <= off < out@.len() ==> #[trigger] out@[off] == v.block_entry(
                            *g,
                            *w,
                            u as int,
                            d as int,
                            off,
                        ),
                decreases np - p,
            {
                proof {
                    lemma_pages(*g, u as int);
                    lemma_page_bit(*g, u as int, d as int, p as int);
                    assert(p * pn <= np * pn) by (nonlinear_arith)
                        requires
                            p <= np,
                            pn >= 0,
                    ;
                    assert(np * pn == g.nelmts(u as int));
                    g.lemma_info(u as int);
                }
                let bit: u64 = d * np + p;
                let ghost before = out@;
                assert(bit / 8 < bm.len());
                let byte: u8 = bm[(bit / 8) as usize];
                let mask: u8 = 0x80u8 >> (bit % 8) as u8;
                let used: bool = byte & mask != 0;
                assert(used == v.page_used(*g, u as int, d as int, p as int)) by {
                    let n = d * page_count(*g, u as int) + p;
                    assert(bit == n);
                    assert((bit % 8) as u8 == (n % 8) as u8);
                    assert(byte == bm@[n / 8]);
                    assert(mask == 0x80u8 >> (n % 8) as u8);
                    assert(used == bit_set(bm@, n));
                }
                if used {
                    let at: u64 = page_address(g, w, addr, p);
                    match find_block(&c.pages, at, g.dblk_page_nelmts) {
                        None => {
                            proof {
                                lemma_missing_page(v, *g, *w, u as int, d as int, p + 1);
                            }
                            return Err(EaRequest::Page { addr: at, nelmts: g.dblk_page_nelmts });
                        },
                        Some(b) => {
                            extend_entries(&mut out, b);
                        },
                    }
                } else {
                    extend_vacant(&mut out, g.dblk_page_nelmts);
                }
                proof {
                    let pi = p as int;
                    assert((pi + 1) * pn == pi * pn + pn) by (nonlinear_arith);
                    assert forall|off: int| 0 <= off < out@.len() implies #[trigger] out@[off]
                        == v.block_entry(*g, *w, u as int, d as int, off) by {
                        if off < before.len() {
                            assert(out@[off] == before[off]);
                        } else {
                            assert(off / pn == pi && off % pn == off - pi * pn)
                                by (nonlinear_arith)
                                requires
                                    pi * pn <= off < pi * pn + pn,
                            ;
                        }
                    }
                }
                p = p + 1;
            }
            Ok(out)
        },
    }
}

/// A page that has to be read stays so, however many pages are looked at.
proof fn lemma_missing_page(v: EaView, g: EaGeometry, w: EaWidths, u: int, d: int, n: int)
    requires
        v.pages_missing(g, w, u, d, n) is Some,
        n <= page_count(g, u),
    ensures
        v.pages_missing(g, w, u, d, page_count(g, u)) == v.pages_missing(g, w, u, d, n),
    decreases page_count(g, u) - n,
{
    if n < page_count(g, u) {
        lemma_missing_page(v, g, w, u, d, n + 1);
    }
}

/// The entries of an index, or a request for a block that has to be read first.
#[derive(Debug)]
pub enum EaWalk {
    Need(EaRequest),
    Entries(Vec<ChunkEntry>),
}

/// Whether the blocks of the first `n` chunks have all been read.
pub open spec fn present_below(v: EaView, g: EaGeometry, w: EaWidths, n: int) -> bool {
    forall|u: int, d: int| #[trigger]
        g.has(u, d, 0) && g.number(u, d, 0) < n ==> v.missing(g, w, u, d) is None
}

/// Whether `len` is the end of the block that holds chunk `wanted - 1`, or of
/// the index where it does not reach that far.
pub open spec fn covers(g: EaGeometry, len: int, wanted: int) -> bool {
    ||| len == g.idx_blk_elmts && wanted <= len
    ||| exists|u: int, d: int| #[trigger]
        g.has(u, d, 0) && g.number(u, d, 0) < wanted && len == g.number(u, d, 0) + g.nelmts(u) && (
        wanted <= len || len == g.capacity())
}

/// Whether `q` is the first request on the way to chunk `wanted`.
pub open spec fn first_missing(
    v: EaView,
    g: EaGeometry,
    w: EaWidths,
    wanted: int,
    q: EaRequest,
) -> bool {
    exists|u: int, d: int| #[trigger]
        g.has(u, d, 0) && g.number(u, d, 0) < wanted && v.missing(g, w, u, d) == Some(q)
            && present_below(v, g, w, g.number(u, d, 0))
}

/// One more block is there.
proof fn lemma_present_next(v: EaView, g: EaGeometry, w: EaWidths, u: int, d: int)
    requires
        g.wf(),
        g.has(u, d, 0),
        present_below(v, g, w, g.number(u, d, 0)),
        v.missing(g, w, u, d) is None,
    ensures
        present_below(v, g, w, g.number(u, d, 0) + g.nelmts(u)),
{
    assert forall|x: int, y: int| #[trigger]
        g.has(x, y, 0) && g.number(x, y, 0) < g.number(u, d, 0) + g.nelmts(u) implies v.missing(
        g,
        w,
        x,
        y,
    ) is None by {
        let off = g.number(x, y, 0) - g.number(u, d, 0);
        if off >= 0 {
            assert(g.has(u, d, off));
            assert(g.number(u, d, off) == g.number(x, y, 0));
            lemma_number_injective(g, u, d, off, x, y, 0);
        }
    }
}

/// Collect the entries of at least the first `wanted` chunks, block by block. Without
/// filters, each chunk that stands in the file has `chunk_bytes` bytes.
pub fn collect_entries(
    g: &EaGeometry,
    w: &EaWidths,
    ib: &EaIndexBlock,
    c: &EaBlocks,
    wanted: u64,
    filtered: bool,
    chunk_bytes: u64,
) -> (r: EaWalk)
    requires
        g.wf(),
        g.direct_flat(),
        ea_view(*ib, *c).shaped(*g),
    ensures
        ({
            let v = ea_view(*ib, *c);
            match r {
                EaWalk::Entries(es) => {
                    &&& covers(*g, es@.len() as int, wanted as int)
                    &&& forall|i: int|
                        0 <= i < es@.len() ==> #[trigger] es@[i] == sized(
                            v.entry(*g, *w, i),
                            filtered,
                            chunk_bytes,
                        )
                    &&& forall|i: int|
                        0 <= i < es@.len() && !filtered && (#[trigger] es@[i]).addr != UNDEF_ADDR
                            ==> es@[i].nbytes == chunk_bytes
                    &&& present_below(v, *g, *w, es@.len() as int)
                },
                EaWalk::Need(q) => first_missing(v, *g, *w, wanted as int, q),
            }
        }),
{
    match walk_entries(g, w, ib, c, wanted) {
        EaWalk::Need(q) => EaWalk::Need(q),
        EaWalk::Entries(es) => EaWalk::Entries(sized_entries(&es, filtered, chunk_bytes)),
    }
}

/// The entries of at least the first `wanted` chunks, as the blocks hold them.
fn walk_entries(
    g: &EaGeometry,
    w: &EaWidths,
    ib: &EaIndexBlock,
    c: &EaBlocks,
    wanted: u64,
) -> (r: EaWalk)
    requires
        g.wf(),
        g.direct_flat(),
        ea_view(*ib, *c).shaped(*g),
    ensures
        ({
            let v = ea_view(*ib, *c);
            match r {
                EaWalk::Entries(es) => {
                    &&& covers(*g, es@.len() as int, wanted as int)
                    &&& forall|i: int|
                        0 <= i < es@.len() ==> #[trigger] es@[i] == v.entry(*g, *w, i)
                    &&& present_below(v, *g, *w, es@.len() as int)
                },
                EaWalk::Need(q) => first_missing(v, *g, *w, wanted as int, q),
            }
        }),
{
    let ghost v = ea_view(*ib, *c);
    let ghost a = g.min_bits();
    let mut out: Vec<ChunkEntry> = Vec::new();
    extend_entries(&mut out, &ib.elements);
    proof {
        assert(sblk_start(a, 0) == 0) by {
            vstd::arithmetic::power2::lemma2_to64();
            assert(pow2(a) * 0 == 0) by (nonlinear_arith);
        }
        assert(0 * g.nelmts(0) == 0) by (nonlinear_arith);
        assert forall|x: int, y: int| #[trigger]
            g.has(x, y, 0) && g.number(x, y, 0) < out@.len() implies v.missing(
            *g,
            *w,
            x,
            y,
        ) is None by {
            lemma_number_bounds(*g, x, y, 0);
            lemma_sblk_next(a, x as nat);
        }
    }
    if out.len() as u64 >= wanted {
        return EaWalk::Entries(out);
    }
    let mut u: usize = 0;
    while u < g.sblk.len()
        invariant
            g.wf(),
            g.direct_flat(),
            v == ea_view(*ib, *c),
            v.shaped(*g),
            a == g.min_bits(),
            u <= g.sblk.len(),
            out@.len() == g.number(u as int, 0, 0),
            out@.len() < wanted,
            present_below(v, *g, *w, out@.len() as int),
            forall|i: int| 0 <= i < out@.len() ==> #[trigger] out@[i] == v.entry(*g, *w, i),
            u > 0 ==> g.has(u - 1, sblk_ndblks((u - 1) as nat) - 1, 0) && out@.len() == g.number(
                u - 1,
                sblk_ndblks((u - 1) as nat) - 1,
                0,
            ) + g.nelmts(u - 1),
        decreases g.sblk.len() - u,
    {
        proof {
            g.lemma_info(u as int);
            lemma_sblk_next(a, u as nat);
        }
        let ndblks: u64 = g.sblk[u].ndblks;
        let ghost n = g.nelmts(u as int);
        let mut d: u64 = 0;
        while d < ndblks
            invariant
                g.wf(),
                g.direct_flat(),
                v == ea_view(*ib, *c),
                v.shaped(*g),
                u < g.nsblks(),
                ndblks == sblk_ndblks(u as nat),
                n == g.nelmts(u as int),
                n > 0,
                d <= ndblks,
                out@.len() == g.number(u as int, d as int, 0),
                out@.len() < wanted,
                present_below(v, *g, *w, out@.len() as int),
                forall|i: int| 0 <= i < out@.len() ==> #[trigger] out@[i] == v.entry(*g, *w, i),
                d > 0 ==> g.has(u as int, d - 1, 0) && out@.len() == g.number(u as int, d - 1, 0)
                    + n,
            decreases ndblks - d,
        {
            assert(g.has(u as int, d as int, 0));
            match block_entries(g, w, ib, c, u, d) {
                Err(q) => {
                    return EaWalk::Need(q);
                },
                Ok(es) => {
                    let ghost before = out@;
                    extend_entries(&mut out, &es);
                    proof {
                        lemma_present_next(v, *g, *w, u as int, d as int);
                        assert forall|i: int| 0 <= i < out@.len() implies #[trigger] out@[i]
                            == v.entry(*g, *w, i) by {
                            if i < before.len() {
                                assert(out@[i] == before[i]);
                            } else {
                                let off = i - before.len();
                                assert(g.has(u as int, d as int, off));
                                lemma_entry(v, *g, *w, u as int, d as int, off);
                                assert(out@[i] == es@[off]);
                            }
                        }
                        let di = d as int;
                        assert((di + 1) * n == di * n + n) by (nonlinear_arith);
                    }
                    if out.len() as u64 >= wanted {
                        return EaWalk::Entries(out);
                    }
                },
            }
            d = d + 1;
        }
        proof {
            let di = d as int;
            assert(g.number(u as int, di, 0) == g.number(u + 1, 0, 0)) by {
                assert(0 * g.nelmts(u + 1) == 0) by (nonlinear_arith);
            }
        }
        u = u + 1;
    }
    proof {
        let last = g.nsblks() - 1;
        assert(0 * g.nelmts(last + 1) == 0) by (nonlinear_arith);
        assert(g.has(last, sblk_ndblks(last as nat) - 1, 0));
        assert(covers(*g, out@.len() as int, wanted as int));
    }
    EaWalk::Entries(out)
}

/// Where a chunk was found.
#[derive(Debug)]
pub enum EaFound {
    /// A block has to be read first.
    Need(EaRequest),
    /// The chunk was never written.
    Absent,
    /// The chunk stands in the file.
    At { addr: u64, nbytes: u64 },
    /// The chunk stands in a paged block.
    Paged,
}

/// What looking up the chunk at (`u`, `d`, `off`) gives.
pub open spec fn found_in_block(
    v: EaView,
    g: EaGeometry,
    w: EaWidths,
    u: int,
    d: int,
    off: int,
    filtered: bool,
    chunk_bytes: u64,
) -> EaFound {
    if g.paged(u) {
        EaFound::Paged
    } else {
        match v.missing(g, w, u, d) {
            Some(q) => EaFound::Need(q),
            None => found_entry(sized(v.block_entry(g, w, u, d, off), filtered, chunk_bytes)),
        }
    }
}

/// What an entry says of its chunk.
pub open spec fn found_entry(e: ChunkEntry) -> EaFound {
    if e.addr == UNDEF_ADDR || e.nbytes == 0 {
        EaFound::Absent
    } else {
        EaFound::At { addr: e.addr, nbytes: e.nbytes }
    }
}

/// What an entry says of its chunk.
pub fn look_at(e: ChunkEntry) -> (r: EaFound)
    ensures
        r == found_entry(e),
{
    if e.addr == UNDEF_ADDR || e.nbytes == 0 {
        EaFound::Absent
    } else {
        EaFound::At { addr: e.addr, nbytes: e.nbytes }
    }
}

/// Look up the chunk that stands at `l`.
pub fn find_in_block(
    g: &EaGeometry,
    w: &EaWidths,
    ib: &EaIndexBlock,
    c: &EaBlocks,
    l: &EaDblkLoc,
    filtered: bool,
    chunk_bytes: u64,
) -> (r: EaFound)
    requires
        g.wf(),
        ea_view(*ib, *c).shaped(*g),
        g.locates(*l, g.number(l.sblk as int, l.local_dblk as int, l.offset_in_dblk as int)),
    ensures
        r == found_in_block(
            ea_view(*ib, *c),
            *g,
            *w,
            l.sblk as int,
            l.local_dblk as int,
            l.offset_in_dblk as int,
            filtered,
            chunk_bytes,
        ),
{
    let ghost v = ea_view(*ib, *c);
    let ghost u = l.sblk as int;
    let ghost d = l.local_dblk as int;
    if l.paged {
        return EaFound::Paged;
    }
    proof {
        g.lemma_info(u);
    }
    let addr: u64 = match l.path {
        EaDblkPath::Direct { idx } => ib.dblk_addrs[idx],
        EaDblkPath::ViaSblk { sblk_off, local_dblk, ndblks_in_sblk, sblk_block_offset: _ } => {
            let sa: u64 = ib.sblk_addrs[sblk_off];
            if sa == UNDEF_ADDR {
                return EaFound::Absent;
            }
            match find_super(c, sa, ndblks_in_sblk as u64, 0) {
                None => {
                    return EaFound::Need(
                        EaRequest::Super { addr: sa, ndblks: ndblks_in_sblk as u64, page_init: 0 },
                    );
                },
                Some(sb) => sb.dblk_addrs[local_dblk],
            }
        },
    };
    assert(addr == v.dblk_addr(*g, u, d));
    if addr == UNDEF_ADDR {
        return EaFound::Absent;
    }
    match find_block(&c.data, addr, l.dblk_nelmts) {
        None => EaFound::Need(EaRequest::Data { addr, nelmts: l.dblk_nelmts }),
        Some(b) => {
            assert(l.offset_in_dblk < b.len());
            look_at(sized_entry(b[l.offset_in_dblk as usize], filtered, chunk_bytes))
        },
    }
}

/// The header of an extensible array.
#[derive(Debug, Clone, Copy, PartialEq, Eq, Structural)]
pub struct ExtensibleArrayHeader {
    /// What the elements are.
    pub class_id: u8,
    /// Bytes of an element.
    pub raw_elmt_size: u8,
    /// The parameters of the array.
    pub params: EarrayParams,
    /// Super blocks created.
    pub num_sblks_created: u64,
    /// Bytes of the super blocks created.
    pub size_sblks_created: u64,
    /// Data blocks created.
    pub num_dblks_created: u64,
    /// Bytes of the data blocks created.
    pub size_dblks_created: u64,
    /// One more than the largest chunk number written.
    pub max_idx_set: u64,
    /// Elements for which there is room.
    pub num_elmts_realized: u64,
    /// Address of the index block.
    pub idx_blk_addr: u64,
}

/// Bytes of a super block that is not paged.
pub open spec fn super_size(g: EaGeometry, w: EaWidths, u: int) -> int {
    dblk_prefix(g, w) + sblk_ndblks(u as nat) * w.sizeof_addr
}

/// Bytes of a data block that is not paged.
pub open spec fn data_size(g: EaGeometry, w: EaWidths, u: int) -> int {
    dblk_prefix(g, w) + g.nelmts(u) * w.raw_elmt_size
}

/// A super block without data blocks.
pub open spec fn fresh_super(g: EaGeometry, u: int) -> SuperView {
    SuperView {
        dblk_addrs: Seq::new(sblk_ndblks(u as nat), |d: int| UNDEF_ADDR),
        page_init: Seq::empty(),
    }
}

/// A data block without chunks.
pub open spec fn fresh_data(g: EaGeometry, u: int) -> Seq<ChunkEntry> {
    Seq::new(g.nelmts(u) as nat, |off: int| vacant())
}

/// Whether the super block of level `u` has yet to be created.
pub open spec fn needs_super(v: EaView, g: EaGeometry, u: int) -> bool {
    u >= g.iblock_nsblks && v.super_addr(g, u) == UNDEF_ADDR
}

/// The index with a super block of level `u` at `at`.
pub open spec fn with_super(v: EaView, g: EaGeometry, u: int, at: u64) -> EaView {
    if needs_super(v, g, u) {
        EaView {
            sblk_addrs: v.sblk_addrs.update(u - g.iblock_nsblks, at),
            supers: v.supers.insert(at, fresh_super(g, u)),
            ..v
        }
    } else {
        v
    }
}

/// The index with `at` as the address of data block `d` of level `u`.
pub open spec fn with_dblk_addr(v: EaView, g: EaGeometry, u: int, d: int, at: u64) -> EaView {
    if u < g.iblock_nsblks {
        EaView { dblk_addrs: v.dblk_addrs.update(sblk_start_dblk(u as nat) + d, at), ..v }
    } else {
        let s = v.super_addr(g, u);
        EaView {
            supers: v.supers.insert(
                s,
                SuperView { dblk_addrs: v.supers[s].dblk_addrs.update(d, at), ..v.supers[s] },
            ),
            ..v
        }
    }
}

/// The index with `e` as element `off` of data block `d` of level `u`. Blocks
/// that are not there yet are created at `super_at` and `data_at`.
pub open spec fn with_entry(
    v: EaView,
    g: EaGeometry,
    u: int,
    d: int,
    off: int,
    e: ChunkEntry,
    super_at: u64,
    data_at: u64,
) -> EaView {
    let v1 = with_super(v, g, u, super_at);
    let a = v1.dblk_addr(g, u, d);
    if a == UNDEF_ADDR {
        let v2 = with_dblk_addr(v1, g, u, d, data_at);
        EaView { data: v2.data.insert(data_at, fresh_data(g, u).update(off, e)), ..v2 }
    } else {
        EaView { data: v1.data.insert(a, v1.data[a].update(off, e)), ..v1 }
    }
}

/// What is known of the addresses of an index in a file that ends at `eof`:
/// blocks stand within the file, and no two share an address.
pub open spec fn ea_wf(v: EaView, g: EaGeometry, eof: int) -> bool {
    &&& v.shaped(g)
    &&& forall|u: int|
        g.iblock_nsblks <= u < g.nsblks() && #[trigger] v.super_addr(g, u) != UNDEF_ADDR
            ==> v.super_addr(g, u) < eof
    &&& forall|u: int, x: int|
        g.iblock_nsblks <= u < g.nsblks() && g.iblock_nsblks <= x < g.nsblks()
            && #[trigger] v.super_addr(g, u) == #[trigger] v.super_addr(g, x) && v.super_addr(g, u)
            != UNDEF_ADDR ==> u == x
    &&& forall|u: int, d: int|
        g.has(u, d, 0) && #[trigger] v.dblk_addr(g, u, d) != UNDEF_ADDR ==> v.dblk_addr(g, u, d)
            < eof
    &&& forall|u: int, d: int, x: int, y: int|
        g.has(u, d, 0) && g.has(x, y, 0) && #[trigger] v.dblk_addr(g, u, d)
            == #[trigger] v.dblk_addr(g, x, y) && v.dblk_addr(g, u, d) != UNDEF_ADDR ==> u == x && d
            == y
}

/// Data blocks that the index block reaches have distinct places in it.
proof fn lemma_direct_places(g: EaGeometry, u: int, d: int, x: int, y: int)
    requires
        g.wf(),
        g.has(u, d, 0),
        g.has(x, y, 0),
        u < g.iblock_nsblks,
        x < g.iblock_nsblks,
    ensures
        0 <= sblk_start_dblk(u as nat) + d < g.ndblk_addrs,
        sblk_start_dblk(u as nat) + d == sblk_start_dblk(x as nat) + y ==> u == x && d == y,
{
    lemma_dblk_order(u as nat, g.iblock_nsblks as nat);
    if u < x {
        lemma_dblk_order(u as nat, x as nat);
    }
    if x < u {
        lemma_dblk_order(x as nat, u as nat);
    }
}

/// A new super block changes no data block.
proof fn lemma_with_super(v: EaView, g: EaGeometry, u: int, at: u64, eof: int)
    requires
        g.wf(),
        ea_wf(v, g, eof),
        0 <= u < g.nsblks(),
        !g.paged(u),
        eof <= at < UNDEF_ADDR,
    ensures
        ({
            let v1 = with_super(v, g, u, at);
            &&& v1.shaped(g)
            &&& forall|x: int, y: int| #[trigger]
                g.has(x, y, 0) ==> v1.dblk_addr(g, x, y) == v.dblk_addr(g, x, y)
            &&& forall|x: int|
                g.iblock_nsblks <= x < g.nsblks() && x != u ==> #[trigger] v1.super_block(g, x)
                    == v.super_block(g, x) && v1.super_addr(g, x) == v.super_addr(g, x)
            &&& (u >= g.iblock_nsblks && v.super_missing(g, u) is None) ==> v1.super_block(
                g,
                u,
            ) is Some && v1.super_addr(g, u) != UNDEF_ADDR
            &&& ea_wf(v1, g, at + 1)
        }),
{
    let v1 = with_super(v, g, u, at);
    if needs_super(v, g, u) {
        assert(v1.super_addr(g, u) == at);
        assert(v1.super_block(g, u) == Some(fresh_super(g, u)));
        assert forall|x: int| g.iblock_nsblks <= x < g.nsblks() && x != u implies #[trigger]
            v1.super_block(g, x) == v.super_block(g, x) && v1.super_addr(g, x) == v.super_addr(
            g,
            x,
        ) by {
            assert(v1.super_addr(g, x) == v.super_addr(g, x));
        }
        assert forall|x: int, y: int| #[trigger] g.has(x, y, 0) implies v1.dblk_addr(g, x, y)
            == v.dblk_addr(g, x, y) by {
            if x >= g.iblock_nsblks && x != u {
                assert(v1.super_block(g, x) == v.super_block(g, x));
            }
        }
        assert forall|x: int, y: int|
            g.iblock_nsblks <= x < g.nsblks() && g.iblock_nsblks <= y < g.nsblks()
                && #[trigger] v1.super_addr(g, x) == #[trigger] v1.super_addr(g, y)
                && v1.super_addr(g, x) != UNDEF_ADDR implies x == y by {
            if x != u {
                assert(v1.super_addr(g, x) == v.super_addr(g, x));
            }
            if y != u {
                assert(v1.super_addr(g, y) == v.super_addr(g, y));
            }
        }
        assert forall|x: int|
            g.iblock_nsblks <= x < g.nsblks() && #[trigger] v1.super_addr(g, x)
                != UNDEF_ADDR implies v1.super_addr(g, x) < at + 1 by {
            if x != u {
                assert(v1.super_addr(g, x) == v.super_addr(g, x));
            }
        }
    }
}

/// Setting the address of a data block leaves the others as they are.
proof fn lemma_with_dblk_addr(v: EaView, g: EaGeometry, u: int, d: int, at: u64, eof: int)
    requires
        g.wf(),
        ea_wf(v, g, eof),
        g.has(u, d, 0),
        u >= g.iblock_nsblks ==> v.super_block(g, u) is Some && v.super_addr(g, u) != UNDEF_ADDR,
        eof <= at < UNDEF_ADDR,
    ensures
        ({
            let v2 = with_dblk_addr(v, g, u, d, at);
            &&& v2.shaped(g)
            &&& v2.dblk_addr(g, u, d) == at
            &&& forall|x: int, y: int| #[trigger]
                g.has(x, y, 0) && !(x == u && y == d) ==> v2.dblk_addr(g, x, y) == v.dblk_addr(
                    g,
                    x,
                    y,
                )
            &&& forall|x: int|
                g.iblock_nsblks <= x < g.nsblks() ==> (#[trigger] v2.super_block(g, x) is Some)
                    == (v.super_block(g, x) is Some)
            &&& forall|x: int, y: int, p: int|
                g.iblock_nsblks <= x < g.nsblks() ==> #[trigger] v2.page_used(g, x, y, p)
                    == v.page_used(g, x, y, p)
            &&& v2.sblk_addrs == v.sblk_addrs
            &&& ea_wf(v2, g, at + 1)
        }),
{
    let v2 = with_dblk_addr(v, g, u, d, at);
    lemma_direct_all(g);
    assert forall|x: int| g.iblock_nsblks <= x < g.nsblks() implies (#[trigger] v2.super_block(
        g,
        x,
    ) is Some) == (v.super_block(g, x) is Some) && (x != u || u < g.iblock_nsblks ==> v2.super_block(
        g,
        x,
    ) == v.super_block(g, x)) by {
        assert(v2.super_addr(g, x) == v.super_addr(g, x));
        if x != u && u >= g.iblock_nsblks {
            assert(v.super_addr(g, x) != v.super_addr(g, u));
        }
    }
    assert forall|x: int, y: int| #[trigger]
        g.has(x, y, 0) && !(x == u && y == d) implies v2.dblk_addr(g, x, y) == v.dblk_addr(
        g,
        x,
        y,
    ) by {
        if x < g.iblock_nsblks {
            if u < g.iblock_nsblks {
                lemma_direct_places(g, u, d, x, y);
                lemma_direct_places(g, x, y, u, d);
            }
        } else {
            assert(v2.super_addr(g, x) == v.super_addr(g, x));
            assert((v2.super_block(g, x) is Some) == (v.super_block(g, x) is Some));
        }
    }
    assert(v2.dblk_addr(g, u, d) == at) by {
        if u < g.iblock_nsblks {
            lemma_direct_places(g, u, d, u, d);
        } else {
            assert((v2.super_block(g, u) is Some) == (v.super_block(g, u) is Some));
        }
    }
    assert forall|x: int, y: int, p: int| g.iblock_nsblks <= x < g.nsblks() implies #[trigger]
        v2.page_used(g, x, y, p) == v.page_used(g, x, y, p) by {
        assert((v2.super_block(g, x) is Some) == (v.super_block(g, x) is Some));
    }
    assert(ea_wf(v2, g, at + 1)) by {
        assert forall|x: int|
            g.iblock_nsblks <= x < g.nsblks() && #[trigger] v2.super_addr(g, x)
                != UNDEF_ADDR implies v2.super_addr(g, x) < at + 1 by {
            assert(v2.super_addr(g, x) == v.super_addr(g, x));
        }
        assert forall|x: int, y: int|
            g.iblock_nsblks <= x < g.nsblks() && g.iblock_nsblks <= y < g.nsblks()
                && #[trigger] v2.super_addr(g, x) == #[trigger] v2.super_addr(g, y)
                && v2.super_addr(g, x) != UNDEF_ADDR implies x == y by {
            assert(v2.super_addr(g, x) == v.super_addr(g, x));
            assert(v2.super_addr(g, y) == v.super_addr(g, y));
        }
    }
}

/// Whether the places of data blocks in the index block are within it.
proof fn lemma_direct_all(g: EaGeometry)
    requires
        g.wf(),
    ensures
        forall|x: int, y: int| #[trigger]
            g.has(x, y, 0) && x < g.iblock_nsblks ==> 0 <= sblk_start_dblk(x as nat) + y
                < g.ndblk_addrs,
{
    assert forall|x: int, y: int| #[trigger] g.has(x, y, 0) && x < g.iblock_nsblks implies 0
        <= sblk_start_dblk(x as nat) + y < g.ndblk_addrs by {
        lemma_direct_places(g, x, y, x, y);
    }
}

/// Recording a chunk gives it its entry, and leaves the entries of all other
/// chunks as they are.
pub proof fn lemma_with_entry(
    v: EaView,
    g: EaGeometry,
    w: EaWidths,
    u: int,
    d: int,
    off: int,
    e: ChunkEntry,
    super_at: u64,
    data_at: u64,
    eof: int,
)
    requires
        g.wf(),
        g.direct_flat(),
        ea_wf(v, g, eof),
        g.has(u, d, off),
        !g.paged(u),
        v.missing(g, w, u, d) is None,
        eof <= super_at < UNDEF_ADDR,
        eof <= data_at < UNDEF_ADDR,
        needs_super(v, g, u) ==> super_at < data_at,
    ensures
        ({
            let v2 = with_entry(v, g, u, d, off, e, super_at, data_at);
            &&& v2.block_entry(g, w, u, d, off) == e
            &&& v2.missing(g, w, u, d) is None
            &&& forall|x: int, y: int, z: int| #[trigger]
                g.has(x, y, z) && !(x == u && y == d && z == off) ==> v2.block_entry(g, w, x, y, z)
                    == v.block_entry(g, w, x, y, z)
            &&& forall|i: int|
                0 <= i < g.capacity() && i != g.number(u, d, off) ==> #[trigger] v2.entry(g, w, i)
                    == v.entry(g, w, i)
            &&& ea_wf(v2, g, data_at + 1)
        }),
{
    let v1 = with_super(v, g, u, super_at);
    lemma_with_super(v, g, u, super_at, eof);
    assert(g.has(u, d, 0));
    let a = v1.dblk_addr(g, u, d);
    let v2 = with_entry(v, g, u, d, off, e, super_at, data_at);
    assert(v1.dblk_addr(g, u, d) == v.dblk_addr(g, u, d));
    let vd = if a == UNDEF_ADDR {
        with_dblk_addr(v1, g, u, d, data_at)
    } else {
        v1
    };
    if a == UNDEF_ADDR {
        let eof1 = if needs_super(v, g, u) {
            super_at + 1
        } else {
            eof
        };
        lemma_with_dblk_addr(v1, g, u, d, data_at, eof1);
    }
    let at = vd.dblk_addr(g, u, d);
    assert(at != UNDEF_ADDR);
    assert forall|x: int, y: int| #[trigger] g.has(x, y, 0) implies v2.dblk_addr(g, x, y)
        == vd.dblk_addr(g, x, y) by {
        assert(v2.super_block(g, x) == vd.super_block(g, x));
    }
    assert(v2.data.contains_key(at) && v2.data[at].len() == g.nelmts(u));
    assert(v2.dblk_addr(g, u, d) == at);
    assert(v2.super_missing(g, u) is None) by {
        assert(v2.super_block(g, u) == vd.super_block(g, u));
        if u >= g.iblock_nsblks {
            assert(v1.super_block(g, u) is Some);
            assert(vd.super_block(g, u) is Some);
        }
    }
    assert forall|x: int, y: int, z: int| #[trigger]
        g.has(x, y, z) && !(x == u && y == d && z == off) implies v2.block_entry(g, w, x, y, z)
        == v.block_entry(g, w, x, y, z) by {
        assert(g.has(x, y, 0));
        if x == u && y == d {
            assert(v2.data[at][z] == v.block_entry(g, w, u, d, z));
        } else {
            assert(v1.dblk_addr(g, x, y) == v.dblk_addr(g, x, y));
            assert(vd.dblk_addr(g, x, y) == v.dblk_addr(g, x, y));
            assert(v2.dblk_addr(g, x, y) == v.dblk_addr(g, x, y));
            let b = v.dblk_addr(g, x, y);
            if b != UNDEF_ADDR {
                assert(b != at) by {
                    assert(vd.dblk_addr(g, x, y) != vd.dblk_addr(g, u, d)) by {
                        assert(ea_wf(vd, g, data_at + 1));
                    }
                }
                if g.paged(x) {
                    assert(x >= g.iblock_nsblks && x != u);
                    let p = z / g.dblk_page_nelmts as int;
                    assert(v1.super_block(g, x) == v.super_block(g, x));
                    assert(v1.page_used(g, x, y, p) == v.page_used(g, x, y, p));
                    assert(vd.page_used(g, x, y, p) == v1.page_used(g, x, y, p));
                    assert(v2.super_block(g, x) == vd.super_block(g, x));
                    assert(v2.page_used(g, x, y, p) == vd.page_used(g, x, y, p));
                }
            }
        }
    }
    assert forall|i: int| 0 <= i < g.capacity() && i != g.number(u, d, off) implies #[trigger]
        v2.entry(g, w, i) == v.entry(g, w, i) by {
        if i >= g.idx_blk_elmts {
            lemma_every_number(g, i);
            let (x, y, z) = choose|x: int, y: int, z: int| #[trigger]
                g.has(x, y, z) && g.number(x, y, z) == i;
            lemma_entry(v, g, w, x, y, z);
            lemma_entry(v2, g, w, x, y, z);
        }
    }
    assert(ea_wf(v2, g, data_at + 1)) by {
        assert(ea_wf(vd, g, data_at + 1));
        assert forall|x: int| g.iblock_nsblks <= x < g.nsblks() implies #[trigger] v2.super_addr(
            g,
            x,
        ) == vd.super_addr(g, x) by {}
    }
}

/// Every chunk that the index can hold has a place.
pub proof fn lemma_every_number(g: EaGeometry, i: int)
    requires
        g.wf(),
        g.idx_blk_elmts <= i < g.capacity(),
    ensures
        exists|u: int, d: int, off: int| #[trigger]
            g.has(u, d, off) && g.number(u, d, off) == i,
{
    lemma_level(g, i - g.idx_blk_elmts, g.nsblks());
    let a = g.min_bits();
    let e = i - g.idx_blk_elmts;
    let u = choose|u: nat|
        u < g.nsblks() && #[trigger] sblk_start(a, u) <= e < sblk_start(a, u + 1);
    lemma_sblk_next(a, u);
    let r = e - sblk_start(a, u);
    let n = g.nelmts(u as int);
    let k = sblk_ndblks(u) as int;
    vstd::arithmetic::div_mod::lemma_fundamental_div_mod(r, n);
    let d = r / n;
    let off = r % n;
    assert(0 <= d < k && d * n + off == r && 0 <= off < n) by (nonlinear_arith)
        requires
            r == n * d + off,
            0 <= r < k * n,
            off == r % n,
            n > 0,
    ;
    assert(g.has(u as int, d, off));
    assert(g.number(u as int, d, off) == i);
}

/// Every place in the data blocks belongs to a level.
proof fn lemma_level(g: EaGeometry, e: int, n: nat)
    requires
        g.wf(),
        0 <= e < sblk_start(g.min_bits(), n),
    ensures
        exists|u: nat|
            u < n && #[trigger] sblk_start(g.min_bits(), u) <= e < sblk_start(
                g.min_bits(),
                u + 1,
            ),
    decreases n,
{
    let a = g.min_bits();
    if n == 0 {
        vstd::arithmetic::power2::lemma2_to64();
        assert(pow2(a) * 0 == 0) by (nonlinear_arith);
    } else {
        let m = (n - 1) as nat;
        if e < sblk_start(a, m) {
            lemma_level(g, e, m);
            let u = choose|u: nat|
                u < m && #[trigger] sblk_start(a, u) <= e < sblk_start(a, u + 1);
            assert(u < n && sblk_start(a, u) <= e < sblk_start(a, u + 1));
        } else {
            assert(m < n && sblk_start(a, m) <= e < sblk_start(a, m + 1));
        }
    }
}

/// Which blocks a recorded chunk changed.
#[derive(Debug, Clone, Copy, PartialEq, Eq, Structural)]
pub struct EaUpdate {
    /// Address of the super block that changed.
    pub super_block: Option<u64>,
    /// Address of the data block that changed.
    pub data_block: Option<u64>,
}

/// End of the file after the super block of level `u` is there.
pub open spec fn eof_after_super(v: EaView, g: EaGeometry, w: EaWidths, u: int, eof: int) -> int {
    if needs_super(v, g, u) {
        align8(eof) + super_size(g, w, u)
    } else {
        eof
    }
}

/// Whether data block `d` of level `u` has yet to be created.
pub open spec fn needs_data(v: EaView, g: EaGeometry, u: int, d: int) -> bool {
    v.dblk_addr(g, u, d) == UNDEF_ADDR
}

/// Where a new data block goes.
pub open spec fn new_data_addr(v: EaView, g: EaGeometry, w: EaWidths, u: int, eof: int) -> int {
    align8(eof_after_super(v, g, w, u, eof))
}

/// End of the file after the chunk at (`u`, `d`) is recorded.
pub open spec fn eof_after(v: EaView, g: EaGeometry, w: EaWidths, u: int, d: int, eof: int) -> int {
    if needs_data(v, g, u, d) {
        new_data_addr(v, g, w, u, eof) + data_size(g, w, u)
    } else {
        eof_after_super(v, g, w, u, eof)
    }
}

/// The header after chunk `i`, which stands at (`u`, `d`), is recorded.
pub open spec fn recorded_header(
    h: ExtensibleArrayHeader,
    v: EaView,
    g: EaGeometry,
    w: EaWidths,
    u: int,
    d: int,
    i: int,
) -> ExtensibleArrayHeader {
    let ns = needs_super(v, g, u);
    let nd = needs_data(v, g, u, d);
    ExtensibleArrayHeader {
        num_sblks_created: (h.num_sblks_created + if ns {
            1int
        } else {
            0
        }) as u64,
        size_sblks_created: (h.size_sblks_created + if ns {
            super_size(g, w, u)
        } else {
            0
        }) as u64,
        num_dblks_created: (h.num_dblks_created + if nd {
            1int
        } else {
            0
        }) as u64,
        size_dblks_created: (h.size_dblks_created + if nd {
            data_size(g, w, u)
        } else {
            0
        }) as u64,
        max_idx_set: if i + 1 > h.max_idx_set {
            (i + 1) as u64
        } else {
            h.max_idx_set
        },
        num_elmts_realized: (h.num_elmts_realized + if nd {
            g.nelmts(u)
        } else {
            0
        }) as u64,
        ..h
    }
}

/// Whether the counters of a header have room for a super block and a data block
/// of level `u`.
pub open spec fn header_room(h: ExtensibleArrayHeader, g: EaGeometry, w: EaWidths, u: int) -> bool {
    &&& h.num_sblks_created < u64::MAX
    &&& h.size_sblks_created + super_size(g, w, u) <= u64::MAX
    &&& h.num_dblks_created < u64::MAX
    &&& h.size_dblks_created + data_size(g, w, u) <= u64::MAX
    &&& h.num_elmts_realized + g.nelmts(u) <= u64::MAX
}

/// Bytes of a block of level `u` with `n` items of `width` bytes.
fn block_size(g: &EaGeometry, w: &EaWidths, n: u64, width: u8) -> (size: u64)
    requires
        dblk_prefix(*g, *w) + n * width <= u64::MAX,
    ensures
        size == dblk_prefix(*g, *w) + n * width,
{
    let bits: u64 = g.params.max_nelmts_bits as u64;
    let prefix: u64 = 4 + 1 + 1 + w.sizeof_addr as u64 + (bits + 7) / 8 + 4;
    assert(n * width >= 0) by (nonlinear_arith);
    prefix + n * (width as u64)
}

/// `n` addresses of blocks that are not there.
fn undefined_addrs(n: usize) -> (v: Vec<u64>)
    ensures
        v@ == Seq::new(n as nat, |d: int| UNDEF_ADDR),
{
    let mut v: Vec<u64> = Vec::new();
    let mut i: usize = 0;
    while i < n
        invariant
            i <= n,
            v@ == Seq::new(i as nat, |d: int| UNDEF_ADDR),
        decreases n - i,
    {
        v.push(UNDEF_ADDR);
        assert(v@ =~= Seq::new((i + 1) as nat, |d: int| UNDEF_ADDR));
        i = i + 1;
    }
    v
}

/// Replace a data block.
fn put_data(ib: &EaIndexBlock, c: &mut EaBlocks, at: u64, b: Vec<ChunkEntry>)
    ensures
        ea_view(*ib, *final(c)) == (EaView {
            data: ea_view(*ib, *old(c)).data.insert(at, b@),
            ..ea_view(*ib, *old(c))
        }),
{
    broadcast use vstd::std_specs::hash::group_hash_axioms;

    let ghost f = |b: Vec<ChunkEntry>| b@;
    let ghost m = c.data@;
    c.data.insert(at, b);
    assert(c.data@.map_values(f) =~= m.map_values(f).insert(at, b@));
}

/// Replace a super block.
fn put_super(ib: &EaIndexBlock, c: &mut EaBlocks, at: u64, s: EaSuperBlock)
    ensures
        ea_view(*ib, *final(c)) == (EaView {
            supers: ea_view(*ib, *old(c)).supers.insert(at, s@),
            ..ea_view(*ib, *old(c))
        }),
{
    broadcast use vstd::std_specs::hash::group_hash_axioms;

    let ghost f = |s: EaSuperBlock| s@;
    let ghost m = c.supers@;
    c.supers.insert(at, s);
    assert(c.supers@.map_values(f) =~= m.map_values(f).insert(at, s@));
}

/// A copy of addresses.
fn copy_addrs(a: &Vec<u64>) -> (v: Vec<u64>)
    ensures
        v@ == a@,
{
    let mut v: Vec<u64> = Vec::new();
    let mut i: usize = 0;
    while i < a.len()
        invariant
            i <= a.len(),
            v@ == a@.take(i as int),
        decreases a.len() - i,
    {
        v.push(a[i]);
        assert(v@ =~= a@.take(i + 1));
        i = i + 1;
    }
    assert(a@.take(a@.len() as int) =~= a@);
    v
}

/// Record the entry of a chunk that stands in a data block. The super block and
/// the data block are created where they are not there yet.
pub fn record_in_block(
    g: &EaGeometry,
    w: &EaWidths,
    header: &mut ExtensibleArrayHeader,
    ib: &mut EaIndexBlock,
    c: &mut EaBlocks,
    alloc: &mut FileAllocator,
    l: &EaDblkLoc,
    chunk_idx: u64,
    e: ChunkEntry,
) -> (r: Result<EaUpdate, EaRequest>)
    requires
        g.wf(),
        ea_view(*old(ib), *old(c)).shaped(*g),
        g.locates(*l, chunk_idx as int),
        !l.paged,
        old(alloc).wf(),
        old(alloc).spec_eof() + 16 + super_size(*g, *w, l.sblk as int) + data_size(
            *g,
            *w,
            l.sblk as int,
        ) <= u64::MAX,
        header_room(*old(header), *g, *w, l.sblk as int),
    ensures
        final(alloc).wf(),
        ({
            let v = ea_view(*old(ib), *old(c));
            let v2 = ea_view(*final(ib), *final(c));
            let u = l.sblk as int;
            let d = l.local_dblk as int;
            let eof = old(alloc).spec_eof() as int;
            match r {
                Ok(up) => {
                    &&& v.missing(*g, *w, u, d) is None
                    &&& v2 == with_entry(
                        v,
                        *g,
                        u,
                        d,
                        l.offset_in_dblk as int,
                        e,
                        align8(eof) as u64,
                        new_data_addr(v, *g, *w, u, eof) as u64,
                    )
                    &&& final(alloc).spec_eof() == eof_after(v, *g, *w, u, d, eof)
                    &&& *final(header) == recorded_header(
                        *old(header),
                        v,
                        *g,
                        *w,
                        u,
                        d,
                        chunk_idx as int,
                    )
                    &&& up.data_block == Some(v2.dblk_addr(*g, u, d))
                    &&& up.super_block == (if u >= g.iblock_nsblks && needs_data(v, *g, u, d) {
                        Some(v2.super_addr(*g, u))
                    } else {
                        None
                    })
                },
                Err(q) => {
                    &&& v.missing(*g, *w, u, d) == Some(q)
                    &&& v2 == v
                    &&& final(alloc).spec_eof() == eof
                    &&& *final(header) == *old(header)
                },
            }
        }),
{
    let ghost v = ea_view(*ib, *c);
    let ghost u = l.sblk as int;
    let ghost d = l.local_dblk as int;
    let ghost eof = alloc.spec_eof() as int;
    proof {
        g.lemma_info(u);
        lemma_number_bounds(*g, u, d, l.offset_in_dblk as int);
        assert(sblk_ndblks(u as nat) * w.sizeof_addr >= 0) by (nonlinear_arith);
        assert(g.nelmts(u) * w.raw_elmt_size >= 0) by (nonlinear_arith)
            requires
                g.nelmts(u) > 0,
        ;
    }
    match find_in_block(g, w, ib, c, l, true, 0) {
        EaFound::Need(q) => {
            return Err(q);
        },
        _ => {},
    }
    let mut update = EaUpdate { super_block: None, data_block: None };
    let mut addr: u64 = UNDEF_ADDR;
    match l.path {
        EaDblkPath::Direct { idx } => {
            addr = ib.dblk_addrs[idx];
        },
        EaDblkPath::ViaSblk { sblk_off, local_dblk, ndblks_in_sblk, sblk_block_offset: _ } => {
            if ib.sblk_addrs[sblk_off] == UNDEF_ADDR {
                let size: u64 = block_size(g, w, ndblks_in_sblk as u64, w.sizeof_addr);
                let at: u64 = alloc.allocate(size);
                ib.sblk_addrs.set(sblk_off, at);
                let sb = EaSuperBlock {
                    dblk_addrs: undefined_addrs(ndblks_in_sblk),
                    page_init: Vec::new(),
                };
                assert(sb@ == fresh_super(*g, u));
                put_super(ib, c, at, sb);
                header.num_sblks_created = header.num_sblks_created + 1;
                header.size_sblks_created = header.size_sblks_created + size;
            } else {
                match find_super(c, ib.sblk_addrs[sblk_off], ndblks_in_sblk as u64, 0) {
                    Some(sb) => {
                        addr = sb.dblk_addrs[local_dblk];
                    },
                    None => {
                        assert(false);
                    },
                }
            }
        },
    }
    let ghost v1 = ea_view(*ib, *c);
    assert(v1 == with_super(v, *g, u, align8(eof) as u64));
    assert(addr == v.dblk_addr(*g, u, d));
    if addr == UNDEF_ADDR {
        let size: u64 = block_size(g, w, l.dblk_nelmts, w.raw_elmt_size);
        let at: u64 = alloc.allocate(size);
        let mut b: Vec<ChunkEntry> = Vec::new();
        extend_vacant(&mut b, l.dblk_nelmts);
        assert(b@ =~= fresh_data(*g, u));
        assert(l.offset_in_dblk < b.len());
        b.set(l.offset_in_dblk as usize, e);
        match l.path {
            EaDblkPath::Direct { idx } => {
                ib.dblk_addrs.set(idx, at);
            },
            EaDblkPath::ViaSblk { sblk_off, local_dblk, ndblks_in_sblk, sblk_block_offset: _ } => {
                let sa: u64 = ib.sblk_addrs[sblk_off];
                proof {
                    assert(v1.super_addr(*g, u) == sa);
                    assert(v1.super_block(*g, u) is Some);
                    assert(v1.supers[sa] == c.supers@[sa]@);
                    assert(v1.supers[sa].page_init =~= Seq::<u8>::empty());
                }
                match find_super(c, sa, ndblks_in_sblk as u64, 0) {
                    Some(sb) => {
                        let mut addrs: Vec<u64> = copy_addrs(&sb.dblk_addrs);
                        addrs.set(local_dblk, at);
                        put_super(
                            ib,
                            c,
                            sa,
                            EaSuperBlock { dblk_addrs: addrs, page_init: Vec::new() },
                        );
                        update.super_block = Some(sa);
                    },
                    None => {
                        assert(false);
                    },
                }
            },
        }
        let ghost vd = ea_view(*ib, *c);
        assert(vd == with_dblk_addr(v1, *g, u, d, at));
        put_data(ib, c, at, b);
        update.data_block = Some(at);
        header.num_dblks_created = header.num_dblks_created + 1;
        header.size_dblks_created = header.size_dblks_created + size;
        header.num_elmts_realized = header.num_elmts_realized + l.dblk_nelmts;
    } else {
        match find_block(&c.data, addr, l.dblk_nelmts) {
            Some(b) => {
                let mut copy: Vec<ChunkEntry> = Vec::new();
                extend_entries(&mut copy, b);
                assert(l.offset_in_dblk < copy.len());
                copy.set(l.offset_in_dblk as usize, e);
                put_data(ib, c, addr, copy);
                update.data_block = Some(addr);
            },
            None => {
                assert(false);
            },
        }
    }
    if chunk_idx + 1 > header.max_idx_set {
        header.max_idx_set = chunk_idx + 1;
    }
    Ok(update)
}

} // verus!
