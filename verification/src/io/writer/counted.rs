//! What the index of a dataset counts.

use crate::format::bytes::{lemma_pow256_values, pow256};
use crate::format::chunk_index::extensible_array::{
    lemma_dblk_order, lemma_number_bounds, lemma_number_injective, lemma_sblk_next, sblk_ndblks,
};
use crate::format::{FormatContext, UNDEF_ADDR};
use crate::io::allocator::{align8, lemma_aligned};
use crate::io::ea::{ea_wf, lemma_entry, lemma_every_number, ChunkEntry};
use crate::io::writer::datasets::{bytes_of, ea_element_size, ea_eof, new_chunked, size_width};
use crate::io::writer::index::{record_room, recorded, recorded_in_block, stands_at, EaStep};
use crate::io::writer::state::{ChunkedDatasetInfo, DatasetInfo};
use crate::io::IoResult;
use vstd::prelude::*;

verus! {

/// The header of an index counts what recording a chunk takes: one more than the largest chunk
/// number, and each block that is created for the chunk with its bytes and its elements. A
/// block is created exactly where there was none.
pub proof fn lemma_blocks_counted(
    a: ChunkedDatasetInfo,
    b: ChunkedDatasetInfo,
    ctx: FormatContext,
    eof: int,
    eof2: int,
    idx: u64,
    e: ChunkEntry,
    r: IoResult<EaStep>,
    u: int,
    d: int,
    off: int,
)
    requires
        a.wf(),
        record_room(a, ctx, eof, idx),
        idx < u64::MAX,
        recorded(a, b, ctx, eof, eof2, idx, e, r),
        r matches Ok(EaStep::Recorded(_)),
        stands_at(a.geo, idx as int, u, d, off),
    ensures
        ({
            let g = a.geo;
            let h = a.ea_header;
            let k = b.ea_header;
            let head = 4 + 1 + 1 + ctx.sizeof_addr + (g.params.max_nelmts_bits + 7) / 8 + 4;
            let new_super = u >= g.iblock_nsblks && a.index().super_addr(g, u) == UNDEF_ADDR;
            let new_data = a.index().dblk_addr(g, u, d) == UNDEF_ADDR;
            &&& b.chunks_written == a.chunks_written + 1
            &&& k.idx_blk_addr == h.idx_blk_addr
            &&& k.raw_elmt_size == h.raw_elmt_size
            &&& k.max_idx_set >= h.max_idx_set
            &&& k.max_idx_set >= idx + 1
            &&& k.max_idx_set == h.max_idx_set || k.max_idx_set == idx + 1
            &&& if new_super {
                &&& k.num_sblks_created == h.num_sblks_created + 1
                &&& k.size_sblks_created == h.size_sblks_created + head + sblk_ndblks(u as nat)
                    * ctx.sizeof_addr
            } else {
                &&& k.num_sblks_created == h.num_sblks_created
                &&& k.size_sblks_created == h.size_sblks_created
            }
            &&& if new_data {
                &&& k.num_dblks_created == h.num_dblks_created + 1
                &&& k.size_dblks_created == h.size_dblks_created + head + g.nelmts(u)
                    * h.raw_elmt_size
                &&& k.num_elmts_realized == h.num_elmts_realized + g.nelmts(u)
            } else {
                &&& k.num_dblks_created == h.num_dblks_created
                &&& k.size_dblks_created == h.size_dblks_created
                &&& k.num_elmts_realized == h.num_elmts_realized
            }
        }),
{
    let g = a.geo;
    lemma_number_bounds(g, u, d, off);
    lemma_sblk_next(g.min_bits(), u as nat);
    let (x, y, z) = choose|x: int, y: int, z: int| #[trigger]
        stands_at(g, idx as int, x, y, z) && recorded_in_block(
            a,
            b,
            ctx,
            eof,
            eof2,
            idx,
            e,
            r,
            x,
            y,
            z,
        );
    lemma_number_injective(g, u, d, off, x, y, z);
    let n = g.nelmts(u);
    let raw = a.ea_header.raw_elmt_size as int;
    let k = sblk_ndblks(u as nat) as int;
    let sa = ctx.sizeof_addr as int;
    assert(0 <= n * raw && 0 <= k * sa) by (nonlinear_arith)
        requires
            0 <= n,
            0 <= raw,
            0 <= k,
            0 <= sa,
    ;
}

/// Chunks of the index block need no other block: only the numbers change.
pub proof fn lemma_direct_counted(
    a: ChunkedDatasetInfo,
    b: ChunkedDatasetInfo,
    ctx: FormatContext,
    eof: int,
    eof2: int,
    idx: u64,
    e: ChunkEntry,
    r: IoResult<EaStep>,
)
    requires
        a.wf(),
        recorded(a, b, ctx, eof, eof2, idx, e, r),
        idx < a.geo.idx_blk_elmts,
    ensures
        ({
            let h = a.ea_header;
            let k = b.ea_header;
            &&& r is Ok
            &&& eof2 == eof
            &&& k.max_idx_set >= h.max_idx_set
            &&& k.max_idx_set >= idx + 1
            &&& k.max_idx_set == h.max_idx_set || k.max_idx_set == idx + 1
            &&& k.num_elmts_realized >= h.num_elmts_realized
            &&& k.num_elmts_realized >= a.geo.idx_blk_elmts
            &&& k.num_elmts_realized == h.num_elmts_realized || k.num_elmts_realized
                == a.geo.idx_blk_elmts
            &&& k.num_sblks_created == h.num_sblks_created
            &&& k.size_sblks_created == h.size_sblks_created
            &&& k.num_dblks_created == h.num_dblks_created
            &&& k.size_dblks_created == h.size_dblks_created
            &&& k.idx_blk_addr == h.idx_blk_addr
        }),
{
}

/// A new dataset with an extensible array has no chunks: no number has an entry. Header and
/// index block stand behind the end of the file, apart from each other, and hold what they are
/// to hold; the file ends behind them.
pub proof fn lemma_new_index(
    d: DatasetInfo,
    ctx: FormatContext,
    csl: Option<u8>,
    eof: int,
    max: Seq<u64>,
    cd: Seq<u64>,
    i: int,
)
    requires
        new_chunked(d, ctx, csl, eof, max, cd),
        0 <= eof,
        ea_element_size(ctx, csl) <= 255,
        ea_eof(ctx, ea_element_size(ctx, csl), eof) <= u64::MAX,
        0 <= i < d.chunked->0.geo.capacity(),
    ensures
        ({
            let c = d.chunked->0;
            let b = c.ea_iblk;
            let end = ea_eof(ctx, ea_element_size(ctx, csl), eof);
            &&& c.chunk_dims@ == cd
            &&& c.index().entry(c.geo, c.widths(ctx), i).addr == UNDEF_ADDR
            &&& ea_wf(c.index(), c.geo, end)
            &&& c.ea_header.idx_blk_addr == c.ea_iblk_addr
            &&& c.ea_header.max_idx_set == 0
            &&& eof <= c.ea_header_addr
            &&& c.ea_header_addr % 8 == 0
            &&& c.ea_iblk_addr % 8 == 0
            &&& c.ea_header_addr + 12 + 6 * ctx.sizeof_size + ctx.sizeof_addr + 4 <= c.ea_iblk_addr
            &&& c.ea_iblk_addr + 6 + ctx.sizeof_addr + b.elements@.len() * c.ea_header.raw_elmt_size
                + (b.dblk_addrs@.len() + b.sblk_addrs@.len()) * ctx.sizeof_addr + 4 == end
            &&& c.filtered == (csl is Some)
            &&& c.ea_header.raw_elmt_size == ctx.sizeof_addr + (match csl {
                Some(n) => n + 4,
                None => 0,
            })
        }),
{
    let c = d.chunked->0;
    let v = c.index();
    let g = c.geo;
    lemma_aligned(eof);
    lemma_aligned(align8(eof) + 12 + 6 * ctx.sizeof_size + ctx.sizeof_addr + 4);
    assert forall|u: int| g.iblock_nsblks <= u < g.nsblks() implies #[trigger] v.super_addr(g, u)
        == UNDEF_ADDR by {
        assert(v.sblk_addrs[u - g.iblock_nsblks] == UNDEF_ADDR);
    }
    assert forall|u: int, k: int| g.has(u, k, 0) implies #[trigger] v.dblk_addr(g, u, k)
        == UNDEF_ADDR by {
        if u < g.iblock_nsblks {
            lemma_dblk_order(
                u as nat,
                g.iblock_nsblks as nat,
            );
        } else {
            assert(v.super_addr(g, u) == UNDEF_ADDR);
        }
    }
    if i >= g.idx_blk_elmts {
        lemma_every_number(g, i);
        let (u, k, off) = choose|u: int, k: int, off: int| #[trigger]
            g.has(u, k, off) && g.number(u, k, off) == i;
        assert(g.has(u, k, 0));
        assert(v.dblk_addr(g, u, k) == UNDEF_ADDR);
        lemma_entry(v, g, c.widths(ctx), u, k, off);
    }
}

proof fn lemma_bytes_of(n: nat)
    ensures
        bytes_of(n) >= 1,
        n < pow256(bytes_of(n)),
        n > 0 ==> pow256((bytes_of(n) - 1) as nat) <= n,
    decreases n,
{
    reveal_with_fuel(pow256, 2);
    if n >= 256 {
        lemma_bytes_of(n / 256);
    }
}

/// The size of a filtered chunk has a field of one byte more than the size of the whole chunk
/// needs, at most eight bytes: every size up to that of the chunk fits, and so does one that is
/// up to 256 times as large.
pub proof fn lemma_size_fits(n: nat, m: nat)
    requires
        n <= u64::MAX,
        m <= n || (m < 256 * n && size_width(n) < 8),
    ensures
        2 <= size_width(n) <= 8,
        m < pow256(size_width(n)),
        n > 0 && size_width(n) < 8 ==> pow256((size_width(n) - 2) as nat) <= n,
{
    lemma_bytes_of(n);
    lemma_pow256_values();
    reveal_with_fuel(pow256, 2);
    if bytes_of(n) >= 8 {
        assert(size_width(n) == 8);
    }
}

} // verus!
