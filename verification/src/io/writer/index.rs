//! Chunks of a dataset with an extensible array: recording and looking up.

use crate::format::chunk_index::extensible_array::{
    lemma_dblk_order, lemma_number_bounds, lemma_number_injective, EaDblkLoc, EaGeometry, EaLoc,
};
use crate::format::{ErrorView, FormatContext, UNDEF_ADDR};
use crate::io::allocator::{align8, FileAllocator};
use crate::io::ea::{
    data_size, ea_wf, eof_after, eof_after_super, find_in_block, found_entry, found_in_block,
    header_room, lemma_entry, lemma_with_entry, look_at, needs_data, needs_super, new_data_addr,
    record_in_block, recorded_header, sized, sized_entry, super_size, with_entry, ChunkEntry,
    EaFound, EaRequest, EaUpdate, EaView, EaWidths, ExtensibleArrayHeader,
};
use crate::io::reader::chunked::saturating_byte_len;
use crate::io::writer::state::ChunkedDatasetInfo;
use crate::io::{invalid_state, IoError, IoErrorView, IoResult};
use crate::text::{decimal, Text};
use vstd::prelude::*;

verus! {

/// What recording a chunk came to.
#[derive(Debug)]
pub enum EaStep {
    /// A block has to be read first.
    Need(EaRequest),
    /// The chunk is recorded.
    Recorded(EaUpdate),
}

/// Whether the parts of a dataset that recording a chunk leaves alone are the
/// same.
pub open spec fn same_chunked(a: ChunkedDatasetInfo, b: ChunkedDatasetInfo) -> bool {
    &&& a.chunk_dims == b.chunk_dims
    &&& a.max_dims == b.max_dims
    &&& a.earray_params == b.earray_params
    &&& a.geo == b.geo
    &&& a.ea_header_addr == b.ea_header_addr
    &&& a.ea_iblk_addr == b.ea_iblk_addr
    &&& a.ndblk_addrs == b.ndblk_addrs
    &&& a.filtered == b.filtered
    &&& a.chunk_size_len == b.chunk_size_len
}

/// The header after a chunk of the index block is recorded.
pub open spec fn header_direct(h: ExtensibleArrayHeader, n: u64, idx: u64) -> ExtensibleArrayHeader {
    ExtensibleArrayHeader {
        max_idx_set: if idx + 1 > h.max_idx_set {
            (idx + 1) as u64
        } else {
            h.max_idx_set
        },
        num_elmts_realized: if h.num_elmts_realized < n {
            n
        } else {
            h.num_elmts_realized
        },
        ..h
    }
}

/// Whether chunk `idx` stands at (`u`, `d`, `off`).
pub open spec fn stands_at(g: EaGeometry, idx: int, u: int, d: int, off: int) -> bool {
    g.has(u, d, off) && g.number(u, d, off) == idx
}

/// Whether recording chunk `idx` in the data blocks gave this outcome.
pub open spec fn recorded_in_block(
    a: ChunkedDatasetInfo,
    b: ChunkedDatasetInfo,
    ctx: FormatContext,
    eof: int,
    eof2: int,
    idx: u64,
    e: ChunkEntry,
    r: IoResult<EaStep>,
    u: int,
    d: int,
    off: int,
) -> bool {
    let g = a.geo;
    let w = a.widths(ctx);
    let v = a.index();
    if g.paged(u) {
        &&& (r matches Err(x) && x@ == IoErrorView::InvalidState(paged_text(idx)))
        &&& b == a
        &&& eof2 == eof
    } else {
        match v.missing(g, w, u, d) {
            Some(q) => r == Ok::<EaStep, IoError>(EaStep::Need(q)) && b.index() == v
                && b.ea_header == a.ea_header && b.chunks_written == a.chunks_written && eof2
                == eof,
            None => {
                &&& r matches Ok(EaStep::Recorded(up)) && up.data_block == Some(
                    b.index().dblk_addr(g, u, d),
                ) && up.super_block == (if u >= g.iblock_nsblks && needs_data(v, g, u, d) {
                    Some(b.index().super_addr(g, u))
                } else {
                    None
                })
                &&& b.index() == with_entry(
                    v,
                    g,
                    u,
                    d,
                    off,
                    e,
                    align8(eof) as u64,
                    new_data_addr(v, g, w, u, eof) as u64,
                )
                &&& b.ea_header == recorded_header(a.ea_header, v, g, w, u, d, idx as int)
                &&& b.chunks_written == a.chunks_written + 1
                &&& eof2 == eof_after(v, g, w, u, d, eof)
            },
        }
    }
}

/// The message about a chunk in a paged block.
pub open spec fn paged_text(idx: u64) -> Seq<char> {
    "chunk index "@ + decimal(idx as nat)
        + " needs a paged extensible-array data block, which is not yet supported"@
}

/// Whether recording chunk `idx` gave this outcome.
pub open spec fn recorded(
    a: ChunkedDatasetInfo,
    b: ChunkedDatasetInfo,
    ctx: FormatContext,
    eof: int,
    eof2: int,
    idx: u64,
    e: ChunkEntry,
    r: IoResult<EaStep>,
) -> bool {
    let n = a.geo.idx_blk_elmts;
    &&& same_chunked(a, b)
    &&& if idx < n {
        &&& r == Ok::<EaStep, IoError>(
            EaStep::Recorded(EaUpdate { super_block: None, data_block: None }),
        )
        &&& b.index() == (EaView {
            elements: a.index().elements.update(idx as int, e),
            ..a.index()
        })
        &&& b.ea_header == header_direct(a.ea_header, n, idx)
        &&& b.chunks_written == a.chunks_written + 1
        &&& eof2 == eof
    } else if idx >= a.geo.capacity() {
        &&& (r matches Err(x) && x@ == IoErrorView::Format(
            ErrorView::InvalidData("extensible array index out of range"@),
        ))
        &&& b == a
        &&& eof2 == eof
    } else {
        exists|u: int, d: int, off: int| #[trigger]
            stands_at(a.geo, idx as int, u, d, off) && recorded_in_block(
                a,
                b,
                ctx,
                eof,
                eof2,
                idx,
                e,
                r,
                u,
                d,
                off,
            )
    }
}

/// Whether the file and the counters have room for the blocks of chunk `idx`.
pub open spec fn record_room(c: ChunkedDatasetInfo, ctx: FormatContext, eof: int, idx: u64) -> bool {
    &&& c.chunks_written < u64::MAX
    &&& forall|u: int, d: int, off: int| #[trigger]
        stands_at(c.geo, idx as int, u, d, off) && !c.geo.paged(u) ==> {
            &&& eof + 16 + super_size(c.geo, c.widths(ctx), u) + data_size(
                c.geo,
                c.widths(ctx),
                u,
            ) <= u64::MAX
            &&& header_room(c.ea_header, c.geo, c.widths(ctx), u)
        }
}

impl ChunkedDatasetInfo {
    /// Record a written chunk in the extensible-array index, in the index block
    /// or in a data block as the geometry has it.
    pub fn record_ea_chunk(
        &mut self,
        ctx: &FormatContext,
        alloc: &mut FileAllocator,
        chunk_idx: u64,
        e: ChunkEntry,
    ) -> (r: IoResult<EaStep>)
        requires
            old(self).wf(),
            old(alloc).wf(),
            record_room(*old(self), *ctx, old(alloc).spec_eof() as int, chunk_idx),
        ensures
            final(self).wf(),
            final(alloc).wf(),
            recorded(
                *old(self),
                *final(self),
                *ctx,
                old(alloc).spec_eof() as int,
                final(alloc).spec_eof() as int,
                chunk_idx,
                e,
                r,
            ),
    {
        let n: u64 = self.geo.idx_blk_elmts;
        let ghost before = *self;
        let ghost eof = alloc.spec_eof() as int;
        if chunk_idx < n {
            self.ea_iblk.elements.set(chunk_idx as usize, e);
            self.chunks_written = self.chunks_written + 1;
            if chunk_idx + 1 > self.ea_header.max_idx_set {
                self.ea_header.max_idx_set = chunk_idx + 1;
            }
            if self.ea_header.num_elmts_realized < n {
                self.ea_header.num_elmts_realized = n;
            }
            return Ok(EaStep::Recorded(EaUpdate { super_block: None, data_block: None }));
        }
        let l: EaDblkLoc = match self.geo.locate(chunk_idx) {
            Ok(EaLoc::Dblk(l)) => l,
            Ok(EaLoc::Index { elem: _ }) => {
                assert(false);
                return Ok(EaStep::Recorded(EaUpdate { super_block: None, data_block: None }));
            },
            Err(x) => {
                return Err(IoError::Format(x));
            },
        };
        let ghost u = l.sblk as int;
        let ghost d = l.local_dblk as int;
        let ghost off = l.offset_in_dblk as int;
        proof {
            assert(stands_at(self.geo, chunk_idx as int, u, d, off));
            lemma_number_bounds(self.geo, u, d, off);
        }
        if l.paged {
            let m = invalid_state(
                Text::new("chunk index ").number(chunk_idx).text(
                    " needs a paged extensible-array data block, which is not yet supported",
                ),
            );
            return Err(m);
        }
        let w = EaWidths {
            sizeof_addr: ctx.sizeof_addr,
            raw_elmt_size: self.ea_header.raw_elmt_size,
        };
        match record_in_block(
            &self.geo,
            &w,
            &mut self.ea_header,
            &mut self.ea_iblk,
            &mut self.blocks,
            alloc,
            &l,
            chunk_idx,
            e,
        ) {
            Err(q) => Ok(EaStep::Need(q)),
            Ok(up) => {
                self.chunks_written = self.chunks_written + 1;
                proof {
                    lemma_with_entry_shape(
                        before.index(),
                        before.geo,
                        w,
                        u,
                        d,
                        off,
                        e,
                        align8(eof) as u64,
                        new_data_addr(before.index(), before.geo, w, u, eof) as u64,
                    );
                }
                Ok(EaStep::Recorded(up))
            },
        }
    }

    /// Look up the address and the size of a chunk, whose elements take `element_size`
    /// bytes. Without filters, a chunk has the bytes of its shape.
    pub fn find_chunk(&self, ctx: &FormatContext, element_size: u64, chunk_idx: u64) -> (r: IoResult<
        EaFound,
    >)
        requires
            self.wf(),
        ensures
            found(*self, *ctx, element_size as nat, chunk_idx, r),
            (r matches Ok(EaFound::At { nbytes, .. }) && !self.filtered) ==> r->Ok_0->At_nbytes
                == self.chunk_bytes(element_size as nat),
    {
        let chunk_bytes: u64 = saturating_byte_len(self.chunk_dims.as_slice(), element_size);
        match self.geo.locate(chunk_idx) {
            Err(x) => Err(IoError::Format(x)),
            Ok(EaLoc::Index { elem }) => {
                Ok(look_at(sized_entry(self.ea_iblk.elements[elem], self.filtered, chunk_bytes)))
            },
            Ok(EaLoc::Dblk(l)) => {
                let w = EaWidths {
                    sizeof_addr: ctx.sizeof_addr,
                    raw_elmt_size: self.ea_header.raw_elmt_size,
                };
                proof {
                    let u = l.sblk as int;
                    let d = l.local_dblk as int;
                    let off = l.offset_in_dblk as int;
                    assert(stands_at(self.geo, chunk_idx as int, u, d, off));
                    lemma_number_bounds(self.geo, u, d, off);
                }
                let f = find_in_block(
                    &self.geo,
                    &w,
                    &self.ea_iblk,
                    &self.blocks,
                    &l,
                    self.filtered,
                    chunk_bytes,
                );
                match f {
                    EaFound::Paged => {
                        let x = invalid_state(
                            Text::new("chunk index ").number(chunk_idx).text(
                                " lives in a paged extensible-array data block, which is not yet supported for read-modify-write",
                            ),
                        );
                        assert(found(*self, *ctx, element_size as nat, chunk_idx, Err(x)));
                        Err(x)
                    },
                    _ => {
                        assert(found(*self, *ctx, element_size as nat, chunk_idx, Ok(f)));
                        Ok(f)
                    },
                }
            },
        }
    }
}

/// Whether looking up a chunk gave this outcome.
pub open spec fn found(
    c: ChunkedDatasetInfo,
    ctx: FormatContext,
    es: nat,
    idx: u64,
    r: IoResult<EaFound>,
) -> bool {
    let g = c.geo;
    if idx < g.idx_blk_elmts {
        r == Ok::<EaFound, IoError>(
            found_entry(sized(c.index().elements[idx as int], c.filtered, c.chunk_bytes(es))),
        )
    } else if idx >= g.capacity() {
        r matches Err(x) && x@ == IoErrorView::Format(
            ErrorView::InvalidData("extensible array index out of range"@),
        )
    } else {
        exists|u: int, d: int, off: int| #[trigger]
            stands_at(g, idx as int, u, d, off) && match found_in_block(
                c.index(),
                g,
                c.widths(ctx),
                u,
                d,
                off,
                c.filtered,
                c.chunk_bytes(es),
            ) {
                EaFound::Paged => r matches Err(x) && x@ == IoErrorView::InvalidState(
                    "chunk index "@ + decimal(idx as nat)
                        + " lives in a paged extensible-array data block, which is not yet supported for read-modify-write"@,
                ),
                f => r == Ok::<EaFound, IoError>(f),
            }
    }
}

/// A chunk without filters that stands in the file is found with the bytes of its shape,
/// whatever size its entry holds: a file that was opened again has no sizes in its index.
/// So frames and strings that are in a partly filled chunk are there to be kept.
pub proof fn lemma_unfiltered_found(
    c: ChunkedDatasetInfo,
    ctx: FormatContext,
    es: nat,
    idx: u64,
    u: int,
    d: int,
    off: int,
    r: IoResult<EaFound>,
)
    requires
        c.wf(),
        !c.filtered,
        c.chunk_bytes(es) > 0,
        found(c, ctx, es, idx, r),
        if idx < c.geo.idx_blk_elmts {
            c.index().elements[idx as int].addr != UNDEF_ADDR
        } else {
            &&& stands_at(c.geo, idx as int, u, d, off)
            &&& !c.geo.paged(u)
            &&& c.index().missing(c.geo, c.widths(ctx), u, d) is None
            &&& c.index().block_entry(c.geo, c.widths(ctx), u, d, off).addr != UNDEF_ADDR
        },
    ensures
        r == Ok::<EaFound, IoError>(
            EaFound::At {
                addr: if idx < c.geo.idx_blk_elmts {
                    c.index().elements[idx as int].addr
                } else {
                    c.index().block_entry(c.geo, c.widths(ctx), u, d, off).addr
                },
                nbytes: c.chunk_bytes(es),
            },
        ),
{
    let g = c.geo;
    if idx >= g.idx_blk_elmts {
        lemma_number_bounds(g, u, d, off);
        let (x, y, z) = choose|x: int, y: int, z: int| #[trigger]
            stands_at(g, idx as int, x, y, z) && match found_in_block(
                c.index(),
                g,
                c.widths(ctx),
                x,
                y,
                z,
                c.filtered,
                c.chunk_bytes(es),
            ) {
                EaFound::Paged => r matches Err(e) && e@ == IoErrorView::InvalidState(
                    "chunk index "@ + decimal(idx as nat)
                        + " lives in a paged extensible-array data block, which is not yet supported for read-modify-write"@,
                ),
                f => r == Ok::<EaFound, IoError>(f),
            };
        lemma_number_injective(g, u, d, off, x, y, z);
    }
}

/// Recording a chunk keeps the shape of the index block.
proof fn lemma_with_entry_shape(
    v: EaView,
    g: EaGeometry,
    w: EaWidths,
    u: int,
    d: int,
    off: int,
    e: ChunkEntry,
    super_at: u64,
    data_at: u64,
)
    requires
        g.wf(),
        g.has(u, d, off),
        v.shaped(g),
    ensures
        with_entry(v, g, u, d, off, e, super_at, data_at).shaped(g),
{
    if u < g.iblock_nsblks {
        lemma_dblk_order(u as nat, g.iblock_nsblks as nat);
    }
}

/// A chunk that has been recorded is found again, with the address and the size
/// that were recorded (without filters, the size of its shape); every other chunk keeps its entry. Blocks of the index
/// stay within the file and apart from each other.
pub proof fn lemma_recorded(
    a: ChunkedDatasetInfo,
    b: ChunkedDatasetInfo,
    ctx: FormatContext,
    es: nat,
    eof: int,
    eof2: int,
    idx: u64,
    e: ChunkEntry,
    r: IoResult<EaStep>,
)
    requires
        a.wf(),
        0 <= eof,
        ea_wf(a.index(), a.geo, eof),
        recorded(a, b, ctx, eof, eof2, idx, e, r),
        r matches Ok(EaStep::Recorded(_)),
        eof2 < UNDEF_ADDR,
    ensures
        b.index().entry(b.geo, b.widths(ctx), idx as int) == e,
        forall|i: int|
            0 <= i < b.geo.capacity() && i != idx ==> #[trigger] b.index().entry(
                b.geo,
                b.widths(ctx),
                i,
            ) == a.index().entry(a.geo, a.widths(ctx), i),
        forall|x: IoResult<EaFound>| #[trigger]
            found(b, ctx, es, idx, x) ==> x == Ok::<EaFound, IoError>(
                found_entry(sized(e, b.filtered, b.chunk_bytes(es))),
            ),
        ea_wf(b.index(), b.geo, eof2),
        eof <= eof2,
{
    let g = a.geo;
    let w = a.widths(ctx);
    assert(b.widths(ctx) == w);
    if idx < g.idx_blk_elmts {
        let v = a.index();
        let v2 = b.index();
        assert forall|u: int| g.iblock_nsblks <= u < g.nsblks() implies #[trigger] v2.super_addr(
            g,
            u,
        ) == v.super_addr(g, u) by {}
        assert forall|u: int, d: int| g.has(u, d, 0) implies #[trigger] v2.dblk_addr(g, u, d)
            == v.dblk_addr(g, u, d) by {
            assert(v2.super_block(g, u) == v.super_block(g, u));
        }
        assert forall|i: int| 0 <= i < g.capacity() && i != idx implies #[trigger] v2.entry(
            g,
            w,
            i,
        ) == v.entry(g, w, i) by {
            if i >= g.idx_blk_elmts {
                let (u, d, off) = choose|u: int, d: int, off: int| #[trigger]
                    g.has(u, d, off) && g.number(u, d, off) == i;
                assert(v2.super_block(g, u) == v.super_block(g, u));
                assert(v2.block_entry(g, w, u, d, off) == v.block_entry(g, w, u, d, off));
            }
        }
    } else {
        let (u, d, off) = choose|u: int, d: int, off: int| #[trigger]
            stands_at(g, idx as int, u, d, off) && recorded_in_block(
                a,
                b,
                ctx,
                eof,
                eof2,
                idx,
                e,
                r,
                u,
                d,
                off,
            );
        let v = a.index();
        let v2 = b.index();
        let s = align8(eof);
        let t = new_data_addr(v, g, w, u, eof);
        lemma_sizes(g, w, u);
        assert(eof <= s <= eof + 7);
        assert(eof_after_super(v, g, w, u, eof) >= eof);
        assert(t >= eof_after_super(v, g, w, u, eof));
        let s2 = s as u64;
        if !g.paged(u) && v.missing(g, w, u, d) is None {
            if needs_super(v, g, u) {
                lemma_needs(v, g, w, u, d);
                assert(needs_data(v, g, u, d));
            }
            if needs_data(v, g, u, d) {
                assert(t < eof2);
                assert(s <= t);
                lemma_with_entry(v, g, w, u, d, off, e, s2, t as u64, eof);
                lemma_wf_grows(v2, g, t + 1, eof2);
            } else {
                // Neither block is new, so that the addresses of new blocks
                // play no part.
                let big = (UNDEF_ADDR - 1) as u64;
                assert(with_entry(v, g, u, d, off, e, s2, t as u64) == with_entry(
                    v,
                    g,
                    u,
                    d,
                    off,
                    e,
                    big,
                    big,
                ));
                lemma_with_entry(v, g, w, u, d, off, e, big, big, eof);
                lemma_wf_same_addresses(v, v2, g, eof);
            }
            lemma_entry(v2, g, w, u, d, off);
            assert forall|x: IoResult<EaFound>| #[trigger] found(b, ctx, es, idx, x) implies x
                == Ok::<EaFound, IoError>(
                found_entry(sized(e, b.filtered, b.chunk_bytes(es))),
            ) by {
                lemma_number_bounds(g, u, d, off);
                let (u1, d1, o1) = choose|u1: int, d1: int, o1: int| #[trigger]
                    stands_at(g, idx as int, u1, d1, o1) && match found_in_block(
                        b.index(),
                        g,
                        b.widths(ctx),
                        u1,
                        d1,
                        o1,
                        b.filtered,
                        b.chunk_bytes(es),
                    ) {
                        EaFound::Paged => x matches Err(y) && y@ == IoErrorView::InvalidState(
                            "chunk index "@ + decimal(idx as nat)
                                + " lives in a paged extensible-array data block, which is not yet supported for read-modify-write"@,
                        ),
                        f => x == Ok::<EaFound, IoError>(f),
                    };
                lemma_number_injective(g, u, d, off, u1, d1, o1);
            }
        }
    }
}

/// Blocks have a size.
proof fn lemma_sizes(g: EaGeometry, w: EaWidths, u: int)
    requires
        g.wf(),
        0 <= u < g.nsblks(),
    ensures
        super_size(g, w, u) > 0,
        data_size(g, w, u) > 0,
{
    g.lemma_info(u);
    let k = crate::format::chunk_index::extensible_array::sblk_ndblks(u as nat) as int;
    assert(k * w.sizeof_addr >= 0) by (nonlinear_arith)
        requires
            k >= 0,
    ;
    assert(g.nelmts(u) * w.raw_elmt_size >= 0) by (nonlinear_arith)
        requires
            g.nelmts(u) >= 0,
    ;
}

/// Without a super block there is no data block.
proof fn lemma_needs(v: EaView, g: EaGeometry, w: EaWidths, u: int, d: int)
    requires
        needs_super(v, g, u),
    ensures
        needs_data(v, g, u, d),
{
}

/// Blocks within a file are within a longer one.
proof fn lemma_wf_grows(v: EaView, g: EaGeometry, a: int, b: int)
    requires
        ea_wf(v, g, a),
        a <= b,
    ensures
        ea_wf(v, g, b),
{
}

/// Blocks stay where they are when no address changes.
proof fn lemma_wf_same_addresses(v: EaView, v2: EaView, g: EaGeometry, eof: int)
    requires
        ea_wf(v, g, eof),
        v2.shaped(g),
        v2.dblk_addrs == v.dblk_addrs,
        v2.sblk_addrs == v.sblk_addrs,
        v2.supers == v.supers,
    ensures
        ea_wf(v2, g, eof),
{
    assert forall|u: int| g.iblock_nsblks <= u < g.nsblks() implies #[trigger] v2.super_addr(g, u)
        == v.super_addr(g, u) by {}
    assert forall|u: int, d: int| g.has(u, d, 0) implies #[trigger] v2.dblk_addr(g, u, d)
        == v.dblk_addr(g, u, d) by {
        assert(v2.super_block(g, u) == v.super_block(g, u));
    }
}

} // verus!
