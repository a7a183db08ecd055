//! What a file being written accepts.

use crate::format::chunk_index::fixed_array::FA_CLIENT_FILT_CHUNK;
use crate::format::{FormatContext, UNDEF_ADDR};
use crate::io::allocator::{align8, lemma_aligned};
use crate::io::array::{lemma_prefix_volume, volume};
use crate::io::chunks::{grid, lemma_parts};
use crate::io::ea::{ea_wf, ChunkEntry};
use crate::io::slices::in_bounds;
use crate::io::writer::blocks::{dblk_bytes, dblk_items, lemma_dblk_size};
use crate::io::writer::content::{bounds_error, is_chunked, slice_error};
use crate::io::writer::fixed::{chunk_total, fa_eof, fixed_chunks, new_fixed, parts};
use crate::io::writer::fixed_chunks::{bt2_error, record_error};
use crate::io::writer::index::{lemma_recorded, EaStep};
use crate::io::writer::state::{DatasetInfo, FixedArrayDatasetInfo, Hdf5Writer};
use crate::io::writer::storage::{chunk_error, chunk_written, entry_of, raw_error, ChunkStep};
use crate::io::{IoErrorView, IoResult};
use crate::text::decimal;
use vstd::arithmetic::power2::pow2;
use vstd::prelude::*;

verus! {

/// Data are accepted in one piece if and only if they are all that the dataset has room for;
/// chunks, if and only if they are whole.
pub proof fn lemma_pieces_accepted(d: DatasetInfo, len: nat)
    ensures
        raw_error(d, len) is None <==> {
            &&& d.chunked is None
            &&& d.data_addr != UNDEF_ADDR
            &&& len == d.data_size
        },
        chunk_error(d, len) is None <==> {
            &&& d.chunked is Some
            &&& len == volume(d.chunked->0.chunk_dims@) * d.datatype.spec_element_size()
        },
        bt2_error(d, len) is None <==> {
            &&& d.btree_v2 is Some
            &&& len == volume(d.btree_v2->0.chunk_dims@) * d.datatype.spec_element_size()
        },
{
}

/// A placed chunk can be recorded as number `i` if and only if the array has that number and
/// the size of a filtered chunk fits its field.
pub proof fn lemma_record_accepted(
    f: FixedArrayDatasetInfo,
    ctx: FormatContext,
    filtered: bool,
    len: nat,
    i: nat,
)
    ensures
        record_error(f, ctx, filtered, len, i) is None <==> if filtered {
            let width = f.fa_header.element_size - ctx.sizeof_addr - 4;
            &&& i < f.fa_dblk.filtered_elements@.len()
            &&& 0 <= width
            &&& len <= u32::MAX
            &&& width >= 8 || len < pow2((8 * width) as nat)
        } else {
            i < f.fa_dblk.elements@.len()
        },
{
}

proof fn lemma_bounds(dims: Seq<u64>, starts: Seq<u64>, counts: Seq<u64>, n: nat)
    ensures
        bounds_error(dims, starts, counts, n) is None <==> forall|d: int|
            0 <= d < n ==> #[trigger] starts[d] + counts[d] <= dims[d],
    decreases n,
{
    if n > 0 {
        lemma_bounds(dims, starts, counts, (n - 1) as nat);
        let d = n - 1;
        assert(bounds_error(dims, starts, counts, n) is None ==> starts[d] + counts[d] <= dims[d]);
        if forall|d: int| 0 <= d < n ==> #[trigger] starts[d] + counts[d] <= dims[d] {
            assert(starts[d] + counts[d] <= dims[d]);
        }
    }
}

proof fn lemma_first_bound(dims: Seq<u64>, starts: Seq<u64>, counts: Seq<u64>, d: int, n: nat)
    requires
        0 <= d < n,
        starts[d] + counts[d] > dims[d],
        forall|k: int| 0 <= k < d ==> #[trigger] starts[k] + counts[k] <= dims[k],
    ensures
        bounds_error(dims, starts, counts, n) == Some(
            IoErrorView::InvalidState(
                if starts[d] + counts[d] > u64::MAX {
                    "slice extent overflow"@
                } else {
                    "slice out of bounds in dimension "@ + decimal(d as nat) + ": start "@
                        + decimal(starts[d] as nat) + " + count "@ + decimal(counts[d] as nat)
                        + " exceeds extent "@ + decimal(dims[d] as nat)
                },
            ),
        ),
    decreases n,
{
    if n == d + 1 {
        lemma_bounds(dims, starts, counts, d as nat);
    } else {
        lemma_first_bound(dims, starts, counts, d, (n - 1) as nat);
    }
}

/// A slice is accepted if and only if it lies within a dataset that stands in one piece, and
/// the data are as many as it has elements. The first dimension in which it does not is the
/// one that is named.
pub proof fn lemma_slice_accepted(
    d: DatasetInfo,
    starts: Seq<u64>,
    counts: Seq<u64>,
    len: nat,
    k: int,
)
    ensures
        slice_error(d, starts, counts, len) is None <==> {
            &&& d.chunked is None && d.fixed_array is None && d.btree_v2 is None
            &&& d.data_addr != UNDEF_ADDR
            &&& d.dataspace.dims@.len() > 0
            &&& in_bounds(d.dataspace.dims@, starts, counts)
            &&& len == volume(counts) * d.datatype.spec_element_size()
        },
        ({
            let dims = d.dataspace.dims@;
            &&& !is_chunked(d)
            &&& d.data_addr != UNDEF_ADDR
            &&& starts.len() == dims.len()
            &&& counts.len() == dims.len()
            &&& 0 <= k < dims.len()
            &&& dims[k] < starts[k] + counts[k] <= u64::MAX
            &&& forall|j: int| 0 <= j < k ==> #[trigger] starts[j] + counts[j] <= dims[j]
        }) ==> slice_error(d, starts, counts, len) == Some(
            IoErrorView::InvalidState(
                "slice out of bounds in dimension "@ + decimal(k as nat) + ": start "@ + decimal(
                    starts[k] as nat,
                ) + " + count "@ + decimal(counts[k] as nat) + " exceeds extent "@ + decimal(
                    d.dataspace.dims@[k] as nat,
                ),
            ),
        ),
{
    let dims = d.dataspace.dims@;
    lemma_bounds(dims, starts, counts, dims.len());
    if 0 <= k < dims.len() && dims[k] < starts[k] + counts[k] && forall|j: int|
        0 <= j < k ==> #[trigger] starts[j] + counts[j] <= dims[j] {
        lemma_first_bound(dims, starts, counts, k, dims.len());
    }
}

proof fn lemma_max(max: Seq<u64>, new: Seq<u64>, n: nat)
    ensures
        Hdf5Writer::max_error(max, new, n) is None <==> forall|d: int|
            0 <= d < n ==> #[trigger] new[d] <= max[d],
    decreases n,
{
    if n > 0 {
        lemma_max(max, new, (n - 1) as nat);
        assert(Hdf5Writer::max_error(max, new, n) is None ==> new[n - 1] <= max[n - 1]);
        if forall|d: int| 0 <= d < n ==> #[trigger] new[d] <= max[d] {
            assert(new[n - 1] <= max[n - 1]);
        }
    }
}

/// Whether an extent is within the maximum of a dataset, where it has one.
pub open spec fn within_max(d: DatasetInfo, new: Seq<u64>) -> bool {
    d.dataspace.max_dims matches Some(m) ==> forall|k: int|
        0 <= k < new.len() ==> #[trigger] new[k] <= m@[k]
}

proof fn lemma_extend(d: DatasetInfo, new: Seq<u64>, n: nat)
    requires
        n <= new.len(),
        new.len() == d.dataspace.dims@.len(),
    ensures
        Hdf5Writer::extend_dims_error(d, new, n) is None <==> forall|k: int|
            0 <= k < n ==> d.dataspace.dims@[k] <= #[trigger] new[k] && (d.dataspace.max_dims
                matches Some(m) ==> new[k] <= m@[k]),
    decreases n,
{
    if n > 0 {
        let k = n - 1;
        lemma_extend(d, new, k as nat);
        assert(Hdf5Writer::extend_dims_error(d, new, n) is None ==> d.dataspace.dims@[k] <= new[k]
            && (d.dataspace.max_dims matches Some(m) ==> new[k] <= m@[k]));
        if forall|k: int|
            0 <= k < n ==> d.dataspace.dims@[k] <= #[trigger] new[k] && (d.dataspace.max_dims
                matches Some(m) ==> new[k] <= m@[k]) {
            assert(d.dataspace.dims@[k] <= new[k]);
        }
    }
}

/// A dataset can be given an extent if and only if it stands in chunks, has no frames that
/// wait, and the extent has its rank and is within its maximum; it can be extended if and
/// only if besides no dimension shrinks, whatever waits.
pub proof fn lemma_extent_accepted(d: DatasetInfo, new: Seq<u64>)
    ensures
        Hdf5Writer::extent_error(d, new) is None <==> {
            &&& d.chunked is Some || d.fixed_array is Some || d.btree_v2 is Some
            &&& new.len() == d.dataspace.dims@.len()
            &&& d.append_buffered_frames == 0
            &&& within_max(d, new)
        },
        Hdf5Writer::extend_error(d, new) is None <==> {
            &&& d.chunked is Some || d.fixed_array is Some || d.btree_v2 is Some
            &&& new.len() == d.dataspace.dims@.len()
            &&& forall|k: int| 0 <= k < new.len() ==> d.dataspace.dims@[k] <= #[trigger] new[k]
            &&& within_max(d, new)
        },
{
    match d.dataspace.max_dims {
        Some(m) => {
            lemma_max(m@, new, new.len());
        },
        None => {},
    }
    if new.len() == d.dataspace.dims@.len() {
        lemma_extend(d, new, new.len());
    }
}

proof fn lemma_total(dims: Seq<u64>, cd: Seq<u64>, n: nat)
    requires
        cd.len() == dims.len(),
        n <= dims.len(),
    ensures
        match chunk_total(dims, cd, n) {
            Ok(v) => {
                &&& v == volume(grid(dims, cd).take(n as int))
                &&& v <= u64::MAX
                &&& forall|d: int| 0 <= d < n ==> #[trigger] cd[d] > 0
            },
            Err(_) => {
                ||| exists|d: int| 0 <= d < n && #[trigger] cd[d] == 0
                ||| exists|k: int|
                    0 <= k <= n && #[trigger] volume(grid(dims, cd).take(k)) > u64::MAX
            },
        },
    decreases n,
{
    let g = grid(dims, cd);
    if n > 0 {
        lemma_total(dims, cd, (n - 1) as nat);
        if cd[n - 1] > 0 {
            lemma_parts(dims[n - 1] as int, cd[n - 1] as int);
            assert(g[n - 1] == parts(dims[n - 1], cd[n - 1]));
            let t = g.take(n as int);
            assert(t.drop_last() =~= g.take(n - 1));
            assert(t.last() == g[n - 1]);
            assert(volume(t) == volume(g.take(n - 1)) * g[n - 1] as nat);
            assert(volume(g.take(n as int)) > u64::MAX || volume(g.take(n as int)) <= u64::MAX);
        }
    } else {
        assert(g.take(0).len() == 0);
    }
}

/// A dataset with a fixed array has as many chunks as the grid has places. It can be created
/// for every shape whose chunks have an extent in every dimension and can be counted.
pub proof fn lemma_chunks_counted(dims: Seq<u64>, cd: Seq<u64>)
    ensures
        fixed_chunks(dims, cd) matches Ok(n) ==> {
            &&& cd.len() == dims.len()
            &&& forall|d: int| 0 <= d < cd.len() ==> #[trigger] cd[d] > 0
            &&& n == volume(grid(dims, cd))
            &&& n <= u64::MAX
        },
        ({
            &&& cd.len() == dims.len()
            &&& forall|d: int| 0 <= d < cd.len() ==> #[trigger] cd[d] > 0
            &&& forall|d: int| 0 <= d < dims.len() ==> #[trigger] dims[d] > 0
            &&& volume(grid(dims, cd)) <= u64::MAX
        }) ==> fixed_chunks(dims, cd) is Ok,
{
    if cd.len() == dims.len() {
        let g = grid(dims, cd);
        lemma_total(dims, cd, dims.len());
        assert(g.take(dims.len() as int) =~= g);
        if (forall|d: int| 0 <= d < cd.len() ==> #[trigger] cd[d] > 0) && (forall|d: int|
            0 <= d < dims.len() ==> #[trigger] dims[d] > 0) {
            assert forall|d: int| 0 <= d < g.len() implies #[trigger] g[d] > 0 by {
                assert(cd[d] > 0 && dims[d] > 0);
                lemma_parts(dims[d] as int, cd[d] as int);
                assert(g[d] != 0) by {
                    let q = (dims[d] + cd[d] - 1) / cd[d] as int;
                    assert(g[d] == q);
                    if q == 0 {
                        assert(cd[d] as int * 0 == 0);
                    }
                }
            }
            assert forall|k: int| 0 <= k <= dims.len() implies #[trigger] volume(g.take(k))
                <= volume(g) by {
                lemma_prefix_volume(g, k);
            }
        }
    }
}

/// A new dataset with a fixed array has an entry for every chunk, and none of them has been
/// written. Header and block stand behind the end of the file, apart from each other, and the
/// new end of the file is behind both.
pub proof fn lemma_new_array(
    d: DatasetInfo,
    ctx: FormatContext,
    n: u64,
    csl: Option<u8>,
    eof: int,
    cd: Seq<u64>,
    i: int,
)
    requires
        new_fixed(d, ctx, n, csl, eof, cd),
        0 <= eof,
        fa_eof(ctx, n, csl, eof) <= u64::MAX,
        csl matches Some(w) ==> ctx.sizeof_addr + w + 4 <= 255,
        0 <= i < n,
    ensures
        ({
            let f = d.fixed_array->0;
            let b = dblk_bytes(ctx, f.fa_header, f.fa_dblk);
            &&& f.chunk_dims@ == cd
            &&& f.fa_header.num_elmts == n
            &&& f.fa_header.data_blk_addr == f.fa_dblk_addr
            &&& f.fa_dblk.header_addr == f.fa_header_addr
            &&& dblk_items(ctx, f.fa_header, f.fa_dblk).len() == n
            &&& if csl is Some {
                &&& f.fa_header.client_id == FA_CLIENT_FILT_CHUNK
                &&& f.fa_dblk.filtered_elements@[i].address == UNDEF_ADDR
            } else {
                &&& f.fa_header.client_id != FA_CLIENT_FILT_CHUNK
                &&& f.fa_dblk.elements@[i] == UNDEF_ADDR
            }
            &&& eof <= f.fa_header_addr
            &&& f.fa_header_addr + 8 + ctx.sizeof_size + ctx.sizeof_addr + 4 <= f.fa_dblk_addr
            &&& f.fa_dblk_addr + b.len() == fa_eof(ctx, n, csl, eof)
            &&& f.fa_header_addr % 8 == 0
            &&& f.fa_dblk_addr % 8 == 0
        }),
{
    let f = d.fixed_array->0;
    lemma_aligned(eof);
    lemma_aligned(align8(eof) + 8 + ctx.sizeof_size + ctx.sizeof_addr + 4);
    lemma_dblk_size(ctx, f.fa_header, f.fa_dblk);
}

/// A chunk that has been written stands behind everything that was in the file, and the index
/// of its dataset says so; what the index says of other chunks stays, and so do all other
/// datasets.
pub proof fn lemma_chunk_indexed(
    a: Hdf5Writer,
    b: Hdf5Writer,
    index: int,
    chunk_idx: u64,
    len: nat,
    r: IoResult<ChunkStep>,
    es: nat,
    i: int,
    k: int,
)
    requires
        0 <= index < a.datasets@.len(),
        a.datasets@[index].chunked is Some,
        a.datasets@[index].chunked->0.wf(),
        ea_wf(
            a.datasets@[index].chunked->0.index(),
            a.datasets@[index].chunked->0.geo,
            a.allocator.spec_eof() as int,
        ),
        chunk_written(a, b, index, chunk_idx, len, r),
        r matches Ok(ChunkStep::Written { .. }),
        b.allocator.spec_eof() < UNDEF_ADDR,
        len <= u64::MAX,
        0 <= i < a.datasets@[index].chunked->0.geo.capacity(),
        i != chunk_idx,
        0 <= k < a.datasets@.len(),
        k != index,
    ensures
        r matches Ok(ChunkStep::Written { addr, .. }) && {
            let c = a.datasets@[index].chunked->0;
            let c2 = b.datasets@[index].chunked->0;
            &&& a.allocator.spec_eof() <= addr
            &&& addr % 8 == 0
            &&& addr + len <= b.allocator.spec_eof()
            &&& c2.geo == c.geo
            &&& c2.index().entry(c2.geo, c2.widths(a.ctx), chunk_idx as int) == (ChunkEntry {
                addr,
                nbytes: len as u64,
                filter_mask: 0,
            })
            &&& c2.index().entry(c2.geo, c2.widths(a.ctx), i) == c.index().entry(
                c.geo,
                c.widths(a.ctx),
                i,
            )
            &&& ea_wf(c2.index(), c2.geo, b.allocator.spec_eof() as int)
            &&& b.datasets@[k] == a.datasets@[k]
            &&& b.datasets@[index].dataspace == a.datasets@[index].dataspace
            &&& b.datasets@[index].datatype == a.datasets@[index].datatype
            &&& b.datasets@[index].name == a.datasets@[index].name
        },
{
    let c = a.datasets@[index].chunked->0;
    let c2 = b.datasets@[index].chunked->0;
    let eof = a.allocator.spec_eof() as int;
    let eof2 = b.allocator.spec_eof() as int;
    lemma_aligned(eof);
    match r {
        Ok(ChunkStep::Written { addr, update }) => {
            let at = align8(eof);
            let e = entry_of(at, len);
            let x = Ok(EaStep::Recorded(update));
            lemma_recorded(c, c2, a.ctx, es, at + len, eof2, chunk_idx, e, x);
        },
        _ => {},
    }
}

} // verus!
