//! Datasets that have just been added to a file.

use crate::format::global_heap::reference_size;
use crate::format::UNDEF_ADDR;
use crate::io::allocator::{align8, lemma_aligned};
use crate::io::array::volume;
use crate::io::swmr::{stream_chunk_error, tile_error};
use crate::io::writer::state::Hdf5Writer;
use crate::io::writer::storage::raw_error;
use crate::io::writer::vlen::{HeapImage, VlenPlan};
use crate::swmr::{piece_added, strings_added, whole_error};
use crate::types::H5Type;
use vstd::prelude::*;

verus! {

/// A dataset that has been added in one piece has the name and the shape that were asked for,
/// and takes exactly its data: they go behind everything that was in the file, and the file
/// ends behind them. What the file had before stays.
pub proof fn lemma_piece_ready<T: H5Type>(
    a: Hdf5Writer,
    b: Hdf5Writer,
    name: Seq<char>,
    dims: Seq<u64>,
    k: int,
)
    requires
        piece_added::<T>(a, b, name, dims),
        align8(a.allocator.spec_eof() as int) + volume(dims) * T::size() < UNDEF_ADDR,
        0 <= k < a.datasets@.len(),
    ensures
        b.datasets@.len() == a.datasets@.len() + 1,
        b.datasets@[k] == a.datasets@[k],
        ({
            let d = b.datasets@[a.datasets@.len() as int];
            let size = volume(dims) * T::size();
            &&& d.name@ == name
            &&& !d.deleted
            &&& d.dataspace.dims@ == dims
            &&& size > 0 ==> {
                &&& raw_error(d, size) is None
                &&& a.allocator.spec_eof() <= d.data_addr
                &&& d.data_addr + size == b.allocator.spec_eof()
                &&& d.data_addr % 8 == 0
            }
            &&& size == 0 ==> {
                &&& d.data_addr == UNDEF_ADDR
                &&& b.allocator.spec_eof() == a.allocator.spec_eof()
            }
        }),
{
    lemma_aligned(a.allocator.spec_eof() as int);
    assert(b.datasets@.take(a.datasets@.len() as int)[k] == b.datasets@[k]);
}

/// A dataset of strings has one element for each string. The heap with the strings and the
/// references to them go behind everything that was in the file, apart from each other.
pub proof fn lemma_strings_ready(
    a: Hdf5Writer,
    b: Hdf5Writer,
    p: VlenPlan,
    name: Seq<char>,
    strings: Seq<Seq<char>>,
    heap: HeapImage,
    k: int,
)
    requires
        strings_added(a, b, p, name, strings, heap),
        align8(align8(a.allocator.spec_eof() as int) + heap.size) + strings.len() * reference_size(
            a.ctx,
        ) < UNDEF_ADDR,
        0 <= k < a.datasets@.len(),
    ensures
        b.datasets@[k] == a.datasets@[k],
        ({
            let d = b.datasets@[a.datasets@.len() as int];
            let size = strings.len() * reference_size(a.ctx);
            &&& p.index == a.datasets@.len()
            &&& d.name@ == name
            &&& !d.deleted
            &&& d.dataspace.dims@ == seq![strings.len() as u64]
            &&& a.allocator.spec_eof() <= p.heap_addr
            &&& p.heap_addr + heap.size <= d.data_addr
            &&& d.data_addr + size == b.allocator.spec_eof()
            &&& raw_error(d, size) is None
        }),
{
    let eof = a.allocator.spec_eof() as int;
    let size = strings.len() * reference_size(a.ctx);
    lemma_aligned(eof);
    lemma_aligned(align8(eof) + heap.size);
    assert(b.datasets@.take(a.datasets@.len() as int)[k] == b.datasets@[k]);
    assert(0 <= size) by (nonlinear_arith)
        requires
            size == strings.len() * reference_size(a.ctx),
            0 <= reference_size(a.ctx),
    ;
}

/// A whole dataset is accepted if and only if there are as many values as the shape has
/// elements and the name is free.
pub proof fn lemma_whole_accepted(w: Hdf5Writer, name: Seq<char>, dims: Seq<u64>, n: nat)
    ensures
        whole_error(w, name, dims, n) is None <==> n == volume(dims) && w.name_error(name) is None,
{
}

/// Tiles fit a frame if and only if they have its rank and neither has an empty dimension;
/// chunks fit a stream of frames if and only if they have one dimension more.
pub proof fn lemma_shapes_accepted(fd: Seq<u64>, td: Seq<u64>, chunk: Seq<u64>)
    ensures
        tile_error(fd, td) is None <==> {
            &&& td.len() == fd.len()
            &&& forall|d: int| 0 <= d < td.len() ==> #[trigger] td[d] > 0
            &&& forall|d: int| 0 <= d < fd.len() ==> #[trigger] fd[d] > 0
        },
        stream_chunk_error(fd, chunk) is None <==> {
            &&& chunk.len() == fd.len() + 1
            &&& forall|d: int| 0 <= d < chunk.len() ==> #[trigger] chunk[d] > 0
            &&& forall|d: int| 0 <= d < fd.len() ==> #[trigger] fd[d] > 0
        },
{
    lemma_no_zero(fd);
    lemma_no_zero(td);
    lemma_no_zero(chunk);
}

proof fn lemma_no_zero(s: Seq<u64>)
    ensures
        s.contains(0u64) <==> !(forall|d: int| 0 <= d < s.len() ==> #[trigger] s[d] > 0),
{
    if !s.contains(0u64) {
        assert forall|d: int| 0 <= d < s.len() implies #[trigger] s[d] > 0 by {
            assert(s.contains(s[d]));
        }
    }
}

} // verus!
