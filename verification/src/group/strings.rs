//! Strings that have been added to a file.

use crate::format::messages::filter::FilterPipeline;
use crate::group::{appendable_added, strings_appended, strings_chunked};
use crate::io::allocator::{align8, lemma_aligned};
use crate::io::writer::append::AppendPlan;
use crate::io::writer::state::Hdf5Writer;
use crate::io::writer::storage::chunk_shape;
use crate::io::writer::vlen::{references, HeapImage, VlenPlan};
use crate::io::IoResult;
use vstd::prelude::*;

verus! {

/// Appending strings to a dataset in chunks puts their heap behind everything that was in the
/// file, and hands on one reference to each string, behind the references that wait; other
/// datasets stay. Without strings nothing changes.
pub proof fn lemma_strings_appended(
    a: Hdf5Writer,
    b: Hdf5Writer,
    i: int,
    strings: Seq<Seq<char>>,
    heap: HeapImage,
    r: IoResult<Option<AppendPlan>>,
    k: int,
)
    requires
        strings_appended(a, b, i, strings, heap, r),
        0 <= i < a.datasets@.len(),
        0 <= k < a.datasets@.len(),
        k != i,
        a.allocator.spec_eof() + 8 + heap.size <= u64::MAX,
    ensures
        b.datasets@[k] == a.datasets@[k],
        strings.len() == 0 ==> b == a && (r matches Ok(None)),
        strings.len() > 0 && chunk_shape(a.datasets@[i]) is None ==> r is Err && b.datasets@[i]
            == a.datasets@[i],
        strings.len() > 0 && chunk_shape(a.datasets@[i]) is Some ==> (r matches Ok(Some(p)) && {
            &&& a.allocator.spec_eof() <= p.heap_addr
            &&& p.heap_addr % 8 == 0
            &&& p.heap_addr + heap.size == b.allocator.spec_eof()
            &&& p.combined@ == a.datasets@[i].append_buffer@ + references(
                strings,
                heap.indices@,
                p.heap_addr,
                a.ctx,
            )
            &&& a.datasets@[i].dataspace.dims@.len() > 0 && a.datasets@[i].dataspace.dims@[0]
                + strings.len() <= u64::MAX ==> p.new_dims@[0] == a.datasets@[i].dataspace.dims@[0]
                + strings.len()
        }),
{
    lemma_aligned(a.allocator.spec_eof() as int);
}

/// A dataset of strings in compressed chunks has an element for each string, and chunks of the
/// size that was asked for. The heap with the strings stands behind everything that was in the
/// file and before the index of the dataset.
pub proof fn lemma_strings_chunked(
    a: Hdf5Writer,
    b: Hdf5Writer,
    p: VlenPlan,
    name: Seq<char>,
    strings: Seq<Seq<char>>,
    chunk_size: usize,
    pipeline: FilterPipeline,
    heap: HeapImage,
    k: int,
)
    requires
        strings_chunked(a, b, p, name, strings, chunk_size, pipeline, heap),
        0 <= k < a.datasets@.len(),
        a.allocator.spec_eof() + 8 + heap.size <= u64::MAX,
    ensures
        b.datasets@[k] == a.datasets@[k],
        ({
            let d = b.datasets@[a.datasets@.len() as int];
            &&& d.name@ == name
            &&& !d.deleted
            &&& d.dataspace.dims@ == seq![strings.len() as u64]
            &&& d.filter_pipeline == Some(pipeline)
            &&& d.chunked matches Some(c) && {
                &&& c.chunk_dims@ == seq![chunk_size as u64]
                &&& c.filtered
                &&& a.allocator.spec_eof() <= p.heap_addr
                &&& p.heap_addr + heap.size <= c.ea_header_addr
            }
        }),
{
    let eof = a.allocator.spec_eof() as int;
    lemma_aligned(eof);
    lemma_aligned(align8(eof) + heap.size);
    assert(b.datasets@.take(a.datasets@.len() as int)[k] == b.datasets@[k]);
}

/// A new dataset of strings that can be appended to is empty and has no largest size.
pub proof fn lemma_appendable_added(
    a: Hdf5Writer,
    b: Hdf5Writer,
    name: Seq<char>,
    chunk_size: usize,
    pipeline: Option<FilterPipeline>,
    k: int,
)
    requires
        appendable_added(a, b, name, chunk_size, pipeline),
        0 <= k < a.datasets@.len(),
    ensures
        b.datasets@[k] == a.datasets@[k],
        ({
            let d = b.datasets@[a.datasets@.len() as int];
            &&& d.name@ == name
            &&& !d.deleted
            &&& d.dataspace.dims@ == seq![0u64]
            &&& d.dataspace.max_dims matches Some(m) && m@ == seq![u64::MAX]
            &&& d.filter_pipeline == pipeline
            &&& d.append_buffered_frames == 0
            &&& d.chunked matches Some(c) && {
                &&& c.chunk_dims@ == seq![chunk_size as u64]
                &&& c.filtered == (pipeline is Some)
            }
        }),
{
    assert(b.datasets@.take(a.datasets@.len() as int)[k] == b.datasets@[k]);
}

} // verus!
