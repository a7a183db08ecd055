//! Datasets whose chunks a B-tree finds read back.

use crate::format::UNDEF_ADDR;
use crate::io::array::{ints, place};
use crate::io::chunks::{chunk_cut, chunked, owner, shaped};
use crate::io::reader::chunked::{
    has_chunk, lemma_located_roundtrip, located, located_chunks_of, LocatedChunk,
};
use crate::io::reader::trees::{
    lemma_scaled, records_to_read, to_read, ChunkReadView, TreeChunkView,
};
use vstd::prelude::*;

verus! {

/// Whether a chunk of a version-1 B-tree can be in a file of this size.
pub open spec fn lies_in(c: TreeChunkView, file_size: u64) -> bool {
    &&& c.addr != UNDEF_ADDR
    &&& c.addr < file_size
    &&& 0 < c.size <= file_size
}

/// Whether a read is that of chunk `c`, which stands at `at` in the grid of chunks.
pub open spec fn reads_chunk(r: ChunkReadView, c: TreeChunkView, at: Seq<u64>) -> bool {
    &&& r.range.addr == c.addr
    &&& r.range.len == c.size
    &&& r.range.exact
    &&& r.coords == at
}

/// Whether the chunks begin at the elements that their places in the grid stand for.
pub open spec fn begin_at(entries: Seq<TreeChunkView>, ats: Seq<Seq<u64>>, cd: Seq<u64>) -> bool {
    &&& ats.len() == entries.len()
    &&& forall|i: int|
        0 <= i < entries.len() ==> {
            &&& (#[trigger] ats[i]).len() == cd.len()
            &&& entries[i].offsets.len() >= cd.len()
            &&& forall|d: int|
                0 <= d < cd.len() ==> entries[i].offsets[d] == #[trigger] ats[i][d] * cd[d]
        }
}

/// Every chunk of a version-1 B-tree that can be in the file is read, at its address and
/// with its size, for the place in the grid whose first element it begins with; nothing else
/// is read, and the order is kept.
pub proof fn lemma_tree_reads(
    entries: Seq<TreeChunkView>,
    ats: Seq<Seq<u64>>,
    cd: Seq<u64>,
    file_size: u64,
    n: nat,
) -> (from: Seq<int>)
    requires
        chunked(cd),
        begin_at(entries, ats, cd),
        n <= entries.len(),
    ensures
        from.len() == to_read(entries, cd, file_size, n).len(),
        forall|j: int|
            0 <= j < from.len() ==> {
                &&& 0 <= #[trigger] from[j] < n
                &&& lies_in(entries[from[j]], file_size)
                &&& reads_chunk(
                    to_read(entries, cd, file_size, n)[j],
                    entries[from[j]],
                    ats[from[j]],
                )
            },
        forall|j: int, k: int| 0 <= j < k < from.len() ==> #[trigger] from[j] < #[trigger] from[k],
        forall|i: int|
            0 <= i < n && lies_in(#[trigger] entries[i], file_size) ==> from.contains(i),
    decreases n,
{
    if n == 0 {
        Seq::empty()
    } else {
        let before = lemma_tree_reads(entries, ats, cd, file_size, (n - 1) as nat);
        let c = entries[n - 1];
        if lies_in(c, file_size) {
            assert(ats[n - 1].len() == cd.len());
            assert forall|d: int| 0 <= d < cd.len() implies #[trigger] cd[d] > 0 && c.offsets[d]
                == ats[n - 1][d] * cd[d] by {}
            lemma_scaled(ats[n - 1], c.offsets, cd);
            let from = before.push(n - 1);
            let reads = to_read(entries, cd, file_size, n);
            let old = to_read(entries, cd, file_size, (n - 1) as nat);
            assert forall|j: int| 0 <= j < from.len() implies {
                &&& 0 <= #[trigger] from[j] < n
                &&& lies_in(entries[from[j]], file_size)
                &&& reads_chunk(reads[j], entries[from[j]], ats[from[j]])
            } by {
                if j < before.len() {
                    assert(from[j] == before[j]);
                    assert(reads[j] == old[j]);
                }
            }
            assert forall|i: int|
                0 <= i < n && lies_in(#[trigger] entries[i], file_size) implies from.contains(
                i,
            ) by {
                if i < n - 1 {
                    assert(before.contains(i));
                    let k = choose|k: int| 0 <= k < before.len() && before[k] == i;
                    assert(from[k] == i);
                } else {
                    assert(from[before.len() as int] == i);
                }
            }
            from
        } else {
            before
        }
    }
}

/// Every record of a version-2 B-tree with an address and a size is read, at its address and
/// with its size, for the place in the grid that the record names; nothing else is read, and
/// the order is kept.
pub proof fn lemma_record_reads(entries: Seq<TreeChunkView>, n: nat) -> (from: Seq<int>)
    requires
        n <= entries.len(),
    ensures
        from.len() == records_to_read(entries, n).len(),
        forall|j: int|
            0 <= j < from.len() ==> {
                let c = entries[#[trigger] from[j]];
                &&& 0 <= from[j] < n
                &&& c.addr != UNDEF_ADDR
                &&& c.size > 0
                &&& reads_chunk(records_to_read(entries, n)[j], c, c.offsets)
            },
        forall|j: int, k: int| 0 <= j < k < from.len() ==> #[trigger] from[j] < #[trigger] from[k],
        forall|i: int|
            0 <= i < n && (#[trigger] entries[i]).addr != UNDEF_ADDR && entries[i].size > 0
                ==> from.contains(i),
    decreases n,
{
    if n == 0 {
        Seq::empty()
    } else {
        let before = lemma_record_reads(entries, (n - 1) as nat);
        let c = entries[n - 1];
        if c.addr != UNDEF_ADDR && c.size > 0 {
            let from = before.push(n - 1);
            let reads = records_to_read(entries, n);
            let old = records_to_read(entries, (n - 1) as nat);
            assert forall|j: int| 0 <= j < from.len() implies {
                let c = entries[#[trigger] from[j]];
                &&& 0 <= from[j] < n
                &&& c.addr != UNDEF_ADDR
                &&& c.size > 0
                &&& reads_chunk(reads[j], c, c.offsets)
            } by {
                if j < before.len() {
                    assert(from[j] == before[j]);
                    assert(reads[j] == old[j]);
                }
            }
            assert forall|i: int|
                0 <= i < n && (#[trigger] entries[i]).addr != UNDEF_ADDR && entries[i].size
                    > 0 implies from.contains(i) by {
                if i < n - 1 {
                    assert(before.contains(i));
                    let k = choose|k: int| 0 <= k < before.len() && before[k] == i;
                    assert(from[k] == i);
                } else {
                    assert(from[before.len() as int] == i);
                }
            }
            from
        } else {
            before
        }
    }
}

/// Whether chunks are what was read of a file: at the places that the reads name.
pub open spec fn were_read(
    file: Seq<u8>,
    reads: Seq<ChunkReadView>,
    chunks: Seq<LocatedChunk>,
) -> bool {
    &&& chunks.len() == reads.len()
    &&& forall|j: int|
        0 <= j < chunks.len() ==> {
            let r = reads[j];
            &&& (#[trigger] chunks[j]).coords@ == r.coords
            &&& chunks[j].data@ == file.subrange(
                r.range.addr as int,
                r.range.addr + r.range.len,
            )
        }
}

/// Whether the file holds, at the address of an entry, the chunk of `data` at `at`.
pub open spec fn holds_chunk(
    file: Seq<u8>,
    c: TreeChunkView,
    at: Seq<u64>,
    data: Seq<u8>,
    dims: Seq<u64>,
    cd: Seq<u64>,
    es: nat,
    pad: Seq<u8>,
) -> bool {
    file.subrange(c.addr as int, c.addr + c.size) == chunk_cut(
        data,
        dims,
        cd,
        ints(at),
        es as int,
        pad,
    )
}

/// A dataset whose chunks a version-1 B-tree finds reads back: where the file holds the
/// chunks of an array, each under an entry with the first element of the chunk, what is read
/// and put together is the array, and elsewhere what was there before, the fill value.
pub proof fn lemma_tree_reads_back(
    file: Seq<u8>,
    entries: Seq<TreeChunkView>,
    ats: Seq<Seq<u64>>,
    pads: Seq<Seq<u8>>,
    chunks: Seq<LocatedChunk>,
    out: Seq<u8>,
    data: Seq<u8>,
    dims: Seq<u64>,
    cd: Seq<u64>,
    es: nat,
    k: int,
)
    requires
        es > 0,
        dims.len() > 0,
        cd.len() == dims.len(),
        chunked(cd),
        shaped(out.len(), dims, es),
        shaped(data.len(), dims, es),
        file.len() <= u64::MAX,
        begin_at(entries, ats, cd),
        pads.len() == entries.len(),
        forall|i: int|
            0 <= i < entries.len() && lies_in(#[trigger] entries[i], file.len() as u64)
                ==> holds_chunk(file, entries[i], ats[i], data, dims, cd, es, pads[i]),
        were_read(file, to_read(entries, cd, file.len() as u64, entries.len()), chunks),
        0 <= k < data.len(),
    ensures
        ({
            let got = located(out, dims, cd, es as int, chunks, chunks.len());
            let at = owner(place(k / es as int, dims), cd);
            &&& got.len() == data.len()
            &&& (exists|i: int|
                0 <= i < entries.len() && lies_in(#[trigger] entries[i], file.len() as u64)
                    && ints(ats[i]) == at) ==> got[k] == data[k]
            &&& !(exists|i: int|
                0 <= i < entries.len() && lies_in(#[trigger] entries[i], file.len() as u64)
                    && ints(ats[i]) == at) ==> got[k] == out[k]
        }),
{
    let size = file.len() as u64;
    let n = entries.len();
    let reads = to_read(entries, cd, size, n);
    let from = lemma_tree_reads(entries, ats, cd, size, n);
    let own = Seq::new(chunks.len(), |j: int| pads[from[j]]);
    assert(located_chunks_of(data, dims, cd, es as int, chunks, own)) by {
        assert forall|j: int| 0 <= j < chunks.len() implies {
            let c = #[trigger] chunks[j];
            &&& c.coords@.len() == dims.len()
            &&& c.data@ == chunk_cut(data, dims, cd, ints(c.coords@), es as int, own[j])
        } by {
            let i = from[j];
            assert(lies_in(entries[i], size));
            assert(reads_chunk(reads[j], entries[i], ats[i]));
            assert(ats[i].len() == cd.len());
            assert(holds_chunk(file, entries[i], ats[i], data, dims, cd, es, pads[i]));
        }
    }
    lemma_located_roundtrip(out, data, dims, cd, es, chunks, own);
    let at = owner(place(k / es as int, dims), cd);
    if has_chunk(chunks, chunks.len(), at) {
        let j = choose|j: int| 0 <= j < chunks.len() && ints((#[trigger] chunks[j]).coords@) == at;
        let i = from[j];
        assert(reads_chunk(reads[j], entries[i], ats[i]));
        assert(lies_in(entries[i], size) && ints(ats[i]) == at);
    }
    if exists|i: int|
        0 <= i < entries.len() && lies_in(#[trigger] entries[i], size) && ints(ats[i]) == at {
        let i = choose|i: int|
            0 <= i < entries.len() && lies_in(#[trigger] entries[i], size) && ints(ats[i]) == at;
        assert(from.contains(i));
        let j = choose|j: int| 0 <= j < from.len() && from[j] == i;
        assert(reads_chunk(reads[j], entries[from[j]], ats[from[j]]));
        assert(ints(chunks[j].coords@) == at);
    }
}

/// A dataset whose chunks a version-2 B-tree finds reads back: where the file holds the
/// chunks of an array, each under a record that names its place in the grid, what is read
/// and put together is the array, and elsewhere what was there before, the fill value.
pub proof fn lemma_records_read_back(
    file: Seq<u8>,
    entries: Seq<TreeChunkView>,
    pads: Seq<Seq<u8>>,
    chunks: Seq<LocatedChunk>,
    out: Seq<u8>,
    data: Seq<u8>,
    dims: Seq<u64>,
    cd: Seq<u64>,
    es: nat,
    k: int,
)
    requires
        es > 0,
        dims.len() > 0,
        cd.len() == dims.len(),
        chunked(cd),
        shaped(out.len(), dims, es),
        shaped(data.len(), dims, es),
        pads.len() == entries.len(),
        forall|i: int|
            0 <= i < entries.len() ==> (#[trigger] entries[i]).offsets.len() == dims.len(),
        forall|i: int|
            0 <= i < entries.len() && (#[trigger] entries[i]).addr != UNDEF_ADDR && entries[i].size
                > 0 ==> holds_chunk(
                file,
                entries[i],
                entries[i].offsets,
                data,
                dims,
                cd,
                es,
                pads[i],
            ),
        were_read(file, records_to_read(entries, entries.len()), chunks),
        0 <= k < data.len(),
    ensures
        ({
            let got = located(out, dims, cd, es as int, chunks, chunks.len());
            let at = owner(place(k / es as int, dims), cd);
            &&& got.len() == data.len()
            &&& (exists|i: int|
                0 <= i < entries.len() && (#[trigger] entries[i]).addr != UNDEF_ADDR
                    && entries[i].size > 0 && ints(entries[i].offsets) == at) ==> got[k] == data[k]
            &&& !(exists|i: int|
                0 <= i < entries.len() && (#[trigger] entries[i]).addr != UNDEF_ADDR
                    && entries[i].size > 0 && ints(entries[i].offsets) == at) ==> got[k] == out[k]
        }),
{
    let n = entries.len();
    let reads = records_to_read(entries, n);
    let from = lemma_record_reads(entries, n);
    let own = Seq::new(chunks.len(), |j: int| pads[from[j]]);
    assert(located_chunks_of(data, dims, cd, es as int, chunks, own)) by {
        assert forall|j: int| 0 <= j < chunks.len() implies {
            let c = #[trigger] chunks[j];
            &&& c.coords@.len() == dims.len()
            &&& c.data@ == chunk_cut(data, dims, cd, ints(c.coords@), es as int, own[j])
        } by {
            let i = from[j];
            let c = entries[from[j]];
            assert(reads_chunk(reads[j], c, c.offsets));
            assert(entries[i].offsets.len() == dims.len());
            assert(holds_chunk(file, c, c.offsets, data, dims, cd, es, pads[i]));
        }
    }
    lemma_located_roundtrip(out, data, dims, cd, es, chunks, own);
    let at = owner(place(k / es as int, dims), cd);
    if has_chunk(chunks, chunks.len(), at) {
        let j = choose|j: int| 0 <= j < chunks.len() && ints((#[trigger] chunks[j]).coords@) == at;
        let i = from[j];
        let c = entries[from[j]];
        assert(reads_chunk(reads[j], c, c.offsets));
        assert(entries[i].addr != UNDEF_ADDR && ints(entries[i].offsets) == at);
    }
    if exists|i: int|
        0 <= i < entries.len() && (#[trigger] entries[i]).addr != UNDEF_ADDR && entries[i].size > 0
            && ints(entries[i].offsets) == at {
        let i = choose|i: int|
            0 <= i < entries.len() && (#[trigger] entries[i]).addr != UNDEF_ADDR && entries[i].size
                > 0 && ints(entries[i].offsets) == at;
        assert(from.contains(i));
        let j = choose|j: int| 0 <= j < from.len() && from[j] == i;
        let c = entries[from[j]];
        assert(reads_chunk(reads[j], c, c.offsets));
        assert(ints(chunks[j].coords@) == at);
    }
}

} // verus!
