//! Chunked datasets: which bytes of the file hold the chunks, and where the chunks go.

use crate::format::UNDEF_ADDR;
use crate::io::array::{element_count, ints, lemma_linear_of_place, place, place_of, volume};
use crate::io::chunks::{
    assembled, chunk_cut, chunked, chunks_of, copy_chunk_to_output, grid, lemma_all_chunks_roundtrip,
    lemma_assembled_len, lemma_cut_placed, lemma_owner, owner, placed, shaped,
};
use crate::io::slices::lemma_byte_of;
use crate::io::ea::{all_sized, ChunkEntry};
use crate::io::tiles::chunk_grid;
use crate::io::writer::datasets::byte_len;
use crate::io::{invalid_state, IoError, IoErrorView};
use crate::text::{decimal, Text};
use vstd::prelude::*;

verus! {

/// A number of bytes of the file.
#[derive(Debug, Clone, Copy, PartialEq, Eq, Structural)]
pub struct ReadRange {
    /// Where they begin.
    pub addr: u64,
    /// How many there are.
    pub len: u64,
    /// Whether all of them have to be there.
    pub exact: bool,
}

/// The smaller of two numbers.
pub open spec fn smaller(a: nat, b: nat) -> nat {
    if a < b {
        a
    } else {
        b
    }
}

/// Number of elements of an array, at most the largest number.
pub fn saturating_count(dims: &[u64]) -> (n: u64)
    ensures
        n == smaller(volume(dims@), u64::MAX as nat),
{
    match element_count(dims) {
        Some(n) => n,
        None => u64::MAX,
    }
}

/// Bytes of an array, at most the largest number.
pub fn saturating_byte_len(dims: &[u64], element_size: u64) -> (n: u64)
    ensures
        n == smaller(byte_len(dims@, element_size as nat), u64::MAX as nat),
{
    let v: u64 = saturating_count(dims);
    let ghost all = volume(dims@) as int;
    let ghost es = element_size as int;
    proof {
        if es == 0 {
            assert(all * es == 0) by (nonlinear_arith)
                requires
                    es == 0,
            ;
            assert(v as int * es == 0) by (nonlinear_arith)
                requires
                    es == 0,
            ;
        } else if v as int != all {
            assert(all * es > u64::MAX && v * es >= u64::MAX) by (nonlinear_arith)
                requires
                    all > u64::MAX,
                    v == u64::MAX,
                    es >= 1,
            ;
        }
        assert(0 <= v as int * es <= 0xffff_ffff_ffff_ffff * 0xffff_ffff_ffff_ffff)
            by (nonlinear_arith)
            requires
                0 <= v <= 0xffff_ffff_ffff_ffff,
                0 <= es <= 0xffff_ffff_ffff_ffff,
        ;
    }
    let p: u128 = v as u128 * element_size as u128;
    if p > u64::MAX as u128 {
        u64::MAX
    } else {
        p as u64
    }
}

/// The error that a dataset is too large for the memory of the machine.
pub fn no_memory(total: u64) -> (e: IoError)
    ensures
        e@ == IoErrorView::InvalidState(
            "cannot allocate "@ + decimal(total as nat)
                + " bytes for dataset buffer (file may be corrupt)"@,
        ),
{
    invalid_state(
        Text::new("cannot allocate ").number(total).text(
            " bytes for dataset buffer (file may be corrupt)",
        ),
    )
}

/// What a list of chunks holds.
pub open spec fn chunk_views(v: Seq<Option<Vec<u8>>>) -> Seq<Option<Seq<u8>>> {
    Seq::new(
        v.len(),
        |i: int|
            match v[i] {
                Some(b) => Some(b@),
                None => None,
            },
    )
}

/// Put numbered chunks in their places. Missing chunks leave what is there.
pub fn place_numbered(
    out: Vec<u8>,
    dims: &[u64],
    chunk_dims: &[u64],
    element_size: u64,
    chunks: &Vec<Option<Vec<u8>>>,
) -> (r: Vec<u8>)
    requires
        chunk_dims@.len() == dims@.len(),
        element_size <= u32::MAX,
        shaped(out@.len(), dims@, element_size as nat),
        dims@.len() > 1 ==> byte_len(chunk_dims@, element_size as nat) <= usize::MAX,
        chunks@.len() > 0 ==> volume(grid(dims@, chunk_dims@)) > 0,
    ensures
        r@ == assembled(
            out@,
            dims@,
            chunk_dims@,
            element_size as int,
            chunk_views(chunks@),
            chunks@.len(),
        ),
{
    let ghost start = out@;
    let ghost views = chunk_views(chunks@);
    let g = chunk_grid(dims, chunk_dims);
    let mut out: Vec<u8> = out;
    let mut i: usize = 0;
    while i < chunks.len()
        invariant
            i <= chunks.len(),
            chunk_dims@.len() == dims@.len(),
            element_size <= u32::MAX,
            shaped(start.len(), dims@, element_size as nat),
            dims@.len() > 1 ==> byte_len(chunk_dims@, element_size as nat) <= usize::MAX,
            chunks@.len() > 0 ==> volume(grid(dims@, chunk_dims@)) > 0,
            g@ == grid(dims@, chunk_dims@),
            views == chunk_views(chunks@),
            out@ == assembled(start, dims@, chunk_dims@, element_size as int, views, i as nat),
        decreases chunks.len() - i,
    {
        match &chunks[i] {
            Some(b) => {
                proof {
                    lemma_assembled_len(
                        start,
                        dims@,
                        chunk_dims@,
                        element_size as int,
                        views,
                        i as nat,
                    );
                }
                let cc = place_of(i as u64, g.as_slice());
                assert(ints(cc@).len() == cc@.len());
                copy_chunk_to_output(
                    b.as_slice(),
                    &mut out,
                    dims,
                    chunk_dims,
                    cc.as_slice(),
                    element_size,
                );
            },
            None => {},
        }
        i = i + 1;
    }
    out
}

/// A chunk and its place in the grid.
#[derive(Debug)]
pub struct LocatedChunk {
    /// Place in the grid of chunks.
    pub coords: Vec<u64>,
    /// Content.
    pub data: Vec<u8>,
}

/// `out` with the first `n` of a list of chunks put in place.
pub open spec fn located(
    out: Seq<u8>,
    dims: Seq<u64>,
    cd: Seq<u64>,
    es: int,
    chunks: Seq<LocatedChunk>,
    n: nat,
) -> Seq<u8>
    decreases n,
{
    if n == 0 {
        out
    } else {
        placed(
            located(out, dims, cd, es, chunks, (n - 1) as nat),
            chunks[n - 1].data@,
            dims,
            cd,
            ints(chunks[n - 1].coords@),
            es,
        )
    }
}

proof fn lemma_located_len(
    out: Seq<u8>,
    dims: Seq<u64>,
    cd: Seq<u64>,
    es: int,
    chunks: Seq<LocatedChunk>,
    n: nat,
)
    ensures
        located(out, dims, cd, es, chunks, n).len() == out.len(),
    decreases n,
{
    if n > 0 {
        lemma_located_len(out, dims, cd, es, chunks, (n - 1) as nat);
    }
}

/// Put chunks in their places.
pub fn place_located(
    out: Vec<u8>,
    dims: &[u64],
    chunk_dims: &[u64],
    element_size: u64,
    chunks: &Vec<LocatedChunk>,
) -> (r: Vec<u8>)
    requires
        chunk_dims@.len() == dims@.len(),
        element_size <= u32::MAX,
        shaped(out@.len(), dims@, element_size as nat),
        dims@.len() > 1 ==> byte_len(chunk_dims@, element_size as nat) <= usize::MAX,
        forall|i: int|
            0 <= i < chunks@.len() ==> (#[trigger] chunks@[i]).coords@.len() == dims@.len(),
    ensures
        r@ == located(
            out@,
            dims@,
            chunk_dims@,
            element_size as int,
            chunks@,
            chunks@.len(),
        ),
{
    let ghost start = out@;
    let mut out: Vec<u8> = out;
    let mut i: usize = 0;
    while i < chunks.len()
        invariant
            i <= chunks.len(),
            chunk_dims@.len() == dims@.len(),
            element_size <= u32::MAX,
            shaped(start.len(), dims@, element_size as nat),
            dims@.len() > 1 ==> byte_len(chunk_dims@, element_size as nat) <= usize::MAX,
            forall|i: int|
                0 <= i < chunks@.len() ==> (#[trigger] chunks@[i]).coords@.len() == dims@.len(),
            out@ == located(start, dims@, chunk_dims@, element_size as int, chunks@, i as nat),
        decreases chunks.len() - i,
    {
        let c = &chunks[i];
        proof {
            lemma_located_len(
                start,
                dims@,
                chunk_dims@,
                element_size as int,
                chunks@,
                i as nat,
            );
        }
        copy_chunk_to_output(
            c.data.as_slice(),
            &mut out,
            dims,
            chunk_dims,
            c.coords.as_slice(),
            element_size,
        );
        i = i + 1;
    }
    out
}

/// Whether every chunk of a list is a chunk of `data`, at its place.
pub open spec fn located_chunks_of(
    data: Seq<u8>,
    dims: Seq<u64>,
    cd: Seq<u64>,
    es: int,
    chunks: Seq<LocatedChunk>,
    pads: Seq<Seq<u8>>,
) -> bool {
    &&& pads.len() == chunks.len()
    &&& forall|i: int|
        0 <= i < chunks.len() ==> {
            let c = #[trigger] chunks[i];
            &&& c.coords@.len() == dims.len()
            &&& c.data@ == chunk_cut(data, dims, cd, ints(c.coords@), es, pads[i])
        }
}

/// Whether one of the first `n` chunks stands at a place of the grid.
pub open spec fn has_chunk(chunks: Seq<LocatedChunk>, n: nat, at: Seq<int>) -> bool {
    exists|i: int| 0 <= i < n && ints((#[trigger] chunks[i]).coords@) == at
}

proof fn lemma_located_byte(
    out: Seq<u8>,
    data: Seq<u8>,
    dims: Seq<u64>,
    cd: Seq<u64>,
    es: nat,
    chunks: Seq<LocatedChunk>,
    pads: Seq<Seq<u8>>,
    n: nat,
    k: int,
)
    requires
        es > 0,
        dims.len() > 0,
        cd.len() == dims.len(),
        chunked(cd),
        shaped(out.len(), dims, es),
        shaped(data.len(), dims, es),
        located_chunks_of(data, dims, cd, es as int, chunks, pads),
        n <= chunks.len(),
        0 <= k < out.len(),
    ensures
        located(out, dims, cd, es as int, chunks, n)[k] == if has_chunk(
            chunks,
            n,
            owner(place(k / es as int, dims), cd),
        ) {
            data[k]
        } else {
            out[k]
        },
    decreases n,
{
    if n > 0 {
        let esi = es as int;
        let m = n - 1;
        lemma_located_byte(out, data, dims, cd, es, chunks, pads, m as nat, k);
        lemma_located_len(out, dims, cd, esi, chunks, m as nat);
        lemma_byte_of(k, volume(dims) as int, esi);
        let e = k / esi;
        lemma_linear_of_place(e, dims);
        let c = place(e, dims);
        let before = located(out, dims, cd, esi, chunks, m as nat);
        let one = chunks[m];
        let cc = ints(one.coords@);
        lemma_owner(c, dims, cd, cc);
        assert forall|d: int| 0 <= d < cc.len() implies #[trigger] cc[d] >= 0 by {}
        lemma_cut_placed(before, data, dims, cd, cc, es, pads[m], k);
        let at = owner(c, cd);
        assert(has_chunk(chunks, n, at) <==> (has_chunk(chunks, m as nat, at) || cc == at)) by {
            if has_chunk(chunks, n, at) {
                let i = choose|i: int| 0 <= i < n && ints((#[trigger] chunks[i]).coords@) == at;
                if i < m {
                    assert(ints(chunks[i].coords@) == at);
                }
            }
            if has_chunk(chunks, m as nat, at) {
                let i = choose|i: int| 0 <= i < m && ints((#[trigger] chunks[i]).coords@) == at;
                assert(ints(chunks[i].coords@) == at);
            }
            if cc == at {
                assert(ints(chunks[m].coords@) == at);
            }
        }
    }
}

/// Chunks of an array that are put in their places, in whatever order, give the array
/// back where there are chunks for it; elsewhere stays what was there before.
pub proof fn lemma_located_roundtrip(
    out: Seq<u8>,
    data: Seq<u8>,
    dims: Seq<u64>,
    cd: Seq<u64>,
    es: nat,
    chunks: Seq<LocatedChunk>,
    pads: Seq<Seq<u8>>,
)
    requires
        es > 0,
        dims.len() > 0,
        cd.len() == dims.len(),
        chunked(cd),
        shaped(out.len(), dims, es),
        shaped(data.len(), dims, es),
        located_chunks_of(data, dims, cd, es as int, chunks, pads),
    ensures
        located(out, dims, cd, es as int, chunks, chunks.len()) == Seq::new(
            out.len(),
            |k: int|
                if has_chunk(chunks, chunks.len(), owner(place(k / es as int, dims), cd)) {
                    data[k]
                } else {
                    out[k]
                },
        ),
{
    let got = located(out, dims, cd, es as int, chunks, chunks.len());
    lemma_located_len(out, dims, cd, es as int, chunks, chunks.len());
    assert forall|k: int| 0 <= k < out.len() implies got[k] == (if has_chunk(
        chunks,
        chunks.len(),
        owner(place(k / es as int, dims), cd),
    ) {
        data[k]
    } else {
        out[k]
    }) by {
        lemma_located_byte(out, data, dims, cd, es, chunks, pads, chunks.len(), k);
    }
}

/// Where a chunk of an extensible array stands. Of filtered chunks, those that cannot
/// be in the file count as missing.
pub open spec fn array_range(e: ChunkEntry, filtered: bool, file_size: u64) -> Option<ReadRange> {
    if e.addr == UNDEF_ADDR {
        None
    } else if filtered && (e.nbytes == 0 || e.addr >= file_size || e.nbytes > file_size) {
        None
    } else {
        Some(ReadRange { addr: e.addr, len: e.nbytes, exact: filtered })
    }
}

/// How many chunks of an extensible array are read.
pub open spec fn chunks_read(dims: Seq<u64>, cd: Seq<u64>, entries: nat) -> nat {
    smaller(volume(grid(dims, cd)), entries)
}

/// Where the chunks of an extensible array stand.
pub fn array_ranges(
    entries: &Vec<ChunkEntry>,
    dims: &[u64],
    chunk_dims: &[u64],
    filtered: bool,
    file_size: u64,
) -> (r: Vec<Option<ReadRange>>)
    requires
        chunk_dims@.len() == dims@.len(),
    ensures
        r@.len() == chunks_read(dims@, chunk_dims@, entries@.len()),
        forall|i: int|
            0 <= i < r@.len() ==> #[trigger] r@[i] == array_range(entries@[i], filtered, file_size),
{
    let g = chunk_grid(dims, chunk_dims);
    let all: u64 = saturating_count(g.as_slice());
    let have: usize = entries.len();
    let n: usize = if all < have as u64 {
        all as usize
    } else {
        have
    };
    let mut r: Vec<Option<ReadRange>> = Vec::new();
    let mut i: usize = 0;
    while i < n
        invariant
            i <= n <= entries@.len(),
            r@.len() == i,
            forall|k: int|
                0 <= k < i ==> #[trigger] r@[k] == array_range(entries@[k], filtered, file_size),
        decreases n - i,
    {
        let e: ChunkEntry = entries[i];
        let missing: bool = e.addr == UNDEF_ADDR || (filtered && (e.nbytes == 0 || e.addr
            >= file_size || e.nbytes > file_size));
        if missing {
            r.push(None);
        } else {
            r.push(Some(ReadRange { addr: e.addr, len: e.nbytes, exact: filtered }));
        }
        i = i + 1;
    }
    r
}

/// The bytes of the file at a list of places.
pub open spec fn fetched(file: Seq<u8>, ranges: Seq<Option<ReadRange>>) -> Seq<Option<Seq<u8>>> {
    Seq::new(
        ranges.len(),
        |i: int|
            match ranges[i] {
                Some(r) => Some(file.subrange(r.addr as int, r.addr + r.len)),
                None => None,
            },
    )
}

/// A dataset without filters reads back as it was written: if the index knows the place
/// of every chunk, and the chunks stand there, reading gives the data. Of what the index
/// holds only the addresses count: every chunk has the bytes of its shape.
pub proof fn lemma_array_reads_back(
    file: Seq<u8>,
    stored: Seq<ChunkEntry>,
    entries: Seq<ChunkEntry>,
    ranges: Seq<Option<ReadRange>>,
    out: Seq<u8>,
    data: Seq<u8>,
    dims: Seq<u64>,
    cd: Seq<u64>,
    es: nat,
    file_size: u64,
    pads: Seq<Seq<u8>>,
)
    requires
        es > 0,
        cd.len() == dims.len(),
        dims.len() > 0,
        chunked(cd),
        shaped(out.len(), dims, es),
        shaped(data.len(), dims, es),
        byte_len(cd, es) <= u64::MAX,
        entries == all_sized(stored, false, byte_len(cd, es) as u64),
        entries.len() >= volume(grid(dims, cd)),
        pads.len() == volume(grid(dims, cd)),
        ranges.len() == chunks_read(dims, cd, entries.len()),
        forall|i: int|
            0 <= i < ranges.len() ==> #[trigger] ranges[i] == array_range(
                entries[i],
                false,
                file_size,
            ),
        forall|i: int|
            0 <= i < volume(grid(dims, cd)) ==> {
                let e = #[trigger] stored[i];
                &&& e.addr != UNDEF_ADDR
                &&& file.subrange(e.addr as int, e.addr + byte_len(cd, es)) == chunk_cut(
                    data,
                    dims,
                    cd,
                    place(i, grid(dims, cd)),
                    es as int,
                    pads[i],
                )
            },
    ensures
        assembled(
            out,
            dims,
            cd,
            es as int,
            fetched(file, ranges),
            ranges.len(),
        ) == data,
{
    let chunks = fetched(file, ranges);
    assert(ranges.len() == volume(grid(dims, cd)));
    assert forall|i: int| 0 <= i < chunks.len() implies (#[trigger] chunks[i] matches Some(b) ==> b
        == chunk_cut(data, dims, cd, place(i, grid(dims, cd)), es as int, pads[i])) by {
        assert(ranges[i] == array_range(entries[i], false, file_size));
        assert(stored[i].addr != UNDEF_ADDR);
    }
    assert forall|i: int| 0 <= i < chunks.len() implies #[trigger] chunks[i] is Some by {
        assert(ranges[i] == array_range(entries[i], false, file_size));
        assert(stored[i].addr != UNDEF_ADDR);
    }
    assert(chunks_of(data, dims, cd, es as int, chunks, pads));
    lemma_all_chunks_roundtrip(out, data, dims, cd, es, chunks, pads);
}

} // verus!
