//! Where the data of datasets go.

use crate::format::UNDEF_ADDR;
use crate::io::allocator::align8;
use crate::io::ea::{ChunkEntry, EaRequest, EaUpdate};
use crate::io::writer::datasets::{byte_count, byte_len, same_but_datasets};
use crate::io::writer::index::{record_room, recorded, EaStep};
use crate::io::writer::state::{ChunkedDatasetInfo, DatasetInfo, Hdf5Writer};
use crate::io::{invalid_state, IoErrorView, IoResult};
use crate::text::{decimal, Text};
use vstd::prelude::*;

verus! {

/// The message about data of the wrong size.
pub open spec fn size_mismatch(expected: nat, got: nat) -> IoErrorView {
    IoErrorView::InvalidState(
        "data size mismatch: expected "@ + decimal(expected) + " bytes, got "@ + decimal(got),
    )
}

/// The message about a chunk of the wrong size.
pub open spec fn chunk_mismatch(expected: nat, got: nat) -> IoErrorView {
    IoErrorView::InvalidState(
        "chunk data size mismatch: expected "@ + decimal(expected) + " bytes, got "@ + decimal(
            got,
        ),
    )
}

/// The chunk shape of a dataset.
pub open spec fn chunk_shape(d: DatasetInfo) -> Option<Seq<u64>> {
    match d.chunked {
        Some(c) => Some(c.chunk_dims@),
        None => match d.fixed_array {
            Some(f) => Some(f.chunk_dims@),
            None => match d.btree_v2 {
                Some(b) => Some(b.chunk_dims@),
                None => None,
            },
        },
    }
}

/// Why data cannot be written to a dataset in one piece.
pub open spec fn raw_error(d: DatasetInfo, len: nat) -> Option<IoErrorView> {
    if d.chunked is Some {
        Some(IoErrorView::InvalidState("use write_chunk for chunked datasets"@))
    } else if d.data_addr == UNDEF_ADDR {
        Some(IoErrorView::InvalidState("dataset has no data allocated"@))
    } else if len != d.data_size {
        Some(size_mismatch(d.data_size as nat, len))
    } else {
        None
    }
}

/// Why a chunk cannot be written.
pub open spec fn chunk_error(d: DatasetInfo, len: nat) -> Option<IoErrorView> {
    match d.chunked {
        None => Some(IoErrorView::InvalidState("not a chunked dataset"@)),
        Some(c) => {
            let size = byte_len(c.chunk_dims@, d.datatype.spec_element_size() as nat);
            if len != size {
                Some(chunk_mismatch(size, len))
            } else {
                None
            }
        },
    }
}

/// What writing a chunk came to.
#[derive(Debug)]
pub enum ChunkStep {
    /// A block of the index has to be read first.
    Need(EaRequest),
    /// The chunk goes to `addr`; blocks of the index have changed.
    Written { addr: u64, update: EaUpdate },
}

/// The entry of a chunk of `len` bytes at `addr`.
pub open spec fn entry_of(addr: int, len: nat) -> ChunkEntry {
    ChunkEntry { addr: addr as u64, nbytes: len as u64, filter_mask: 0 }
}

/// Whether all datasets but one are the same.
pub open spec fn same_others(a: Hdf5Writer, b: Hdf5Writer, i: int) -> bool {
    &&& same_but_datasets(a, b)
    &&& b.datasets@.len() == a.datasets@.len()
    &&& forall|k: int|
        0 <= k < a.datasets@.len() && k != i ==> #[trigger] b.datasets@[k] == a.datasets@[k]
}

/// Whether writing a chunk gave this outcome.
pub open spec fn chunk_written(
    a: Hdf5Writer,
    b: Hdf5Writer,
    index: int,
    chunk_idx: u64,
    len: nat,
    r: IoResult<ChunkStep>,
) -> bool {
    let c = a.datasets@[index].chunked->0;
    let c2 = b.datasets@[index].chunked->0;
    let eof = a.allocator.spec_eof() as int;
    let eof2 = b.allocator.spec_eof() as int;
    let at = align8(eof);
    let e = entry_of(at, len);
    &&& same_others(a, b, index)
    &&& b.datasets@[index] == (DatasetInfo { chunked: Some(c2), ..a.datasets@[index] })
    &&& match r {
        Ok(ChunkStep::Need(q)) => recorded(
            c,
            c2,
            a.ctx,
            at + len,
            at + len,
            chunk_idx,
            e,
            Ok(EaStep::Need(q)),
        ) && eof2 == eof,
        Ok(ChunkStep::Written { addr, update }) => addr == at && recorded(
            c,
            c2,
            a.ctx,
            at + len,
            eof2,
            chunk_idx,
            e,
            Ok(EaStep::Recorded(update)),
        ),
        Err(x) => recorded(c, c2, a.ctx, at + len, eof2, chunk_idx, e, Err(x)),
    }
}

/// Whether there is room for a chunk of `len` bytes.
pub open spec fn chunk_room(w: Hdf5Writer, index: int, chunk_idx: u64, len: nat) -> bool {
    let eof = w.allocator.spec_eof() as int;
    &&& eof + 8 + len <= u64::MAX
    &&& record_room(w.datasets@[index].chunked->0, w.ctx, align8(eof) + len, chunk_idx)
}

impl Hdf5Writer {
    /// Return the chunk dimensions for a dataset, if chunked.
    pub fn dataset_chunk_dims(&self, index: usize) -> (r: Option<&[u64]>)
        requires
            index < self.datasets@.len(),
        ensures
            match r {
                Some(v) => chunk_shape(self.datasets@[index as int]) == Some(v@),
                None => chunk_shape(self.datasets@[index as int]) is None,
            },
    {
        let d = &self.datasets[index];
        match &d.chunked {
            Some(c) => Some(c.chunk_dims.as_slice()),
            None => match &d.fixed_array {
                Some(f) => Some(f.chunk_dims.as_slice()),
                None => match &d.btree_v2 {
                    Some(b) => Some(b.chunk_dims.as_slice()),
                    None => None,
                },
            },
        }
    }

    /// Return the current dimensions of a dataset.
    pub fn dataset_dims(&self, index: usize) -> (r: &[u64])
        requires
            index < self.datasets@.len(),
        ensures
            r@ == self.datasets@[index as int].dataspace.dims@,
    {
        self.datasets[index].dataspace.dims.as_slice()
    }

    /// Where the raw bytes of a contiguous dataset go.
    pub fn write_dataset_raw(&self, index: usize, data: &[u8]) -> (r: IoResult<u64>)
        requires
            index < self.datasets@.len(),
        ensures
            match r {
                Ok(at) => raw_error(self.datasets@[index as int], data@.len()) is None && at
                    == self.datasets@[index as int].data_addr,
                Err(e) => raw_error(self.datasets@[index as int], data@.len()) == Some(e@),
            },
    {
        let d = &self.datasets[index];
        if d.chunked.is_some() {
            return Err(invalid_state(Text::new("use write_chunk for chunked datasets")));
        }
        if d.data_addr == UNDEF_ADDR {
            return Err(invalid_state(Text::new("dataset has no data allocated")));
        }
        if data.len() as u64 != d.data_size {
            return Err(
                invalid_state(
                    Text::new("data size mismatch: expected ").number(d.data_size).text(
                        " bytes, got ",
                    ).number(data.len() as u64),
                ),
            );
        }
        Ok(d.data_addr)
    }

    /// Check the size of a chunk.
    pub fn check_chunk(&self, index: usize, len: usize) -> (r: IoResult<()>)
        requires
            index < self.datasets@.len(),
            self.datasets@[index as int].chunked matches Some(c) ==> byte_len(
                c.chunk_dims@,
                self.datasets@[index as int].datatype.spec_element_size() as nat,
            ) <= u64::MAX,
        ensures
            match r {
                Ok(_) => chunk_error(self.datasets@[index as int], len as nat) is None,
                Err(e) => chunk_error(self.datasets@[index as int], len as nat) == Some(e@),
            },
    {
        let d = &self.datasets[index];
        match &d.chunked {
            None => Err(invalid_state(Text::new("not a chunked dataset"))),
            Some(c) => {
                let size: u64 = byte_count(
                    c.chunk_dims.as_slice(),
                    d.datatype.element_size() as u64,
                );
                if len as u64 != size {
                    return Err(
                        invalid_state(
                            Text::new("chunk data size mismatch: expected ").number(size).text(
                                " bytes, got ",
                            ).number(len as u64),
                        ),
                    );
                }
                Ok(())
            },
        }
    }

    /// Place a chunk that has passed the filters, and record it in the index.
    pub fn write_compressed_chunk(
        &mut self,
        index: usize,
        chunk_idx: u64,
        compressed_data: &[u8],
    ) -> (r: IoResult<ChunkStep>)
        requires
            old(self).wf(),
            index < old(self).datasets@.len(),
            old(self).datasets@[index as int].chunked is Some,
            old(self).datasets@[index as int].wf(),
            chunk_room(*old(self), index as int, chunk_idx, compressed_data@.len()),
        ensures
            final(self).wf(),
            final(self).datasets@[index as int].wf(),
            chunk_written(
                *old(self),
                *final(self),
                index as int,
                chunk_idx,
                compressed_data@.len(),
                r,
            ),
    {
        let len: u64 = compressed_data.len() as u64;
        let eof: u64 = self.allocator.eof();
        let ghost before = *self;
        match self.datasets[index].chunked.take() {
            None => {
                assert(false);
                Err(invalid_state(Text::new("not a chunked dataset")))
            },
            Some(info) => {
                let mut c: ChunkedDatasetInfo = info;
                let at: u64 = self.allocator.allocate(len);
                let ctx = self.ctx;
                let r = c.record_ea_chunk(
                    &ctx,
                    &mut self.allocator,
                    chunk_idx,
                    ChunkEntry { addr: at, nbytes: len, filter_mask: 0 },
                );
                self.datasets[index].chunked = Some(c);
                assert(self.datasets@[index as int] == (DatasetInfo {
                    chunked: Some(c),
                    ..before.datasets@[index as int]
                }));
                match r {
                    Ok(EaStep::Need(q)) => {
                        proof {
                            lemma_need_keeps(
                                before.datasets@[index as int].chunked->0,
                                c,
                                ctx,
                                at + len,
                                self.allocator.spec_eof() as int,
                                chunk_idx,
                                entry_of(at as int, len as nat),
                                q,
                            );
                        }
                        self.allocator.set_eof(eof);
                        Ok(ChunkStep::Need(q))
                    },
                    Ok(EaStep::Recorded(update)) => Ok(ChunkStep::Written { addr: at, update }),
                    Err(x) => Err(x),
                }
            },
        }
    }

    /// Place a chunk of a dataset, and record it in the index. `stored` is what
    /// the filters made of `data`, or `data` itself without filters.
    pub fn write_chunk(
        &mut self,
        index: usize,
        chunk_idx: u64,
        data: &[u8],
        stored: &[u8],
    ) -> (r: IoResult<ChunkStep>)
        requires
            old(self).wf(),
            index < old(self).datasets@.len(),
            old(self).datasets@[index as int].wf(),
            old(self).datasets@[index as int].chunked matches Some(c) ==> byte_len(
                c.chunk_dims@,
                old(self).datasets@[index as int].datatype.spec_element_size() as nat,
            ) <= u64::MAX && chunk_room(*old(self), index as int, chunk_idx, stored@.len()),
            old(self).datasets@[index as int].filter_pipeline is None ==> stored@ == data@,
        ensures
            final(self).wf(),
            final(self).datasets@[index as int].wf(),
            match chunk_error(old(self).datasets@[index as int], data@.len()) {
                Some(x) => (r matches Err(e) && e@ == x) && *final(self) == *old(self),
                None => chunk_written(
                    *old(self),
                    *final(self),
                    index as int,
                    chunk_idx,
                    stored@.len(),
                    r,
                ),
            },
    {
        match self.check_chunk(index, data.len()) {
            Ok(_) => {},
            Err(e) => {
                return Err(e);
            },
        }
        self.write_compressed_chunk(index, chunk_idx, stored)
    }
}

/// A request leaves the end of the file where it is.
proof fn lemma_need_keeps(
    a: ChunkedDatasetInfo,
    b: ChunkedDatasetInfo,
    ctx: crate::format::FormatContext,
    eof: int,
    eof2: int,
    idx: u64,
    e: ChunkEntry,
    q: EaRequest,
)
    requires
        recorded(a, b, ctx, eof, eof2, idx, e, Ok(EaStep::Need(q))),
    ensures
        eof2 == eof,
{
}

} // verus!
