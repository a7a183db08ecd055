//! Datasets indexed by a fixed array or a B-tree.

use crate::format::chunk_index::fixed_array::{
    FixedArrayDataBlock, FixedArrayFilteredChunkElement, FixedArrayHeader, FA_CLIENT_CHUNK,
    FA_CLIENT_FILT_CHUNK, FA_PAGE_BITS,
};
use crate::format::messages::dataspace::{copy_dims, DataspaceMessage, SpaceView};
use crate::format::messages::datatype::DatatypeMessage;
use crate::format::messages::filter::FilterPipeline;
use crate::format::{FormatContext, UNDEF_ADDR};
use crate::io::allocator::align8;
use crate::io::chunks::lemma_parts;
use crate::io::writer::blocks::{dblk_disk_size, fixed_array_dblk_disk_size};
use crate::io::writer::datasets::{
    added, bare_dataset, byte_count, byte_len, compute_chunk_size_len, size_width,
};
use crate::io::writer::state::{Bt2DatasetInfo, DatasetInfo, FixedArrayDatasetInfo, Hdf5Writer};
use crate::io::{invalid_state, IoErrorView, IoResult};
use crate::text::{decimal, Text};
use vstd::prelude::*;

verus! {

/// How many chunks of extent `c` cover an extent `n`.
pub open spec fn parts(n: u64, c: u64) -> int {
    (n + c - 1) / c as int
}

/// How many chunks of extent `c` cover an extent `n`.
pub fn part_count(n: u64, c: u64) -> (r: u64)
    requires
        c > 0,
    ensures
        r == parts(n, c),
{
    proof {
        lemma_parts(n as int, c as int);
    }
    let q: u128 = (n as u128 + c as u128 - 1) / c as u128;
    q as u64
}

/// Number of chunks along the first `n` dimensions, or why there is none.
pub open spec fn chunk_total(dims: Seq<u64>, cd: Seq<u64>, n: nat) -> Result<nat, IoErrorView>
    decreases n,
{
    if n == 0 {
        Ok(1)
    } else {
        match chunk_total(dims, cd, (n - 1) as nat) {
            Err(e) => Err(e),
            Ok(v) => if cd[n - 1] == 0 {
                Err(
                    IoErrorView::InvalidState(
                        "chunk dimension "@ + decimal((n - 1) as nat) + " is zero"@,
                    ),
                )
            } else if v * parts(dims[n - 1], cd[n - 1]) > u64::MAX {
                Err(IoErrorView::InvalidState("chunk count overflows u64"@))
            } else {
                Ok((v * parts(dims[n - 1], cd[n - 1])) as nat)
            },
        }
    }
}

/// Number of chunks of a dataset of fixed shape, or why there is none.
pub open spec fn fixed_chunks(dims: Seq<u64>, cd: Seq<u64>) -> Result<nat, IoErrorView> {
    if cd.len() != dims.len() {
        Err(
            IoErrorView::InvalidState(
                "chunk shape has "@ + decimal(cd.len()) + " dimensions but the dataspace has "@
                    + decimal(dims.len()),
            ),
        )
    } else {
        chunk_total(dims, cd, dims.len())
    }
}

proof fn lemma_chunk_error(dims: Seq<u64>, cd: Seq<u64>, n: nat, m: nat)
    requires
        n <= m,
        chunk_total(dims, cd, n) is Err,
    ensures
        chunk_total(dims, cd, m) == chunk_total(dims, cd, n),
    decreases m,
{
    if n < m {
        lemma_chunk_error(dims, cd, n, (m - 1) as nat);
    }
}

/// Number of chunks of a dataset of fixed shape.
pub fn count_chunks(dims: &[u64], chunk_dims: &[u64]) -> (r: IoResult<u64>)
    ensures
        match r {
            Ok(n) => fixed_chunks(dims@, chunk_dims@) == Ok::<nat, IoErrorView>(n as nat),
            Err(e) => fixed_chunks(dims@, chunk_dims@) == Err::<nat, IoErrorView>(e@),
        },
{
    let ndims: usize = dims.len();
    if chunk_dims.len() != ndims {
        return Err(
            invalid_state(
                Text::new("chunk shape has ").number(chunk_dims.len() as u64).text(
                    " dimensions but the dataspace has ",
                ).number(ndims as u64),
            ),
        );
    }
    let mut n: u64 = 1;
    let mut d: usize = 0;
    while d < ndims
        invariant
            ndims == dims@.len(),
            chunk_dims@.len() == ndims,
            d <= ndims,
            chunk_total(dims@, chunk_dims@, d as nat) == Ok::<nat, IoErrorView>(n as nat),
        decreases ndims - d,
    {
        if chunk_dims[d] == 0 {
            proof {
                lemma_chunk_error(dims@, chunk_dims@, (d + 1) as nat, ndims as nat);
            }
            return Err(
                invalid_state(Text::new("chunk dimension ").number(d as u64).text(" is zero")),
            );
        }
        let p: u64 = part_count(dims[d], chunk_dims[d]);
        match n.checked_mul(p) {
            Some(m) => {
                n = m;
            },
            None => {
                proof {
                    lemma_chunk_error(dims@, chunk_dims@, (d + 1) as nat, ndims as nat);
                }
                return Err(invalid_state(Text::new("chunk count overflows u64")));
            },
        }
        d = d + 1;
    }
    Ok(n)
}

/// Bytes of the header of a fixed array.
pub open spec fn fa_header_size(ctx: FormatContext) -> int {
    8 + ctx.sizeof_size + ctx.sizeof_addr + 4
}

/// The header of a new fixed array, its data block not yet placed.
pub open spec fn new_fa_header(ctx: FormatContext, n: u64, csl: Option<u8>) -> FixedArrayHeader {
    FixedArrayHeader {
        client_id: if csl is Some {
            FA_CLIENT_FILT_CHUNK
        } else {
            FA_CLIENT_CHUNK
        },
        element_size: match csl {
            Some(w) => (ctx.sizeof_addr + w + 4) as u8,
            None => ctx.sizeof_addr,
        },
        max_dblk_page_nelmts_bits: FA_PAGE_BITS,
        num_elmts: n,
        data_blk_addr: UNDEF_ADDR,
    }
}

/// Where the data block of a new fixed array goes.
pub open spec fn fa_dblk_place(ctx: FormatContext, eof: int) -> int {
    align8(align8(eof) + fa_header_size(ctx))
}

/// End of the file after the header and the data block of a new fixed array.
pub open spec fn fa_eof(ctx: FormatContext, n: u64, csl: Option<u8>, eof: int) -> int {
    fa_dblk_place(ctx, eof) + dblk_disk_size(ctx.sizeof_addr as nat, new_fa_header(ctx, n, csl))
}

/// What is known of a new dataset with a fixed array.
pub open spec fn new_fixed(
    d: DatasetInfo,
    ctx: FormatContext,
    n: u64,
    csl: Option<u8>,
    eof: int,
    chunk_dims: Seq<u64>,
) -> bool {
    &&& d.data_addr == UNDEF_ADDR
    &&& d.data_size == 0
    &&& d.chunked is None
    &&& d.btree_v2 is None
    &&& d.fixed_array is Some
    &&& {
        let f = d.fixed_array->0;
        &&& f.chunk_dims@ == chunk_dims
        &&& f.fa_header_addr == align8(eof)
        &&& f.fa_dblk_addr == fa_dblk_place(ctx, eof)
        &&& f.fa_header == (FixedArrayHeader {
            data_blk_addr: f.fa_dblk_addr,
            ..new_fa_header(ctx, n, csl)
        })
        &&& f.fa_dblk.client_id == f.fa_header.client_id
        &&& f.fa_dblk.header_addr == f.fa_header_addr
        &&& f.fa_dblk.elements@ == (if csl is Some {
            Seq::<u64>::empty()
        } else {
            Seq::new(n as nat, |i: int| UNDEF_ADDR)
        })
        &&& f.fa_dblk.filtered_elements@ == (if csl is Some {
            Seq::new(
                n as nat,
                |i: int|
                    FixedArrayFilteredChunkElement {
                        address: UNDEF_ADDR,
                        chunk_size: 0,
                        filter_mask: 0,
                    },
            )
        } else {
            Seq::<FixedArrayFilteredChunkElement>::empty()
        })
        &&& f.chunks_written == 0
    }
}

impl Hdf5Writer {
    /// Whether there is room for the fixed array of a new dataset.
    pub open spec fn fixed_room(self, dims: Seq<u64>, cd: Seq<u64>, csl: Option<u8>) -> bool {
        &&& self.wf()
        &&& self.datasets@.len() < usize::MAX
        &&& (csl matches Some(w) ==> self.ctx.sizeof_addr + w + 4 <= 255)
        &&& (fixed_chunks(dims, cd) matches Ok(n) ==> n <= usize::MAX && fa_eof(
            self.ctx,
            n as u64,
            csl,
            self.allocator.spec_eof() as int,
        ) <= u64::MAX)
        &&& self.allocator.spec_eof() + 16 + fa_header_size(self.ctx) <= u64::MAX
    }

    /// Why a dataset with a fixed array cannot be created.
    pub open spec fn fixed_error(self, name: Seq<char>, dims: Seq<u64>, cd: Seq<u64>) -> Option<
        IoErrorView,
    > {
        if self.name_error(name) is Some {
            self.name_error(name)
        } else {
            match fixed_chunks(dims, cd) {
                Ok(_) => None,
                Err(e) => Some(e),
            }
        }
    }

    fn create_fixed(
        &mut self,
        name: &str,
        datatype: DatatypeMessage,
        dims: &[u64],
        chunk_dims: &[u64],
        pipeline: Option<FilterPipeline>,
        csl: Option<u8>,
    ) -> (r: IoResult<usize>)
        requires
            old(self).fixed_room(dims@, chunk_dims@, csl),
        ensures
            final(self).wf(),
            match r {
                Ok(i) => {
                    let n = fixed_chunks(dims@, chunk_dims@)->Ok_0 as u64;
                    let eof = old(self).allocator.spec_eof() as int;
                    let d = final(self).datasets@[i as int];
                    &&& old(self).fixed_error(name@, dims@, chunk_dims@) is None
                    &&& i == old(self).datasets@.len()
                    &&& added(*old(self), *final(self))
                    &&& bare_dataset(
                        d,
                        name@,
                        datatype,
                        SpaceView { dims: dims@, max_dims: None },
                    )
                    &&& d.filter_pipeline == pipeline
                    &&& new_fixed(d, old(self).ctx, n, csl, eof, chunk_dims@)
                    &&& final(self).allocator.spec_eof() == fa_eof(old(self).ctx, n, csl, eof)
                },
                Err(e) => {
                    &&& old(self).fixed_error(name@, dims@, chunk_dims@) == Some(e@)
                    &&& *final(self) == *old(self)
                },
            },
    {
        match self.ensure_unique_dataset_name(name) {
            Ok(_) => {},
            Err(e) => {
                return Err(e);
            },
        }
        let n: u64 = match count_chunks(dims, chunk_dims) {
            Ok(n) => n,
            Err(e) => {
                return Err(e);
            },
        };
        let mut header: FixedArrayHeader = match csl {
            Some(w) => FixedArrayHeader::new_for_filtered_chunks(&self.ctx, n, w),
            None => FixedArrayHeader::new_for_chunks(&self.ctx, n),
        };
        let sa: u64 = self.ctx.sizeof_addr as u64;
        let ss: u64 = self.ctx.sizeof_size as u64;
        let header_addr: u64 = self.allocator.allocate(8 + ss + sa + 4);
        let block: FixedArrayDataBlock = match csl {
            Some(_) => FixedArrayDataBlock::new_filtered(header_addr, n as usize),
            None => FixedArrayDataBlock::new_unfiltered(header_addr, n as usize),
        };
        let size: u64 = fixed_array_dblk_disk_size(&self.ctx, &header);
        let block_addr: u64 = self.allocator.allocate(size);
        header.data_blk_addr = block_addr;
        assert(csl is Some ==> block.elements@ =~= Seq::<u64>::empty());
        assert(csl is None ==> block.filtered_elements@ =~= Seq::<
            FixedArrayFilteredChunkElement,
        >::empty());
        let idx: usize = self.push_dataset(
            DatasetInfo {
                name: name.to_owned(),
                datatype,
                dataspace: DataspaceMessage::simple(dims),
                obj_header_addr: 0,
                data_addr: UNDEF_ADDR,
                data_size: 0,
                chunked: None,
                fixed_array: Some(
                    FixedArrayDatasetInfo {
                        chunk_dims: copy_dims(chunk_dims),
                        fa_header_addr: header_addr,
                        fa_dblk_addr: block_addr,
                        fa_header: header,
                        fa_dblk: block,
                        chunks_written: 0,
                    },
                ),
                btree_v2: None,
                attributes: Vec::new(),
                obj_header_written_addr: None,
                obj_header_encoded_size: 0,
                filter_pipeline: pipeline,
                append_buffer: Vec::new(),
                append_buffered_frames: 0,
                deleted: false,
                fill_value: None,
                kept_layout: None,
                header_changed: false,
            },
        );
        Ok(idx)
    }

    /// Define a chunked dataset of fixed shape, indexed by a fixed array. Returns
    /// its index.
    pub fn create_fixed_array_dataset(
        &mut self,
        name: &str,
        datatype: DatatypeMessage,
        dims: &[u64],
        chunk_dims: &[u64],
    ) -> (r: IoResult<usize>)
        requires
            old(self).fixed_room(dims@, chunk_dims@, None),
        ensures
            final(self).wf(),
            match r {
                Ok(i) => {
                    let n = fixed_chunks(dims@, chunk_dims@)->Ok_0 as u64;
                    let eof = old(self).allocator.spec_eof() as int;
                    let d = final(self).datasets@[i as int];
                    &&& old(self).fixed_error(name@, dims@, chunk_dims@) is None
                    &&& i == old(self).datasets@.len()
                    &&& added(*old(self), *final(self))
                    &&& bare_dataset(
                        d,
                        name@,
                        datatype,
                        SpaceView { dims: dims@, max_dims: None },
                    )
                    &&& d.filter_pipeline is None
                    &&& new_fixed(d, old(self).ctx, n, None, eof, chunk_dims@)
                    &&& final(self).allocator.spec_eof() == fa_eof(old(self).ctx, n, None, eof)
                },
                Err(e) => {
                    &&& old(self).fixed_error(name@, dims@, chunk_dims@) == Some(e@)
                    &&& *final(self) == *old(self)
                },
            },
    {
        self.create_fixed(name, datatype, dims, chunk_dims, None, None)
    }

    /// Define a compressed chunked dataset of fixed shape, indexed by a filtered
    /// fixed array.
    pub fn create_fixed_array_dataset_with_pipeline(
        &mut self,
        name: &str,
        datatype: DatatypeMessage,
        dims: &[u64],
        chunk_dims: &[u64],
        pipeline: FilterPipeline,
    ) -> (r: IoResult<usize>)
        requires
            byte_len(chunk_dims@, datatype.spec_element_size() as nat) <= u64::MAX,
            old(self).fixed_room(
                dims@,
                chunk_dims@,
                Some(size_width(byte_len(chunk_dims@, datatype.spec_element_size() as nat)) as u8),
            ),
        ensures
            final(self).wf(),
            match r {
                Ok(i) => {
                    let n = fixed_chunks(dims@, chunk_dims@)->Ok_0 as u64;
                    let eof = old(self).allocator.spec_eof() as int;
                    let d = final(self).datasets@[i as int];
                    let csl = Some(
                        size_width(
                            byte_len(chunk_dims@, datatype.spec_element_size() as nat),
                        ) as u8,
                    );
                    &&& old(self).fixed_error(name@, dims@, chunk_dims@) is None
                    &&& i == old(self).datasets@.len()
                    &&& added(*old(self), *final(self))
                    &&& bare_dataset(
                        d,
                        name@,
                        datatype,
                        SpaceView { dims: dims@, max_dims: None },
                    )
                    &&& d.filter_pipeline == Some(pipeline)
                    &&& new_fixed(d, old(self).ctx, n, csl, eof, chunk_dims@)
                    &&& final(self).allocator.spec_eof() == fa_eof(old(self).ctx, n, csl, eof)
                },
                Err(e) => {
                    &&& old(self).fixed_error(name@, dims@, chunk_dims@) == Some(e@)
                    &&& *final(self) == *old(self)
                },
            },
    {
        let csl: u8 = compute_chunk_size_len(byte_count(chunk_dims, datatype.element_size() as u64));
        self.create_fixed(name, datatype, dims, chunk_dims, Some(pipeline), Some(csl))
    }

    /// Define a chunked dataset indexed by a B-tree. Its header and its leaf take
    /// so many bytes. Returns its index.
    pub fn create_btree_v2_dataset(
        &mut self,
        name: &str,
        datatype: DatatypeMessage,
        dims: &[u64],
        max_dims: &[u64],
        chunk_dims: &[u64],
        header_size: u64,
        leaf_size: u64,
    ) -> (r: IoResult<usize>)
        requires
            old(self).wf(),
            old(self).datasets@.len() < usize::MAX,
            old(self).allocator.spec_eof() + 16 + header_size + leaf_size <= u64::MAX,
        ensures
            final(self).wf(),
            match r {
                Ok(i) => {
                    let eof = old(self).allocator.spec_eof() as int;
                    let leaf_at = align8(align8(eof) + header_size);
                    let d = final(self).datasets@[i as int];
                    &&& old(self).name_error(name@) is None
                    &&& i == old(self).datasets@.len()
                    &&& added(*old(self), *final(self))
                    &&& bare_dataset(
                        d,
                        name@,
                        datatype,
                        SpaceView { dims: dims@, max_dims: Some(max_dims@) },
                    )
                    &&& d.filter_pipeline is None
                    &&& d.data_addr == UNDEF_ADDR
                    &&& d.data_size == 0
                    &&& d.chunked is None
                    &&& d.fixed_array is None
                    &&& d.btree_v2 is Some
                    &&& d.btree_v2->0.chunk_dims@ == chunk_dims@
                    &&& d.btree_v2->0.max_dims@ == max_dims@
                    &&& d.btree_v2->0.bt2_header_addr == align8(eof)
                    &&& d.btree_v2->0.bt2_leaf_addr == leaf_at
                    &&& d.btree_v2->0.index@.len() == 0
                    &&& d.btree_v2->0.chunks_written == 0
                    &&& final(self).allocator.spec_eof() == leaf_at + leaf_size
                },
                Err(e) => {
                    &&& old(self).name_error(name@) == Some(e@)
                    &&& *final(self) == *old(self)
                },
            },
    {
        match self.ensure_unique_dataset_name(name) {
            Ok(_) => {},
            Err(e) => {
                return Err(e);
            },
        }
        let header_addr: u64 = self.allocator.allocate(header_size);
        let leaf_addr: u64 = self.allocator.allocate(leaf_size);
        let idx: usize = self.push_dataset(
            DatasetInfo {
                name: name.to_owned(),
                datatype,
                dataspace: DataspaceMessage::extensible(dims, max_dims),
                obj_header_addr: 0,
                data_addr: UNDEF_ADDR,
                data_size: 0,
                chunked: None,
                fixed_array: None,
                btree_v2: Some(
                    Bt2DatasetInfo {
                        chunk_dims: copy_dims(chunk_dims),
                        max_dims: copy_dims(max_dims),
                        bt2_header_addr: header_addr,
                        bt2_leaf_addr: leaf_addr,
                        index: Vec::new(),
                        chunks_written: 0,
                    },
                ),
                attributes: Vec::new(),
                obj_header_written_addr: None,
                obj_header_encoded_size: 0,
                filter_pipeline: None,
                append_buffer: Vec::new(),
                append_buffered_frames: 0,
                deleted: false,
                fill_value: None,
                kept_layout: None,
                header_changed: false,
            },
        );
        Ok(idx)
    }
}

} // verus!
