//! Datasets of a file being written: creation and where their data go.

use crate::format::chunk_index::extensible_array::{
    default_earray_params, earray_valid, lemma_log_of, EaGeometry, EarrayParams, EA_CLS_CHUNK,
    EA_CLS_FILT_CHUNK,
};
use crate::format::messages::dataspace::{copy_dims, DataspaceMessage, SpaceView};
use crate::format::messages::datatype::DatatypeMessage;
use crate::format::messages::filter::{deflate_view, FilterPipeline};
use crate::format::{FormatContext, UNDEF_ADDR};
use crate::io::allocator::{align8, FileAllocator};
use crate::io::array::{element_count, volume};
use crate::io::ea::{
    vacant, vacant_entry, ChunkEntry, EaBlocks, EaIndexBlock, ExtensibleArrayHeader,
};
use crate::io::writer::state::{
    group_placed, link_placed, ChunkedDatasetInfo, DatasetInfo, Hdf5Writer,
};
use crate::io::IoResult;
use std::collections::HashMap;
use vstd::arithmetic::power2::{lemma2_to64, pow2};
use vstd::prelude::*;

verus! {

/// Whether everything of a writer but its datasets and its space is the same.
pub open spec fn same_but_datasets(a: Hdf5Writer, b: Hdf5Writer) -> bool {
    &&& a.ctx == b.ctx
    &&& a.groups == b.groups
    &&& a.hard_links == b.hard_links
    &&& a.root_attributes == b.root_attributes
    &&& a.closed == b.closed
    &&& a.root_group_addr == b.root_group_addr
    &&& a.root_group_encoded_size == b.root_group_encoded_size
}

/// A dataset without storage, attributes or filters.
pub open spec fn bare_dataset(
    d: DatasetInfo,
    name: Seq<char>,
    datatype: DatatypeMessage,
    space: SpaceView,
) -> bool {
    &&& d.name@ == name
    &&& d.datatype == datatype
    &&& d.dataspace@ == space
    &&& d.obj_header_addr == 0
    &&& d.attributes@.len() == 0
    &&& d.obj_header_written_addr is None
    &&& d.obj_header_encoded_size == 0
    &&& d.append_buffer@.len() == 0
    &&& d.append_buffered_frames == 0
    &&& !d.deleted
    &&& d.fill_value is None
    &&& d.kept_layout is None
    &&& !d.header_changed
}

/// Whether a dataset stands in one piece, without filters.
pub open spec fn in_one_piece(d: DatasetInfo, addr: u64, size: u64) -> bool {
    &&& d.data_addr == addr
    &&& d.data_size == size
    &&& d.chunked is None
    &&& d.fixed_array is None
    &&& d.btree_v2 is None
    &&& d.filter_pipeline is None
}

/// Whether dataset `n` has been added to those of `a`.
pub open spec fn added(a: Hdf5Writer, b: Hdf5Writer) -> bool {
    &&& same_but_datasets(a, b)
    &&& b.datasets@.len() == a.datasets@.len() + 1
    &&& b.datasets@.take(a.datasets@.len() as int) == a.datasets@
}

/// Bytes of an array.
pub open spec fn byte_len(dims: Seq<u64>, es: nat) -> nat {
    volume(dims) * es
}

/// Bytes of an array.
pub fn byte_count(dims: &[u64], es: u64) -> (n: u64)
    requires
        byte_len(dims@, es as nat) <= u64::MAX,
    ensures
        n == byte_len(dims@, es as nat),
{
    let ghost v = volume(dims@);
    if es == 0 {
        assert(v * 0 == 0) by (nonlinear_arith);
        return 0;
    }
    match element_count(dims) {
        Some(n) => {
            n * es
        },
        None => {
            assert(v * es > u64::MAX) by (nonlinear_arith)
                requires
                    v > u64::MAX,
                    es >= 1,
            ;
            0
        },
    }
}

/// Whether a file is new: it begins behind the superblock, with addresses and lengths of
/// eight bytes, and holds nothing.
pub open spec fn new_file(w: Hdf5Writer) -> bool {
    &&& w.allocator.spec_eof() == 48
    &&& w.ctx == (FormatContext { sizeof_addr: 8, sizeof_size: 8 })
    &&& w.datasets@.len() == 0
    &&& w.groups@.len() == 0
    &&& w.hard_links@.len() == 0
    &&& w.root_attributes@.len() == 0
    &&& !w.closed
    &&& w.root_group_addr is None
    &&& w.root_group_encoded_size == 0
}

impl Hdf5Writer {
    /// The state of an empty file. The superblock has its place at the start.
    pub fn new() -> (w: Self)
        ensures
            w.wf(),
            new_file(w),
    {
        Hdf5Writer {
            allocator: FileAllocator::new(48),
            ctx: FormatContext { sizeof_addr: 8, sizeof_size: 8 },
            datasets: Vec::new(),
            groups: Vec::new(),
            hard_links: Vec::new(),
            root_attributes: Vec::new(),
            closed: false,
            root_group_addr: None,
            root_group_encoded_size: 0,
        }
    }

    /// Add a dataset.
    pub fn push_dataset(&mut self, info: DatasetInfo) -> (idx: usize)
        requires
            old(self).wf(),
            old(self).datasets@.len() < usize::MAX,
        ensures
            final(self).wf(),
            idx == old(self).datasets@.len(),
            added(*old(self), *final(self)),
            final(self).datasets@[idx as int] == info,
            final(self).allocator == old(self).allocator,
    {
        let idx: usize = self.datasets.len();
        self.datasets.push(info);
        proof {
            let before = *old(self);
            assert(self.datasets@.take(idx as int) =~= before.datasets@);
            assert forall|i: int| 0 <= i < self.groups@.len() implies #[trigger] group_placed(
                self.groups@[i],
                i,
                self.groups@.len(),
                self.datasets@.len(),
            ) by {
                assert(group_placed(
                    before.groups@[i],
                    i,
                    before.groups@.len(),
                    before.datasets@.len(),
                ));
            }
            assert forall|i: int| 0 <= i < self.hard_links@.len() implies #[trigger] link_placed(
                self.hard_links@[i],
                self.groups@.len(),
                self.datasets@.len(),
            ) by {
                assert(link_placed(
                    before.hard_links@[i],
                    before.groups@.len(),
                    before.datasets@.len(),
                ));
            }
        }
        idx
    }

    /// Define a new contiguous dataset. Returns its index.
    ///
    /// The space of the raw data is allocated immediately, so that data can be
    /// written at any time before the file is closed.
    pub fn create_dataset(
        &mut self,
        name: &str,
        datatype: DatatypeMessage,
        dims: &[u64],
    ) -> (r: IoResult<usize>)
        requires
            old(self).wf(),
            old(self).datasets@.len() < usize::MAX,
            old(self).allocator.spec_eof() + 8 + byte_len(
                dims@,
                datatype.spec_element_size() as nat,
            ) <= u64::MAX,
        ensures
            final(self).wf(),
            match r {
                Ok(i) => {
                    let size = byte_len(dims@, datatype.spec_element_size() as nat);
                    let eof = old(self).allocator.spec_eof() as int;
                    let d = final(self).datasets@[i as int];
                    &&& old(self).name_error(name@) is None
                    &&& i == old(self).datasets@.len()
                    &&& added(*old(self), *final(self))
                    &&& bare_dataset(
                        d,
                        name@,
                        datatype,
                        SpaceView { dims: dims@, max_dims: None },
                    )
                    &&& in_one_piece(
                        d,
                        if size > 0 {
                            align8(eof) as u64
                        } else {
                            UNDEF_ADDR
                        },
                        size as u64,
                    )
                    &&& final(self).allocator.spec_eof() == if size > 0 {
                        align8(eof) + size
                    } else {
                        eof
                    }
                },
                Err(e) => {
                    &&& old(self).name_error(name@) == Some(e@)
                    &&& *final(self) == *old(self)
                },
            },
    {
        match self.ensure_unique_dataset_name(name) {
            Ok(_) => {},
            Err(e) => {
                return Err(e);
            },
        }
        let size: u64 = byte_count(dims, datatype.element_size() as u64);
        let addr: u64 = if size > 0 {
            self.allocator.allocate(size)
        } else {
            UNDEF_ADDR
        };
        let dataspace: DataspaceMessage = if dims.len() == 0 {
            assert(dims@ =~= Seq::<u64>::empty());
            DataspaceMessage::scalar()
        } else {
            DataspaceMessage::simple(dims)
        };
        let idx: usize = self.push_dataset(
            DatasetInfo {
                name: name.to_owned(),
                datatype,
                dataspace,
                obj_header_addr: 0,
                data_addr: addr,
                data_size: size,
                chunked: None,
                fixed_array: None,
                btree_v2: None,
                attributes: Vec::new(),
                obj_header_written_addr: None,
                obj_header_encoded_size: 0,
                filter_pipeline: None,
                append_buffer: Vec::new(),
                append_buffered_frames: 0,
                deleted: false,
                fill_value: None,
                kept_layout: None,
                header_changed: false,
            },
        );
        Ok(idx)
    }
}

/// Bytes of the header of an extensible array.
pub open spec fn ea_header_size(ctx: FormatContext) -> int {
    12 + 6 * ctx.sizeof_size + ctx.sizeof_addr + 4
}

/// Bytes of an element of an extensible array.
pub open spec fn ea_element_size(ctx: FormatContext, chunk_size_len: Option<u8>) -> int {
    match chunk_size_len {
        Some(n) => ctx.sizeof_addr + n + 4,
        None => ctx.sizeof_addr as int,
    }
}

/// Bytes of the index block of an extensible array with the usual parameters:
/// four elements, six data blocks and twenty-five super blocks.
pub open spec fn ea_iblk_size(ctx: FormatContext, raw: int) -> int {
    6 + ctx.sizeof_addr + 4 * raw + 31 * ctx.sizeof_addr + 4
}

/// Where the index block goes.
pub open spec fn ea_iblk_place(ctx: FormatContext, eof: int) -> int {
    align8(align8(eof) + ea_header_size(ctx))
}

/// End of the file after the header and the index block.
pub open spec fn ea_eof(ctx: FormatContext, raw: int, eof: int) -> int {
    ea_iblk_place(ctx, eof) + ea_iblk_size(ctx, raw)
}

/// The usual parameters describe an array.
pub proof fn lemma_default_params()
    ensures
        earray_valid(default_earray_params()),
{
    lemma2_to64();
    assert(pow2(4) == 16);
    assert(pow2(2) == 4);
    lemma_log_of(4);
    lemma_log_of(2);
    assert(exists|a: nat| #[trigger] pow2(a) == default_earray_params().data_blk_min_elmts);
    assert(exists|k: nat| #[trigger] pow2(k) == default_earray_params().sup_blk_min_data_ptrs);
}

/// The geometry of an array with the usual parameters.
pub fn default_geometry() -> (g: EaGeometry)
    ensures
        g.wf(),
        g.direct_flat(),
        g.params == default_earray_params(),
        g.idx_blk_elmts == 4,
        g.ndblk_addrs == 6,
        g.nsblk_addrs == 25,
{
    proof {
        lemma_default_params();
    }
    match EaGeometry::new(&EarrayParams::default_params()) {
        Ok(g) => {
            proof {
                lemma2_to64();
                lemma_log_of(4);
                lemma_log_of(2);
                assert forall|u: int| 0 <= u < g.iblock_nsblks implies !#[trigger] g.paged(u) by {
                    let y = (u + 1) as nat / 2;
                    assert(y == 0 || y == 1 || y == 2);
                    assert(pow2(y) <= 4);
                    assert(pow2(y) * pow2(4) <= 64) by (nonlinear_arith)
                        requires
                            0 <= pow2(y) <= 4,
                            pow2(4) == 16,
                    ;
                }
            }
            g
        },
        Err(_) => {
            assert(false);
            EaGeometry {
                idx_blk_elmts: 0,
                iblock_nsblks: 0,
                ndblk_addrs: 0,
                nsblk_addrs: 0,
                dblk_page_nelmts: 0,
                sblk: Vec::new(),
                params: EarrayParams::default_params(),
            }
        },
    }
}

/// Whether an index is that of a new array at these addresses.
pub open spec fn new_ea_index(
    c: ChunkedDatasetInfo,
    ctx: FormatContext,
    chunk_size_len: Option<u8>,
    eof: int,
) -> bool {
    let raw = ea_element_size(ctx, chunk_size_len);
    &&& c.wf()
    &&& c.earray_params == default_earray_params()
    &&& c.ea_header_addr == align8(eof)
    &&& c.ea_iblk_addr == ea_iblk_place(ctx, eof)
    &&& c.ndblk_addrs == 6
    &&& c.ea_header == (ExtensibleArrayHeader {
        class_id: if chunk_size_len is Some {
            EA_CLS_FILT_CHUNK
        } else {
            EA_CLS_CHUNK
        },
        raw_elmt_size: raw as u8,
        params: default_earray_params(),
        num_sblks_created: 0,
        size_sblks_created: 0,
        num_dblks_created: 0,
        size_dblks_created: 0,
        max_idx_set: 0,
        num_elmts_realized: 0,
        idx_blk_addr: ea_iblk_place(ctx, eof) as u64,
    })
    &&& c.ea_iblk.elements@ == Seq::new(4, |i: int| vacant())
    &&& c.ea_iblk.dblk_addrs@ == Seq::new(6, |i: int| UNDEF_ADDR)
    &&& c.ea_iblk.sblk_addrs@ == Seq::new(25, |i: int| UNDEF_ADDR)
    &&& c.blocks.supers@ == Map::<u64, crate::io::ea::EaSuperBlock>::empty()
    &&& c.blocks.data@ == Map::<u64, Vec<ChunkEntry>>::empty()
    &&& c.blocks.pages@ == Map::<u64, Vec<ChunkEntry>>::empty()
    &&& c.chunks_written == 0
    &&& c.filtered == chunk_size_len is Some
    &&& c.chunk_size_len == match chunk_size_len {
        Some(n) => n,
        None => 0,
    }
}

pub fn undefined(n: usize) -> (v: Vec<u64>)
    ensures
        v@ == Seq::new(n as nat, |i: int| UNDEF_ADDR),
{
    let mut v: Vec<u64> = Vec::new();
    let mut i: usize = 0;
    while i < n
        invariant
            i <= n,
            v@ == Seq::new(i as nat, |i: int| UNDEF_ADDR),
        decreases n - i,
    {
        v.push(UNDEF_ADDR);
        assert(v@ =~= Seq::new((i + 1) as nat, |i: int| UNDEF_ADDR));
        i = i + 1;
    }
    v
}

/// An index without chunks.
fn empty_index() -> (r: (EaIndexBlock, EaBlocks))
    ensures
        r.0.elements@ == Seq::new(4, |i: int| vacant()),
        r.0.dblk_addrs@ == Seq::new(6, |i: int| UNDEF_ADDR),
        r.0.sblk_addrs@ == Seq::new(25, |i: int| UNDEF_ADDR),
        r.1.supers@ == Map::<u64, crate::io::ea::EaSuperBlock>::empty(),
        r.1.data@ == Map::<u64, Vec<ChunkEntry>>::empty(),
        r.1.pages@ == Map::<u64, Vec<ChunkEntry>>::empty(),
{
    let mut elements: Vec<ChunkEntry> = Vec::new();
    elements.push(vacant_entry());
    elements.push(vacant_entry());
    elements.push(vacant_entry());
    elements.push(vacant_entry());
    assert(elements@ =~= Seq::new(4, |i: int| vacant()));
    (
        EaIndexBlock { elements, dblk_addrs: undefined(6), sblk_addrs: undefined(25) },
        EaBlocks { supers: HashMap::new(), data: HashMap::new(), pages: HashMap::new() },
    )
}

/// How many bytes the size of a filtered chunk takes, if a chunk has `n` bytes
/// without filters: one byte more than the size itself, up to eight.
pub open spec fn size_width(n: nat) -> nat
    decreases n,
{
    let w = 1 + bytes_of(n);
    if w > 8 {
        8
    } else {
        w
    }
}

/// How many bytes a number takes, at least one.
pub open spec fn bytes_of(n: nat) -> nat
    decreases n,
{
    if n < 256 {
        1
    } else {
        1 + bytes_of(n / 256)
    }
}

/// How many bytes the size of a filtered chunk takes.
pub fn compute_chunk_size_len(n: u64) -> (w: u8)
    ensures
        w == size_width(n as nat),
        2 <= w <= 8,
{
    let mut w: u8 = 1;
    let mut m: u64 = n;
    while m >= 256 && w < 9
        invariant
            1 <= w <= 9,
            bytes_of(n as nat) == (w - 1) + bytes_of(m as nat),
        decreases m,
    {
        m = m / 256;
        w = w + 1;
    }
    proof {
        lemma_bytes_positive(m as nat);
    }
    if w >= 8 {
        8
    } else {
        w + 1
    }
}

proof fn lemma_bytes_positive(n: nat)
    ensures
        bytes_of(n) >= 1,
        n < 256 ==> bytes_of(n) == 1,
    decreases n,
{
    if n >= 256 {
        lemma_bytes_positive(n / 256);
    }
}

/// What is known of a new dataset with an extensible array.
pub open spec fn new_chunked(
    d: DatasetInfo,
    ctx: FormatContext,
    chunk_size_len: Option<u8>,
    eof: int,
    max_dims: Seq<u64>,
    chunk_dims: Seq<u64>,
) -> bool {
    &&& d.data_addr == UNDEF_ADDR
    &&& d.data_size == 0
    &&& d.fixed_array is None
    &&& d.btree_v2 is None
    &&& d.chunked is Some
    &&& new_ea_index(d.chunked->0, ctx, chunk_size_len, eof)
    &&& d.chunked->0.chunk_dims@ == chunk_dims
    &&& d.chunked->0.max_dims@ == max_dims
}

impl Hdf5Writer {
    /// Whether there is room for the index of a new dataset.
    pub open spec fn index_room(self, chunk_size_len: Option<u8>) -> bool {
        &&& self.wf()
        &&& self.datasets@.len() < usize::MAX
        &&& ea_element_size(self.ctx, chunk_size_len) <= 255
        &&& ea_eof(
            self.ctx,
            ea_element_size(self.ctx, chunk_size_len),
            self.allocator.spec_eof() as int,
        ) <= u64::MAX
    }

    /// Add a dataset with an extensible array.
    pub fn push_chunked(
        &mut self,
        name: &str,
        datatype: DatatypeMessage,
        dims: &[u64],
        max_dims: &[u64],
        chunk_dims: &[u64],
        pipeline: Option<FilterPipeline>,
        chunk_size_len: Option<u8>,
    ) -> (idx: usize)
        requires
            old(self).index_room(chunk_size_len),
        ensures
            final(self).wf(),
            ({
                let eof = old(self).allocator.spec_eof() as int;
                let d = final(self).datasets@[idx as int];
                &&& idx == old(self).datasets@.len()
                &&& added(*old(self), *final(self))
                &&& bare_dataset(
                    d,
                    name@,
                    datatype,
                    SpaceView { dims: dims@, max_dims: Some(max_dims@) },
                )
                &&& d.filter_pipeline == pipeline
                &&& new_chunked(
                    d,
                    old(self).ctx,
                    chunk_size_len,
                    eof,
                    max_dims@,
                    chunk_dims@,
                )
                &&& final(self).allocator.spec_eof() == ea_eof(
                    old(self).ctx,
                    ea_element_size(old(self).ctx, chunk_size_len),
                    eof,
                )
            }),
    {
        let sa: u64 = self.ctx.sizeof_addr as u64;
        let ss: u64 = self.ctx.sizeof_size as u64;
        let raw: u8 = match chunk_size_len {
            Some(n) => self.ctx.sizeof_addr + n + 4,
            None => self.ctx.sizeof_addr,
        };
        let header_addr: u64 = self.allocator.allocate(12 + 6 * ss + sa + 4);
        let iblk_addr: u64 = self.allocator.allocate(6 + sa + 4 * (raw as u64) + 31 * sa + 4);
        let params = EarrayParams::default_params();
        let (iblk, blocks) = empty_index();
        let geo: EaGeometry = default_geometry();
        let header = ExtensibleArrayHeader {
            class_id: match chunk_size_len {
                Some(_) => EA_CLS_FILT_CHUNK,
                None => EA_CLS_CHUNK,
            },
            raw_elmt_size: raw,
            params,
            num_sblks_created: 0,
            size_sblks_created: 0,
            num_dblks_created: 0,
            size_dblks_created: 0,
            max_idx_set: 0,
            num_elmts_realized: 0,
            idx_blk_addr: iblk_addr,
        };
        self.push_dataset(
            DatasetInfo {
                name: name.to_owned(),
                datatype,
                dataspace: DataspaceMessage::extensible(dims, max_dims),
                obj_header_addr: 0,
                data_addr: UNDEF_ADDR,
                data_size: 0,
                chunked: Some(
                    ChunkedDatasetInfo {
                        chunk_dims: copy_dims(chunk_dims),
                        max_dims: copy_dims(max_dims),
                        earray_params: params,
                        geo,
                        ea_header_addr: header_addr,
                        ea_iblk_addr: iblk_addr,
                        ndblk_addrs: 6,
                        ea_header: header,
                        ea_iblk: iblk,
                        blocks,
                        chunks_written: 0,
                        filtered: chunk_size_len.is_some(),
                        chunk_size_len: match chunk_size_len {
                            Some(n) => n,
                            None => 0,
                        },
                    },
                ),
                fixed_array: None,
                btree_v2: None,
                attributes: Vec::new(),
                obj_header_written_addr: None,
                obj_header_encoded_size: 0,
                filter_pipeline: pipeline,
                append_buffer: Vec::new(),
                append_buffered_frames: 0,
                deleted: false,
                fill_value: None,
                kept_layout: None,
                header_changed: false,
            },
        )
    }

    /// Define a new chunked dataset with an extensible array. Returns its index.
    pub fn create_chunked_dataset(
        &mut self,
        name: &str,
        datatype: DatatypeMessage,
        dims: &[u64],
        max_dims: &[u64],
        chunk_dims: &[u64],
    ) -> (r: IoResult<usize>)
        requires
            old(self).index_room(None),
        ensures
            final(self).wf(),
            match r {
                Ok(i) => {
                    let eof = old(self).allocator.spec_eof() as int;
                    let d = final(self).datasets@[i as int];
                    &&& old(self).name_error(name@) is None
                    &&& i == old(self).datasets@.len()
                    &&& added(*old(self), *final(self))
                    &&& bare_dataset(
                        d,
                        name@,
                        datatype,
                        SpaceView { dims: dims@, max_dims: Some(max_dims@) },
                    )
                    &&& d.filter_pipeline is None
                    &&& new_chunked(d, old(self).ctx, None, eof, max_dims@, chunk_dims@)
                    &&& final(self).allocator.spec_eof() == ea_eof(
                        old(self).ctx,
                        ea_element_size(old(self).ctx, None),
                        eof,
                    )
                },
                Err(e) => {
                    &&& old(self).name_error(name@) == Some(e@)
                    &&& *final(self) == *old(self)
                },
            },
    {
        match self.ensure_unique_dataset_name(name) {
            Ok(_) => {},
            Err(e) => {
                return Err(e);
            },
        }
        Ok(self.push_chunked(name, datatype, dims, max_dims, chunk_dims, None, None))
    }

    /// Create a chunked dataset with a filter pipeline.
    pub fn create_chunked_dataset_with_pipeline(
        &mut self,
        name: &str,
        datatype: DatatypeMessage,
        dims: &[u64],
        max_dims: &[u64],
        chunk_dims: &[u64],
        pipeline: FilterPipeline,
    ) -> (r: IoResult<usize>)
        requires
            byte_len(chunk_dims@, datatype.spec_element_size() as nat) <= u64::MAX,
            old(self).index_room(
                Some(
                    size_width(
                        byte_len(chunk_dims@, datatype.spec_element_size() as nat),
                    ) as u8,
                ),
            ),
        ensures
            final(self).wf(),
            match r {
                Ok(i) => {
                    let eof = old(self).allocator.spec_eof() as int;
                    let d = final(self).datasets@[i as int];
                    let csl = Some(
                        size_width(
                            byte_len(chunk_dims@, datatype.spec_element_size() as nat),
                        ) as u8,
                    );
                    &&& old(self).name_error(name@) is None
                    &&& i == old(self).datasets@.len()
                    &&& added(*old(self), *final(self))
                    &&& bare_dataset(
                        d,
                        name@,
                        datatype,
                        SpaceView { dims: dims@, max_dims: Some(max_dims@) },
                    )
                    &&& d.filter_pipeline == Some(pipeline)
                    &&& new_chunked(d, old(self).ctx, csl, eof, max_dims@, chunk_dims@)
                    &&& final(self).allocator.spec_eof() == ea_eof(
                        old(self).ctx,
                        ea_element_size(old(self).ctx, csl),
                        eof,
                    )
                },
                Err(e) => {
                    &&& old(self).name_error(name@) == Some(e@)
                    &&& *final(self) == *old(self)
                },
            },
    {
        match self.ensure_unique_dataset_name(name) {
            Ok(_) => {},
            Err(e) => {
                return Err(e);
            },
        }
        let csl: u8 = compute_chunk_size_len(byte_count(chunk_dims, datatype.element_size() as u64));
        Ok(
            self.push_chunked(
                name,
                datatype,
                dims,
                max_dims,
                chunk_dims,
                Some(pipeline),
                Some(csl),
            ),
        )
    }

    /// Create a chunked dataset whose chunks are deflated.
    pub fn create_chunked_dataset_compressed(
        &mut self,
        name: &str,
        datatype: DatatypeMessage,
        dims: &[u64],
        max_dims: &[u64],
        chunk_dims: &[u64],
        compression_level: u32,
    ) -> (r: IoResult<usize>)
        requires
            byte_len(chunk_dims@, datatype.spec_element_size() as nat) <= u64::MAX,
            old(self).index_room(
                Some(
                    size_width(
                        byte_len(chunk_dims@, datatype.spec_element_size() as nat),
                    ) as u8,
                ),
            ),
        ensures
            final(self).wf(),
            match r {
                Ok(i) => {
                    let eof = old(self).allocator.spec_eof() as int;
                    let d = final(self).datasets@[i as int];
                    let csl = Some(
                        size_width(
                            byte_len(chunk_dims@, datatype.spec_element_size() as nat),
                        ) as u8,
                    );
                    &&& old(self).name_error(name@) is None
                    &&& i == old(self).datasets@.len()
                    &&& added(*old(self), *final(self))
                    &&& bare_dataset(
                        d,
                        name@,
                        datatype,
                        SpaceView { dims: dims@, max_dims: Some(max_dims@) },
                    )
                    &&& d.filter_pipeline is Some
                    &&& d.filter_pipeline->0@ == deflate_view(compression_level)
                    &&& new_chunked(d, old(self).ctx, csl, eof, max_dims@, chunk_dims@)
                    &&& final(self).allocator.spec_eof() == ea_eof(
                        old(self).ctx,
                        ea_element_size(old(self).ctx, csl),
                        eof,
                    )
                },
                Err(e) => {
                    &&& old(self).name_error(name@) == Some(e@)
                    &&& *final(self) == *old(self)
                },
            },
    {
        match self.ensure_unique_dataset_name(name) {
            Ok(_) => {},
            Err(e) => {
                return Err(e);
            },
        }
        let csl: u8 = compute_chunk_size_len(byte_count(chunk_dims, datatype.element_size() as u64));
        Ok(
            self.push_chunked(
                name,
                datatype,
                dims,
                max_dims,
                chunk_dims,
                Some(FilterPipeline::deflate(compression_level)),
                Some(csl),
            ),
        )
    }
}

} // verus!
