//! What the writer knows of the file it writes.

use crate::format::chunk_index::extensible_array::{EaGeometry, EarrayParams};
use crate::format::chunk_index::fixed_array::{FixedArrayDataBlock, FixedArrayHeader};
use crate::format::messages::attribute::AttributeMessage;
use crate::format::messages::data_layout::DataLayoutMessage;
use crate::format::messages::dataspace::DataspaceMessage;
use crate::format::messages::datatype::DatatypeMessage;
use crate::format::messages::filter::FilterPipeline;
use crate::format::FormatContext;
use crate::io::allocator::FileAllocator;
use crate::io::ea::{ea_view, EaBlocks, EaIndexBlock, EaView, EaWidths, ExtensibleArrayHeader};
use crate::io::reader::chunked::smaller;
use crate::io::writer::datasets::byte_len;
use vstd::prelude::*;

verus! {

/// Metadata for a dataset being written.
pub struct DatasetInfo {
    /// Path of the dataset, without a slash at its start.
    pub name: String,
    /// Element datatype.
    pub datatype: DatatypeMessage,
    /// Dataspace (dimensionality).
    pub dataspace: DataspaceMessage,
    /// File offset of the dataset's object header (set on finalize).
    pub obj_header_addr: u64,
    /// File offset of the raw data block (contiguous only).
    pub data_addr: u64,
    /// Size of the raw data in bytes (contiguous only).
    pub data_size: u64,
    /// Chunked storage indexed by an extensible array.
    pub chunked: Option<ChunkedDatasetInfo>,
    /// Chunked storage indexed by a fixed array.
    pub fixed_array: Option<FixedArrayDatasetInfo>,
    /// Chunked storage indexed by a B-tree.
    pub btree_v2: Option<Bt2DatasetInfo>,
    /// Attributes attached to this dataset.
    pub attributes: Vec<AttributeMessage>,
    /// File offset where the object header was written.
    pub obj_header_written_addr: Option<u64>,
    /// Encoded size of the object header.
    pub obj_header_encoded_size: usize,
    /// Filter pipeline for compressed chunks.
    pub filter_pipeline: Option<FilterPipeline>,
    /// Frames that do not fill a chunk yet.
    pub append_buffer: Vec<u8>,
    /// Number of frames in `append_buffer`.
    pub append_buffered_frames: u64,
    /// Soft-deleted: excluded from the finished file.
    pub deleted: bool,
    /// User-defined fill value, one element wide.
    pub fill_value: Option<Vec<u8>>,
    /// Layout of a dataset of a file that was opened again, where nothing else is known of
    /// its storage: the data and their index stay where the layout says.
    pub kept_layout: Option<DataLayoutMessage>,
    /// Whether the attributes, the fill value or the shape have changed since the header was
    /// written.
    pub header_changed: bool,
}

/// Runtime metadata for a chunked dataset that can grow.
pub struct ChunkedDatasetInfo {
    /// Chunk dimension sizes.
    pub chunk_dims: Vec<u64>,
    /// Maximum dimensions.
    pub max_dims: Vec<u64>,
    /// Extensible array parameters.
    pub earray_params: EarrayParams,
    /// How the array spreads over blocks.
    pub geo: EaGeometry,
    /// File offset of the array header.
    pub ea_header_addr: u64,
    /// File offset of the index block.
    pub ea_iblk_addr: u64,
    /// Number of data block address slots in the index block.
    pub ndblk_addrs: usize,
    /// The array header.
    pub ea_header: ExtensibleArrayHeader,
    /// The index block.
    pub ea_iblk: EaIndexBlock,
    /// The blocks of the array that have been read or created.
    pub blocks: EaBlocks,
    /// Number of chunks written so far.
    pub chunks_written: u64,
    /// Whether the entries are those of filtered chunks.
    pub filtered: bool,
    /// Bytes of the size of a filtered chunk.
    pub chunk_size_len: u8,
}

/// Runtime metadata for a chunked dataset of fixed shape.
pub struct FixedArrayDatasetInfo {
    /// Chunk dimension sizes.
    pub chunk_dims: Vec<u64>,
    /// File offset of the array header.
    pub fa_header_addr: u64,
    /// File offset of the data block.
    pub fa_dblk_addr: u64,
    /// The array header.
    pub fa_header: FixedArrayHeader,
    /// The data block.
    pub fa_dblk: FixedArrayDataBlock,
    /// Number of chunks written so far.
    pub chunks_written: u64,
}

/// A chunk of a B-tree index.
#[derive(Debug)]
pub struct Bt2Record {
    /// Chunk coordinates.
    pub coords: Vec<u64>,
    /// Address of the chunk.
    pub addr: u64,
}

/// Runtime metadata for a chunked dataset that can grow along several
/// dimensions.
pub struct Bt2DatasetInfo {
    /// Chunk dimension sizes.
    pub chunk_dims: Vec<u64>,
    /// Maximum dimensions.
    pub max_dims: Vec<u64>,
    /// File offset of the B-tree header.
    pub bt2_header_addr: u64,
    /// File offset of the leaf node.
    pub bt2_leaf_addr: u64,
    /// The chunks, in the order in which they were written.
    pub index: Vec<Bt2Record>,
    /// Number of chunks written so far.
    pub chunks_written: u64,
}

/// Metadata for a group being written.
pub struct GroupInfo {
    /// Full path of this group, with a slash at its start.
    pub name: String,
    /// The parent group, or `None` for a child of the root group.
    pub parent: Option<usize>,
    /// Child datasets.
    pub child_datasets: Vec<usize>,
    /// Child groups.
    pub child_groups: Vec<usize>,
    /// File offset of this group's object header (set on finalize).
    pub obj_header_addr: u64,
    /// Soft-deleted: excluded from the finished file.
    pub deleted: bool,
    /// Attributes attached to this group.
    pub attributes: Vec<AttributeMessage>,
}

/// The object a hard link resolves to.
#[derive(Debug, Clone, Copy, PartialEq, Eq, Structural)]
pub enum HardLinkTarget {
    /// A dataset of the writer.
    Dataset(usize),
    /// A group of the writer.
    Group(usize),
}

/// An additional name, in some group, for an object that already exists under
/// its own name.
pub struct HardLink {
    /// Parent group (`None` for the root group).
    pub parent: Option<usize>,
    /// Leaf name of the link within the parent group.
    pub name: String,
    /// Object this link resolves to.
    pub target: HardLinkTarget,
}

/// The state of a file being written.
pub struct Hdf5Writer {
    /// Space of the file.
    pub allocator: FileAllocator,
    /// Widths of addresses and lengths.
    pub ctx: FormatContext,
    /// The datasets, deleted ones included.
    pub datasets: Vec<DatasetInfo>,
    /// The groups, deleted ones included.
    pub groups: Vec<GroupInfo>,
    /// The hard links.
    pub hard_links: Vec<HardLink>,
    /// Attributes of the root group.
    pub root_attributes: Vec<AttributeMessage>,
    /// Whether the file has been finished.
    pub closed: bool,
    /// Address of the root group's object header, once written.
    pub root_group_addr: Option<u64>,
    /// Size of the encoded root group object header.
    pub root_group_encoded_size: usize,
}

impl ChunkedDatasetInfo {
    /// What the index says.
    pub open spec fn index(self) -> EaView {
        ea_view(self.ea_iblk, self.blocks)
    }

    /// The index has the shape of its geometry.
    pub open spec fn wf(self) -> bool {
        &&& self.geo.wf()
        &&& self.geo.direct_flat()
        &&& self.geo.params == self.earray_params
        &&& self.index().shaped(self.geo)
    }

    /// Bytes of a chunk whose elements take `es` bytes, at most the largest number.
    pub open spec fn chunk_bytes(self, es: nat) -> u64 {
        smaller(byte_len(self.chunk_dims@, es), u64::MAX as nat) as u64
    }

    /// Widths of the fields of the index.
    pub open spec fn widths(self, ctx: FormatContext) -> EaWidths {
        EaWidths { sizeof_addr: ctx.sizeof_addr, raw_elmt_size: self.ea_header.raw_elmt_size }
    }
}

impl DatasetInfo {
    /// The index of the dataset, if it has one, has the shape of its geometry.
    pub open spec fn wf(self) -> bool {
        self.chunked matches Some(c) ==> c.wf()
    }
}

/// Whether a group's parent and children are groups and datasets of the file,
/// parents before children.
pub open spec fn group_placed(g: GroupInfo, i: int, ngroups: nat, ndatasets: nat) -> bool {
    &&& (g.parent matches Some(p) ==> p < i)
    &&& forall|k: int| 0 <= k < g.child_groups@.len() ==> i < #[trigger] g.child_groups@[k] < ngroups
    &&& forall|k: int| 0 <= k < g.child_datasets@.len() ==> #[trigger] g.child_datasets@[k] < ndatasets
}

/// Whether a hard link's parent and target are objects of the file.
pub open spec fn link_placed(l: HardLink, ngroups: nat, ndatasets: nat) -> bool {
    &&& (l.parent matches Some(p) ==> p < ngroups)
    &&& match l.target {
        HardLinkTarget::Dataset(i) => i < ndatasets,
        HardLinkTarget::Group(i) => i < ngroups,
    }
}

impl Hdf5Writer {
    /// Every index of the catalog is that of an object.
    pub open spec fn wf(self) -> bool {
        &&& self.allocator.wf()
        &&& forall|i: int|
            0 <= i < self.groups@.len() ==> #[trigger] group_placed(
                self.groups@[i],
                i,
                self.groups@.len(),
                self.datasets@.len(),
            )
        &&& forall|i: int|
            0 <= i < self.hard_links@.len() ==> #[trigger] link_placed(
                self.hard_links@[i],
                self.groups@.len(),
                self.datasets@.len(),
            )
    }
}

} // verus!
