//! Data layout messages.

use crate::format::chunk_index::extensible_array::EarrayParams;
use crate::format::messages::dataspace::copy_dims;
use vstd::prelude::*;
use vstd::slice::slice_to_vec;

verus! {

/// How the chunks of a dataset are found.
#[derive(Debug, Clone, Copy, PartialEq, Eq, Structural)]
pub enum ChunkIndexType {
    /// There is one chunk.
    SingleChunk,
    /// All chunks stand one after the other.
    Implicit,
    /// Through a fixed array.
    FixedArray,
    /// Through an extensible array.
    ExtensibleArray,
    /// Through a version 2 B-tree.
    BTreeV2,
}

/// Creation parameters of a fixed array.
#[derive(Debug, Clone, Copy, PartialEq, Eq, Structural)]
pub struct FixedArrayParams {
    /// Elements of a page, as a power of two.
    pub max_dblk_page_nelmts_bits: u8,
}

/// Where the data of a dataset stand.
#[derive(Debug, PartialEq, Eq)]
pub enum DataLayoutMessage {
    /// In one piece.
    Contiguous { address: u64, size: u64 },
    /// In the message.
    Compact { data: Vec<u8> },
    /// In chunks that a version 1 B-tree finds. The last chunk dimension is the
    /// size of an element.
    ChunkedV3 { chunk_dims: Vec<u64>, b_tree_address: u64 },
    /// In chunks that an index finds. The last chunk dimension is the size of an
    /// element.
    ChunkedV4 {
        chunk_dims: Vec<u64>,
        index_address: u64,
        index_type: ChunkIndexType,
        earray_params: Option<EarrayParams>,
        farray_params: Option<FixedArrayParams>,
    },
}

/// What a layout says.
#[verifier::ext_equal]
pub enum LayoutView {
    Contiguous { address: u64, size: u64 },
    Compact { data: Seq<u8> },
    ChunkedV3 { chunk_dims: Seq<u64>, b_tree_address: u64 },
    ChunkedV4 {
        chunk_dims: Seq<u64>,
        index_address: u64,
        index_type: ChunkIndexType,
        earray_params: Option<EarrayParams>,
        farray_params: Option<FixedArrayParams>,
    },
}

impl View for DataLayoutMessage {
    type V = LayoutView;

    open spec fn view(&self) -> LayoutView {
        match *self {
            DataLayoutMessage::Contiguous { address, size } => LayoutView::Contiguous {
                address,
                size,
            },
            DataLayoutMessage::Compact { data } => LayoutView::Compact { data: data@ },
            DataLayoutMessage::ChunkedV3 { chunk_dims, b_tree_address } => LayoutView::ChunkedV3 {
                chunk_dims: chunk_dims@,
                b_tree_address,
            },
            DataLayoutMessage::ChunkedV4 {
                chunk_dims,
                index_address,
                index_type,
                earray_params,
                farray_params,
            } => LayoutView::ChunkedV4 {
                chunk_dims: chunk_dims@,
                index_address,
                index_type,
                earray_params,
                farray_params,
            },
        }
    }
}

impl Clone for DataLayoutMessage {
    fn clone(&self) -> (r: Self)
        ensures
            r@ == self@,
    {
        match self {
            DataLayoutMessage::Contiguous { address, size } => DataLayoutMessage::Contiguous {
                address: *address,
                size: *size,
            },
            DataLayoutMessage::Compact { data } => DataLayoutMessage::Compact {
                data: slice_to_vec(data.as_slice()),
            },
            DataLayoutMessage::ChunkedV3 { chunk_dims, b_tree_address } => {
                DataLayoutMessage::ChunkedV3 {
                    chunk_dims: copy_dims(chunk_dims.as_slice()),
                    b_tree_address: *b_tree_address,
                }
            },
            DataLayoutMessage::ChunkedV4 {
                chunk_dims,
                index_address,
                index_type,
                earray_params,
                farray_params,
            } => DataLayoutMessage::ChunkedV4 {
                chunk_dims: copy_dims(chunk_dims.as_slice()),
                index_address: *index_address,
                index_type: *index_type,
                earray_params: *earray_params,
                farray_params: *farray_params,
            },
        }
    }
}

} // verus!
