//! Reading whole datasets: what has to be read, and what becomes of it.

use crate::format::chunk_index::extensible_array::EarrayParams;
use crate::format::messages::data_layout::{ChunkIndexType, DataLayoutMessage, LayoutView};
use crate::format::messages::dataspace::copy_dims;
use crate::format::messages::datatype::DatatypeMessage;
use crate::format::messages::fill_value::{tiled, tiled_fill};
use crate::format::nbit_scaleoffset::conversion::{
    apply_datatype_conversion, conversion, datatype_needs_bit_conversion, needs_conversion,
    Conversion,
};
use crate::format::UNDEF_ADDR;
use crate::io::array::{linear, place, volume};
use crate::io::chunks::{
    assembled, chunked, chunks_of, grid, lemma_chunks_roundtrip, owner, shaped,
};
use crate::io::reader::chunked::{
    chunk_views, located, place_located, place_numbered, saturating_byte_len, smaller, LocatedChunk,
    ReadRange,
};
use crate::io::reader::messages::DatasetReadInfo;
use crate::io::writer::datasets::byte_len;
use crate::io::{invalid_state, IoError, IoErrorView, IoResult};
use crate::text::{decimal, Text};
use vstd::prelude::*;
use vstd::slice::{slice_subrange, slice_to_vec};

verus! {

/// What has to be read for a dataset.
#[derive(Debug)]
pub enum ReadPlan {
    /// Nothing: these are the data.
    Bytes(Vec<u8>),
    /// Nothing: the data are so many bytes of the fill value.
    Fill(u64),
    /// One piece. Filters are undone afterwards if `filtered`.
    Piece { range: ReadRange, filtered: bool },
    /// Chunks that a fixed array finds.
    FixedArray { chunk_dims: Vec<u64>, index: u64 },
    /// Chunks that an extensible array finds.
    ExtensibleArray { chunk_dims: Vec<u64>, index: u64, params: EarrayParams },
    /// Chunks that a version-2 B-tree finds.
    BTreeV2 { chunk_dims: Vec<u64>, index: u64 },
    /// Chunks that a version-1 B-tree finds.
    BTreeV1 { chunk_dims: Vec<u64>, index: u64 },
}

/// What has to be read for a dataset.
#[verifier::ext_equal]
pub enum PlanView {
    Bytes(Seq<u8>),
    Fill(u64),
    Piece { range: ReadRange, filtered: bool },
    FixedArray { chunk_dims: Seq<u64>, index: u64 },
    ExtensibleArray { chunk_dims: Seq<u64>, index: u64, params: EarrayParams },
    BTreeV2 { chunk_dims: Seq<u64>, index: u64 },
    BTreeV1 { chunk_dims: Seq<u64>, index: u64 },
}

impl View for ReadPlan {
    type V = PlanView;

    open spec fn view(&self) -> PlanView {
        match *self {
            ReadPlan::Bytes(b) => PlanView::Bytes(b@),
            ReadPlan::Fill(n) => PlanView::Fill(n),
            ReadPlan::Piece { range, filtered } => PlanView::Piece { range, filtered },
            ReadPlan::FixedArray { chunk_dims, index } => PlanView::FixedArray {
                chunk_dims: chunk_dims@,
                index,
            },
            ReadPlan::ExtensibleArray { chunk_dims, index, params } => PlanView::ExtensibleArray {
                chunk_dims: chunk_dims@,
                index,
                params,
            },
            ReadPlan::BTreeV2 { chunk_dims, index } => PlanView::BTreeV2 {
                chunk_dims: chunk_dims@,
                index,
            },
            ReadPlan::BTreeV1 { chunk_dims, index } => PlanView::BTreeV1 {
                chunk_dims: chunk_dims@,
                index,
            },
        }
    }
}

/// Bytes of a dataset, at most the largest number.
pub open spec fn total_bytes(dims: Seq<u64>, es: nat) -> u64 {
    smaller(byte_len(dims, es), u64::MAX as nat) as u64
}

/// What has to be read for a dataset that is one chunk. A chunk that was never
/// written holds the fill value; without one there are no data.
pub open spec fn single_chunk(index: u64, total: u64, filters: bool, fill: bool) -> PlanView {
    if index == UNDEF_ADDR || total == 0 {
        if fill && total > 0 {
            PlanView::Fill(total)
        } else {
            PlanView::Bytes(Seq::empty())
        }
    } else if filters {
        PlanView::Piece {
            range: ReadRange {
                addr: index,
                len: smaller((2 * total) as nat, u64::MAX as nat) as u64,
                exact: false,
            },
            filtered: true,
        }
    } else {
        PlanView::Piece {
            range: ReadRange { addr: index, len: total, exact: true },
            filtered: false,
        }
    }
}

/// What has to be read for a dataset, or why it cannot be read.
pub open spec fn plan_of(
    layout: LayoutView,
    dims: Seq<u64>,
    es: nat,
    filters: bool,
    fill: bool,
) -> Result<PlanView, IoErrorView> {
    let total = total_bytes(dims, es);
    let none = PlanView::Bytes(Seq::empty());
    match layout {
        LayoutView::Contiguous { address, size } => if address == UNDEF_ADDR {
            Ok(none)
        } else {
            Ok(
                PlanView::Piece {
                    range: ReadRange { addr: address, len: size, exact: true },
                    filtered: false,
                },
            )
        },
        LayoutView::Compact { data } => Ok(PlanView::Bytes(data)),
        LayoutView::ChunkedV3 { chunk_dims, b_tree_address } => {
            let cd = chunk_dims.drop_last();
            if cd.len() != dims.len() {
                Err(
                    IoErrorView::InvalidState(
                        "B-tree-v1 dataset rank "@ + decimal(dims.len())
                            + " does not match chunk rank "@ + decimal(cd.len()),
                    ),
                )
            } else if b_tree_address == UNDEF_ADDR || total == 0 {
                Ok(PlanView::Fill(total))
            } else {
                Ok(PlanView::BTreeV1 { chunk_dims: cd, index: b_tree_address })
            }
        },
        LayoutView::ChunkedV4 { chunk_dims, index_address, index_type, earray_params, .. } => {
            let cd = chunk_dims.drop_last();
            let missing = index_address == UNDEF_ADDR;
            match index_type {
                ChunkIndexType::SingleChunk => Ok(
                    single_chunk(index_address, total, filters, fill),
                ),
                ChunkIndexType::FixedArray => if missing {
                    Ok(none)
                } else {
                    Ok(PlanView::FixedArray { chunk_dims: cd, index: index_address })
                },
                ChunkIndexType::BTreeV2 => if missing {
                    Ok(none)
                } else {
                    Ok(PlanView::BTreeV2 { chunk_dims: cd, index: index_address })
                },
                ChunkIndexType::ExtensibleArray => match earray_params {
                    None => Err(IoErrorView::InvalidState("missing earray params"@)),
                    Some(params) => if missing {
                        Ok(none)
                    } else {
                        Ok(
                            PlanView::ExtensibleArray {
                                chunk_dims: cd,
                                index: index_address,
                                params,
                            },
                        )
                    },
                },
                ChunkIndexType::Implicit => Err(
                    IoErrorView::InvalidState("unsupported chunk index type: Implicit"@),
                ),
            }
        },
    }
}

/// Whether the chunk dimensions of a layout end with the size of an element.
pub open spec fn layout_ok(layout: LayoutView) -> bool {
    match layout {
        LayoutView::ChunkedV3 { chunk_dims, .. } => chunk_dims.len() > 0,
        LayoutView::ChunkedV4 { chunk_dims, .. } => chunk_dims.len() > 0,
        _ => true,
    }
}

fn without_last(chunk_dims: &Vec<u64>) -> (v: Vec<u64>)
    requires
        chunk_dims@.len() > 0,
    ensures
        v@ == chunk_dims@.drop_last(),
{
    let n: usize = chunk_dims.len();
    let v = copy_dims(slice_subrange(chunk_dims.as_slice(), 0, n - 1));
    assert(v@ =~= chunk_dims@.drop_last());
    v
}

fn plan_single_chunk(index: u64, total: u64, filters: bool, fill: bool) -> (p: ReadPlan)
    ensures
        p@ == single_chunk(index, total, filters, fill),
{
    if index == UNDEF_ADDR || total == 0 {
        if fill && total > 0 {
            ReadPlan::Fill(total)
        } else {
            let p = ReadPlan::Bytes(Vec::new());
            assert(p@->Bytes_0 =~= Seq::<u8>::empty());
            p
        }
    } else if filters {
        let len: u64 = if total > u64::MAX / 2 {
            u64::MAX
        } else {
            2 * total
        };
        ReadPlan::Piece { range: ReadRange { addr: index, len, exact: false }, filtered: true }
    } else {
        ReadPlan::Piece {
            range: ReadRange { addr: index, len: total, exact: true },
            filtered: false,
        }
    }
}

impl DatasetReadInfo {
    /// What has to be read for this dataset.
    pub open spec fn plan(self) -> Result<PlanView, IoErrorView> {
        plan_of(
            self.layout@,
            self.dataspace.dims@,
            self.datatype.spec_element_size() as nat,
            self.filter_pipeline is Some,
            self.fill_value is Some,
        )
    }

    /// Find out what has to be read for this dataset.
    pub fn read_plan(&self) -> (r: IoResult<ReadPlan>)
        requires
            layout_ok(self.layout@),
        ensures
            match self.plan() {
                Ok(p) => r matches Ok(x) && x@ == p,
                Err(v) => r matches Err(e) && e@ == v,
            },
    {
        let dims = self.dataspace.dims.as_slice();
        let es: u64 = self.datatype.element_size() as u64;
        let total: u64 = saturating_byte_len(dims, es);
        let empty = ReadPlan::Bytes(Vec::new());
        assert(empty@->Bytes_0 =~= Seq::<u8>::empty());
        match &self.layout {
            DataLayoutMessage::Contiguous { address, size } => {
                if *address == UNDEF_ADDR {
                    return Ok(empty);
                }
                Ok(
                    ReadPlan::Piece {
                        range: ReadRange { addr: *address, len: *size, exact: true },
                        filtered: false,
                    },
                )
            },
            DataLayoutMessage::Compact { data } => Ok(
                ReadPlan::Bytes(slice_to_vec(data.as_slice())),
            ),
            DataLayoutMessage::ChunkedV3 { chunk_dims, b_tree_address } => {
                let cd = without_last(chunk_dims);
                if cd.len() != dims.len() {
                    return Err(
                        invalid_state(
                            Text::new("B-tree-v1 dataset rank ").number(dims.len() as u64).text(
                                " does not match chunk rank ",
                            ).number(cd.len() as u64),
                        ),
                    );
                }
                if *b_tree_address == UNDEF_ADDR || total == 0 {
                    return Ok(ReadPlan::Fill(total));
                }
                Ok(ReadPlan::BTreeV1 { chunk_dims: cd, index: *b_tree_address })
            },
            DataLayoutMessage::ChunkedV4 {
                chunk_dims,
                index_address,
                index_type,
                earray_params,
                farray_params: _,
            } => {
                let cd = without_last(chunk_dims);
                let index: u64 = *index_address;
                match index_type {
                    ChunkIndexType::SingleChunk => Ok(
                        plan_single_chunk(
                            index,
                            total,
                            self.filter_pipeline.is_some(),
                            self.fill_value.is_some(),
                        ),
                    ),
                    ChunkIndexType::FixedArray => {
                        if index == UNDEF_ADDR {
                            return Ok(empty);
                        }
                        Ok(ReadPlan::FixedArray { chunk_dims: cd, index })
                    },
                    ChunkIndexType::BTreeV2 => {
                        if index == UNDEF_ADDR {
                            return Ok(empty);
                        }
                        Ok(ReadPlan::BTreeV2 { chunk_dims: cd, index })
                    },
                    ChunkIndexType::ExtensibleArray => match earray_params {
                        None => Err(invalid_state(Text::new("missing earray params"))),
                        Some(params) => {
                            if index == UNDEF_ADDR {
                                return Ok(empty);
                            }
                            Ok(
                                ReadPlan::ExtensibleArray {
                                    chunk_dims: cd,
                                    index,
                                    params: *params,
                                },
                            )
                        },
                    },
                    ChunkIndexType::Implicit => Err(
                        invalid_state(Text::new("unsupported chunk index type: Implicit")),
                    ),
                }
            },
        }
    }
}

/// Whether the chunks of a dataset can be put together in memory.
pub open spec fn assemblable(dims: Seq<u64>, cd: Seq<u64>, es: nat) -> bool {
    &&& cd.len() == dims.len()
    &&& byte_len(dims, es) <= usize::MAX
    &&& dims.len() > 1 ==> byte_len(cd, es) <= usize::MAX
}

impl DatasetReadInfo {
    /// What the dataset holds before any chunk is there: the fill value.
    pub open spec fn blank(self) -> Seq<u8> {
        tiled(
            byte_len(self.dataspace.dims@, self.datatype.spec_element_size() as nat),
            match self.fill_value {
                Some(b) => Some(b@),
                None => None,
            },
        )
    }

    fn blank_data(&self) -> (out: Vec<u8>)
        requires
            byte_len(self.dataspace.dims@, self.datatype.spec_element_size() as nat) <= usize::MAX,
        ensures
            out@ == self.blank(),
            shaped(
                out@.len(),
                self.dataspace.dims@,
                self.datatype.spec_element_size() as nat,
            ),
    {
        let es: u64 = self.datatype.element_size() as u64;
        let total: u64 = saturating_byte_len(self.dataspace.dims.as_slice(), es);
        match &self.fill_value {
            Some(b) => tiled_fill(total as usize, Some(b.as_slice())),
            None => tiled_fill(total as usize, None),
        }
    }

    /// Put the numbered chunks of this dataset together. Chunks that are missing leave the
    /// fill value.
    pub fn assemble_numbered(&self, chunk_dims: &[u64], chunks: &Vec<Option<Vec<u8>>>) -> (r: Vec<
        u8,
    >)
        requires
            assemblable(
                self.dataspace.dims@,
                chunk_dims@,
                self.datatype.spec_element_size() as nat,
            ),
            chunks@.len() > 0 ==> volume(grid(self.dataspace.dims@, chunk_dims@)) > 0,
        ensures
            r@ == assembled(
                self.blank(),
                self.dataspace.dims@,
                chunk_dims@,
                self.datatype.spec_element_size() as int,
                chunk_views(chunks@),
                chunks@.len(),
            ),
    {
        let out = self.blank_data();
        let es: u64 = self.datatype.element_size() as u64;
        place_numbered(out, self.dataspace.dims.as_slice(), chunk_dims, es, chunks)
    }

    /// Put the chunks of this dataset together, each at its place in the grid. Chunks that
    /// are missing leave the fill value.
    pub fn assemble_located(&self, chunk_dims: &[u64], chunks: &Vec<LocatedChunk>) -> (r: Vec<u8>)
        requires
            assemblable(
                self.dataspace.dims@,
                chunk_dims@,
                self.datatype.spec_element_size() as nat,
            ),
            forall|i: int|
                0 <= i < chunks@.len() ==> (#[trigger] chunks@[i]).coords@.len()
                    == self.dataspace.dims@.len(),
        ensures
            r@ == located(
                self.blank(),
                self.dataspace.dims@,
                chunk_dims@,
                self.datatype.spec_element_size() as int,
                chunks@,
                chunks@.len(),
            ),
    {
        let out = self.blank_data();
        let es: u64 = self.datatype.element_size() as u64;
        place_located(out, self.dataspace.dims.as_slice(), chunk_dims, es, chunks)
    }
}

/// Of a chunked dataset, what was written reads back, and what was never written reads as
/// the fill value.
pub proof fn lemma_chunked_reads_back(
    d: DatasetReadInfo,
    data: Seq<u8>,
    cd: Seq<u64>,
    chunks: Seq<Option<Seq<u8>>>,
    pads: Seq<Seq<u8>>,
    k: int,
)
    requires
        d.datatype.spec_element_size() > 0,
        d.dataspace.dims@.len() > 0,
        cd.len() == d.dataspace.dims@.len(),
        chunked(cd),
        shaped(data.len(), d.dataspace.dims@, d.datatype.spec_element_size() as nat),
        chunks_of(
            data,
            d.dataspace.dims@,
            cd,
            d.datatype.spec_element_size() as int,
            chunks,
            pads,
        ),
        chunks.len() <= volume(grid(d.dataspace.dims@, cd)),
        0 <= k < data.len(),
    ensures
        ({
            let dims = d.dataspace.dims@;
            let es = d.datatype.spec_element_size() as int;
            let i = linear(owner(place(k / es, dims), cd), grid(dims, cd));
            let r = assembled(d.blank(), dims, cd, es, chunks, chunks.len());
            &&& r.len() == data.len()
            &&& r[k] == if 0 <= i < chunks.len() && chunks[i] is Some {
                data[k]
            } else {
                d.blank()[k]
            }
        }),
{
    lemma_chunks_roundtrip(
        d.blank(),
        data,
        d.dataspace.dims@,
        cd,
        d.datatype.spec_element_size() as nat,
        chunks,
        pads,
        chunks.len(),
        k,
    );
}

/// Whether a result is what data of a datatype stand for.
pub open spec fn is_converted(r: IoResult<Vec<u8>>, dt: DatatypeMessage, data: Seq<u8>) -> bool {
    if needs_conversion(dt) {
        match conversion(dt, data) {
            Conversion::Bytes(b) => r matches Ok(v) && v@ == b,
            Conversion::Refused(m) => r matches Err(IoError::Format(e)) && e.is_invalid(m),
        }
    } else {
        r matches Ok(v) && v@ == data
    }
}

/// Turn elements of reduced precision into numbers that fill their elements. Other
/// elements stay as they are.
pub fn apply_post_filter_conversion(data: Vec<u8>, dt: &DatatypeMessage) -> (r: IoResult<Vec<u8>>)
    requires
        8 * dt.spec_element_size() <= u32::MAX,
    ensures
        is_converted(r, *dt, data@),
{
    let mut data: Vec<u8> = data;
    if datatype_needs_bit_conversion(dt) {
        match apply_datatype_conversion(data.as_mut_slice(), dt) {
            Ok(_) => {},
            Err(e) => {
                return Err(IoError::Format(e));
            },
        }
    }
    Ok(data)
}

/// The data of a contiguous dataset are the bytes at its address.
pub proof fn lemma_contiguous_plan(d: DatasetReadInfo, file: Seq<u8>, data: Seq<u8>)
    requires
        d.layout@ matches LayoutView::Contiguous { address, size } && {
            &&& address != UNDEF_ADDR
            &&& size == data.len()
            &&& address + size <= file.len()
            &&& file.subrange(address as int, address + size) == data
        },
    ensures
        d.plan() matches Ok(PlanView::Piece { range, filtered }) && {
            &&& !filtered
            &&& range.exact
            &&& file.subrange(range.addr as int, range.addr + range.len) == data
        },
{
}

} // verus!
