//! How datasets are read that have been written.

use crate::format::messages::data_layout::{ChunkIndexType, LayoutView};
use crate::format::messages::fill_value::tiled;
use crate::format::UNDEF_ADDR;
use crate::io::array::volume;
use crate::io::reader::data::{plan_of, PlanView};
use crate::io::writer::headers::layout_view;
use crate::io::writer::state::DatasetInfo;
use crate::io::IoErrorView;
use vstd::arithmetic::div_mod::lemma_fundamental_div_mod_converse;
use vstd::prelude::*;

verus! {

/// A dataset is read by the index that it is written with, from where its header stands and
/// with the shape of its chunks; one that stands in one piece is read from its address, and
/// one without space has no data.
pub proof fn lemma_written_plan(d: DatasetInfo, dims: Seq<u64>, es: nat, filters: bool, fill: bool)
    requires
        d.kept_layout is None,
    ensures
        ({
            let plan = plan_of(layout_view(d), dims, es, filters, fill);
            &&& d.chunked matches Some(c) ==> c.ea_header_addr != UNDEF_ADDR ==> plan == Ok::<
                PlanView,
                IoErrorView,
            >(
                PlanView::ExtensibleArray {
                    chunk_dims: c.chunk_dims@,
                    index: c.ea_header_addr,
                    params: c.earray_params,
                },
            )
            &&& d.chunked is None ==> (d.fixed_array matches Some(f) ==> f.fa_header_addr
                != UNDEF_ADDR ==> plan == Ok::<PlanView, IoErrorView>(
                PlanView::FixedArray { chunk_dims: f.chunk_dims@, index: f.fa_header_addr },
            ))
            &&& d.chunked is None && d.fixed_array is None ==> (d.btree_v2 matches Some(b)
                ==> b.bt2_header_addr != UNDEF_ADDR ==> plan == Ok::<
                PlanView,
                IoErrorView,
            >(PlanView::BTreeV2 { chunk_dims: b.chunk_dims@, index: b.bt2_header_addr }))
            &&& d.chunked is None && d.fixed_array is None && d.btree_v2 is None ==> {
                &&& d.data_addr == UNDEF_ADDR ==> plan == Ok::<PlanView, IoErrorView>(
                    PlanView::Bytes(Seq::empty()),
                )
                &&& d.data_addr != UNDEF_ADDR ==> (plan matches Ok(
                    PlanView::Piece { range, filtered },
                ) && {
                    &&& range.addr == d.data_addr
                    &&& range.len == d.data_size
                    &&& range.exact
                    &&& !filtered
                })
            }
        }),
{
    let e = d.datatype.spec_element_size() as u64;
    match d.chunked {
        Some(c) => {
            assert(c.chunk_dims@.push(e).drop_last() =~= c.chunk_dims@);
        },
        None => match d.fixed_array {
            Some(f) => {
                assert(f.chunk_dims@.push(e).drop_last() =~= f.chunk_dims@);
            },
            None => match d.btree_v2 {
                Some(b) => {
                    assert(b.chunk_dims@.push(e).drop_last() =~= b.chunk_dims@);
                },
                None => {},
            },
        },
    }
}

/// A dataset that is one chunk is read from the address of the chunk: exactly its bytes, or,
/// if it went through filters, as much as there is up to twice of them. Where nothing was
/// written, the fill value stands for all of it.
pub proof fn lemma_single_chunk_plan(
    cd: Seq<u64>,
    index: u64,
    dims: Seq<u64>,
    es: nat,
    filters: bool,
    fill: bool,
)
    requires
        0 < 2 * (volume(dims) * es) <= u64::MAX,
    ensures
        ({
            let total = volume(dims) * es;
            let layout = LayoutView::ChunkedV4 {
                chunk_dims: cd,
                index_address: index,
                index_type: ChunkIndexType::SingleChunk,
                earray_params: None,
                farray_params: None,
            };
            match plan_of(layout, dims, es, filters, fill) {
                Ok(PlanView::Piece { range, filtered }) => {
                    &&& index != UNDEF_ADDR
                    &&& range.addr == index
                    &&& filtered == filters
                    &&& range.exact == !filters
                    &&& range.len == if filters {
                        2 * total
                    } else {
                        total
                    }
                },
                Ok(PlanView::Fill(n)) => index == UNDEF_ADDR && fill && n == total,
                Ok(PlanView::Bytes(b)) => index == UNDEF_ADDR && !fill && b.len() == 0,
                _ => false,
            }
        }),
{
}

/// Data in the header of a dataset need no reading, and an index of the older format that was
/// never written leaves the fill value. A B-tree is followed with the shape of the chunks,
/// which stands before the size of an element.
pub proof fn lemma_old_plans(
    data: Seq<u8>,
    cd: Seq<u64>,
    last: u64,
    index: u64,
    dims: Seq<u64>,
    es: nat,
    filters: bool,
    fill: bool,
)
    requires
        cd.len() == dims.len(),
        0 < volume(dims) * es <= u64::MAX,
    ensures
        plan_of(LayoutView::Compact { data }, dims, es, filters, fill) == Ok::<
            PlanView,
            IoErrorView,
        >(PlanView::Bytes(data)),
        plan_of(
            LayoutView::ChunkedV3 { chunk_dims: cd.push(last), b_tree_address: index },
            dims,
            es,
            filters,
            fill,
        ) == Ok::<PlanView, IoErrorView>(
            if index == UNDEF_ADDR {
                PlanView::Fill((volume(dims) * es) as u64)
            } else {
                PlanView::BTreeV1 { chunk_dims: cd, index }
            },
        ),
{
    assert(cd.push(last).drop_last() =~= cd);
}

/// Data that were never written hold the fill value in every element, or zeros without one.
pub proof fn lemma_filled(n: nat, es: nat, fill: Seq<u8>, e: int, b: int)
    requires
        fill.len() == es,
        0 <= e < n,
        0 <= b < es,
    ensures
        0 <= e * es + b < n * es,
        tiled(n * es, Some(fill)).len() == n * es,
        tiled(n * es, Some(fill))[e * es + b] == fill[b],
        tiled(n * es, None)[e * es + b] == 0,
{
    let k = e * es + b;
    lemma_fundamental_div_mod_converse(k, es as int, e, b);
    assert(0 <= k < n * es) by (nonlinear_arith)
        requires
            k == e * es + b,
            0 <= b < es,
            0 <= e,
            e + 1 <= n,
    ;
}

} // verus!
