//! Chunks of datasets indexed by a fixed array or a B-tree.

use crate::format::bytes::power_of_two;
use crate::format::chunk_index::fixed_array::FixedArrayFilteredChunkElement;
use crate::format::messages::dataspace::copy_dims;
use crate::format::FormatContext;
use crate::io::allocator::align8;
use crate::io::array::{inside, ints, linear, linear_of, volume};
use crate::io::chunks::grid;
use crate::io::tiles::chunk_grid;
use crate::io::writer::content::lemma_same_catalog;
use crate::io::writer::datasets::{byte_count, byte_len};
use crate::io::writer::state::{
    Bt2DatasetInfo, Bt2Record, DatasetInfo, FixedArrayDatasetInfo, Hdf5Writer,
};
use crate::io::writer::storage::{chunk_mismatch, same_others};
use crate::io::{invalid_state, IoError, IoErrorView, IoResult};
use crate::text::{decimal, Text};
use vstd::arithmetic::power2::pow2;
use vstd::prelude::*;

verus! {

/// Why chunk coordinates are outside the grid, looking from the last dimension
/// back to dimension `lo`.
pub open spec fn coord_error(c: Seq<u64>, g: Seq<u64>, lo: int) -> Option<IoErrorView>
    decreases g.len() - lo,
{
    if lo >= g.len() {
        None
    } else {
        match coord_error(c, g, lo + 1) {
            Some(e) => Some(e),
            None => if c[lo] >= g[lo] {
                Some(
                    IoErrorView::InvalidState(
                        "chunk coordinate "@ + decimal(c[lo] as nat) + " in dimension "@
                            + decimal(lo as nat) + " is outside the chunk grid (0.."@ + decimal(
                            g[lo] as nat,
                        ) + ")"@,
                    ),
                )
            } else {
                None
            },
        }
    }
}

proof fn lemma_coord_error(c: Seq<u64>, g: Seq<u64>, lo: int, d: int)
    requires
        0 <= lo <= d,
        coord_error(c, g, d) is Some,
    ensures
        coord_error(c, g, lo) == coord_error(c, g, d),
    decreases d - lo,
{
    if lo < d {
        lemma_coord_error(c, g, lo + 1, d);
    }
}

proof fn lemma_coords(c: Seq<u64>, g: Seq<u64>, lo: int)
    requires
        0 <= lo,
        c.len() == g.len(),
        coord_error(c, g, lo) is None,
    ensures
        forall|d: int| lo <= d < g.len() ==> #[trigger] c[d] < g[d],
    decreases g.len() - lo,
{
    if lo < g.len() {
        lemma_coords(c, g, lo + 1);
    }
}

/// Why a chunk of a dataset with a fixed array cannot be placed.
pub open spec fn fixed_chunk_error(d: DatasetInfo, coords: Seq<u64>, len: nat) -> Option<
    IoErrorView,
> {
    match d.fixed_array {
        None => Some(IoErrorView::InvalidState("not a fixed-array dataset"@)),
        Some(f) => {
            let dims = d.dataspace.dims@;
            let size = byte_len(f.chunk_dims@, d.datatype.spec_element_size() as nat);
            if len != size {
                Some(chunk_mismatch(size, len))
            } else if coords.len() != dims.len() {
                Some(
                    IoErrorView::InvalidState(
                        "chunk_coords has "@ + decimal(coords.len())
                            + " entries but the dataset has "@ + decimal(dims.len())
                            + " dimensions"@,
                    ),
                )
            } else {
                coord_error(coords, grid(dims, f.chunk_dims@), 0)
            }
        },
    }
}

/// The message about a chunk number beyond the array.
pub open spec fn out_of_range(i: nat, n: nat) -> IoErrorView {
    IoErrorView::InvalidState(
        "chunk index "@ + decimal(i) + " out of range (max "@ + decimal(n) + ")"@,
    )
}

/// Why a placed chunk cannot be recorded in the array as number `i`.
pub open spec fn record_error(
    f: FixedArrayDatasetInfo,
    ctx: FormatContext,
    filtered: bool,
    len: nat,
    i: nat,
) -> Option<IoErrorView> {
    let w = f.fa_header.element_size - (ctx.sizeof_addr + 4);
    if filtered {
        if len > u32::MAX {
            Some(
                IoErrorView::InvalidState(
                    "compressed chunk size "@ + decimal(len) + " exceeds u32::MAX"@,
                ),
            )
        } else if w < 0 {
            Some(IoErrorView::InvalidState("filtered fixed-array element size is too small"@))
        } else if w < 8 && len >= pow2((8 * w) as nat) {
            Some(
                IoErrorView::InvalidState(
                    "compressed chunk size "@ + decimal(len) + " does not fit in the "@ + decimal(
                        w as nat,
                    ) + "-byte fixed-array chunk-size field"@,
                ),
            )
        } else if i >= f.fa_dblk.filtered_elements@.len() {
            Some(out_of_range(i, f.fa_dblk.filtered_elements@.len()))
        } else {
            None
        }
    } else if i >= f.fa_dblk.elements@.len() {
        Some(out_of_range(i, f.fa_dblk.elements@.len()))
    } else {
        None
    }
}

/// Whether a chunk of `len` bytes at `at` has been recorded as number `i`.
pub open spec fn fixed_recorded(
    a: FixedArrayDatasetInfo,
    b: FixedArrayDatasetInfo,
    filtered: bool,
    i: int,
    at: u64,
    len: nat,
) -> bool {
    &&& b.chunk_dims == a.chunk_dims
    &&& b.fa_header_addr == a.fa_header_addr
    &&& b.fa_dblk_addr == a.fa_dblk_addr
    &&& b.fa_header == a.fa_header
    &&& b.fa_dblk.client_id == a.fa_dblk.client_id
    &&& b.fa_dblk.header_addr == a.fa_dblk.header_addr
    &&& b.chunks_written == a.chunks_written + 1
    &&& if filtered {
        &&& b.fa_dblk.filtered_elements@ == a.fa_dblk.filtered_elements@.update(
            i,
            FixedArrayFilteredChunkElement {
                address: at,
                chunk_size: len as u32,
                filter_mask: 0,
            },
        )
        &&& b.fa_dblk.elements == a.fa_dblk.elements
    } else {
        &&& b.fa_dblk.elements@ == a.fa_dblk.elements@.update(i, at)
        &&& b.fa_dblk.filtered_elements == a.fa_dblk.filtered_elements
    }
}

/// The number of a chunk in its array.
pub open spec fn chunk_number(d: DatasetInfo, coords: Seq<u64>) -> int {
    linear(ints(coords), grid(d.dataspace.dims@, d.fixed_array->0.chunk_dims@))
}

fn check_coords(c: &[u64], g: &[u64]) -> (r: IoResult<()>)
    requires
        c@.len() == g@.len(),
    ensures
        match r {
            Ok(_) => coord_error(c@, g@, 0) is None,
            Err(e) => coord_error(c@, g@, 0) == Some(e@),
        },
{
    let mut d: usize = g.len();
    while d > 0
        invariant
            d <= g@.len(),
            c@.len() == g@.len(),
            coord_error(c@, g@, d as int) is None,
        decreases d,
    {
        let k: usize = d - 1;
        if c[k] >= g[k] {
            proof {
                lemma_coord_error(c@, g@, 0, k as int);
            }
            return Err(
                invalid_state(
                    Text::new("chunk coordinate ").number(c[k]).text(" in dimension ").number(
                        k as u64,
                    ).text(" is outside the chunk grid (0..").number(g[k]).text(")"),
                ),
            );
        }
        d = k;
    }
    Ok(())
}

fn check_fixed_chunk(d: &DatasetInfo, coords: &[u64], len: usize) -> (r: IoResult<u64>)
    requires
        d.fixed_array matches Some(f) ==> {
            &&& f.chunk_dims@.len() == d.dataspace.dims@.len()
            &&& byte_len(f.chunk_dims@, d.datatype.spec_element_size() as nat) <= u64::MAX
            &&& volume(grid(d.dataspace.dims@, f.chunk_dims@)) <= u64::MAX
        },
    ensures
        match r {
            Ok(i) => fixed_chunk_error(*d, coords@, len as nat) is None && i == chunk_number(
                *d,
                coords@,
            ),
            Err(e) => fixed_chunk_error(*d, coords@, len as nat) == Some(e@),
        },
{
    match &d.fixed_array {
        None => Err(invalid_state(Text::new("not a fixed-array dataset"))),
        Some(f) => {
            let size: u64 = byte_count(f.chunk_dims.as_slice(), d.datatype.element_size() as u64);
            if len as u64 != size {
                return Err(
                    invalid_state(
                        Text::new("chunk data size mismatch: expected ").number(size).text(
                            " bytes, got ",
                        ).number(len as u64),
                    ),
                );
            }
            let dims = d.dataspace.dims.as_slice();
            if coords.len() != dims.len() {
                return Err(
                    invalid_state(
                        Text::new("chunk_coords has ").number(coords.len() as u64).text(
                            " entries but the dataset has ",
                        ).number(dims.len() as u64).text(" dimensions"),
                    ),
                );
            }
            let g: Vec<u64> = chunk_grid(dims, f.chunk_dims.as_slice());
            match check_coords(coords, g.as_slice()) {
                Ok(_) => {},
                Err(e) => {
                    return Err(e);
                },
            }
            proof {
                lemma_coords(coords@, g@, 0);
                assert forall|k: int| 0 <= k < g@.len() implies 0 <= #[trigger] ints(coords@)[k]
                    < g@[k] by {
                    assert(coords@[k] < g@[k]);
                }
                assert(inside(ints(coords@), g@));
            }
            Ok(linear_of(coords, g.as_slice()))
        },
    }
}

fn record_fixed(
    f: &mut FixedArrayDatasetInfo,
    ctx: &FormatContext,
    filtered: bool,
    at: u64,
    len: usize,
    i: u64,
) -> (r: IoResult<()>)
    requires
        old(f).chunks_written < u64::MAX,
    ensures
        match r {
            Ok(_) => record_error(*old(f), *ctx, filtered, len as nat, i as nat) is None
                && fixed_recorded(*old(f), *final(f), filtered, i as int, at, len as nat),
            Err(e) => record_error(*old(f), *ctx, filtered, len as nat, i as nat) == Some(e@)
                && *final(f) == *old(f),
        },
{
    if filtered {
        if len as u64 > 0xffff_ffff {
            return Err(
                invalid_state(
                    Text::new("compressed chunk size ").number(len as u64).text(
                        " exceeds u32::MAX",
                    ),
                ),
            );
        }
        let es: u32 = f.fa_header.element_size as u32;
        let fixed: u32 = ctx.sizeof_addr as u32 + 4;
        if es < fixed {
            return Err(
                invalid_state(Text::new("filtered fixed-array element size is too small")),
            );
        }
        let w: u32 = es - fixed;
        if w < 8 && len as u128 >= power_of_two(8 * w) {
            return Err(
                invalid_state(
                    Text::new("compressed chunk size ").number(len as u64).text(
                        " does not fit in the ",
                    ).number(w as u64).text("-byte fixed-array chunk-size field"),
                ),
            );
        }
        if i >= f.fa_dblk.filtered_elements.len() as u64 {
            return Err(
                invalid_state(
                    Text::new("chunk index ").number(i).text(" out of range (max ").number(
                        f.fa_dblk.filtered_elements.len() as u64,
                    ).text(")"),
                ),
            );
        }
        f.fa_dblk.filtered_elements.set(
            i as usize,
            FixedArrayFilteredChunkElement { address: at, chunk_size: len as u32, filter_mask: 0 },
        );
    } else {
        if i >= f.fa_dblk.elements.len() as u64 {
            return Err(
                invalid_state(
                    Text::new("chunk index ").number(i).text(" out of range (max ").number(
                        f.fa_dblk.elements.len() as u64,
                    ).text(")"),
                ),
            );
        }
        f.fa_dblk.elements.set(i as usize, at);
    }
    f.chunks_written = f.chunks_written + 1;
    Ok(())
}

/// What is asked of a dataset with a fixed array before a chunk of it is written.
pub open spec fn fixed_ready(d: DatasetInfo) -> bool {
    d.fixed_array matches Some(f) ==> {
        &&& f.chunk_dims@.len() == d.dataspace.dims@.len()
        &&& byte_len(f.chunk_dims@, d.datatype.spec_element_size() as nat) <= u64::MAX
        &&& volume(grid(d.dataspace.dims@, f.chunk_dims@)) <= u64::MAX
        &&& f.chunks_written < u64::MAX
    }
}

impl Hdf5Writer {
    /// Place a chunk of a dataset with a fixed array, and record it. `coords` is
    /// the place of the chunk in the grid; `stored` is what the filters made of
    /// `data`, or `data` itself without filters. Returns the address of the
    /// chunk. A chunk that cannot be recorded keeps its space.
    pub fn write_chunk_fixed_array(
        &mut self,
        index: usize,
        chunk_coords: &[u64],
        data: &[u8],
        stored: &[u8],
    ) -> (r: IoResult<u64>)
        requires
            old(self).wf(),
            index < old(self).datasets@.len(),
            fixed_ready(old(self).datasets@[index as int]),
            old(self).datasets@[index as int].filter_pipeline is None ==> stored@ == data@,
            old(self).allocator.spec_eof() + 8 + stored@.len() <= u64::MAX,
        ensures
            final(self).wf(),
            ({
                let d = old(self).datasets@[index as int];
                let d2 = final(self).datasets@[index as int];
                let eof = old(self).allocator.spec_eof() as int;
                let at = align8(eof);
                match fixed_chunk_error(d, chunk_coords@, data@.len()) {
                    Some(x) => (r matches Err(e) && e@ == x) && *final(self) == *old(self),
                    None => {
                        let f = d.fixed_array->0;
                        let i = chunk_number(d, chunk_coords@);
                        let filtered = d.filter_pipeline is Some;
                        &&& same_others(*old(self), *final(self), index as int)
                        &&& final(self).allocator.spec_eof() == at + stored@.len()
                        &&& match record_error(
                            f,
                            old(self).ctx,
                            filtered,
                            stored@.len(),
                            i as nat,
                        ) {
                            Some(x) => (r matches Err(e) && e@ == x) && d2 == d,
                            None => {
                                &&& r == Ok::<u64, IoError>(at as u64)
                                &&& d2 == (DatasetInfo { fixed_array: d2.fixed_array, ..d })
                                &&& d2.fixed_array is Some
                                &&& fixed_recorded(
                                    f,
                                    d2.fixed_array->0,
                                    filtered,
                                    i,
                                    at as u64,
                                    stored@.len(),
                                )
                            },
                        }
                    },
                }
            }),
    {
        let i: u64 = match check_fixed_chunk(&self.datasets[index], chunk_coords, data.len()) {
            Ok(i) => i,
            Err(e) => {
                return Err(e);
            },
        };
        let ghost before = *self;
        let filtered: bool = self.datasets[index].filter_pipeline.is_some();
        let at: u64 = self.allocator.allocate(stored.len() as u64);
        let ctx = self.ctx;
        match self.datasets[index].fixed_array.take() {
            None => {
                assert(false);
                Err(invalid_state(Text::new("not a fixed-array dataset")))
            },
            Some(info) => {
                let mut f: FixedArrayDatasetInfo = info;
                let r = record_fixed(&mut f, &ctx, filtered, at, stored.len(), i);
                self.datasets[index].fixed_array = Some(f);
                proof {
                    assert(self.datasets@[index as int] == (DatasetInfo {
                        fixed_array: Some(f),
                        ..before.datasets@[index as int]
                    }));
                    lemma_same_catalog(before, *self);
                }
                match r {
                    Ok(_) => Ok(at),
                    Err(e) => Err(e),
                }
            },
        }
    }

    /// Place a chunk of a dataset with a B-tree, and record it. `chunk_coords`
    /// is the place of the chunk in the grid. Returns the address of the chunk.
    pub fn write_chunk_btree_v2(
        &mut self,
        index: usize,
        chunk_coords: &[u64],
        data: &[u8],
    ) -> (r: IoResult<u64>)
        requires
            old(self).wf(),
            index < old(self).datasets@.len(),
            old(self).datasets@[index as int].btree_v2 matches Some(b) ==> byte_len(
                b.chunk_dims@,
                old(self).datasets@[index as int].datatype.spec_element_size() as nat,
            ) <= u64::MAX && b.chunks_written < u64::MAX,
            old(self).allocator.spec_eof() + 8 + data@.len() <= u64::MAX,
        ensures
            final(self).wf(),
            ({
                let d = old(self).datasets@[index as int];
                let d2 = final(self).datasets@[index as int];
                let at = align8(old(self).allocator.spec_eof() as int);
                match bt2_error(d, data@.len()) {
                    Some(x) => (r matches Err(e) && e@ == x) && *final(self) == *old(self),
                    None => {
                        let b = d.btree_v2->0;
                        let b2 = d2.btree_v2->0;
                        &&& r == Ok::<u64, IoError>(at as u64)
                        &&& same_others(*old(self), *final(self), index as int)
                        &&& final(self).allocator.spec_eof() == at + data@.len()
                        &&& d2 == (DatasetInfo { btree_v2: d2.btree_v2, ..d })
                        &&& d2.btree_v2 is Some
                        &&& b2.chunk_dims == b.chunk_dims
                        &&& b2.max_dims == b.max_dims
                        &&& b2.bt2_header_addr == b.bt2_header_addr
                        &&& b2.bt2_leaf_addr == b.bt2_leaf_addr
                        &&& b2.chunks_written == b.chunks_written + 1
                        &&& b2.index@.len() == b.index@.len() + 1
                        &&& b2.index@.take(b.index@.len() as int) == b.index@
                        &&& b2.index@.last().coords@ == chunk_coords@
                        &&& b2.index@.last().addr == at
                    },
                }
            }),
    {
        match &self.datasets[index].btree_v2 {
            None => {
                return Err(invalid_state(Text::new("not a B-tree v2 dataset")));
            },
            Some(b) => {
                let size: u64 = byte_count(
                    b.chunk_dims.as_slice(),
                    self.datasets[index].datatype.element_size() as u64,
                );
                if data.len() as u64 != size {
                    return Err(
                        invalid_state(
                            Text::new("chunk data size mismatch: expected ").number(size).text(
                                " bytes, got ",
                            ).number(data.len() as u64),
                        ),
                    );
                }
            },
        }
        let ghost before = *self;
        let at: u64 = self.allocator.allocate(data.len() as u64);
        match self.datasets[index].btree_v2.take() {
            None => {
                assert(false);
                Err(invalid_state(Text::new("not a B-tree v2 dataset")))
            },
            Some(info) => {
                let mut b: Bt2DatasetInfo = info;
                let ghost was = b.index@;
                b.index.push(Bt2Record { coords: copy_dims(chunk_coords), addr: at });
                b.chunks_written = b.chunks_written + 1;
                assert(b.index@.take(was.len() as int) =~= was);
                self.datasets[index].btree_v2 = Some(b);
                proof {
                    assert(self.datasets@[index as int] == (DatasetInfo {
                        btree_v2: Some(b),
                        ..before.datasets@[index as int]
                    }));
                    lemma_same_catalog(before, *self);
                }
                Ok(at)
            },
        }
    }
}

/// Why a chunk of a dataset with a B-tree cannot be placed.
pub open spec fn bt2_error(d: DatasetInfo, len: nat) -> Option<IoErrorView> {
    match d.btree_v2 {
        None => Some(IoErrorView::InvalidState("not a B-tree v2 dataset"@)),
        Some(b) => {
            let size = byte_len(b.chunk_dims@, d.datatype.spec_element_size() as nat);
            if len != size {
                Some(chunk_mismatch(size, len))
            } else {
                None
            }
        },
    }
}

} // verus!
