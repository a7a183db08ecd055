//! Slices, extents, fill values and attributes of datasets.

use crate::format::messages::dataspace::copy_dims;
use crate::format::UNDEF_ADDR;
use crate::io::array::{place, volume};
use crate::io::chunks::shaped;
use crate::io::slices::{
    in_bounds, in_selection, lemma_row_inside, lemma_rows_written, lemma_selection_roundtrip,
    lemma_selection_volume, patched, replaced, row_count, row_start, row_starts, rows_written,
    selected,
};
use crate::io::writer::datasets::{byte_count, byte_len, same_but_datasets};
use crate::io::writer::state::{group_placed, link_placed, DatasetInfo, Hdf5Writer};
use crate::io::writer::storage::{same_others, size_mismatch};
use crate::io::{invalid_state, IoErrorView, IoResult};
use crate::text::{decimal, Text};
use vstd::prelude::*;

verus! {

/// A part of the data that goes to one place in the file.
#[derive(Debug, Clone, Copy, PartialEq, Eq, Structural)]
pub struct RowWrite {
    /// Address in the file.
    pub at: u64,
    /// First byte of the data.
    pub from: usize,
    /// Number of bytes.
    pub len: usize,
}

/// Whether a dataset stands in chunks.
pub open spec fn is_chunked(d: DatasetInfo) -> bool {
    d.chunked is Some || d.fixed_array is Some || d.btree_v2 is Some
}

/// Whether a dataset stands in chunks.
pub fn has_chunks(d: &DatasetInfo) -> (r: bool)
    ensures
        r == is_chunked(*d),
{
    d.chunked.is_some() || d.fixed_array.is_some() || d.btree_v2.is_some()
}

/// Why the first `n` dimensions of a selection are out of bounds.
pub open spec fn bounds_error(
    dims: Seq<u64>,
    starts: Seq<u64>,
    counts: Seq<u64>,
    n: nat,
) -> Option<IoErrorView>
    decreases n,
{
    if n == 0 {
        None
    } else {
        match bounds_error(dims, starts, counts, (n - 1) as nat) {
            Some(e) => Some(e),
            None => {
                let d = n - 1;
                if starts[d] + counts[d] > u64::MAX {
                    Some(IoErrorView::InvalidState("slice extent overflow"@))
                } else if starts[d] + counts[d] > dims[d] {
                    Some(
                        IoErrorView::InvalidState(
                            "slice out of bounds in dimension "@ + decimal(d as nat) + ": start "@
                                + decimal(starts[d] as nat) + " + count "@ + decimal(
                                counts[d] as nat,
                            ) + " exceeds extent "@ + decimal(dims[d] as nat),
                        ),
                    )
                } else {
                    None
                }
            },
        }
    }
}

/// Why a slice cannot be written.
pub open spec fn slice_error(
    d: DatasetInfo,
    starts: Seq<u64>,
    counts: Seq<u64>,
    len: nat,
) -> Option<IoErrorView> {
    let dims = d.dataspace.dims@;
    let size = byte_len(counts, d.datatype.spec_element_size() as nat);
    if is_chunked(d) {
        Some(IoErrorView::InvalidState("write_slice is only for contiguous datasets"@))
    } else if d.data_addr == UNDEF_ADDR {
        Some(IoErrorView::InvalidState("dataset has no data allocated"@))
    } else if starts.len() != dims.len() || counts.len() != dims.len() {
        Some(IoErrorView::InvalidState("starts/counts length must match dataset rank"@))
    } else if dims.len() == 0 {
        Some(
            IoErrorView::InvalidState(
                "write_slice does not support scalar datasets; use write_dataset_raw"@,
            ),
        )
    } else if bounds_error(dims, starts, counts, dims.len()) is Some {
        bounds_error(dims, starts, counts, dims.len())
    } else if len != size {
        Some(size_mismatch(size, len))
    } else {
        None
    }
}

proof fn lemma_bounds(dims: Seq<u64>, starts: Seq<u64>, counts: Seq<u64>, n: nat)
    requires
        n <= dims.len(),
        bounds_error(dims, starts, counts, n) is None,
    ensures
        forall|d: int| 0 <= d < n ==> #[trigger] starts[d] + counts[d] <= dims[d],
    decreases n,
{
    if n > 0 {
        lemma_bounds(dims, starts, counts, (n - 1) as nat);
    }
}

proof fn lemma_bounds_error(dims: Seq<u64>, starts: Seq<u64>, counts: Seq<u64>, n: nat, m: nat)
    requires
        n <= m,
        bounds_error(dims, starts, counts, n) is Some,
    ensures
        bounds_error(dims, starts, counts, m) == bounds_error(dims, starts, counts, n),
    decreases m,
{
    if n < m {
        lemma_bounds_error(dims, starts, counts, n, (m - 1) as nat);
    }
}

fn check_bounds(dims: &[u64], starts: &[u64], counts: &[u64]) -> (r: IoResult<()>)
    requires
        starts@.len() == dims@.len(),
        counts@.len() == dims@.len(),
    ensures
        match r {
            Ok(_) => bounds_error(dims@, starts@, counts@, dims@.len()) is None,
            Err(e) => bounds_error(dims@, starts@, counts@, dims@.len()) == Some(e@),
        },
{
    let mut d: usize = 0;
    while d < dims.len()
        invariant
            d <= dims@.len(),
            starts@.len() == dims@.len(),
            counts@.len() == dims@.len(),
            bounds_error(dims@, starts@, counts@, d as nat) is None,
        decreases dims@.len() - d,
    {
        match starts[d].checked_add(counts[d]) {
            None => {
                proof {
                    lemma_bounds_error(dims@, starts@, counts@, (d + 1) as nat, dims@.len());
                }
                return Err(invalid_state(Text::new("slice extent overflow")));
            },
            Some(end) => {
                if end > dims[d] {
                    proof {
                        lemma_bounds_error(dims@, starts@, counts@, (d + 1) as nat, dims@.len());
                    }
                    return Err(
                        invalid_state(
                            Text::new("slice out of bounds in dimension ").number(d as u64).text(
                                ": start ",
                            ).number(starts[d]).text(" + count ").number(counts[d]).text(
                                " exceeds extent ",
                            ).number(dims[d]),
                        ),
                    );
                }
            },
        }
        d = d + 1;
    }
    Ok(())
}

/// Whether the rows of a slice go where they belong.
pub open spec fn rows_placed(
    rows: Seq<RowWrite>,
    base: int,
    dims: Seq<u64>,
    starts: Seq<u64>,
    counts: Seq<u64>,
    es: int,
) -> bool {
    &&& rows.len() == row_count(counts)
    &&& forall|r: int|
        0 <= r < rows.len() ==> {
            &&& (#[trigger] rows[r]).at == base + row_start(r, dims, starts, counts) * es
            &&& rows[r].from == r * (counts.last() * es)
            &&& rows[r].len == counts.last() * es
        }
}

/// Whether a slice within the bounds of a contiguous dataset can be addressed.
pub open spec fn slice_addressed(d: DatasetInfo, starts: Seq<u64>, counts: Seq<u64>) -> bool {
    let dims = d.dataspace.dims@;
    !is_chunked(d) && d.data_addr != UNDEF_ADDR && dims.len() > 0 && in_bounds(dims, starts, counts)
        ==> {
        &&& d.data_addr + byte_len(dims, d.datatype.spec_element_size() as nat) <= u64::MAX
        &&& volume(dims) <= u64::MAX
        &&& row_count(counts) <= u64::MAX
    }
}

impl Hdf5Writer {
    /// Where the rows of a slice of a contiguous dataset go. `starts` and
    /// `counts` define the selection.
    pub fn write_slice(
        &self,
        index: usize,
        starts: &[u64],
        counts: &[u64],
        data: &[u8],
    ) -> (r: IoResult<Vec<RowWrite>>)
        requires
            index < self.datasets@.len(),
            slice_addressed(self.datasets@[index as int], starts@, counts@),
        ensures
            ({
                let d = self.datasets@[index as int];
                match r {
                    Ok(rows) => slice_error(d, starts@, counts@, data@.len()) is None
                        && rows_placed(
                        rows@,
                        d.data_addr as int,
                        d.dataspace.dims@,
                        starts@,
                        counts@,
                        d.datatype.spec_element_size() as int,
                    ),
                    Err(e) => slice_error(d, starts@, counts@, data@.len()) == Some(e@),
                }
            }),
    {
        let d = &self.datasets[index];
        if has_chunks(d) {
            return Err(invalid_state(Text::new("write_slice is only for contiguous datasets")));
        }
        if d.data_addr == UNDEF_ADDR {
            return Err(invalid_state(Text::new("dataset has no data allocated")));
        }
        let dims = d.dataspace.dims.as_slice();
        let es: u64 = d.datatype.element_size() as u64;
        let ndims: usize = dims.len();
        if starts.len() != ndims || counts.len() != ndims {
            return Err(invalid_state(Text::new("starts/counts length must match dataset rank")));
        }
        if ndims == 0 {
            return Err(
                invalid_state(
                    Text::new(
                        "write_slice does not support scalar datasets; use write_dataset_raw",
                    ),
                ),
            );
        }
        match check_bounds(dims, starts, counts) {
            Ok(_) => {},
            Err(e) => {
                return Err(e);
            },
        }
        proof {
            lemma_bounds(dims@, starts@, counts@, dims@.len());
            assert(in_bounds(dims@, starts@, counts@));
            lemma_selection_volume(dims@, starts@, counts@);
            let v = volume(dims@) as int;
            let c = volume(counts@) as int;
            assert(c * es <= v * es) by (nonlinear_arith)
                requires
                    c <= v,
                    es >= 0,
            ;
        }
        let size: u64 = byte_count(counts, es);
        if data.len() as u64 != size {
            return Err(
                invalid_state(
                    Text::new("data size mismatch: expected ").number(size).text(
                        " bytes, got ",
                    ).number(data.len() as u64),
                ),
            );
        }
        let firsts: Vec<u64> = row_starts(dims, starts, counts);
        let mut rows: Vec<RowWrite> = Vec::new();
        let ghost last = counts@.last() as int;
        let ghost n = row_count(counts@) as int;
        let ghost base = d.data_addr as int;
        let mut r: usize = 0;
        while r < firsts.len()
            invariant
                r <= firsts.len(),
                firsts@.len() == n,
                n == row_count(counts@),
                d == self.datasets@[index as int],
                dims@ == d.dataspace.dims@,
                ndims == dims@.len(),
                ndims > 0,
                in_bounds(dims@, starts@, counts@),
                counts@.len() == ndims,
                last == counts@.last(),
                es == d.datatype.spec_element_size(),
                base == d.data_addr,
                base + volume(dims@) * es <= u64::MAX,
                data@.len() == volume(counts@) * es,
                forall|k: int|
                    0 <= k < n ==> #[trigger] firsts@[k] == row_start(
                        k,
                        dims@,
                        starts@,
                        counts@,
                    ),
                rows@.len() == r,
                forall|k: int|
                    0 <= k < r ==> {
                        &&& (#[trigger] rows@[k]).at == base + row_start(
                            k,
                            dims@,
                            starts@,
                            counts@,
                        ) * es
                        &&& rows@[k].from == k * (last * es)
                        &&& rows@[k].len == last * es
                    },
            decreases firsts.len() - r,
        {
            let ghost len = data.len() as int;
            proof {
                lemma_row_inside(r as int, dims@, starts@, counts@);
                let ri = r as int;
                let m = last * es;
                let f = row_start(ri, dims@, starts@, counts@);
                let v = volume(dims@) as int;
                assert(0 <= f * es <= v * es) by (nonlinear_arith)
                    requires
                        0 <= f <= v,
                        es >= 0,
                ;
                assert(volume(counts@) == n * last);
                assert(n * last * es == n * m) by (nonlinear_arith)
                    requires
                        m == last * es,
                ;
                assert(0 <= ri * m && ri * m + m <= n * m) by (nonlinear_arith)
                    requires
                        0 <= ri < n,
                        m >= 0,
                ;
                assert(m >= 0) by (nonlinear_arith)
                    requires
                        m == last * es,
                        last >= 0,
                        es >= 0,
                ;
            }
            let width: usize = (counts[ndims - 1] * es) as usize;
            rows.push(
                RowWrite { at: d.data_addr + firsts[r] * es, from: r * width, len: width },
            );
            r = r + 1;
        }
        Ok(rows)
    }
}

/// The data of a dataset after the first `n` rows are written. The data stand at
/// `base`.
pub open spec fn rows_performed(
    data: Seq<u8>,
    rows: Seq<RowWrite>,
    base: int,
    new: Seq<u8>,
    n: nat,
) -> Seq<u8>
    decreases n,
{
    if n == 0 {
        data
    } else {
        let w = rows[n - 1];
        patched(
            rows_performed(data, rows, base, new, (n - 1) as nat),
            w.at - base,
            new.subrange(w.from as int, w.from + w.len),
        )
    }
}

proof fn lemma_rows_performed(
    data: Seq<u8>,
    rows: Seq<RowWrite>,
    base: int,
    dims: Seq<u64>,
    starts: Seq<u64>,
    counts: Seq<u64>,
    es: int,
    new: Seq<u8>,
    n: nat,
)
    requires
        rows_placed(rows, base, dims, starts, counts, es),
        n <= rows.len(),
    ensures
        rows_performed(data, rows, base, new, n) == rows_written(
            data,
            dims,
            starts,
            counts,
            es,
            new,
            n,
        ),
    decreases n,
{
    if n > 0 {
        lemma_rows_performed(data, rows, base, dims, starts, counts, es, new, (n - 1) as nat);
        let w = rows[n - 1];
        assert(w.at - base == row_start(n - 1, dims, starts, counts) * es);
    }
}

/// A slice that has been written is what a read of the same slice gives back,
/// and everything else stays as it was.
pub proof fn lemma_slice_written(
    data: Seq<u8>,
    rows: Seq<RowWrite>,
    base: int,
    dims: Seq<u64>,
    starts: Seq<u64>,
    counts: Seq<u64>,
    es: nat,
    new: Seq<u8>,
)
    requires
        es > 0,
        dims.len() > 0,
        in_bounds(dims, starts, counts),
        counts.last() > 0,
        shaped(data.len(), dims, es),
        shaped(new.len(), counts, es),
        rows_placed(rows, base, dims, starts, counts, es as int),
    ensures
        ({
            let after = rows_performed(data, rows, base, new, rows.len());
            &&& after == replaced(data, dims, starts, counts, es as int, new)
            &&& selected(after, dims, starts, counts, es as int) == new
            &&& forall|k: int|
                0 <= k < data.len() && !in_selection(place(k / es as int, dims), starts, counts)
                    ==> #[trigger] after[k] == data[k]
        }),
{
    lemma_rows_performed(data, rows, base, dims, starts, counts, es as int, new, rows.len());
    lemma_rows_written(data, dims, starts, counts, es, new);
    lemma_selection_roundtrip(data, dims, starts, counts, es, new);
}

impl Hdf5Writer {
    /// Why a dataset cannot be extended: the first dimension that shrinks or
    /// exceeds its maximum.
    pub open spec fn extend_dims_error(d: DatasetInfo, new: Seq<u64>, n: nat) -> Option<IoErrorView>
        decreases n,
    {
        if n == 0 {
            None
        } else {
            match Self::extend_dims_error(d, new, (n - 1) as nat) {
                Some(e) => Some(e),
                None => {
                    let k = n - 1;
                    let cur = d.dataspace.dims@[k];
                    if new[k] < cur {
                        Some(
                            IoErrorView::InvalidState(
                                "extend_dataset cannot shrink dimension "@ + decimal(k as nat)
                                    + " from "@ + decimal(cur as nat) + " to "@ + decimal(
                                    new[k] as nat,
                                ),
                            ),
                        )
                    } else {
                        match d.dataspace.max_dims {
                            Some(m) => if new[k] > m@[k] {
                                Some(
                                    IoErrorView::InvalidState(
                                        "extend_dataset dimension "@ + decimal(k as nat) + " ("@
                                            + decimal(new[k] as nat) + ") exceeds the maximum "@
                                            + decimal(m@[k] as nat),
                                    ),
                                )
                            } else {
                                None
                            },
                            None => None,
                        }
                    }
                },
            }
        }
    }

    /// Why a dataset cannot be extended.
    pub open spec fn extend_error(d: DatasetInfo, new: Seq<u64>) -> Option<IoErrorView> {
        if !is_chunked(d) {
            Some(IoErrorView::InvalidState("can only extend chunked datasets"@))
        } else if new.len() != d.dataspace.dims@.len() {
            Some(
                IoErrorView::InvalidState(
                    "extend_dataset rank mismatch: dataset has "@ + decimal(
                        d.dataspace.dims@.len(),
                    ) + " dimensions, got "@ + decimal(new.len()),
                ),
            )
        } else {
            Self::extend_dims_error(d, new, new.len())
        }
    }

    /// Why the first `n` dimensions exceed their maxima.
    pub open spec fn max_error(max: Seq<u64>, new: Seq<u64>, n: nat) -> Option<IoErrorView>
        decreases n,
    {
        if n == 0 {
            None
        } else {
            match Self::max_error(max, new, (n - 1) as nat) {
                Some(e) => Some(e),
                None => {
                    let k = n - 1;
                    if new[k] > max[k] {
                        Some(
                            IoErrorView::InvalidState(
                                "set_extent dimension "@ + decimal(k as nat) + " ("@ + decimal(
                                    new[k] as nat,
                                ) + ") exceeds the maximum "@ + decimal(max[k] as nat),
                            ),
                        )
                    } else {
                        None
                    }
                },
            }
        }
    }

    /// Why the extent of a dataset cannot be set.
    pub open spec fn extent_error(d: DatasetInfo, new: Seq<u64>) -> Option<IoErrorView> {
        if !is_chunked(d) {
            Some(IoErrorView::InvalidState("can only set the extent of chunked datasets"@))
        } else if new.len() != d.dataspace.dims@.len() {
            Some(
                IoErrorView::InvalidState(
                    "set_extent rank mismatch: dataset has "@ + decimal(d.dataspace.dims@.len())
                        + " dimensions, got "@ + decimal(new.len()),
                ),
            )
        } else if d.append_buffered_frames > 0 {
            Some(
                IoErrorView::InvalidState(
                    "set_extent cannot run while the dataset has buffered appends; flush them first"@,
                ),
            )
        } else {
            match d.dataspace.max_dims {
                Some(m) => Self::max_error(m@, new, new.len()),
                None => None,
            }
        }
    }

    proof fn lemma_extend_error(d: DatasetInfo, new: Seq<u64>, n: nat, m: nat)
        requires
            n <= m,
            Self::extend_dims_error(d, new, n) is Some,
        ensures
            Self::extend_dims_error(d, new, m) == Self::extend_dims_error(d, new, n),
        decreases m,
    {
        if n < m {
            Self::lemma_extend_error(d, new, n, (m - 1) as nat);
        }
    }

    proof fn lemma_max_error(max: Seq<u64>, new: Seq<u64>, n: nat, m: nat)
        requires
            n <= m,
            Self::max_error(max, new, n) is Some,
        ensures
            Self::max_error(max, new, m) == Self::max_error(max, new, n),
        decreases m,
    {
        if n < m {
            Self::lemma_max_error(max, new, n, (m - 1) as nat);
        }
    }

    /// Check new dimensions that may not shrink.
    pub fn check_extend(d: &DatasetInfo, new_dims: &[u64]) -> (r: IoResult<()>)
        requires
            d.dataspace.max_dims matches Some(m) ==> m@.len() == d.dataspace.dims@.len(),
        ensures
            match r {
                Ok(_) => Self::extend_error(*d, new_dims@) is None,
                Err(e) => Self::extend_error(*d, new_dims@) == Some(e@),
            },
    {
        let ghost d0 = *d;
        if !has_chunks(d) {
            return Err(invalid_state(Text::new("can only extend chunked datasets")));
        }
        let rank: usize = d.dataspace.dims.len();
        if new_dims.len() != rank {
            return Err(
                invalid_state(
                    Text::new("extend_dataset rank mismatch: dataset has ").number(
                        rank as u64,
                    ).text(" dimensions, got ").number(new_dims.len() as u64),
                ),
            );
        }
        let mut k: usize = 0;
        while k < rank
            invariant
                k <= rank,
                rank == new_dims@.len(),
                *d == d0,
                is_chunked(*d),
                rank == d0.dataspace.dims@.len(),
                d0.dataspace.max_dims matches Some(m) ==> m@.len() == rank,
                Self::extend_dims_error(d0, new_dims@, k as nat) is None,
            decreases rank - k,
        {
            let cur: u64 = d.dataspace.dims[k];
            let new: u64 = new_dims[k];
            if new < cur {
                proof {
                    Self::lemma_extend_error(d0, new_dims@, (k + 1) as nat, rank as nat);
                }
                return Err(
                    invalid_state(
                        Text::new("extend_dataset cannot shrink dimension ").number(
                            k as u64,
                        ).text(" from ").number(cur).text(" to ").number(new),
                    ),
                );
            }
            match &d.dataspace.max_dims {
                Some(m) => {
                    if new > m[k] {
                        proof {
                            Self::lemma_extend_error(d0, new_dims@, (k + 1) as nat, rank as nat);
                        }
                        return Err(
                            invalid_state(
                                Text::new("extend_dataset dimension ").number(k as u64).text(
                                    " (",
                                ).number(new).text(") exceeds the maximum ").number(m[k]),
                            ),
                        );
                    }
                },
                None => {},
            }
            k = k + 1;
        }
        Ok(())
    }

    /// Check new dimensions.
    fn check_extent(d: &DatasetInfo, new_dims: &[u64]) -> (r: IoResult<()>)
        requires
            d.dataspace.max_dims matches Some(m) ==> m@.len() == d.dataspace.dims@.len(),
        ensures
            match r {
                Ok(_) => Self::extent_error(*d, new_dims@) is None,
                Err(e) => Self::extent_error(*d, new_dims@) == Some(e@),
            },
    {
        if !has_chunks(d) {
            return Err(invalid_state(Text::new("can only set the extent of chunked datasets")));
        }
        let rank: usize = d.dataspace.dims.len();
        if new_dims.len() != rank {
            return Err(
                invalid_state(
                    Text::new("set_extent rank mismatch: dataset has ").number(rank as u64).text(
                        " dimensions, got ",
                    ).number(new_dims.len() as u64),
                ),
            );
        }
        if d.append_buffered_frames > 0 {
            return Err(
                invalid_state(
                    Text::new(
                        "set_extent cannot run while the dataset has buffered appends; flush them first",
                    ),
                ),
            );
        }
        match &d.dataspace.max_dims {
            Some(m) => {
                let mut k: usize = 0;
                while k < rank
                    invariant
                        k <= rank,
                        rank == new_dims@.len(),
                        m@.len() == rank,
                        is_chunked(*d),
                        rank == d.dataspace.dims@.len(),
                        d.append_buffered_frames == 0,
                        d.dataspace.max_dims == Some(*m),
                        Self::max_error(m@, new_dims@, k as nat) is None,
                    decreases rank - k,
                {
                    let new: u64 = new_dims[k];
                    if new > m[k] {
                        proof {
                            Self::lemma_max_error(m@, new_dims@, (k + 1) as nat, rank as nat);
                        }
                        return Err(
                            invalid_state(
                                Text::new("set_extent dimension ").number(k as u64).text(
                                    " (",
                                ).number(new).text(") exceeds the maximum ").number(m[k]),
                            ),
                        );
                    }
                    k = k + 1;
                }
            },
            None => {},
        }
        Ok(())
    }

    /// Extend the dimensions of a chunked dataset.
    pub fn extend_dataset(&mut self, index: usize, new_dims: &[u64]) -> (r: IoResult<()>)
        requires
            old(self).wf(),
            index < old(self).datasets@.len(),
            old(self).datasets@[index as int].dataspace.max_dims matches Some(m) ==> m@.len()
                == old(self).datasets@[index as int].dataspace.dims@.len(),
        ensures
            final(self).wf(),
            final(self).allocator == old(self).allocator,
            match Self::extend_error(old(self).datasets@[index as int], new_dims@) {
                Some(x) => (r matches Err(e) && e@ == x) && *final(self) == *old(self),
                None => r is Ok && dims_set(*old(self), *final(self), index as int, new_dims@),
            },
    {
        match Self::check_extend(&self.datasets[index], new_dims) {
            Ok(_) => {},
            Err(e) => {
                return Err(e);
            },
        }
        self.set_dims(index, new_dims);
        Ok(())
    }

    /// Set the logical extent of a chunked dataset, growing or shrinking any
    /// dimension. Chunks beyond a smaller extent stay in the file, but are no
    /// longer visible.
    pub fn set_dataset_extent(&mut self, index: usize, new_dims: &[u64]) -> (r: IoResult<()>)
        requires
            old(self).wf(),
            index < old(self).datasets@.len(),
            old(self).datasets@[index as int].dataspace.max_dims matches Some(m) ==> m@.len()
                == old(self).datasets@[index as int].dataspace.dims@.len(),
        ensures
            final(self).wf(),
            final(self).allocator == old(self).allocator,
            match Self::extent_error(old(self).datasets@[index as int], new_dims@) {
                Some(x) => (r matches Err(e) && e@ == x) && *final(self) == *old(self),
                None => r is Ok && dims_set(*old(self), *final(self), index as int, new_dims@),
            },
    {
        match Self::check_extent(&self.datasets[index], new_dims) {
            Ok(_) => {},
            Err(e) => {
                return Err(e);
            },
        }
        self.set_dims(index, new_dims);
        Ok(())
    }

    /// Set the dimensions of a dataset.
    fn set_dims(&mut self, index: usize, new_dims: &[u64])
        requires
            old(self).wf(),
            index < old(self).datasets@.len(),
        ensures
            final(self).wf(),
            final(self).allocator == old(self).allocator,
            dims_set(*old(self), *final(self), index as int, new_dims@),
    {
        let ghost before = *self;
        self.datasets[index].dataspace.dims = copy_dims(new_dims);
        self.datasets[index].header_changed = true;
        proof {
            lemma_same_catalog(before, *self);
        }
    }
}

/// Whether a change of datasets keeps the catalog well-formed.
pub proof fn lemma_same_catalog(a: Hdf5Writer, b: Hdf5Writer)
    requires
        a.wf(),
        same_but_datasets(a, b),
        b.allocator.wf(),
        b.datasets@.len() == a.datasets@.len(),
    ensures
        b.wf(),
{
    assert forall|i: int| 0 <= i < b.groups@.len() implies #[trigger] group_placed(
        b.groups@[i],
        i,
        b.groups@.len(),
        b.datasets@.len(),
    ) by {
        assert(group_placed(a.groups@[i], i, a.groups@.len(), a.datasets@.len()));
    }
    assert forall|i: int| 0 <= i < b.hard_links@.len() implies #[trigger] link_placed(
        b.hard_links@[i],
        b.groups@.len(),
        b.datasets@.len(),
    ) by {
        assert(link_placed(a.hard_links@[i], a.groups@.len(), a.datasets@.len()));
    }
}

/// Whether only the dimensions of a dataset have changed.
pub open spec fn dims_set(a: Hdf5Writer, b: Hdf5Writer, i: int, dims: Seq<u64>) -> bool {
    let d = a.datasets@[i];
    let d2 = b.datasets@[i];
    &&& same_others(a, b, i)
    &&& d2 == (DatasetInfo { dataspace: d2.dataspace, header_changed: true, ..d })
    &&& d2.dataspace.dims@ == dims
    &&& d2.dataspace.max_dims == d.dataspace.max_dims
}

} // verus!
