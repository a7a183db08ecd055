//! Reading selections of datasets.

use crate::format::messages::data_layout::{ChunkIndexType, DataLayoutMessage, LayoutView};
use crate::format::UNDEF_ADDR;
use crate::io::array::{
    element_count, inside, ints, lemma_linear_bound, lemma_linear_of_place, lemma_place_len,
    lemma_place_of_linear, linear, place, place_of, volume,
};
use crate::io::chunks::{
    assembled, chunk_base, chunk_cut, chunked, grid, in_chunk, lemma_assembled_len, relative,
    shaped, shifted,
};
use crate::io::ea::ChunkEntry;
use crate::io::frames::{cons, lemma_inside_cons, lemma_place_cons, lemma_volume_cons};
use crate::io::reader::chunked::{chunk_views, ReadRange};
use crate::io::reader::data::layout_ok;
use crate::io::reader::messages::DatasetReadInfo;
use crate::io::search::{lemma_no_position, lemma_position, lemma_position_is, position};
use crate::io::slices::{
    extract_slice, in_bounds, lemma_byte_of, lemma_row_inside, lemma_rows_selected,
    lemma_selection_volume, lemma_volume_le, patched, row_count, row_start, row_starts, rows_held,
    rows_of, selected,
};
use crate::io::tiles::chunk_grid;
use crate::io::writer::datasets::byte_len;
use crate::io::{invalid_state, IoErrorView, IoResult};
use crate::text::{decimal, Text};
use vstd::arithmetic::div_mod::lemma_fundamental_div_mod_converse;
use vstd::prelude::*;

verus! {

/// Whether a selection ends outside the dataset in dimension `d`.
pub open spec fn past_end(dims: Seq<u64>, starts: Seq<u64>, counts: Seq<u64>) -> spec_fn(
    int,
) -> bool {
    |d: int| starts[d] + counts[d] > dims[d]
}

/// What is wrong with a selection, if anything.
pub open spec fn selection_error(dims: Seq<u64>, starts: Seq<u64>, counts: Seq<u64>) -> Option<
    IoErrorView,
> {
    if starts.len() != dims.len() || counts.len() != dims.len() {
        Some(IoErrorView::InvalidState("starts/counts length must match dataset rank"@))
    } else if dims.len() == 0 {
        Some(
            IoErrorView::InvalidState(
                "read_slice does not support scalar datasets; use read_dataset_raw"@,
            ),
        )
    } else {
        match position(dims.len(), past_end(dims, starts, counts)) {
            Some(d) => Some(
                IoErrorView::InvalidState(
                    "slice out of bounds: dim "@ + decimal(d as nat) + " start "@ + decimal(
                        starts[d] as nat,
                    ) + " + count "@ + decimal(counts[d] as nat) + " > "@ + decimal(
                        dims[d] as nat,
                    ),
                ),
            ),
            None => None,
        }
    }
}

/// Check a selection.
pub fn check_selection(dims: &[u64], starts: &[u64], counts: &[u64]) -> (r: IoResult<()>)
    ensures
        match selection_error(dims@, starts@, counts@) {
            Some(v) => r matches Err(e) && e@ == v,
            None => r is Ok && dims@.len() > 0 && in_bounds(dims@, starts@, counts@),
        },
{
    let n: usize = dims.len();
    if starts.len() != n || counts.len() != n {
        return Err(
            invalid_state(Text::new("starts/counts length must match dataset rank")),
        );
    }
    if n == 0 {
        return Err(
            invalid_state(
                Text::new("read_slice does not support scalar datasets; use read_dataset_raw"),
            ),
        );
    }
    let ghost f = past_end(dims@, starts@, counts@);
    let mut d: usize = 0;
    while d < n
        invariant
            d <= n,
            n == dims@.len(),
            n > 0,
            starts@.len() == n,
            counts@.len() == n,
            f == past_end(dims@, starts@, counts@),
            forall|j: int| 0 <= j < d ==> !#[trigger] f(j),
        decreases n - d,
    {
        if counts[d] > dims[d] || starts[d] > dims[d] - counts[d] {
            proof {
                assert(f(d as int));
                lemma_position(n as nat, f, d as int);
            }
            return Err(
                invalid_state(
                    Text::new("slice out of bounds: dim ").number(d as u64).text(" start ").number(
                        starts[d],
                    ).text(" + count ").number(counts[d]).text(" > ").number(dims[d]),
                ),
            );
        }
        assert(!f(d as int));
        d = d + 1;
    }
    proof {
        lemma_no_position(n as nat, f);
        assert forall|d: int| 0 <= d < dims@.len() implies #[trigger] starts@[d] + counts@[d]
            <= dims@[d] by {
            assert(!f(d));
        }
    }
    Ok(())
}

/// A selection is right exactly if it lies within the dataset.
pub proof fn lemma_selection_error(dims: Seq<u64>, starts: Seq<u64>, counts: Seq<u64>)
    requires
        dims.len() > 0,
    ensures
        selection_error(dims, starts, counts) is None <==> in_bounds(dims, starts, counts),
{
    if starts.len() == dims.len() && counts.len() == dims.len() {
        let f = past_end(dims, starts, counts);
        lemma_position_is(dims.len(), f);
        if position(dims.len(), f) is None {
            assert forall|d: int| 0 <= d < dims.len() implies #[trigger] starts[d] + counts[d]
                <= dims[d] by {
                assert(!f(d));
            }
        } else {
            let d = position(dims.len(), f)->0;
            assert(f(d));
            assert(!(starts[d] + counts[d] <= dims[d]));
        }
    }
}

/// What has to be read for a selection.
#[derive(Debug)]
pub enum SelectionPlan {
    /// Nothing: these are the data.
    Bytes(Vec<u8>),
    /// Nothing: the data are so many bytes of the fill value.
    Fill(u64),
    /// These pieces, one behind the other.
    Rows(Vec<ReadRange>),
    /// The chunks of the frames that the selection touches; a frame is one chunk.
    Frames,
    /// The chunks that the selection touches.
    Chunks,
    /// The whole dataset.
    Whole,
}

/// What has to be read for a selection.
#[verifier::ext_equal]
pub enum SelectionView {
    Bytes(Seq<u8>),
    Fill(u64),
    Rows(Seq<ReadRange>),
    Frames,
    Chunks,
    Whole,
}

impl View for SelectionPlan {
    type V = SelectionView;

    open spec fn view(&self) -> SelectionView {
        match *self {
            SelectionPlan::Bytes(b) => SelectionView::Bytes(b@),
            SelectionPlan::Fill(n) => SelectionView::Fill(n),
            SelectionPlan::Rows(r) => SelectionView::Rows(r@),
            SelectionPlan::Frames => SelectionView::Frames,
            SelectionPlan::Chunks => SelectionView::Chunks,
            SelectionPlan::Whole => SelectionView::Whole,
        }
    }
}

/// Where row `r` of a selection stands in the file.
pub open spec fn row_range(
    address: u64,
    dims: Seq<u64>,
    starts: Seq<u64>,
    counts: Seq<u64>,
    es: int,
    r: int,
) -> ReadRange {
    ReadRange {
        addr: (address + row_start(r, dims, starts, counts) * es) as u64,
        len: (counts.last() * es) as u64,
        exact: true,
    }
}

/// Whether every frame of a dataset is one chunk.
pub open spec fn frame_is_chunk(dims: Seq<u64>, cd: Seq<u64>) -> bool {
    &&& dims.len() >= 2
    &&& cd.len() == dims.len()
    &&& cd[0] == 1
    &&& forall|d: int| 1 <= d < dims.len() ==> #[trigger] cd[d] >= dims[d]
}

/// What has to be read for a selection.
pub open spec fn selection_plan(
    layout: LayoutView,
    dims: Seq<u64>,
    es: nat,
    starts: Seq<u64>,
    counts: Seq<u64>,
) -> SelectionView {
    match layout {
        LayoutView::Contiguous { address, .. } => if address == UNDEF_ADDR {
            SelectionView::Fill(byte_len(counts, es) as u64)
        } else {
            SelectionView::Rows(
                Seq::new(
                    row_count(counts),
                    |r: int| row_range(address, dims, starts, counts, es as int, r),
                ),
            )
        },
        LayoutView::Compact { data } => SelectionView::Bytes(
            selected(data, dims, starts, counts, es as int),
        ),
        LayoutView::ChunkedV3 { .. } => SelectionView::Whole,
        LayoutView::ChunkedV4 { chunk_dims, index_type, .. } => {
            let cd = chunk_dims.drop_last();
            if index_type != ChunkIndexType::ExtensibleArray {
                SelectionView::Whole
            } else if frame_is_chunk(dims, cd) {
                SelectionView::Frames
            } else if cd.len() == dims.len() && chunked(cd) {
                SelectionView::Chunks
            } else {
                SelectionView::Whole
            }
        },
    }
}

/// Whether a selection within the bounds of a dataset can be addressed, and the layout holds
/// the selected rows if the data are in it.
pub open spec fn selectable(
    layout: LayoutView,
    dims: Seq<u64>,
    es: nat,
    starts: Seq<u64>,
    counts: Seq<u64>,
) -> bool {
    &&& layout_ok(layout)
    &&& dims.len() > 0 && in_bounds(dims, starts, counts) ==> {
        &&& volume(dims) <= u64::MAX
        &&& volume(dims.drop_last()) <= u64::MAX
        &&& dims.last() * es <= u64::MAX
        &&& byte_len(dims, es) <= usize::MAX
        &&& match layout {
            LayoutView::Contiguous { address, .. } => address == UNDEF_ADDR || address + byte_len(
                dims,
                es,
            ) <= u64::MAX,
            LayoutView::Compact { data } => rows_held(data.len(), dims, starts, counts, es),
            _ => true,
        }
    }
}

fn plan_rows(address: u64, dims: &[u64], starts: &[u64], counts: &[u64], es: u64) -> (r: Vec<
    ReadRange,
>)
    requires
        dims@.len() > 0,
        in_bounds(dims@, starts@, counts@),
        volume(dims@) <= u64::MAX,
        row_count(counts@) <= u64::MAX,
        address + byte_len(dims@, es as nat) <= u64::MAX,
        counts@.last() * es <= u64::MAX,
    ensures
        r@ == Seq::new(
            row_count(counts@),
            |r: int| row_range(address, dims@, starts@, counts@, es as int, r),
        ),
{
    let n: usize = dims.len();
    let ghost want = Seq::new(
        row_count(counts@),
        |r: int| row_range(address, dims@, starts@, counts@, es as int, r),
    );
    let rows = row_starts(dims, starts, counts);
    let mut v: Vec<ReadRange> = Vec::new();
    let mut k: usize = 0;
    assert(v@ =~= want.take(0));
    while k < rows.len()
        invariant
            k <= rows.len(),
            n == dims@.len(),
            n > 0,
            in_bounds(dims@, starts@, counts@),
            address + byte_len(dims@, es as nat) <= u64::MAX,
            counts@.last() * es <= u64::MAX,
            rows@.len() == row_count(counts@),
            forall|q: int|
                0 <= q < rows@.len() ==> #[trigger] rows@[q] == row_start(
                    q,
                    dims@,
                    starts@,
                    counts@,
                ),
            want == Seq::new(
                row_count(counts@),
                |r: int| row_range(address, dims@, starts@, counts@, es as int, r),
            ),
            v@ == want.take(k as int),
        decreases rows.len() - k,
    {
        proof {
            lemma_row_inside(k as int, dims@, starts@, counts@);
            let rs = rows@[k as int] as int;
            let all = volume(dims@) as int;
            let e = es as int;
            assert(0 <= rs * e <= all * e) by (nonlinear_arith)
                requires
                    0 <= rs <= all,
                    e >= 0,
            ;
        }
        let one = ReadRange {
            addr: address + rows[k] * es,
            len: counts[n - 1] * es,
            exact: true,
        };
        assert(one == want[k as int]);
        v.push(one);
        k = k + 1;
        assert(v@ =~= want.take(k as int));
    }
    assert(want.take(k as int) =~= want);
    v
}

fn none_empty(chunk_dims: &Vec<u64>) -> (r: bool)
    requires
        chunk_dims@.len() > 0,
    ensures
        r == chunked(chunk_dims@.drop_last()),
{
    let n: usize = chunk_dims.len() - 1;
    let ghost cd = chunk_dims@.drop_last();
    let mut d: usize = 0;
    while d < n
        invariant
            d <= n,
            n + 1 == chunk_dims@.len(),
            cd == chunk_dims@.drop_last(),
            forall|k: int| 0 <= k < d ==> #[trigger] cd[k] > 0,
        decreases n - d,
    {
        assert(cd[d as int] == chunk_dims@[d as int]);
        if chunk_dims[d] == 0 {
            return false;
        }
        d = d + 1;
    }
    true
}

fn one_chunk_per_frame(dims: &[u64], chunk_dims: &Vec<u64>) -> (r: bool)
    requires
        chunk_dims@.len() > 0,
    ensures
        r == frame_is_chunk(dims@, chunk_dims@.drop_last()),
{
    let n: usize = dims.len();
    let ghost cd = chunk_dims@.drop_last();
    if n < 2 || chunk_dims.len() - 1 != n || chunk_dims[0] != 1 {
        assert(cd.len() == n && n >= 2 ==> cd[0] == chunk_dims@[0]);
        return false;
    }
    let mut d: usize = 1;
    while d < n
        invariant
            1 <= d <= n,
            n == dims@.len(),
            chunk_dims@.len() == n + 1,
            cd == chunk_dims@.drop_last(),
            forall|k: int| 1 <= k < d ==> #[trigger] cd[k] >= dims@[k],
        decreases n - d,
    {
        assert(cd[d as int] == chunk_dims@[d as int]);
        if chunk_dims[d] < dims[d] {
            return false;
        }
        d = d + 1;
    }
    true
}

pub proof fn lemma_selection_bounds(dims: Seq<u64>, starts: Seq<u64>, counts: Seq<u64>, es: nat)
    requires
        dims.len() > 0,
        in_bounds(dims, starts, counts),
    ensures
        row_count(counts) <= volume(dims.drop_last()),
        counts.last() * es <= dims.last() * es,
        volume(counts) <= volume(dims),
        byte_len(counts, es) <= byte_len(dims, es),
{
    let last = dims.len() - 1;
    assert(starts[last] + counts[last] <= dims[last]);
    let a = counts.last() as int;
    let b = dims.last() as int;
    assert(a * es <= b * es) by (nonlinear_arith)
        requires
            a <= b,
            es >= 0,
    ;
    lemma_selection_volume(dims, starts, counts);
    let v = volume(counts) as int;
    let w = volume(dims) as int;
    assert(v * es <= w * es) by (nonlinear_arith)
        requires
            v <= w,
            es >= 0,
    ;
    let df = dims.drop_last();
    let cf = counts.drop_last();
    assert forall|d: int| 0 <= d < df.len() implies #[trigger] cf[d] <= df[d] by {
        assert(starts[d] + counts[d] <= dims[d]);
    }
    lemma_volume_le(cf, df);
}

impl DatasetReadInfo {
    /// Check a selection of this dataset and find out what has to be read for it.
    pub fn read_selection(&self, starts: &[u64], counts: &[u64]) -> (r: IoResult<SelectionPlan>)
        requires
            selectable(
                self.layout@,
                self.dataspace.dims@,
                self.datatype.spec_element_size() as nat,
                starts@,
                counts@,
            ),
        ensures
            match selection_error(self.dataspace.dims@, starts@, counts@) {
                Some(v) => r matches Err(e) && e@ == v,
                None => r matches Ok(p) && p@ == selection_plan(
                    self.layout@,
                    self.dataspace.dims@,
                    self.datatype.spec_element_size() as nat,
                    starts@,
                    counts@,
                ),
            },
    {
        let dims = self.dataspace.dims.as_slice();
        let es: u64 = self.datatype.element_size() as u64;
        match check_selection(dims, starts, counts) {
            Err(e) => {
                return Err(e);
            },
            Ok(_) => {},
        }
        proof {
            lemma_selection_bounds(dims@, starts@, counts@, es as nat);
        }
        match &self.layout {
            DataLayoutMessage::Contiguous { address, size: _ } => {
                if *address == UNDEF_ADDR {
                    let n: u64 = match element_count(counts) {
                        Some(n) => n,
                        None => 0,
                    };
                    return Ok(SelectionPlan::Fill(n * es));
                }
                Ok(SelectionPlan::Rows(plan_rows(*address, dims, starts, counts, es)))
            },
            DataLayoutMessage::Compact { data } => {
                Ok(
                    SelectionPlan::Bytes(
                        extract_slice(data.as_slice(), dims, starts, counts, es),
                    ),
                )
            },
            DataLayoutMessage::ChunkedV3 { .. } => Ok(SelectionPlan::Whole),
            DataLayoutMessage::ChunkedV4 {
                chunk_dims,
                index_address: _,
                index_type,
                earray_params: _,
                farray_params: _,
            } => {
                if *index_type != ChunkIndexType::ExtensibleArray {
                    Ok(SelectionPlan::Whole)
                } else if one_chunk_per_frame(dims, chunk_dims) {
                    Ok(SelectionPlan::Frames)
                } else if chunk_dims.len() - 1 == dims.len() && none_empty(chunk_dims) {
                    Ok(SelectionPlan::Chunks)
                } else {
                    Ok(SelectionPlan::Whole)
                }
            },
        }
    }
}

/// The bytes of the file at a list of places, one behind the other.
pub open spec fn gathered(file: Seq<u8>, ranges: Seq<ReadRange>, n: nat) -> Seq<u8>
    decreases n,
{
    if n == 0 {
        Seq::empty()
    } else {
        let r = ranges[n - 1];
        gathered(file, ranges, (n - 1) as nat) + file.subrange(r.addr as int, r.addr + r.len)
    }
}

proof fn lemma_gathered(
    file: Seq<u8>,
    address: u64,
    data: Seq<u8>,
    dims: Seq<u64>,
    starts: Seq<u64>,
    counts: Seq<u64>,
    es: nat,
    ranges: Seq<ReadRange>,
    n: nat,
)
    requires
        dims.len() > 0,
        in_bounds(dims, starts, counts),
        shaped(data.len(), dims, es),
        address + data.len() <= file.len(),
        address + data.len() <= u64::MAX,
        dims.last() * es <= u64::MAX,
        file.subrange(address as int, address + data.len()) == data,
        n <= ranges.len(),
        ranges == Seq::new(
            row_count(counts),
            |r: int| row_range(address, dims, starts, counts, es as int, r),
        ),
    ensures
        gathered(file, ranges, n) == rows_of(data, dims, starts, counts, es as int, n),
    decreases n,
{
    if n > 0 {
        lemma_gathered(
            file,
            address,
            data,
            dims,
            starts,
            counts,
            es,
            ranges,
            (n - 1) as nat,
        );
        let k = n - 1;
        lemma_row_inside(k, dims, starts, counts);
        lemma_selection_bounds(dims, starts, counts, es);
        let rs = row_start(k, dims, starts, counts);
        let c = counts.last() as int;
        let all = volume(dims) as int;
        assert(0 <= rs * es && rs * es + c * es <= all * es && 0 <= c * es) by (nonlinear_arith)
            requires
                0 <= rs,
                0 <= c,
                rs + c <= all,
                es >= 0,
        ;
        let r = ranges[k];
        assert(r.addr == address + rs * es);
        assert(r.len == c * es);
        let whole = file.subrange(address as int, address + data.len());
        assert(file.subrange(r.addr as int, r.addr + r.len) =~= whole.subrange(
            rs * es,
            rs * es + c * es,
        ));
    }
}

/// A selection of a dataset in one piece reads as that part of its data.
pub proof fn lemma_selection_reads_back(
    file: Seq<u8>,
    address: u64,
    size: u64,
    data: Seq<u8>,
    dims: Seq<u64>,
    starts: Seq<u64>,
    counts: Seq<u64>,
    es: nat,
)
    requires
        es > 0,
        dims.len() > 0,
        in_bounds(dims, starts, counts),
        shaped(data.len(), dims, es),
        address != UNDEF_ADDR,
        address + data.len() <= file.len(),
        address + data.len() <= u64::MAX,
        dims.last() * es <= u64::MAX,
        file.subrange(address as int, address + data.len()) == data,
    ensures
        selection_plan(LayoutView::Contiguous { address, size }, dims, es, starts, counts) matches
            SelectionView::Rows(ranges) && gathered(file, ranges, ranges.len()) == selected(
            data,
            dims,
            starts,
            counts,
            es as int,
        ),
{
    let ranges = Seq::new(
        row_count(counts),
        |r: int| row_range(address, dims, starts, counts, es as int, r),
    );
    lemma_gathered(file, address, data, dims, starts, counts, es, ranges, ranges.len());
    lemma_rows_selected(data, dims, starts, counts, es);
}

/// The chunks that hold frames `first` to `first + count`; chunks that the index does
/// not know are missing.
pub open spec fn frame_range(entries: Seq<ChunkEntry>, i: int) -> Option<ReadRange> {
    if i >= entries.len() || entries[i].addr == UNDEF_ADDR {
        None
    } else {
        Some(ReadRange { addr: entries[i].addr, len: entries[i].nbytes, exact: true })
    }
}

/// Where the chunks of frames `first` to `first + count` stand.
pub fn frame_ranges(entries: &Vec<ChunkEntry>, first: u64, count: u64) -> (r: Vec<
    Option<ReadRange>,
>)
    requires
        first + count <= u64::MAX,
    ensures
        r@ == Seq::new(count as nat, |i: int| frame_range(entries@, first + i)),
{
    let ghost want = Seq::new(count as nat, |i: int| frame_range(entries@, first + i));
    let n: usize = entries.len();
    let mut r: Vec<Option<ReadRange>> = Vec::new();
    let mut i: u64 = 0;
    assert(r@ =~= want.take(0));
    while i < count
        invariant
            i <= count,
            first + count <= u64::MAX,
            n == entries@.len(),
            want == Seq::new(count as nat, |i: int| frame_range(entries@, first + i)),
            r@ == want.take(i as int),
        decreases count - i,
    {
        let k: u64 = first + i;
        let one: Option<ReadRange> = if k >= n as u64 || entries[k as usize].addr == UNDEF_ADDR {
            None
        } else {
            let e: ChunkEntry = entries[k as usize];
            Some(ReadRange { addr: e.addr, len: e.nbytes, exact: true })
        };
        assert(one == want[i as int]);
        r.push(one);
        i = i + 1;
        assert(r@ =~= want.take(i as int));
    }
    assert(want.take(i as int) =~= want);
    r
}

/// `out` with the first `n` rows of a selection of a chunk written from `at` on. Rows
/// that the chunk does not hold are left out.
pub open spec fn rows_copied(
    out: Seq<u8>,
    at: int,
    chunk: Seq<u8>,
    cd: Seq<u64>,
    starts: Seq<u64>,
    counts: Seq<u64>,
    es: int,
    n: nat,
) -> Seq<u8>
    decreases n,
{
    if n == 0 {
        out
    } else {
        let before = rows_copied(out, at, chunk, cd, starts, counts, es, (n - 1) as nat);
        let row = counts.last() * es;
        let from = row_start(n - 1, cd, starts, counts) * es;
        let to = at + (n - 1) * row;
        if from + row <= chunk.len() && to + row <= out.len() {
            patched(before, to, chunk.subrange(from, from + row))
        } else {
            before
        }
    }
}

proof fn lemma_rows_copied_len(
    out: Seq<u8>,
    at: int,
    chunk: Seq<u8>,
    cd: Seq<u64>,
    starts: Seq<u64>,
    counts: Seq<u64>,
    es: int,
    n: nat,
)
    ensures
        rows_copied(out, at, chunk, cd, starts, counts, es, n).len() == out.len(),
    decreases n,
{
    if n > 0 {
        lemma_rows_copied_len(out, at, chunk, cd, starts, counts, es, (n - 1) as nat);
    }
}

fn overwrite(out: &mut Vec<u8>, at: usize, src: &[u8], from: usize, len: usize)
    requires
        at + len <= old(out)@.len(),
        from + len <= src@.len(),
    ensures
        final(out)@ == patched(old(out)@, at as int, src@.subrange(from as int, from + len)),
{
    let ghost start = out@;
    let ghost bytes = src@.subrange(from as int, from + len);
    let room: usize = out.len();
    let have: usize = src.len();
    let mut k: usize = 0;
    assert(out@ =~= patched(start, at as int, bytes.take(0)));
    while k < len
        invariant
            k <= len,
            start.len() == out@.len(),
            room == out@.len(),
            have == src@.len(),
            at + len <= room,
            from + len <= have,
            bytes == src@.subrange(from as int, from + len),
            out@ == patched(start, at as int, bytes.take(k as int)),
        decreases len - k,
    {
        let b: u8 = src[from + k];
        out.set(at + k, b);
        k = k + 1;
        assert(out@ =~= patched(start, at as int, bytes.take(k as int)));
    }
    assert(bytes.take(k as int) =~= bytes);
}

/// Copy the selected rows of a chunk into `out`, from `at` on. `chunk_dims`, `starts` and
/// `counts` are those within a frame.
pub fn copy_frame(
    out: &mut Vec<u8>,
    at: usize,
    chunk: &[u8],
    chunk_dims: &[u64],
    starts: &[u64],
    counts: &[u64],
    element_size: u64,
)
    requires
        chunk_dims@.len() > 0,
        in_bounds(chunk_dims@, starts@, counts@),
        element_size <= u32::MAX,
        volume(chunk_dims@) <= u64::MAX,
        byte_len(chunk_dims@, element_size as nat) <= usize::MAX,
        row_count(counts@) <= u64::MAX,
        at + byte_len(counts@, element_size as nat) <= old(out)@.len(),
        counts@.last() * element_size <= usize::MAX,
    ensures
        final(out)@ == rows_copied(
            old(out)@,
            at as int,
            chunk@,
            chunk_dims@,
            starts@,
            counts@,
            element_size as int,
            row_count(counts@),
        ),
{
    let n: usize = chunk_dims.len();
    let ghost start = out@;
    let ghost es = element_size as int;
    let ghost m = counts@.last() as int;
    let ghost q = row_count(counts@) as int;
    let ghost vc = volume(counts@) as int;
    proof {
        assert(0 <= m * es) by (nonlinear_arith)
            requires
                m >= 0,
                es >= 0,
        ;
    }
    if counts[n - 1] == 0 || element_size == 0 {
        proof {
            lemma_nothing_copied(
                start,
                at as int,
                chunk@,
                chunk_dims@,
                starts@,
                counts@,
                es,
                row_count(counts@),
            );
        }
        return;
    }
    let row64: u64 = counts[n - 1] * element_size;
    let row: usize = row64 as usize;
    let len: usize = chunk.len();
    let room: usize = out.len();
    let rows = row_starts(chunk_dims, starts, counts);
    let mut r: usize = 0;
    while r < rows.len()
        invariant
            r <= rows@.len(),
            chunk_dims@.len() > 0,
            in_bounds(chunk_dims@, starts@, counts@),
            element_size <= u32::MAX,
            es == element_size,
            es > 0,
            m == counts@.last(),
            q == row_count(counts@),
            vc == volume(counts@),
            vc == q * m,
            row == m * es,
            byte_len(chunk_dims@, element_size as nat) <= usize::MAX,
            at + vc * es <= room,
            room == start.len(),
            start.len() == out@.len(),
            len == chunk@.len(),
            rows@.len() == q,
            forall|k: int|
                0 <= k < rows@.len() ==> #[trigger] rows@[k] == row_start(
                    k,
                    chunk_dims@,
                    starts@,
                    counts@,
                ),
            out@ == rows_copied(
                start,
                at as int,
                chunk@,
                chunk_dims@,
                starts@,
                counts@,
                es,
                r as nat,
            ),
        decreases rows@.len() - r,
    {
        let ghost k = r as int;
        proof {
            lemma_row_inside(k, chunk_dims@, starts@, counts@);
            let rs = rows@[k] as int;
            let v = volume(chunk_dims@) as int;
            assert(0 <= rs * es && rs * es + m * es <= v * es && rs <= rs * es) by (nonlinear_arith)
                requires
                    0 <= rs,
                    rs + m <= v,
                    0 <= m,
                    es >= 1,
            ;
            assert(0 <= k * (m * es) && k * (m * es) + m * es <= vc * es) by (nonlinear_arith)
                requires
                    0 <= k,
                    k + 1 <= q,
                    vc == q * m,
                    m >= 0,
                    es > 0,
            ;
        }
        let from: usize = rows[r] as usize * element_size as usize;
        let to: usize = at + r * row;
        if row <= len && from <= len - row {
            overwrite(out, to, chunk, from, row);
        }
        r = r + 1;
    }
}

proof fn lemma_nothing_copied(
    out: Seq<u8>,
    at: int,
    chunk: Seq<u8>,
    cd: Seq<u64>,
    starts: Seq<u64>,
    counts: Seq<u64>,
    es: int,
    n: nat,
)
    requires
        counts.last() == 0 || es == 0,
        es >= 0,
        cd.len() > 0,
        in_bounds(cd, starts, counts),
        n <= row_count(counts),
    ensures
        rows_copied(out, at, chunk, cd, starts, counts, es, n) == out,
    decreases n,
{
    if n > 0 {
        lemma_nothing_copied(out, at, chunk, cd, starts, counts, es, (n - 1) as nat);
        let c = counts.last() as int;
        assert(c * es == 0) by (nonlinear_arith)
            requires
                c == 0 || es == 0,
        ;
        lemma_row_inside(n - 1, cd, starts, counts);
        let rs = row_start(n - 1, cd, starts, counts);
        assert(rs * es >= 0) by (nonlinear_arith)
            requires
                rs >= 0,
                es >= 0,
        ;
        lemma_rows_copied_len(out, at, chunk, cd, starts, counts, es, n);
        assert(rows_copied(out, at, chunk, cd, starts, counts, es, n) =~= out);
    }
}

proof fn lemma_rows_copied(
    out: Seq<u8>,
    at: int,
    chunk: Seq<u8>,
    cd: Seq<u64>,
    starts: Seq<u64>,
    counts: Seq<u64>,
    es: nat,
    n: nat,
)
    requires
        es > 0,
        cd.len() > 0,
        in_bounds(cd, starts, counts),
        shaped(chunk.len(), cd, es),
        0 <= at,
        at + volume(counts) * es <= out.len(),
        n <= row_count(counts),
    ensures
        rows_of(chunk, cd, starts, counts, es as int, n).len() == n * (counts.last() * es),
        rows_copied(out, at, chunk, cd, starts, counts, es as int, n) == patched(
            out,
            at,
            rows_of(chunk, cd, starts, counts, es as int, n),
        ),
    decreases n,
{
    let esi = es as int;
    let m = counts.last() as int;
    let q = row_count(counts) as int;
    let vc = volume(counts) as int;
    let rows = rows_of(chunk, cd, starts, counts, esi, n);
    if n == 0 {
        assert(n * (m * esi) == 0) by (nonlinear_arith)
            requires
                n == 0,
        ;
        assert(patched(out, at, rows) =~= out);
    } else {
        let k = n - 1;
        lemma_rows_copied(out, at, chunk, cd, starts, counts, es, k as nat);
        lemma_row_inside(k, cd, starts, counts);
        let rs = row_start(k, cd, starts, counts);
        let v = volume(cd) as int;
        assert(0 <= rs * esi && rs * esi + m * esi <= v * esi && 0 <= m * esi) by (nonlinear_arith)
            requires
                0 <= rs,
                rs + m <= v,
                0 <= m,
                esi > 0,
        ;
        assert(0 <= k * (m * esi) && k * (m * esi) + m * esi <= vc * esi && n * (m * esi) == k * (m
            * esi) + m * esi) by (nonlinear_arith)
            requires
                0 <= k,
                k + 1 <= q,
                n == k + 1,
                vc == q * m,
                m >= 0,
                esi > 0,
        ;
        assert(rows_copied(out, at, chunk, cd, starts, counts, esi, n) =~= patched(out, at, rows));
    }
}

/// Of a chunk that holds a whole frame, the selected part comes to stand in its place,
/// and nothing else changes.
pub proof fn lemma_frame_copied(
    out: Seq<u8>,
    at: int,
    chunk: Seq<u8>,
    cd: Seq<u64>,
    starts: Seq<u64>,
    counts: Seq<u64>,
    es: nat,
)
    requires
        es > 0,
        cd.len() > 0,
        in_bounds(cd, starts, counts),
        shaped(chunk.len(), cd, es),
        0 <= at,
        at + volume(counts) * es <= out.len(),
    ensures
        rows_copied(out, at, chunk, cd, starts, counts, es as int, row_count(counts)) == patched(
            out,
            at,
            selected(chunk, cd, starts, counts, es as int),
        ),
{
    lemma_rows_copied(out, at, chunk, cd, starts, counts, es, row_count(counts));
    lemma_rows_selected(chunk, cd, starts, counts, es);
}

/// `out` with the selected parts of the first `n` frames written, one behind the other.
/// The parts of frames whose chunk is missing stay as they are.
pub open spec fn frames_copied(
    out: Seq<u8>,
    chunks: Seq<Option<Seq<u8>>>,
    cd: Seq<u64>,
    starts: Seq<u64>,
    counts: Seq<u64>,
    es: int,
    n: nat,
) -> Seq<u8>
    decreases n,
{
    if n == 0 {
        out
    } else {
        let before = frames_copied(out, chunks, cd, starts, counts, es, (n - 1) as nat);
        match chunks[n - 1] {
            Some(b) => rows_copied(
                before,
                (n - 1) * (volume(counts) * es),
                b,
                cd,
                starts,
                counts,
                es,
                row_count(counts),
            ),
            None => before,
        }
    }
}

pub proof fn lemma_frames_copied_len(
    out: Seq<u8>,
    chunks: Seq<Option<Seq<u8>>>,
    cd: Seq<u64>,
    starts: Seq<u64>,
    counts: Seq<u64>,
    es: int,
    n: nat,
)
    ensures
        frames_copied(out, chunks, cd, starts, counts, es, n).len() == out.len(),
    decreases n,
{
    if n > 0 {
        lemma_frames_copied_len(out, chunks, cd, starts, counts, es, (n - 1) as nat);
        let before = frames_copied(out, chunks, cd, starts, counts, es, (n - 1) as nat);
        match chunks[n - 1] {
            Some(b) => {
                lemma_rows_copied_len(
                    before,
                    (n - 1) * (volume(counts) * es),
                    b,
                    cd,
                    starts,
                    counts,
                    es,
                    row_count(counts),
                );
            },
            None => {},
        }
    }
}

/// Copy the selected parts of frames into `out`, one behind the other. `chunk_dims`,
/// `starts` and `counts` are those within a frame.
pub fn copy_frames(
    out: &mut Vec<u8>,
    chunks: &Vec<Option<Vec<u8>>>,
    chunk_dims: &[u64],
    starts: &[u64],
    counts: &[u64],
    element_size: u64,
)
    requires
        chunk_dims@.len() > 0,
        in_bounds(chunk_dims@, starts@, counts@),
        element_size <= u32::MAX,
        volume(chunk_dims@) <= u64::MAX,
        byte_len(chunk_dims@, element_size as nat) <= usize::MAX,
        row_count(counts@) <= u64::MAX,
        chunks@.len() * byte_len(counts@, element_size as nat) <= old(out)@.len(),
        counts@.last() * element_size <= usize::MAX,
    ensures
        final(out)@ == frames_copied(
            old(out)@,
            chunk_views(chunks@),
            chunk_dims@,
            starts@,
            counts@,
            element_size as int,
            chunks@.len(),
        ),
{
    let ghost start = out@;
    let ghost views = chunk_views(chunks@);
    let ghost es = element_size as int;
    proof {
        lemma_selection_volume(chunk_dims@, starts@, counts@);
        let v = volume(counts@) as int;
        let w = volume(chunk_dims@) as int;
        assert(0 <= v * es <= w * es) by (nonlinear_arith)
            requires
                0 <= v <= w,
                es >= 0,
        ;
        if es >= 1 {
            assert(v <= v * es) by (nonlinear_arith)
                requires
                    v >= 0,
                    es >= 1,
            ;
        }
    }
    let n: usize = chunks.len();
    let room: usize = out.len();
    let elements: u64 = match element_count(counts) {
        Some(v) => v,
        None => 0,
    };
    let frame: u64 = elements * element_size;
    let mut i: usize = 0;
    while i < n
        invariant
            i <= n,
            n == chunks@.len(),
            room == start.len(),
            out@.len() == room,
            views == chunk_views(chunks@),
            es == element_size,
            frame == volume(counts@) * es,
            frame <= usize::MAX,
            n * frame <= room,
            chunk_dims@.len() > 0,
            in_bounds(chunk_dims@, starts@, counts@),
            element_size <= u32::MAX,
            volume(chunk_dims@) <= u64::MAX,
            byte_len(chunk_dims@, element_size as nat) <= usize::MAX,
            row_count(counts@) <= u64::MAX,
            counts@.last() * element_size <= usize::MAX,
            out@ == frames_copied(
                start,
                views,
                chunk_dims@,
                starts@,
                counts@,
                es,
                i as nat,
            ),
        decreases n - i,
    {
        proof {
            let k = i as int;
            let m = n as int;
            let f = frame as int;
            assert(0 <= k * f && k * f + f <= m * f) by (nonlinear_arith)
                requires
                    0 <= k,
                    k + 1 <= m,
                    f >= 0,
            ;
            lemma_frames_copied_len(
                start,
                views,
                chunk_dims@,
                starts@,
                counts@,
                es,
                (i + 1) as nat,
            );
        }
        let at: usize = i * frame as usize;
        match &chunks[i] {
            Some(b) => {
                copy_frame(out, at, b.as_slice(), chunk_dims, starts, counts, element_size);
            },
            None => {},
        }
        i = i + 1;
    }
}

/// The selected part of a frame is that of the chunk that holds the frame.
proof fn lemma_frame_part(
    data: Seq<u8>,
    n: u64,
    df: Seq<u64>,
    cdf: Seq<u64>,
    first: u64,
    sf: Seq<u64>,
    count: u64,
    cf: Seq<u64>,
    es: int,
    pad: Seq<u8>,
    j: int,
    r: int,
)
    requires
        es > 0,
        in_bounds(df, sf, cf),
        first + count <= n,
        cdf.len() == df.len(),
        forall|d: int| 0 <= d < df.len() ==> #[trigger] cdf[d] >= df[d],
        0 <= j < count,
        0 <= r < volume(cf) * es,
    ensures
        ({
            let chunk = chunk_cut(data, cons(n, df), cons(1u64, cdf), frame_chunk(first + j, df), es, pad);
            let k = j * (volume(cf) * es) + r;
            &&& 0 <= k < volume(cons(count, cf)) * es
            &&& selected(chunk, cdf, sf, cf, es)[r] == selected(
                data,
                cons(n, df),
                cons(first, sf),
                cons(count, cf),
                es,
            )[k]
        }),
{
    let vc = volume(cf) as int;
    let frame = vc * es;
    let q = r / es;
    let rem = r % es;
    lemma_byte_of(r, vc, es);
    let k = j * frame + r;
    let e = j * vc + q;
    assert(k == e * es + rem) by (nonlinear_arith)
        requires
            k == j * frame + r,
            frame == vc * es,
            e == j * vc + q,
            r == es * q + rem,
    ;
    lemma_fundamental_div_mod_converse(k, es, e, rem);
    lemma_volume_cons(count, cf);
    assert(0 <= e < count * vc) by (nonlinear_arith)
        requires
            e == j * vc + q,
            0 <= q < vc,
            0 <= j,
            j + 1 <= count,
    ;
    assert(0 <= k < count * vc * es) by (nonlinear_arith)
        requires
            k == e * es + rem,
            0 <= e,
            e + 1 <= count * vc,
            0 <= rem < es,
    ;
    lemma_place_cons(e, count, cf);
    lemma_fundamental_div_mod_converse(e, vc, j, q);
    let at = place(q, cf);
    lemma_place_len(q, cf);
    lemma_linear_of_place(q, cf);
    let g = shifted(ints(sf), at);
    let f = first + j;
    let whole = shifted(ints(cons(first, sf)), place(e, cons(count, cf)));
    assert(whole =~= cons(f, g)) by {
        assert forall|d: int| 0 <= d < whole.len() implies whole[d] == cons(f, g)[d] by {
            if d > 0 {
                assert(cons(first, sf)[d] == sf[d - 1]);
                assert(place(e, cons(count, cf))[d] == at[d - 1]);
            }
        }
    }
    assert(inside(g, df) && inside(g, cdf)) by {
        assert forall|d: int| 0 <= d < g.len() implies 0 <= #[trigger] g[d] < df[d] && g[d]
            < cdf[d] by {
            assert(0 <= at[d] < cf[d]);
            assert(sf[d] + cf[d] <= df[d]);
            assert(cdf[d] >= df[d]);
        }
    }
    let l = linear(g, cdf);
    lemma_linear_bound(g, cdf);
    lemma_place_of_linear(g, cdf);
    let vd = volume(cdf) as int;
    lemma_volume_cons(1, cdf);
    let chunk = chunk_cut(data, cons(n, df), cons(1u64, cdf), frame_chunk(f, df), es, pad);
    let i = l * es + rem;
    assert(0 <= i < vd * es && 1 * vd * es == vd * es) by (nonlinear_arith)
        requires
            i == l * es + rem,
            0 <= l,
            l + 1 <= vd,
            0 <= rem < es,
    ;
    lemma_fundamental_div_mod_converse(i, es, l, rem);
    lemma_place_cons(l, 1, cdf);
    lemma_fundamental_div_mod_converse(l, vd, 0, l);
    let here = shifted(chunk_base(frame_chunk(f, df), cons(1u64, cdf)), place(l, cons(1u64, cdf)));
    assert(here =~= cons(f, g)) by {
        assert forall|d: int| 0 <= d < here.len() implies here[d] == cons(f, g)[d] by {
            let b = frame_chunk(f, df);
            if d > 0 {
                assert(cons(1u64, cdf)[d] == cdf[d - 1]);
                assert(b[d] * cons(1u64, cdf)[d] == 0) by (nonlinear_arith)
                    requires
                        b[d] == 0,
                ;
                assert(place(l, cons(1u64, cdf))[d] == g[d - 1]);
            }
        }
    }
    lemma_inside_cons(f, g, n, df);
}

/// The place of the chunk that holds frame `f`.
pub open spec fn frame_chunk(f: int, df: Seq<u64>) -> Seq<int> {
    cons(f, Seq::new(df.len(), |d: int| 0int))
}

/// A selection of a dataset whose frames are single chunks reads as that part of its
/// data: the chunks of the frames are those of the data, and where one is missing the data
/// are what `out` holds before, the fill value.
pub proof fn lemma_frames_selected(
    out: Seq<u8>,
    data: Seq<u8>,
    n: u64,
    df: Seq<u64>,
    cdf: Seq<u64>,
    first: u64,
    sf: Seq<u64>,
    count: u64,
    cf: Seq<u64>,
    es: nat,
    chunks: Seq<Option<Seq<u8>>>,
    pads: Seq<Seq<u8>>,
)
    requires
        es > 0,
        df.len() > 0,
        in_bounds(df, sf, cf),
        first + count <= n,
        frame_is_chunk(cons(n, df), cons(1u64, cdf)),
        out.len() == volume(cons(count, cf)) * es,
        chunks.len() == count,
        pads.len() == count,
        forall|j: int|
            0 <= j < count ==> match #[trigger] chunks[j] {
                Some(b) => b == chunk_cut(
                    data,
                    cons(n, df),
                    cons(1u64, cdf),
                    frame_chunk(first + j, df),
                    es as int,
                    pads[j],
                ),
                None => forall|r: int|
                    0 <= r < volume(cf) * es ==> #[trigger] out[j * (volume(cf) * es) + r]
                        == selected(
                        data,
                        cons(n, df),
                        cons(first, sf),
                        cons(count, cf),
                        es as int,
                    )[j * (volume(cf) * es) + r],
            },
    ensures
        frames_copied(out, chunks, cdf, sf, cf, es as int, count as nat) == selected(
            data,
            cons(n, df),
            cons(first, sf),
            cons(count, cf),
            es as int,
        ),
{
    lemma_frames_upto(out, data, n, df, cdf, first, sf, count, cf, es, chunks, pads, count as nat);
    lemma_volume_cons(count, cf);
    let frame = volume(cf) * es;
    let vc = volume(cf) as int;
    let c = count as int;
    assert(c * vc * es == c * (vc * es)) by (nonlinear_arith);
    lemma_frames_copied_len(out, chunks, cdf, sf, cf, es as int, count as nat);
    assert(frames_copied(out, chunks, cdf, sf, cf, es as int, count as nat) =~= selected(
        data,
        cons(n, df),
        cons(first, sf),
        cons(count, cf),
        es as int,
    ));
}

proof fn lemma_frames_upto(
    out: Seq<u8>,
    data: Seq<u8>,
    n: u64,
    df: Seq<u64>,
    cdf: Seq<u64>,
    first: u64,
    sf: Seq<u64>,
    count: u64,
    cf: Seq<u64>,
    es: nat,
    chunks: Seq<Option<Seq<u8>>>,
    pads: Seq<Seq<u8>>,
    m: nat,
)
    requires
        es > 0,
        df.len() > 0,
        in_bounds(df, sf, cf),
        first + count <= n,
        frame_is_chunk(cons(n, df), cons(1u64, cdf)),
        out.len() == volume(cons(count, cf)) * es,
        chunks.len() == count,
        pads.len() == count,
        m <= count,
        forall|j: int|
            0 <= j < count ==> match #[trigger] chunks[j] {
                Some(b) => b == chunk_cut(
                    data,
                    cons(n, df),
                    cons(1u64, cdf),
                    frame_chunk(first + j, df),
                    es as int,
                    pads[j],
                ),
                None => forall|r: int|
                    0 <= r < volume(cf) * es ==> #[trigger] out[j * (volume(cf) * es) + r]
                        == selected(
                        data,
                        cons(n, df),
                        cons(first, sf),
                        cons(count, cf),
                        es as int,
                    )[j * (volume(cf) * es) + r],
            },
    ensures
        ({
            let got = frames_copied(out, chunks, cdf, sf, cf, es as int, m);
            let want = selected(
                data,
                cons(n, df),
                cons(first, sf),
                cons(count, cf),
                es as int,
            );
            &&& forall|k: int| 0 <= k < m * (volume(cf) * es) ==> #[trigger] got[k] == want[k]
            &&& forall|k: int|
                m * (volume(cf) * es) <= k < out.len() ==> #[trigger] got[k] == out[k]
        }),
    decreases m,
{
    let esi = es as int;
    let vc = volume(cf) as int;
    let frame = vc * esi;
    let want = selected(data, cons(n, df), cons(first, sf), cons(count, cf), esi);
    if m == 0 {
        assert(m * frame == 0) by (nonlinear_arith)
            requires
                m == 0,
        ;
    } else {
        let j = m - 1;
        lemma_frames_upto(
            out,
            data,
            n,
            df,
            cdf,
            first,
            sf,
            count,
            cf,
            es,
            chunks,
            pads,
            j as nat,
        );
        let before = frames_copied(out, chunks, cdf, sf, cf, esi, j as nat);
        lemma_frames_copied_len(out, chunks, cdf, sf, cf, esi, j as nat);
        lemma_volume_cons(count, cf);
        let c = count as int;
        assert(0 <= j * frame && m * frame == j * frame + frame && m * frame <= c * vc * esi && 0
            <= frame) by (nonlinear_arith)
            requires
                m == j + 1,
                0 <= j,
                m <= c,
                frame == vc * esi,
                vc >= 0,
                esi > 0,
        ;
        assert forall|d: int| 0 <= d < df.len() implies #[trigger] cdf[d] >= df[d] by {
            assert(cons(1u64, cdf)[d + 1] >= cons(n, df)[d + 1]);
        }
        match chunks[j] {
            Some(b) => {
                assert(in_bounds(cdf, sf, cf)) by {
                    assert forall|d: int| 0 <= d < cdf.len() implies #[trigger] sf[d] + cf[d]
                        <= cdf[d] by {
                        assert(sf[d] + cf[d] <= df[d]);
                    }
                }
                lemma_volume_cons(1, cdf);
                assert(shaped(b.len(), cdf, es));
                lemma_frame_copied(before, j * frame, b, cdf, sf, cf, es);
                let part = selected(b, cdf, sf, cf, esi);
                assert forall|k: int| j * frame <= k < m * frame implies part[k - j * frame]
                    == #[trigger] want[k] by {
                    lemma_frame_part(
                        data,
                        n,
                        df,
                        cdf,
                        first,
                        sf,
                        count,
                        cf,
                        esi,
                        pads[j],
                        j,
                        k - j * frame,
                    );
                }
            },
            None => {
                assert forall|k: int| j * frame <= k < m * frame implies before[k]
                    == #[trigger] want[k] by {
                    let r = k - j * frame;
                    assert(out[j * (volume(cf) * es) + r] == want[k]);
                }
            },
        }
    }
}

/// Whether a chunk and a selection meet.
pub open spec fn touches(
    cc: Seq<int>,
    cd: Seq<u64>,
    starts: Seq<u64>,
    counts: Seq<u64>,
) -> bool {
    forall|d: int|
        0 <= d < cd.len() ==> {
            &&& #[trigger] cc[d] * cd[d] < starts[d] + counts[d]
            &&& starts[d] < cc[d] * cd[d] + cd[d]
        }
}

/// What is kept of chunks: those that meet a selection.
pub open spec fn touched<T>(
    all: Seq<Option<T>>,
    dims: Seq<u64>,
    cd: Seq<u64>,
    starts: Seq<u64>,
    counts: Seq<u64>,
) -> Seq<Option<T>> {
    Seq::new(
        all.len(),
        |i: int|
            if touches(place(i, grid(dims, cd)), cd, starts, counts) {
                all[i]
            } else {
                None
            },
    )
}

fn meets(cc: &[u64], chunk_dims: &[u64], starts: &[u64], counts: &[u64]) -> (r: bool)
    requires
        cc@.len() == chunk_dims@.len(),
        starts@.len() == chunk_dims@.len(),
        counts@.len() == chunk_dims@.len(),
    ensures
        r == touches(ints(cc@), chunk_dims@, starts@, counts@),
{
    let n: usize = chunk_dims.len();
    let mut d: usize = 0;
    while d < n
        invariant
            d <= n,
            n == chunk_dims@.len(),
            cc@.len() == n,
            starts@.len() == n,
            counts@.len() == n,
            forall|k: int|
                0 <= k < d ==> {
                    &&& #[trigger] ints(cc@)[k] * chunk_dims@[k] < starts@[k] + counts@[k]
                    &&& starts@[k] < ints(cc@)[k] * chunk_dims@[k] + chunk_dims@[k]
                },
        decreases n - d,
    {
        let c: u64 = cc[d];
        let m: u64 = chunk_dims[d];
        proof {
            assert(0 <= c * m <= 0xffff_ffff_ffff_ffff * 0xffff_ffff_ffff_ffff)
                by (nonlinear_arith)
                requires
                    0 <= c <= 0xffff_ffff_ffff_ffff,
                    0 <= m <= 0xffff_ffff_ffff_ffff,
            ;
            assert(ints(cc@)[d as int] == c);
        }
        let base: u128 = c as u128 * m as u128;
        if base >= starts[d] as u128 + counts[d] as u128 || starts[d] as u128 >= base + m as u128 {
            return false;
        }
        d = d + 1;
    }
    true
}

/// Of the places of all chunks, keep those of the chunks that a selection meets.
pub fn touched_ranges(
    ranges: &Vec<Option<ReadRange>>,
    dims: &[u64],
    chunk_dims: &[u64],
    starts: &[u64],
    counts: &[u64],
) -> (r: Vec<Option<ReadRange>>)
    requires
        chunk_dims@.len() == dims@.len(),
        starts@.len() == dims@.len(),
        counts@.len() == dims@.len(),
        ranges@.len() <= volume(grid(dims@, chunk_dims@)),
    ensures
        r@ == touched(ranges@, dims@, chunk_dims@, starts@, counts@),
{
    let ghost want = touched(ranges@, dims@, chunk_dims@, starts@, counts@);
    let g = chunk_grid(dims, chunk_dims);
    let n: usize = ranges.len();
    let mut r: Vec<Option<ReadRange>> = Vec::new();
    let mut i: usize = 0;
    assert(r@ =~= want.take(0));
    while i < n
        invariant
            i <= n,
            n == ranges@.len(),
            g@ == grid(dims@, chunk_dims@),
            chunk_dims@.len() == dims@.len(),
            starts@.len() == dims@.len(),
            counts@.len() == dims@.len(),
            n <= volume(g@),
            want == touched(ranges@, dims@, chunk_dims@, starts@, counts@),
            r@ == want.take(i as int),
        decreases n - i,
    {
        let cc = place_of(i as u64, g.as_slice());
        proof {
            lemma_place_len(i as int, g@);
        }
        let one: Option<ReadRange> = if meets(cc.as_slice(), chunk_dims, starts, counts) {
            ranges[i]
        } else {
            None
        };
        assert(one == want[i as int]);
        r.push(one);
        i = i + 1;
        assert(r@ =~= want.take(i as int));
    }
    assert(want.take(n as int) =~= want);
    r
}

/// For a selection it is enough to read the chunks that it meets: put in place, they give
/// the same selection as all chunks.
pub proof fn lemma_touched_suffice(
    out: Seq<u8>,
    dims: Seq<u64>,
    cd: Seq<u64>,
    starts: Seq<u64>,
    counts: Seq<u64>,
    es: nat,
    chunks: Seq<Option<Seq<u8>>>,
)
    requires
        es > 0,
        dims.len() > 0,
        cd.len() == dims.len(),
        chunked(cd),
        in_bounds(dims, starts, counts),
        shaped(out.len(), dims, es),
    ensures
        ({
            let some = touched(chunks, dims, cd, starts, counts);
            selected(
                assembled(out, dims, cd, es as int, some, some.len()),
                dims,
                starts,
                counts,
                es as int,
            ) == selected(
                assembled(out, dims, cd, es as int, chunks, chunks.len()),
                dims,
                starts,
                counts,
                es as int,
            )
        }),
{
    let esi = es as int;
    let some = touched(chunks, dims, cd, starts, counts);
    let a = selected(assembled(out, dims, cd, esi, some, some.len()), dims, starts, counts, esi);
    let b = selected(
        assembled(out, dims, cd, esi, chunks, chunks.len()),
        dims,
        starts,
        counts,
        esi,
    );
    assert forall|k: int| 0 <= k < a.len() implies a[k] == b[k] by {
        lemma_byte_of(k, volume(counts) as int, esi);
        let at = place(k / esi, counts);
        lemma_place_len(k / esi, counts);
        lemma_linear_of_place(k / esi, counts);
        let g = shifted(ints(starts), at);
        assert(inside(g, dims)) by {
            assert forall|d: int| 0 <= d < g.len() implies 0 <= #[trigger] g[d] < dims[d] by {
                assert(0 <= at[d] < counts[d]);
                assert(starts[d] + counts[d] <= dims[d]);
            }
        }
        lemma_linear_bound(g, dims);
        lemma_place_of_linear(g, dims);
        let l = linear(g, dims);
        let v = volume(dims) as int;
        let i = l * esi + k % esi;
        assert(0 <= i < v * esi) by (nonlinear_arith)
            requires
                i == l * esi + k % esi,
                0 <= l,
                l + 1 <= v,
                0 <= k % esi < esi,
        ;
        lemma_fundamental_div_mod_converse(i, esi, l, k % esi);
        assert forall|d: int| 0 <= d < g.len() implies starts[d] <= #[trigger] g[d] < starts[d]
            + counts[d] by {
            assert(0 <= at[d] < counts[d]);
        }
        lemma_touched_upto(out, dims, cd, starts, counts, es, chunks, chunks.len(), i, g);
    }
    assert(a =~= b);
}

proof fn lemma_touched_upto(
    out: Seq<u8>,
    dims: Seq<u64>,
    cd: Seq<u64>,
    starts: Seq<u64>,
    counts: Seq<u64>,
    es: nat,
    chunks: Seq<Option<Seq<u8>>>,
    n: nat,
    i: int,
    g: Seq<int>,
)
    requires
        es > 0,
        cd.len() == dims.len(),
        n <= chunks.len(),
        shaped(out.len(), dims, es),
        0 <= i < out.len(),
        g.len() == dims.len(),
        place(i / es as int, dims) == g,
        forall|d: int|
            0 <= d < g.len() ==> starts[d] <= #[trigger] g[d] < starts[d] + counts[d],
    ensures
        assembled(
            out,
            dims,
            cd,
            es as int,
            touched(chunks, dims, cd, starts, counts),
            n,
        )[i] == assembled(out, dims, cd, es as int, chunks, n)[i],
    decreases n,
{
    if n > 0 {
        let some = touched(chunks, dims, cd, starts, counts);
        lemma_touched_upto(out, dims, cd, starts, counts, es, chunks, (n - 1) as nat, i, g);
        lemma_assembled_len(out, dims, cd, es as int, some, (n - 1) as nat);
        lemma_assembled_len(out, dims, cd, es as int, chunks, (n - 1) as nat);
        let cc = place(n - 1, grid(dims, cd));
        lemma_place_len(n - 1, grid(dims, cd));
        if !touches(cc, cd, starts, counts) {
            assert(!in_chunk(g, cc, cd)) by {
                if in_chunk(g, cc, cd) {
                    let r = relative(g, chunk_base(cc, cd));
                    assert forall|d: int| 0 <= d < cd.len() implies {
                        &&& #[trigger] cc[d] * cd[d] < starts[d] + counts[d]
                        &&& starts[d] < cc[d] * cd[d] + cd[d]
                    } by {
                        assert(0 <= r[d] < cd[d]);
                        assert(starts[d] <= g[d] < starts[d] + counts[d]);
                    }
                }
            }
        }
    }
}

} // verus!
