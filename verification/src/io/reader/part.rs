//! A selection is that part of the whole dataset, whatever the layout.

use crate::format::messages::data_layout::{ChunkIndexType, LayoutView};
use crate::format::messages::fill_value::tiled;
use crate::format::UNDEF_ADDR;
use crate::io::array::{
    inside, ints, lemma_linear_bound, lemma_linear_of_place, lemma_place_len,
    lemma_place_of_linear, linear, place, volume,
};
use crate::io::chunks::{
    assembled, chunk_cut, chunked, full_size, grid, lemma_chunks_of_assembled,
    missing_at, own_pads, owner, shaped, shifted,
};
use crate::io::frames::{cons, lemma_grid_cons, lemma_place_cons, lemma_volume_cons};
use crate::io::reader::selection::{
    frame_chunk, frame_is_chunk, frames_copied, gathered, lemma_frames_copied_len,
    lemma_frames_selected,
    lemma_selection_bounds, lemma_selection_reads_back, lemma_touched_suffice, selectable,
    selection_plan, touched, SelectionView,
};
use crate::io::slices::{in_bounds, lemma_byte_of, selected, selected_index};
use crate::io::writer::datasets::byte_len;
use vstd::arithmetic::div_mod::lemma_fundamental_div_mod_converse;
use vstd::prelude::*;

verus! {

/// The chunk shape of a layout.
pub open spec fn chunk_shape_of(layout: LayoutView) -> Seq<u64> {
    match layout {
        LayoutView::ChunkedV4 { chunk_dims, .. } => chunk_dims.drop_last(),
        _ => Seq::empty(),
    }
}

/// The chunks of frames `first` to `first + count`, where every frame is one chunk.
pub open spec fn frames_of(chunks: Seq<Option<Seq<u8>>>, first: u64, count: u64) -> Seq<
    Option<Seq<u8>>,
> {
    Seq::new(
        count as nat,
        |i: int|
            if first + i < chunks.len() {
                chunks[first + i]
            } else {
                None
            },
    )
}

/// What a plan gives: `file` is the file, `chunks` are the chunks of the dataset, `whole` its
/// data, `fill` its fill value. Frames are copied one by one; of other chunks those that the
/// selection meets are put together.
pub open spec fn plan_data(
    layout: LayoutView,
    file: Seq<u8>,
    chunks: Seq<Option<Seq<u8>>>,
    whole: Seq<u8>,
    fill: Option<Seq<u8>>,
    dims: Seq<u64>,
    starts: Seq<u64>,
    counts: Seq<u64>,
    es: nat,
) -> Seq<u8> {
    let cd = chunk_shape_of(layout);
    match selection_plan(layout, dims, es, starts, counts) {
        SelectionView::Bytes(b) => b,
        SelectionView::Fill(n) => tiled(n as nat, fill),
        SelectionView::Rows(r) => gathered(file, r, r.len()),
        SelectionView::Frames => frames_copied(
            tiled(byte_len(counts, es), fill),
            frames_of(chunks, starts[0], counts[0]),
            cd.skip(1),
            starts.skip(1),
            counts.skip(1),
            es as int,
            counts[0] as nat,
        ),
        SelectionView::Chunks => {
            let some = touched(chunks, dims, cd, starts, counts);
            selected(
                assembled(tiled(byte_len(dims, es), fill), dims, cd, es as int, some, some.len()),
                dims,
                starts,
                counts,
                es as int,
            )
        },
        SelectionView::Whole => selected(whole, dims, starts, counts, es as int),
    }
}

/// Whether `data` is what reading the whole dataset gives: the bytes at its address, those
/// in the layout, the fill value where it has no place, or the chunks of its extensible
/// array put together, with the fill value where one is missing. Other datasets are read as
/// a whole for a selection too.
pub open spec fn holds_data(
    layout: LayoutView,
    file: Seq<u8>,
    chunks: Seq<Option<Seq<u8>>>,
    data: Seq<u8>,
    fill: Option<Seq<u8>>,
    dims: Seq<u64>,
    es: nat,
) -> bool {
    let cd = chunk_shape_of(layout);
    &&& shaped(data.len(), dims, es)
    &&& fill matches Some(b) ==> b.len() == es
    &&& match layout {
        LayoutView::Contiguous { address, .. } => if address == UNDEF_ADDR {
            data == tiled(data.len(), fill)
        } else {
            &&& address + data.len() <= file.len()
            &&& address + data.len() <= u64::MAX
            &&& file.subrange(address as int, address + data.len()) == data
        },
        LayoutView::Compact { data: held } => data.len() <= held.len() && data == held.take(
            data.len() as int,
        ),
        LayoutView::ChunkedV4 { index_type, .. } => index_type == ChunkIndexType::ExtensibleArray
            && cd.len() == dims.len() && chunked(cd) ==> {
            &&& chunks.len() <= volume(grid(dims, cd))
            &&& full_size(chunks, cd, es)
            &&& data == assembled(
                tiled(byte_len(dims, es), fill),
                dims,
                cd,
                es as int,
                chunks,
                chunks.len(),
            )
        },
        LayoutView::ChunkedV3 { .. } => true,
    }
}

/// Where byte `k` of a selection stands in the array.
proof fn lemma_selected_byte(
    dims: Seq<u64>,
    starts: Seq<u64>,
    counts: Seq<u64>,
    es: nat,
    k: int,
) -> (i: int)
    requires
        es > 0,
        in_bounds(dims, starts, counts),
        0 <= k < byte_len(counts, es),
    ensures
        i == selected_index(k / es as int, dims, starts, counts) * es + k % es as int,
        0 <= i < volume(dims) * es,
        i % es as int == k % es as int,
        place(i / es as int, dims) == shifted(ints(starts), place(k / es as int, counts)),
        inside(place(i / es as int, dims), dims),
        inside(place(k / es as int, counts), counts),
{
    let esi = es as int;
    lemma_byte_of(k, volume(counts) as int, esi);
    let q = k / esi;
    let at = place(q, counts);
    lemma_place_len(q, counts);
    lemma_linear_of_place(q, counts);
    let g = shifted(ints(starts), at);
    assert(inside(g, dims)) by {
        assert forall|d: int| 0 <= d < g.len() implies 0 <= #[trigger] g[d] < dims[d] by {
            assert(0 <= at[d] < counts[d]);
            assert(starts[d] + counts[d] <= dims[d]);
        }
    }
    lemma_linear_bound(g, dims);
    lemma_place_of_linear(g, dims);
    let l = linear(g, dims);
    let v = volume(dims) as int;
    let i = l * esi + k % esi;
    assert(0 <= i < v * esi) by (nonlinear_arith)
        requires
            i == l * esi + k % esi,
            0 <= l,
            l + 1 <= v,
            0 <= k % esi < esi,
    ;
    lemma_fundamental_div_mod_converse(i, esi, l, k % esi);
    i
}

/// A selection of a dataset reads as that part of the whole dataset: byte for byte what
/// reading the dataset gives at the selected elements, whatever the layout and whichever
/// parts of the file are read for it. Chunks that are not of full size, and elements of no
/// bytes, are left out.
pub proof fn lemma_selection_is_part(
    layout: LayoutView,
    file: Seq<u8>,
    chunks: Seq<Option<Seq<u8>>>,
    data: Seq<u8>,
    fill: Option<Seq<u8>>,
    dims: Seq<u64>,
    starts: Seq<u64>,
    counts: Seq<u64>,
    es: nat,
)
    requires
        es > 0,
        dims.len() > 0,
        in_bounds(dims, starts, counts),
        selectable(layout, dims, es, starts, counts),
        holds_data(layout, file, chunks, data, fill, dims, es),
    ensures
        plan_data(layout, file, chunks, data, fill, dims, starts, counts, es) == selected(
            data,
            dims,
            starts,
            counts,
            es as int,
        ),
        selected(data, dims, starts, counts, es as int).len() == byte_len(counts, es),
{
    let esi = es as int;
    let want = selected(data, dims, starts, counts, esi);
    lemma_selection_bounds(dims, starts, counts, es);
    let vc = volume(counts) as int;
    assert(0 <= vc * esi) by (nonlinear_arith)
        requires
            vc >= 0,
            esi > 0,
    ;
    match layout {
        LayoutView::Contiguous { address, size } => if address == UNDEF_ADDR {
            let n = byte_len(counts, es);
            let got = tiled(n, fill);
            assert forall|k: int| 0 <= k < n implies got[k] == want[k] by {
                let i = lemma_selected_byte(dims, starts, counts, es, k);
                assert(data[i] == tiled(data.len(), fill)[i]);
            }
            assert(got =~= want);
        } else {
            lemma_selection_reads_back(file, address, size, data, dims, starts, counts, es);
        },
        LayoutView::Compact { data: held } => {
            let got = selected(held, dims, starts, counts, esi);
            assert forall|k: int| 0 <= k < byte_len(counts, es) implies got[k] == want[k] by {
                let i = lemma_selected_byte(dims, starts, counts, es, k);
                assert(data[i] == held[i]);
            }
            assert(got =~= want);
        },
        LayoutView::ChunkedV3 { .. } => {},
        LayoutView::ChunkedV4 { .. } => {
            let cd = chunk_shape_of(layout);
            match selection_plan(layout, dims, es, starts, counts) {
                SelectionView::Chunks => {
                    lemma_touched_suffice(
                        tiled(byte_len(dims, es), fill),
                        dims,
                        cd,
                        starts,
                        counts,
                        es,
                        chunks,
                    );
                },
                SelectionView::Frames => {
                    if chunked(cd) {
                        lemma_frames_part(chunks, data, fill, dims, cd, starts, counts, es);
                    } else {
                        lemma_frames_empty(chunks, data, fill, dims, cd, starts, counts, es);
                    }
                },
                _ => {},
            }
        },
    }
}

/// Where every frame is one chunk, chunk `f` is that of frame `f`.
proof fn lemma_frame_place(dims: Seq<u64>, cd: Seq<u64>, f: int)
    requires
        frame_is_chunk(dims, cd),
        chunked(cd),
        0 <= f < dims[0],
        forall|d: int| 1 <= d < dims.len() ==> #[trigger] dims[d] > 0,
    ensures
        0 <= f < volume(grid(dims, cd)),
        place(f, grid(dims, cd)) == frame_chunk(f, dims.skip(1)),
        linear(frame_chunk(f, dims.skip(1)), grid(dims, cd)) == f,
{
    let df = dims.skip(1);
    let cdf = cd.skip(1);
    let ones = grid(df, cdf);
    assert(dims =~= cons(dims[0], df));
    assert(cd =~= cons(1u64, cdf));
    lemma_grid_cons(dims[0], df, 1, cdf);
    assert(((dims[0] + 1u64 - 1) / 1) as u64 == dims[0]);
    assert forall|d: int| 0 <= d < ones.len() implies #[trigger] ones[d] == 1 by {
        let a = df[d] as int;
        let c = cdf[d] as int;
        assert(a == dims[d + 1] && c == cd[d + 1]);
        assert(0 < a <= c);
        lemma_fundamental_div_mod_converse(a + c - 1, c, 1, a - 1);
    }
    lemma_ones(ones);
    lemma_volume_cons(dims[0], ones);
    assert(f * 1 == f);
    lemma_place_cons(f, dims[0], ones);
    lemma_fundamental_div_mod_converse(f, 1, f, 0);
    lemma_linear_of_place(0, ones);
    lemma_place_len(0, ones);
    let z = place(0, ones);
    assert forall|d: int| 0 <= d < z.len() implies z[d] == 0 by {
        assert(0 <= z[d] < ones[d]);
    }
    assert(z =~= Seq::new(df.len(), |d: int| 0int));
    lemma_linear_of_place(f, grid(dims, cd));
}

proof fn lemma_ones(s: Seq<u64>)
    requires
        forall|d: int| 0 <= d < s.len() ==> #[trigger] s[d] == 1,
    ensures
        volume(s) == 1,
    decreases s.len(),
{
    if s.len() > 0 {
        lemma_ones(s.drop_last());
        assert(1 * s.last() == 1);
    }
}

proof fn lemma_frames_part(
    chunks: Seq<Option<Seq<u8>>>,
    data: Seq<u8>,
    fill: Option<Seq<u8>>,
    dims: Seq<u64>,
    cd: Seq<u64>,
    starts: Seq<u64>,
    counts: Seq<u64>,
    es: nat,
)
    requires
        es > 0,
        in_bounds(dims, starts, counts),
        frame_is_chunk(dims, cd),
        chunked(cd),
        chunks.len() <= volume(grid(dims, cd)),
        full_size(chunks, cd, es),
        fill matches Some(b) ==> b.len() == es,
        data == assembled(
            tiled(byte_len(dims, es), fill),
            dims,
            cd,
            es as int,
            chunks,
            chunks.len(),
        ),
    ensures
        frames_copied(
            tiled(byte_len(counts, es), fill),
            frames_of(chunks, starts[0], counts[0]),
            cd.skip(1),
            starts.skip(1),
            counts.skip(1),
            es as int,
            counts[0] as nat,
        ) == selected(data, dims, starts, counts, es as int),
{
    let esi = es as int;
    let base = tiled(byte_len(dims, es), fill);
    let out = tiled(byte_len(counts, es), fill);
    let df = dims.skip(1);
    let cdf = cd.skip(1);
    let sf = starts.skip(1);
    let cf = counts.skip(1);
    let first = starts[0];
    let count = counts[0];
    let some = frames_of(chunks, first, count);
    let v = volume(dims) as int;
    assert(0 <= v * esi) by (nonlinear_arith)
        requires
            v >= 0,
            esi > 0,
    ;
    assert(dims =~= cons(dims[0], df));
    assert(cd =~= cons(1u64, cdf));
    assert(starts =~= cons(first, sf));
    assert(counts =~= cons(count, cf));
    assert(starts[0] + counts[0] <= dims[0]);
    assert(in_bounds(df, sf, cf)) by {
        assert forall|d: int| 0 <= d < df.len() implies #[trigger] sf[d] + cf[d] <= df[d] by {
            assert(starts[d + 1] + counts[d + 1] <= dims[d + 1]);
        }
    }
    lemma_chunks_of_assembled(base, dims, cd, es, chunks);
    let own = own_pads(chunks);
    let pads = Seq::new(
        count as nat,
        |j: int|
            if first + j < chunks.len() {
                own[first + j]
            } else {
                Seq::empty()
            },
    );
    let want = selected(data, dims, starts, counts, esi);
    let frame = volume(cf) * es;
    assert forall|j: int| 0 <= j < count implies match #[trigger] some[j] {
        Some(b) => b == chunk_cut(data, dims, cd, frame_chunk(first + j, df), esi, pads[j]),
        None => forall|r: int|
            0 <= r < volume(cf) * es ==> #[trigger] out[j * (volume(cf) * es) + r] == want[j * (
            volume(cf) * es) + r],
    } by {
        let f = first + j;
        match some[j] {
            Some(b) => {
                assert(chunks[f] == Some(b));
                lemma_dims_used(dims, cd, f);
                lemma_frame_place(dims, cd, f);
            },
            None => {
                assert forall|r: int| 0 <= r < volume(cf) * es implies #[trigger] out[j * (volume(
                    cf,
                ) * es) + r] == want[j * (volume(cf) * es) + r] by {
                    lemma_missing_frame(chunks, data, fill, dims, cd, starts, counts, es, j, r);
                }
            },
        }
    }
    lemma_frames_selected(
        out,
        data,
        dims[0],
        df,
        cdf,
        first,
        sf,
        count,
        cf,
        es,
        some,
        pads,
    );
}

/// An empty selection has no bytes, whatever the chunks.
proof fn lemma_frames_empty(
    chunks: Seq<Option<Seq<u8>>>,
    data: Seq<u8>,
    fill: Option<Seq<u8>>,
    dims: Seq<u64>,
    cd: Seq<u64>,
    starts: Seq<u64>,
    counts: Seq<u64>,
    es: nat,
)
    requires
        es > 0,
        in_bounds(dims, starts, counts),
        frame_is_chunk(dims, cd),
        !chunked(cd),
    ensures
        frames_copied(
            tiled(byte_len(counts, es), fill),
            frames_of(chunks, starts[0], counts[0]),
            cd.skip(1),
            starts.skip(1),
            counts.skip(1),
            es as int,
            counts[0] as nat,
        ) == selected(data, dims, starts, counts, es as int),
{
    let esi = es as int;
    let d = choose|d: int| 0 <= d < cd.len() && cd[d] == 0;
    assert(cd[d] >= dims[d]);
    assert(starts[d] + counts[d] <= dims[d]);
    let vc = volume(counts) as int;
    assert(0 <= vc * esi) by (nonlinear_arith)
        requires
            vc >= 0,
            esi > 0,
    ;
    if byte_len(counts, es) > 0 {
        let i = lemma_selected_byte(dims, starts, counts, es, 0);
        let c = place(0int / esi, counts);
        assert(0 <= c[d] < counts[d]);
    }
    let out = tiled(byte_len(counts, es), fill);
    lemma_frames_copied_len(
        out,
        frames_of(chunks, starts[0], counts[0]),
        cd.skip(1),
        starts.skip(1),
        counts.skip(1),
        esi,
        counts[0] as nat,
    );
    assert(frames_copied(
        out,
        frames_of(chunks, starts[0], counts[0]),
        cd.skip(1),
        starts.skip(1),
        counts.skip(1),
        esi,
        counts[0] as nat,
    ) =~= selected(data, dims, starts, counts, esi));
}

/// Where there are chunks, no dimension is empty.
proof fn lemma_dims_used(dims: Seq<u64>, cd: Seq<u64>, f: int)
    requires
        frame_is_chunk(dims, cd),
        chunked(cd),
        0 <= f < volume(grid(dims, cd)),
    ensures
        forall|d: int| 1 <= d < dims.len() ==> #[trigger] dims[d] > 0,
{
    let g = grid(dims, cd);
    lemma_linear_of_place(f, g);
    let c = place(f, g);
    lemma_place_len(f, g);
    assert forall|d: int| 1 <= d < dims.len() implies #[trigger] dims[d] > 0 by {
        assert(0 <= c[d] < g[d]);
        if dims[d] == 0 {
            let m = cd[d] as int;
            lemma_fundamental_div_mod_converse(0 + m - 1, m, 0, m - 1);
        }
    }
}

proof fn lemma_missing_frame(
    chunks: Seq<Option<Seq<u8>>>,
    data: Seq<u8>,
    fill: Option<Seq<u8>>,
    dims: Seq<u64>,
    cd: Seq<u64>,
    starts: Seq<u64>,
    counts: Seq<u64>,
    es: nat,
    j: int,
    r: int,
)
    requires
        es > 0,
        in_bounds(dims, starts, counts),
        frame_is_chunk(dims, cd),
        chunked(cd),
        chunks.len() <= volume(grid(dims, cd)),
        full_size(chunks, cd, es),
        fill matches Some(b) ==> b.len() == es,
        data == assembled(
            tiled(byte_len(dims, es), fill),
            dims,
            cd,
            es as int,
            chunks,
            chunks.len(),
        ),
        0 <= j < counts[0],
        frames_of(chunks, starts[0], counts[0])[j] is None,
        0 <= r < volume(counts.skip(1)) * es,
    ensures
        tiled(byte_len(counts, es), fill)[j * (volume(counts.skip(1)) * es) + r] == selected(
            data,
            dims,
            starts,
            counts,
            es as int,
        )[j * (volume(counts.skip(1)) * es) + r],
{
    let esi = es as int;
    let cf = counts.skip(1);
    let vf = volume(cf) as int;
    let count = counts[0];
    let k = j * (vf * esi) + r;
    assert(counts =~= cons(count, cf));
    lemma_volume_cons(count, cf);
    let c = count as int;
    assert(0 <= k < (c * vf) * esi) by (nonlinear_arith)
        requires
            k == j * (vf * esi) + r,
            0 <= r < vf * esi,
            0 <= j,
            j + 1 <= c,
            vf >= 0,
            esi > 0,
    ;
    let i = lemma_selected_byte(dims, starts, counts, es, k);
    // The element is one of frame `j` of the selection.
    lemma_byte_of(r, vf, esi);
    let e = j * vf + r / esi;
    assert(k == e * esi + r % esi) by (nonlinear_arith)
        requires
            k == j * (vf * esi) + r,
            r == esi * (r / esi) + r % esi,
            e == j * vf + r / esi,
    ;
    lemma_fundamental_div_mod_converse(k, esi, e, r % esi);
    assert(0 <= e < c * vf) by (nonlinear_arith)
        requires
            e == j * vf + r / esi,
            0 <= r / esi < vf,
            0 <= j,
            j + 1 <= c,
    ;
    lemma_place_cons(e, count, cf);
    assert(j * vf == vf * j) by (nonlinear_arith);
    lemma_fundamental_div_mod_converse(e, vf, j, r / esi);
    let at = place(e, counts);
    assert(at[0] == j);
    let g = place(i / esi, dims);
    let f = starts[0] + j;
    assert(g[0] == f);
    // Its chunk is the one that is missing.
    let own = owner(g, cd);
    assert forall|d: int| 1 <= d < dims.len() implies #[trigger] dims[d] > 0 by {
        assert(0 <= g[d] < dims[d]);
    }
    lemma_frame_place(dims, cd, f);
    assert(own =~= frame_chunk(f, dims.skip(1))) by {
        assert forall|d: int| 0 <= d < own.len() implies own[d] == frame_chunk(
            f,
            dims.skip(1),
        )[d] by {
            assert(0 <= g[d] < dims[d]);
            if d == 0 {
                lemma_fundamental_div_mod_converse(f, 1, f, 0);
            } else {
                assert(cd[d] >= dims[d]);
                lemma_fundamental_div_mod_converse(g[d], cd[d] as int, 0, g[d]);
            }
        }
    }
    assert(missing_at(chunks, dims, cd, i / esi));
    let base = tiled(byte_len(dims, es), fill);
    lemma_chunks_of_assembled(base, dims, cd, es, chunks);
    assert(data[i] == base[i]);
    assert(i % esi == k % esi);
}

} // verus!
