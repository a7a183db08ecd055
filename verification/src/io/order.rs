//! Where the elements of an array stand.

use crate::io::array::{
    inside, ints, lemma_linear_bound, lemma_place_of_linear, linear, place, volume,
};
use crate::io::chunks::{
    assembled, chunk_base, chunk_cut, chunked, chunks_of, grid, holds_element,
    lemma_all_chunks_roundtrip, lemma_parts, placed_upto, relative, shaped, shifted,
};
use crate::io::slices::{in_bounds, replaced, selected};
use crate::io::tiles::{tiles, zeros};
use vstd::arithmetic::div_mod::lemma_fundamental_div_mod_converse;
use vstd::prelude::*;

verus! {

/// Whether place `a` comes before place `b`: at the first coordinate in which they
/// differ, that of `a` is smaller.
pub open spec fn precedes(a: Seq<int>, b: Seq<int>) -> bool {
    exists|d: int|
        0 <= d < a.len() && #[trigger] a[d] < b[d] && forall|k: int|
            0 <= k < d ==> #[trigger] a[k] == b[k]
}

/// Elements are numbered in the order of their places, from zero and without gaps: the
/// last coordinate moves fastest.
pub proof fn lemma_row_major(a: Seq<int>, b: Seq<int>, dims: Seq<u64>)
    requires
        inside(a, dims),
        inside(b, dims),
    ensures
        0 <= linear(a, dims) < volume(dims),
        precedes(a, b) ==> linear(a, dims) < linear(b, dims),
        linear(a, dims) == linear(b, dims) ==> a == b,
    decreases dims.len(),
{
    lemma_linear_bound(a, dims);
    lemma_place_of_linear(a, dims);
    lemma_place_of_linear(b, dims);
    if precedes(a, b) {
        let d = choose|d: int|
            0 <= d < a.len() && #[trigger] a[d] < b[d] && forall|k: int|
                0 <= k < d ==> #[trigger] a[k] == b[k];
        let front = dims.drop_last();
        let af = a.drop_last();
        let bf = b.drop_last();
        let n = dims.last() as int;
        assert(inside(af, front)) by {
            assert forall|d: int| 0 <= d < af.len() implies 0 <= #[trigger] af[d] < front[d] by {
                assert(af[d] == a[d]);
            }
        }
        assert(inside(bf, front)) by {
            assert forall|d: int| 0 <= d < bf.len() implies 0 <= #[trigger] bf[d] < front[d] by {
                assert(bf[d] == b[d]);
            }
        }
        let x = linear(af, front);
        let y = linear(bf, front);
        assert(a.last() == a[a.len() - 1] && b.last() == b[b.len() - 1]);
        assert(0 <= a.last() < n && 0 <= b.last() < n) by {
            assert(dims.last() == dims[dims.len() - 1]);
        }
        if d == a.len() - 1 {
            assert forall|k: int| 0 <= k < af.len() implies af[k] == bf[k] by {
                assert(a[k] == b[k]);
            }
            assert(af =~= bf);
        } else {
            assert(af[d] < bf[d]);
            assert forall|k: int| 0 <= k < d implies #[trigger] af[k] == bf[k] by {
                assert(a[k] == b[k]);
            }
            lemma_row_major(af, bf, front);
            assert(x * n + n <= y * n) by (nonlinear_arith)
                requires
                    x + 1 <= y,
                    0 <= n,
            ;
        }
    }
}

/// Byte `b` of element `e`, among elements of `es` bytes.
proof fn lemma_byte(e: int, b: int, es: int, n: int)
    requires
        0 <= b < es,
        0 <= e < n,
    ensures
        0 <= e * es + b < n * es,
        (e * es + b) / es == e,
        (e * es + b) % es == b,
{
    lemma_fundamental_div_mod_converse(e * es + b, es, e, b);
    assert(0 <= e * es + b < n * es) by (nonlinear_arith)
        requires
            0 <= b < es,
            0 <= e,
            e + 1 <= n,
    ;
}

/// The element at `c` of a selection is the element of the array that lies so far behind
/// the start of the selection in every dimension.
pub proof fn lemma_selected_element(
    data: Seq<u8>,
    dims: Seq<u64>,
    starts: Seq<u64>,
    counts: Seq<u64>,
    es: int,
    c: Seq<int>,
    at: Seq<int>,
    b: int,
)
    requires
        in_bounds(dims, starts, counts),
        data.len() == volume(dims) * es,
        inside(c, counts),
        at.len() == dims.len(),
        forall|d: int| 0 <= d < dims.len() ==> #[trigger] at[d] == starts[d] + c[d],
        0 <= b < es,
    ensures
        inside(at, dims),
        selected(data, dims, starts, counts, es).len() == volume(counts) * es,
        selected(data, dims, starts, counts, es)[linear(c, counts) * es + b] == data[linear(at, dims)
            * es + b],
{
    let i = linear(c, counts);
    lemma_linear_bound(c, counts);
    lemma_place_of_linear(c, counts);
    lemma_byte(i, b, es, volume(counts) as int);
    assert(shifted(ints(starts), place(i, counts)) =~= at);
    assert forall|d: int| 0 <= d < at.len() implies 0 <= #[trigger] at[d] < dims[d] by {
        assert(0 <= c[d] < counts[d]);
        assert(starts[d] + counts[d] <= dims[d]);
    }
    assert(0 <= volume(counts) * es) by (nonlinear_arith)
        requires
            0 <= es,
    ;
}

/// Replacing a selection puts its element at `c` at the place that lies so far behind the
/// start of the selection; an element that lies before the start or behind the end in
/// some dimension stays.
pub proof fn lemma_replaced_element(
    data: Seq<u8>,
    dims: Seq<u64>,
    starts: Seq<u64>,
    counts: Seq<u64>,
    es: int,
    new: Seq<u8>,
    at: Seq<int>,
    b: int,
)
    requires
        in_bounds(dims, starts, counts),
        data.len() == volume(dims) * es,
        inside(at, dims),
        0 <= b < es,
    ensures
        ({
            let k = linear(at, dims) * es + b;
            let r = replaced(data, dims, starts, counts, es, new);
            &&& r.len() == data.len()
            &&& (exists|d: int|
                0 <= d < dims.len() && !(starts[d] <= #[trigger] at[d] < starts[d] + counts[d]))
                ==> r[k] == data[k]
            &&& forall|c: Seq<int>|
                inside(c, counts) && (forall|d: int|
                    0 <= d < dims.len() ==> #[trigger] at[d] == starts[d] + c[d]) ==> r[k]
                    == new[#[trigger] linear(c, counts) * es + b]
        }),
{
    let e = linear(at, dims);
    let k = e * es + b;
    lemma_linear_bound(at, dims);
    lemma_place_of_linear(at, dims);
    lemma_byte(e, b, es, volume(dims) as int);
    let rel = relative(at, ints(starts));
    if exists|d: int|
        0 <= d < dims.len() && !(starts[d] <= #[trigger] at[d] < starts[d] + counts[d]) {
        let d = choose|d: int|
            0 <= d < dims.len() && !(starts[d] <= #[trigger] at[d] < starts[d] + counts[d]);
        assert(rel[d] == at[d] - starts[d]);
    }
    assert forall|c: Seq<int>|
        inside(c, counts) && (forall|d: int|
            0 <= d < dims.len() ==> #[trigger] at[d] == starts[d] + c[d]) implies replaced(
        data,
        dims,
        starts,
        counts,
        es,
        new,
    )[k] == new[#[trigger] linear(c, counts) * es + b] by {
        assert forall|d: int| 0 <= d < c.len() implies rel[d] == c[d] by {
            assert(at[d] == starts[d] + c[d]);
        }
        assert(rel =~= c);
    }
}

/// The element at `c` of the chunk at `cc` is the element of the array that lies so far
/// behind the first element of the chunk, which comes after `cc[d]` whole chunks in
/// dimension `d`.
pub proof fn lemma_chunk_element(
    data: Seq<u8>,
    dims: Seq<u64>,
    cd: Seq<u64>,
    cc: Seq<int>,
    es: int,
    pad: Seq<u8>,
    c: Seq<int>,
    at: Seq<int>,
    b: int,
)
    requires
        cd.len() == dims.len(),
        cc.len() == dims.len(),
        inside(c, cd),
        at.len() == dims.len(),
        forall|d: int| 0 <= d < dims.len() ==> #[trigger] at[d] == cc[d] * cd[d] + c[d],
        0 <= b < es,
    ensures
        ({
            let k = linear(c, cd) * es + b;
            chunk_cut(data, dims, cd, cc, es, pad)[k] == if inside(at, dims) {
                data[linear(at, dims) * es + b]
            } else {
                pad[k]
            }
        }),
{
    let i = linear(c, cd);
    lemma_linear_bound(c, cd);
    lemma_place_of_linear(c, cd);
    lemma_byte(i, b, es, volume(cd) as int);
    assert(shifted(chunk_base(cc, cd), place(i, cd)) =~= at);
}

/// Putting a chunk in its place puts its element at `c` at the place of the array that
/// lies so far behind the first element of the chunk, and changes nothing outside of the
/// chunk.
pub proof fn lemma_placed_element(
    out: Seq<u8>,
    chunk: Seq<u8>,
    dims: Seq<u64>,
    cd: Seq<u64>,
    cc: Seq<int>,
    es: int,
    at: Seq<int>,
    b: int,
)
    requires
        cd.len() == dims.len(),
        cc.len() == dims.len(),
        out.len() == volume(dims) * es,
        chunk.len() == volume(cd) * es,
        inside(at, dims),
        0 <= b < es,
    ensures
        ({
            let k = linear(at, dims) * es + b;
            let r = placed_upto(out, chunk, dims, cd, cc, es, volume(cd) as int);
            &&& (exists|d: int|
                0 <= d < dims.len() && !(cc[d] * cd[d] <= #[trigger] at[d] < cc[d] * cd[d] + cd[d]))
                ==> r[k] == out[k]
            &&& forall|c: Seq<int>|
                inside(c, cd) && (forall|d: int|
                    0 <= d < dims.len() ==> #[trigger] at[d] == cc[d] * cd[d] + c[d]) ==> r[k]
                    == chunk[#[trigger] linear(c, cd) * es + b]
        }),
{
    let e = linear(at, dims);
    let k = e * es + b;
    lemma_linear_bound(at, dims);
    lemma_place_of_linear(at, dims);
    lemma_byte(e, b, es, volume(dims) as int);
    let rel = relative(at, chunk_base(cc, cd));
    if exists|d: int|
        0 <= d < dims.len() && !(cc[d] * cd[d] <= #[trigger] at[d] < cc[d] * cd[d] + cd[d]) {
        let d = choose|d: int|
            0 <= d < dims.len() && !(cc[d] * cd[d] <= #[trigger] at[d] < cc[d] * cd[d] + cd[d]);
        assert(rel[d] == at[d] - cc[d] * cd[d]);
    }
    assert forall|c: Seq<int>|
        inside(c, cd) && (forall|d: int|
            0 <= d < dims.len() ==> #[trigger] at[d] == cc[d] * cd[d] + c[d]) implies placed_upto(
        out,
        chunk,
        dims,
        cd,
        cc,
        es,
        volume(cd) as int,
    )[k] == chunk[#[trigger] linear(c, cd) * es + b] by {
        assert forall|d: int| 0 <= d < c.len() implies rel[d] == c[d] by {
            assert(at[d] == cc[d] * cd[d] + c[d]);
        }
        assert(rel =~= c);
        let i = linear(c, cd);
        lemma_linear_bound(c, cd);
        let v = volume(cd) as int;
        assert((i + 1) * es <= v * es) by (nonlinear_arith)
            requires
                i + 1 <= v,
                0 <= es,
        ;
        assert(holds_element(e, dims, cd, cc, es, chunk.len() as int, v));
    }
}

/// In every dimension there are just as many chunks as it takes to cover it.
pub proof fn lemma_grid_covers(dims: Seq<u64>, cd: Seq<u64>, d: int)
    requires
        0 <= d < dims.len(),
        cd.len() == dims.len(),
        cd[d] > 0,
    ensures
        grid(dims, cd).len() == dims.len(),
        dims[d] <= grid(dims, cd)[d] * cd[d],
        (grid(dims, cd)[d] - 1) * cd[d] < dims[d] || dims[d] == 0,
        dims[d] == 0 ==> grid(dims, cd)[d] == 0,
{
    let n = dims[d] as int;
    let m = cd[d] as int;
    lemma_parts(n, m);
    let q = (n + m - 1) / m;
    assert(q * m == m * q && (q - 1) * m == m * q - m) by (nonlinear_arith);
    if n == 0 {
        assert(q == 0);
    }
}

/// The tiles of a frame make up the frame: put in their places, in the order in which they
/// come, they give it back. Every tile is full, with zeros where it reaches over the border.
pub proof fn lemma_tiles_make_frame(
    out: Seq<u8>,
    frame: Seq<u8>,
    fd: Seq<u64>,
    td: Seq<u64>,
    es: nat,
    c: int,
)
    requires
        es > 0,
        fd.len() > 0,
        td.len() == fd.len(),
        chunked(td),
        shaped(out.len(), fd, es),
        shaped(frame.len(), fd, es),
        0 <= c < volume(grid(fd, td)),
    ensures
        tiles(frame, fd, td, es as int).len() == volume(grid(fd, td)),
        tiles(frame, fd, td, es as int)[c].len() == volume(td) * es,
        ({
            let all = tiles(frame, fd, td, es as int);
            let chunks = Seq::new(all.len(), |i: int| Some(all[i]));
            assembled(out, fd, td, es as int, chunks, chunks.len()) == frame
        }),
{
    let all = tiles(frame, fd, td, es as int);
    let chunks = Seq::new(all.len(), |i: int| Some(all[i]));
    let pads = Seq::new(all.len(), |i: int| zeros((volume(td) * es) as nat));
    assert(chunks_of(frame, fd, td, es as int, chunks, pads));
    lemma_all_chunks_roundtrip(out, frame, fd, td, es, chunks, pads);
}

} // verus!
