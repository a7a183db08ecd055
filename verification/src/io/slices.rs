//! Selections from an array: `counts` elements from `starts` on, along each
//! dimension.
//!
//! A selection is made of rows, runs of elements along the last dimension.

use crate::io::array::{
    element_count, inside, ints, lemma_linear_bound, lemma_linear_of_place, lemma_place_len,
    lemma_place_of_linear, linear, linear_of, place, place_of, volume,
};
use crate::io::chunks::{relative, shaped, shifted};
use vstd::arithmetic::div_mod::{
    lemma_fundamental_div_mod, lemma_fundamental_div_mod_converse, lemma_mod_bound,
};
use vstd::prelude::*;

verus! {

/// Whether a selection lies within an array.
pub open spec fn in_bounds(dims: Seq<u64>, starts: Seq<u64>, counts: Seq<u64>) -> bool {
    &&& starts.len() == dims.len()
    &&& counts.len() == dims.len()
    &&& forall|d: int| 0 <= d < dims.len() ==> #[trigger] starts[d] + counts[d] <= dims[d]
}

/// The number, within the array, of element `i` of a selection.
pub open spec fn selected_index(
    i: int,
    dims: Seq<u64>,
    starts: Seq<u64>,
    counts: Seq<u64>,
) -> int {
    linear(shifted(ints(starts), place(i, counts)), dims)
}

/// The elements of a selection.
pub open spec fn selected(
    data: Seq<u8>,
    dims: Seq<u64>,
    starts: Seq<u64>,
    counts: Seq<u64>,
    es: int,
) -> Seq<u8> {
    Seq::new(
        (volume(counts) * es) as nat,
        |k: int| data[selected_index(k / es, dims, starts, counts) * es + k % es],
    )
}

/// Whether a selection holds the element at `c`.
pub open spec fn in_selection(c: Seq<int>, starts: Seq<u64>, counts: Seq<u64>) -> bool {
    inside(relative(c, ints(starts)), counts)
}

/// An array with a selection replaced by `new`.
pub open spec fn replaced(
    data: Seq<u8>,
    dims: Seq<u64>,
    starts: Seq<u64>,
    counts: Seq<u64>,
    es: int,
    new: Seq<u8>,
) -> Seq<u8> {
    Seq::new(
        data.len(),
        |k: int|
            {
                let c = place(k / es, dims);
                if in_selection(c, starts, counts) {
                    new[linear(relative(c, ints(starts)), counts) * es + k % es]
                } else {
                    data[k]
                }
            },
    )
}

/// A part of an array has no more elements than the array.
pub proof fn lemma_volume_le(a: Seq<u64>, b: Seq<u64>)
    requires
        a.len() == b.len(),
        forall|d: int| 0 <= d < a.len() ==> #[trigger] a[d] <= b[d],
    ensures
        volume(a) <= volume(b),
    decreases a.len(),
{
    if a.len() > 0 {
        let fa = a.drop_last();
        let fb = b.drop_last();
        assert forall|d: int| 0 <= d < fa.len() implies #[trigger] fa[d] <= fb[d] by {
            assert(fa[d] == a[d]);
            assert(fb[d] == b[d]);
        }
        lemma_volume_le(fa, fb);
        let x = volume(fa);
        let y = volume(fb);
        let p = a.last() as nat;
        let q = b.last() as nat;
        assert(a.last() == a[a.len() - 1]);
        assert(x * p <= y * q) by (nonlinear_arith)
            requires
                x <= y,
                p <= q,
        ;
    }
}

/// A selection has no more elements than the array.
pub proof fn lemma_selection_volume(dims: Seq<u64>, starts: Seq<u64>, counts: Seq<u64>)
    requires
        in_bounds(dims, starts, counts),
    ensures
        volume(counts) <= volume(dims),
{
    assert forall|d: int| 0 <= d < counts.len() implies #[trigger] counts[d] <= dims[d] by {
        assert(starts[d] + counts[d] <= dims[d]);
    }
    lemma_volume_le(counts, dims);
}

/// The elements of a selection are elements of the array.
pub proof fn lemma_selected_inside(
    c: Seq<int>,
    dims: Seq<u64>,
    starts: Seq<u64>,
    counts: Seq<u64>,
)
    requires
        in_bounds(dims, starts, counts),
        inside(c, counts),
    ensures
        inside(shifted(ints(starts), c), dims),
        relative(shifted(ints(starts), c), ints(starts)) == c,
{
    let g = shifted(ints(starts), c);
    assert forall|d: int| 0 <= d < g.len() implies 0 <= #[trigger] g[d] < dims[d] by {
        assert(0 <= c[d] < counts[d]);
        assert(starts[d] + counts[d] <= dims[d]);
    }
    assert(relative(g, ints(starts)) =~= c);
}

/// Reading a selection gives back what was written to it.
pub proof fn lemma_selection_roundtrip(
    data: Seq<u8>,
    dims: Seq<u64>,
    starts: Seq<u64>,
    counts: Seq<u64>,
    es: nat,
    new: Seq<u8>,
)
    requires
        es > 0,
        in_bounds(dims, starts, counts),
        shaped(data.len(), dims, es),
        shaped(new.len(), counts, es),
    ensures
        selected(
            replaced(data, dims, starts, counts, es as int, new),
            dims,
            starts,
            counts,
            es as int,
        ) == new,
{
    let esi = es as int;
    let mid = replaced(data, dims, starts, counts, esi, new);
    let got = selected(mid, dims, starts, counts, esi);
    assert forall|k: int| 0 <= k < new.len() implies got[k] == new[k] by {
        lemma_byte_of(k, volume(counts) as int, esi);
        let i = k / esi;
        let c = place(i, counts);
        lemma_linear_of_place(i, counts);
        lemma_selected_inside(c, dims, starts, counts);
        let g = shifted(ints(starts), c);
        lemma_linear_bound(g, dims);
        lemma_place_of_linear(g, dims);
        let e = linear(g, dims);
        let at = e * esi + k % esi;
        let v = volume(dims) as int;
        assert(0 <= at < v * esi) by (nonlinear_arith)
            requires
                at == e * esi + k % esi,
                0 <= e,
                e + 1 <= v,
                0 <= k % esi < esi,
        ;
        lemma_fundamental_div_mod_converse(at, esi, e, k % esi);
        assert(mid[at] == new[i * esi + k % esi]);
        assert(i * esi == esi * i) by (nonlinear_arith);
    }
    assert(got =~= new);
}

/// Writing a selection leaves every other element as it was.
pub proof fn lemma_selection_frame(
    data: Seq<u8>,
    dims: Seq<u64>,
    starts: Seq<u64>,
    counts: Seq<u64>,
    es: nat,
    new: Seq<u8>,
    k: int,
)
    requires
        0 <= k < data.len(),
        !in_selection(place(k / es as int, dims), starts, counts),
    ensures
        replaced(data, dims, starts, counts, es as int, new)[k] == data[k],
{
}

/// The element that a byte belongs to.
pub proof fn lemma_byte_of(k: int, n: int, es: int)
    requires
        es > 0,
        0 <= k < n * es,
    ensures
        0 <= k / es < n,
        k == es * (k / es) + k % es,
        0 <= k % es < es,
{
    lemma_fundamental_div_mod(k, es);
    lemma_mod_bound(k, es);
    let e = k / es;
    assert(0 <= e < n) by (nonlinear_arith)
        requires
            k == es * e + k % es,
            0 <= k % es < es,
            0 <= k < n * es,
    ;
}

/// Number of rows of a selection.
pub open spec fn row_count(counts: Seq<u64>) -> nat {
    volume(counts.drop_last())
}

/// The number, within the array, of the first element of row `r`.
pub open spec fn row_start(r: int, dims: Seq<u64>, starts: Seq<u64>, counts: Seq<u64>) -> int {
    linear(
        shifted(ints(starts.drop_last()), place(r, counts.drop_last())),
        dims.drop_last(),
    ) * dims.last() + starts.last()
}

/// The elements of a row stand side by side.
proof fn lemma_row(
    r: int,
    j: int,
    dims: Seq<u64>,
    starts: Seq<u64>,
    counts: Seq<u64>,
)
    requires
        dims.len() > 0,
        in_bounds(dims, starts, counts),
        0 <= r < row_count(counts),
        0 <= j < counts.last(),
    ensures
        selected_index(r * counts.last() + j, dims, starts, counts) == row_start(
            r,
            dims,
            starts,
            counts,
        ) + j,
{
    let n = counts.last() as int;
    let i = r * n + j;
    lemma_fundamental_div_mod_converse(i, n, r, j);
    let c = place(i, counts);
    let front = place(r, counts.drop_last());
    lemma_place_len(r, counts.drop_last());
    assert(c == front.push(j));
    let g = shifted(ints(starts), c);
    assert(g.drop_last() =~= shifted(ints(starts.drop_last()), front)) by {
        assert forall|d: int| 0 <= d < g.len() - 1 implies g[d] == shifted(
            ints(starts.drop_last()),
            front,
        )[d] by {
            assert(c[d] == front[d]);
        }
    }
    assert(g.last() == starts.last() + j);
}

/// A row lies within the array.
pub proof fn lemma_row_inside(r: int, dims: Seq<u64>, starts: Seq<u64>, counts: Seq<u64>)
    requires
        dims.len() > 0,
        in_bounds(dims, starts, counts),
        0 <= r < row_count(counts),
    ensures
        inside(shifted(ints(starts.drop_last()), place(r, counts.drop_last())), dims.drop_last()),
        0 <= row_start(r, dims, starts, counts),
        row_start(r, dims, starts, counts) + counts.last() <= volume(dims),
{
    let df = dims.drop_last();
    let sf = starts.drop_last();
    let cf = counts.drop_last();
    assert(in_bounds(df, sf, cf)) by {
        assert forall|d: int| 0 <= d < df.len() implies #[trigger] sf[d] + cf[d] <= df[d] by {
            assert(starts[d] + counts[d] <= dims[d]);
        }
    }
    lemma_linear_of_place(r, cf);
    lemma_selected_inside(place(r, cf), df, sf, cf);
    let g = shifted(ints(sf), place(r, cf));
    lemma_linear_bound(g, df);
    let l = linear(g, df);
    let v = volume(df) as int;
    let n = dims.last() as int;
    let last = dims.len() - 1;
    assert(starts[last] + counts[last] <= dims[last]);
    assert(0 <= l * n && l * n + n <= v * n) by (nonlinear_arith)
        requires
            0 <= l,
            l + 1 <= v,
            0 <= n,
    ;
}

/// Where the rows of a selection start in an array, in elements.
pub fn row_starts(dims: &[u64], starts: &[u64], counts: &[u64]) -> (rows: Vec<u64>)
    requires
        dims@.len() > 0,
        in_bounds(dims@, starts@, counts@),
        volume(dims@) <= u64::MAX,
        row_count(counts@) <= u64::MAX,
    ensures
        rows@.len() == row_count(counts@),
        forall|r: int|
            0 <= r < rows@.len() ==> #[trigger] rows@[r] == row_start(r, dims@, starts@, counts@),
{
    let n: usize = dims.len();
    let cf = vstd::slice::slice_subrange(counts, 0, n - 1);
    let df = vstd::slice::slice_subrange(dims, 0, n - 1);
    proof {
        assert(cf@ =~= counts@.drop_last());
        assert(df@ =~= dims@.drop_last());
    }
    let total: u64 = match element_count(cf) {
        Some(v) => v,
        None => 0,
    };
    let mut rows: Vec<u64> = Vec::new();
    let mut r: u64 = 0;
    while r < total
        invariant
            r <= total,
            n == dims@.len(),
            n > 0,
            cf@ == counts@.drop_last(),
            df@ == dims@.drop_last(),
            total == row_count(counts@),
            in_bounds(dims@, starts@, counts@),
            volume(dims@) <= u64::MAX,
            rows@.len() == r,
            forall|q: int|
                0 <= q < r ==> #[trigger] rows@[q] == row_start(q, dims@, starts@, counts@),
        decreases total - r,
    {
        let c = place_of(r, cf);
        proof {
            lemma_row_inside(r as int, dims@, starts@, counts@);
        }
        let ghost want = shifted(ints(starts@.drop_last()), place(r as int, cf@));
        let mut g: Vec<u64> = Vec::with_capacity(n - 1);
        let mut d: usize = 0;
        while d < n - 1
            invariant
                d <= n - 1,
                n == dims@.len(),
                n == starts@.len(),
                c@.len() == n - 1,
                g@.len() == d,
                ints(c@) == place(r as int, cf@),
                want == shifted(ints(starts@.drop_last()), place(r as int, cf@)),
                inside(want, df@),
                df@ == dims@.drop_last(),
                forall|k: int| 0 <= k < d ==> #[trigger] g@[k] == want[k],
            decreases n - 1 - d,
        {
            assert(ints(c@)[d as int] == c@[d as int]);
            assert(0 <= want[d as int] < df@[d as int]);
            g.push(starts[d] + c[d]);
            d = d + 1;
        }
        assert(ints(g@) =~= want);
        proof {
            let v = volume(df@) as int;
            let m = dims@.last() as int;
            lemma_linear_bound(want, df@);
            let l = linear(want, df@);
            assert(0 <= l * m && l * m + m <= v * m) by (nonlinear_arith)
                requires
                    0 <= l,
                    l + 1 <= v,
                    0 <= m,
            ;
            let last = dims@.len() - 1;
            assert(starts@[last] + counts@[last] <= dims@[last]);
            if m > 0 {
                assert(v <= v * m) by (nonlinear_arith)
                    requires
                        m >= 1,
                        v >= 0,
                ;
            } else {
                assert(l * m == 0) by (nonlinear_arith)
                    requires
                        m == 0,
                ;
            }
        }
        if dims[n - 1] == 0 {
            rows.push(0);
        } else {
            let l: u64 = linear_of(g.as_slice(), df);
            rows.push(l * dims[n - 1] + starts[n - 1]);
        }
        r = r + 1;
    }
    rows
}

/// Whether the rows of a selection lie within `len` bytes.
pub open spec fn rows_held(
    len: nat,
    dims: Seq<u64>,
    starts: Seq<u64>,
    counts: Seq<u64>,
    es: nat,
) -> bool {
    forall|r: int|
        0 <= r < row_count(counts) ==> (#[trigger] row_start(r, dims, starts, counts)
            + counts.last()) * es <= len
}

/// The data of a whole array hold the rows of every selection.
pub proof fn lemma_rows_held(
    len: nat,
    dims: Seq<u64>,
    starts: Seq<u64>,
    counts: Seq<u64>,
    es: nat,
)
    requires
        dims.len() > 0,
        in_bounds(dims, starts, counts),
        volume(dims) * es <= len,
    ensures
        rows_held(len, dims, starts, counts, es),
{
    assert forall|r: int| 0 <= r < row_count(counts) implies (#[trigger] row_start(
        r,
        dims,
        starts,
        counts,
    ) + counts.last()) * es <= len by {
        lemma_row_inside(r, dims, starts, counts);
        let a = row_start(r, dims, starts, counts) + counts.last();
        let v = volume(dims) as int;
        assert(a * es <= v * es) by (nonlinear_arith)
            requires
                a <= v,
                es >= 0,
        ;
    }
}

/// Copy a selection out of an array.
pub fn extract_slice(
    data: &[u8],
    dims: &[u64],
    starts: &[u64],
    counts: &[u64],
    element_size: u64,
) -> (out: Vec<u8>)
    requires
        dims@.len() > 0,
        in_bounds(dims@, starts@, counts@),
        element_size <= u32::MAX,
        rows_held(data@.len(), dims@, starts@, counts@, element_size as nat),
        volume(dims@) <= u64::MAX,
        row_count(counts@) <= u64::MAX,
    ensures
        out@ == selected(data@, dims@, starts@, counts@, element_size as int),
{
    let n: usize = dims.len();
    let es: usize = element_size as usize;
    let len: usize = data.len();
    let ghost want = selected(data@, dims@, starts@, counts@, es as int);
    let mut out: Vec<u8> = Vec::new();
    if es == 0 || counts[n - 1] == 0 {
        proof {
            let a = volume(counts@);
            let f = volume(counts@.drop_last());
            assert(a * es == 0) by (nonlinear_arith)
                requires
                    es == 0 || counts@.last() == 0,
                    a == f * counts@.last(),
            ;
            assert(out@ =~= want);
        }
        return out;
    }
    let rows = row_starts(dims, starts, counts);
    let ghost m = counts@.last() as int;
    let ghost esi = es as int;
    proof {
        lemma_selection_volume(dims@, starts@, counts@);
        let last = dims@.len() - 1;
        assert(starts@[last] + counts@[last] <= dims@[last]);
    }
    let mut r: usize = 0;
    proof {
        assert(r * m * esi == 0) by (nonlinear_arith)
            requires
                r == 0,
        ;
        assert(0 <= volume(counts@) * esi) by (nonlinear_arith)
            requires
                esi > 0,
        ;
    }
    assert(out@ =~= want.take(0));
    while r < rows.len()
        invariant
            r <= rows@.len(),
            n == dims@.len(),
            n > 0,
            es == element_size,
            esi == es,
            es > 0,
            m == counts@.last(),
            m > 0,
            in_bounds(dims@, starts@, counts@),
            len == data@.len(),
            rows_held(data@.len(), dims@, starts@, counts@, es as nat),
            rows@.len() == row_count(counts@),
            forall|q: int|
                0 <= q < rows@.len() ==> #[trigger] rows@[q] == row_start(
                    q,
                    dims@,
                    starts@,
                    counts@,
                ),
            want == selected(data@, dims@, starts@, counts@, esi),
            out@ == want.take(r * m * esi),
            0 <= r * m * esi <= want.len(),
        decreases rows@.len() - r,
    {
        let ghost before = out@;
        proof {
            lemma_row_inside(r as int, dims@, starts@, counts@);
            let rs = rows@[r as int] as int;
            assert((row_start(r as int, dims@, starts@, counts@) + m) * esi <= len);
            assert(0 <= rs * esi && rs * esi + m * esi <= len && 0 <= m * esi)
                by (nonlinear_arith)
                requires
                    0 <= rs,
                    (rs + m) * esi <= len,
                    0 < m,
                    esi > 0,
            ;
            assert(rs <= rs * esi && m <= m * esi) by (nonlinear_arith)
                requires
                    0 <= rs,
                    0 < m,
                    esi >= 1,
            ;
        }
        let from: usize = rows[r] as usize * es;
        let bytes: usize = counts[n - 1] as usize * es;
        crate::format::bytes::push_slice(
            &mut out,
            vstd::slice::slice_subrange(data, from, from + bytes),
        );
        proof {
            let q = row_count(counts@) as int;
            let lo = r * m * esi;
            let hi = (r + 1) * m * esi;
            let vc = volume(counts@) as int;
            assert(hi == lo + m * esi) by (nonlinear_arith)
                requires
                    lo == r * m * esi,
                    hi == (r + 1) * m * esi,
            ;
            assert(hi <= vc * esi) by (nonlinear_arith)
                requires
                    hi == (r + 1) * m * esi,
                    r + 1 <= q,
                    vc == q * m,
                    m > 0,
                    esi > 0,
            ;
            assert forall|k: int| lo <= k < hi implies want[k] == data@[from + (k - lo)] by {
                let j = k - lo;
                lemma_byte_of(j, m, esi);
                let i = r * m + j / esi;
                assert(k == i * esi + j % esi) by (nonlinear_arith)
                    requires
                        k == r * m * esi + j,
                        j == esi * (j / esi) + j % esi,
                        i == r * m + j / esi,
                ;
                lemma_fundamental_div_mod_converse(k, esi, i, j % esi);
                lemma_row(r as int, j / esi, dims@, starts@, counts@);
                let rs = rows@[r as int] as int;
                assert((rs + j / esi) * esi + j % esi == rs * esi + j) by (nonlinear_arith)
                    requires
                        j == esi * (j / esi) + j % esi,
                ;
            }
            assert(out@ =~= want.take(hi));
        }
        r = r + 1;
    }
    proof {
        let q = row_count(counts@) as int;
        let vc = volume(counts@) as int;
        assert(r * m * esi == vc * esi) by (nonlinear_arith)
            requires
                r == q,
                vc == q * m,
        ;
        assert(want.take(r * m * esi) =~= want);
    }
    out
}

/// The first `n` rows of a selection, one behind the other.
pub open spec fn rows_of(
    data: Seq<u8>,
    dims: Seq<u64>,
    starts: Seq<u64>,
    counts: Seq<u64>,
    es: int,
    n: nat,
) -> Seq<u8>
    decreases n,
{
    if n == 0 {
        Seq::empty()
    } else {
        let from = row_start(n - 1, dims, starts, counts) * es;
        rows_of(data, dims, starts, counts, es, (n - 1) as nat) + data.subrange(
            from,
            from + counts.last() * es,
        )
    }
}

proof fn lemma_rows_of(
    data: Seq<u8>,
    dims: Seq<u64>,
    starts: Seq<u64>,
    counts: Seq<u64>,
    es: nat,
    n: nat,
)
    requires
        es > 0,
        dims.len() > 0,
        in_bounds(dims, starts, counts),
        shaped(data.len(), dims, es),
        n <= row_count(counts),
    ensures
        0 <= n * (counts.last() * es) <= volume(counts) * es,
        rows_of(data, dims, starts, counts, es as int, n) == selected(
            data,
            dims,
            starts,
            counts,
            es as int,
        ).take(n * (counts.last() * es)),
    decreases n,
{
    let esi = es as int;
    let m = counts.last() as int;
    let want = selected(data, dims, starts, counts, esi);
    let q = row_count(counts) as int;
    let vc = volume(counts) as int;
    assert(0 <= n * (m * esi) && n * (m * esi) <= vc * esi) by (nonlinear_arith)
        requires
            0 <= n <= q,
            vc == q * m,
            m >= 0,
            esi > 0,
    ;
    if n == 0 {
        assert(n * (m * esi) == 0) by (nonlinear_arith)
            requires
                n == 0,
        ;
        assert(want.take(0) =~= Seq::<u8>::empty());
    } else {
        let r = n - 1;
        lemma_rows_of(data, dims, starts, counts, es, r as nat);
        let lo = r * (m * esi);
        let hi = n * (m * esi);
        assert(hi == lo + m * esi) by (nonlinear_arith)
            requires
                lo == r * (m * esi),
                hi == n * (m * esi),
                r == n - 1,
        ;
        lemma_row_inside(r, dims, starts, counts);
        let rs = row_start(r, dims, starts, counts);
        let v = volume(dims) as int;
        assert(0 <= rs * esi && rs * esi + m * esi <= v * esi && 0 <= m * esi) by (nonlinear_arith)
            requires
                0 <= rs,
                rs + m <= v,
                0 <= m,
                esi > 0,
        ;
        let from = rs * esi;
        let got = rows_of(data, dims, starts, counts, esi, n);
        assert forall|k: int| lo <= k < hi implies want[k] == data[from + (k - lo)] by {
            let j = k - lo;
            assert(m > 0) by (nonlinear_arith)
                requires
                    0 <= j < m * esi,
                    esi > 0,
            ;
            lemma_byte_of(j, m, esi);
            let i = r * m + j / esi;
            assert(k == i * esi + j % esi) by (nonlinear_arith)
                requires
                    k == r * (m * esi) + j,
                    j == esi * (j / esi) + j % esi,
                    i == r * m + j / esi,
            ;
            lemma_fundamental_div_mod_converse(k, esi, i, j % esi);
            lemma_row(r, j / esi, dims, starts, counts);
            assert((rs + j / esi) * esi + j % esi == rs * esi + j) by (nonlinear_arith)
                requires
                    j == esi * (j / esi) + j % esi,
            ;
        }
        assert(got =~= want.take(hi));
    }
}

/// The rows of a selection are the selection.
pub proof fn lemma_rows_selected(
    data: Seq<u8>,
    dims: Seq<u64>,
    starts: Seq<u64>,
    counts: Seq<u64>,
    es: nat,
)
    requires
        es > 0,
        dims.len() > 0,
        in_bounds(dims, starts, counts),
        shaped(data.len(), dims, es),
    ensures
        rows_of(data, dims, starts, counts, es as int, row_count(counts)) == selected(
            data,
            dims,
            starts,
            counts,
            es as int,
        ),
{
    let q = row_count(counts) as int;
    let m = counts.last() as int;
    let want = selected(data, dims, starts, counts, es as int);
    lemma_rows_of(data, dims, starts, counts, es, row_count(counts));
    assert(q * (m * es) == (q * m) * es) by (nonlinear_arith);
    assert(want.take(q * (m * es)) =~= want);
}

/// `data` with `bytes` written at `at`.
pub open spec fn patched(data: Seq<u8>, at: int, bytes: Seq<u8>) -> Seq<u8> {
    Seq::new(
        data.len(),
        |k: int|
            if at <= k < at + bytes.len() {
                bytes[k - at]
            } else {
                data[k]
            },
    )
}

/// An array with the first `n` rows of a selection written.
pub open spec fn rows_written(
    data: Seq<u8>,
    dims: Seq<u64>,
    starts: Seq<u64>,
    counts: Seq<u64>,
    es: int,
    new: Seq<u8>,
    n: nat,
) -> Seq<u8>
    decreases n,
{
    if n == 0 {
        data
    } else {
        let r = n - 1;
        let row = counts.last() * es;
        patched(
            rows_written(data, dims, starts, counts, es, new, r as nat),
            row_start(r, dims, starts, counts) * es,
            new.subrange(r * row, r * row + row),
        )
    }
}

/// Row `r` holds the elements of the selection that are numbered so.
proof fn lemma_row_holds(
    e: int,
    r: int,
    dims: Seq<u64>,
    starts: Seq<u64>,
    counts: Seq<u64>,
)
    requires
        dims.len() > 0,
        in_bounds(dims, starts, counts),
        0 <= e < volume(dims),
        0 <= r < row_count(counts),
        counts.last() > 0,
    ensures
        ({
            let c = place(e, dims);
            let i = linear(relative(c, ints(starts)), counts);
            let m = counts.last() as int;
            let rs = row_start(r, dims, starts, counts);
            &&& (rs <= e < rs + m) <==> (in_selection(c, starts, counts) && i / m == r)
            &&& (rs <= e < rs + m) ==> i == r * m + (e - rs)
        }),
{
    let c = place(e, dims);
    let rel = relative(c, ints(starts));
    let i = linear(rel, counts);
    let m = counts.last() as int;
    let rs = row_start(r, dims, starts, counts);
    lemma_linear_of_place(e, dims);
    lemma_place_len(e, dims);
    let q = row_count(counts) as int;
    let vc = volume(counts) as int;
    if rs <= e < rs + m {
        let j = e - rs;
        let x = r * m + j;
        lemma_row(r, j, dims, starts, counts);
        assert(0 <= x < vc) by (nonlinear_arith)
            requires
                x == r * m + j,
                0 <= r,
                r + 1 <= q,
                0 <= j < m,
                vc == q * m,
        ;
        lemma_linear_of_place(x, counts);
        lemma_selected_inside(place(x, counts), dims, starts, counts);
        let g = shifted(ints(starts), place(x, counts));
        lemma_place_of_linear(g, dims);
        assert(c == g);
        assert(rel == place(x, counts));
        lemma_fundamental_div_mod_converse(x, m, r, j);
    }
    if in_selection(c, starts, counts) && i / m == r {
        lemma_linear_bound(rel, counts);
        lemma_place_of_linear(rel, counts);
        lemma_fundamental_div_mod(i, m);
        lemma_mod_bound(i, m);
        let j = i % m;
        assert(i == r * m + j) by (nonlinear_arith)
            requires
                i == m * (i / m) + i % m,
                i / m == r,
                j == i % m,
        ;
        lemma_row(r, j, dims, starts, counts);
        assert(shifted(ints(starts), rel) =~= c);
        assert(e == rs + j);
    }
}

/// Writing the rows one by one, every byte of the selection is replaced and no
/// other.
proof fn lemma_rows_upto(
    data: Seq<u8>,
    dims: Seq<u64>,
    starts: Seq<u64>,
    counts: Seq<u64>,
    es: nat,
    new: Seq<u8>,
    n: nat,
    k: int,
)
    requires
        es > 0,
        dims.len() > 0,
        in_bounds(dims, starts, counts),
        counts.last() > 0,
        shaped(data.len(), dims, es),
        shaped(new.len(), counts, es),
        n <= row_count(counts),
        0 <= k < data.len(),
    ensures
        rows_written(data, dims, starts, counts, es as int, new, n).len() == data.len(),
        ({
            let c = place(k / es as int, dims);
            let i = linear(relative(c, ints(starts)), counts);
            rows_written(data, dims, starts, counts, es as int, new, n)[k] == if in_selection(
                c,
                starts,
                counts,
            ) && i / (counts.last() as int) < n {
                new[i * es + k % es as int]
            } else {
                data[k]
            }
        }),
    decreases n,
{
    let esi = es as int;
    let m = counts.last() as int;
    lemma_byte_of(k, volume(dims) as int, esi);
    let e = k / esi;
    let c = place(e, dims);
    let rel = relative(c, ints(starts));
    let i = linear(rel, counts);
    if in_selection(c, starts, counts) {
        lemma_linear_bound(rel, counts);
        lemma_fundamental_div_mod(i, m);
        lemma_mod_bound(i, m);
        assert(0 <= i / m) by (nonlinear_arith)
            requires
                i == m * (i / m) + i % m,
                0 <= i,
                i % m < m,
                m > 0,
        ;
    }
    if n > 0 {
        let r = n - 1;
        lemma_rows_upto(data, dims, starts, counts, es, new, r as nat, k);
        lemma_row_holds(e, r, dims, starts, counts);
        let rs = row_start(r, dims, starts, counts);
        let at = rs * esi;
        let row = m * esi;
        let q = row_count(counts) as int;
        let vc = volume(counts) as int;
        assert(0 <= r * row && r * row + row <= vc * esi && 0 <= row) by (nonlinear_arith)
            requires
                0 <= r,
                r + 1 <= q,
                vc == q * m,
                row == m * esi,
                m > 0,
                esi > 0,
        ;
        assert((at <= k < at + row) <==> (rs <= e < rs + m)) by (nonlinear_arith)
            requires
                at == rs * esi,
                row == m * esi,
                k == esi * e + k % esi,
                0 <= k % esi < esi,
        ;
        if rs <= e < rs + m {
            assert(r * row + (k - at) == i * esi + k % esi) by (nonlinear_arith)
                requires
                    row == m * esi,
                    at == rs * esi,
                    i == r * m + (e - rs),
                    k == esi * e + k % esi,
            ;
        }
    }
}

/// Writing all rows of a selection replaces the selection.
pub proof fn lemma_rows_written(
    data: Seq<u8>,
    dims: Seq<u64>,
    starts: Seq<u64>,
    counts: Seq<u64>,
    es: nat,
    new: Seq<u8>,
)
    requires
        es > 0,
        dims.len() > 0,
        in_bounds(dims, starts, counts),
        counts.last() > 0,
        shaped(data.len(), dims, es),
        shaped(new.len(), counts, es),
    ensures
        rows_written(data, dims, starts, counts, es as int, new, row_count(counts)) == replaced(
            data,
            dims,
            starts,
            counts,
            es as int,
            new,
        ),
{
    let got = rows_written(data, dims, starts, counts, es as int, new, row_count(counts));
    let want = replaced(data, dims, starts, counts, es as int, new);
    let m = counts.last() as int;
    assert(got.len() == data.len()) by {
        lemma_rows_written_len(data, dims, starts, counts, es as int, new, row_count(counts));
    }
    assert forall|k: int| 0 <= k < data.len() implies got[k] == want[k] by {
        lemma_rows_upto(data, dims, starts, counts, es, new, row_count(counts), k);
        let c = place(k / es as int, dims);
        let rel = relative(c, ints(starts));
        let i = linear(rel, counts);
        if in_selection(c, starts, counts) {
            lemma_linear_bound(rel, counts);
            let q = row_count(counts) as int;
            lemma_fundamental_div_mod(i, m);
            lemma_mod_bound(i, m);
            assert(i / m < q) by (nonlinear_arith)
                requires
                    i == m * (i / m) + i % m,
                    0 <= i % m,
                    i < q * m,
                    m > 0,
            ;
        }
    }
    assert(got =~= want);
}

proof fn lemma_rows_written_len(
    data: Seq<u8>,
    dims: Seq<u64>,
    starts: Seq<u64>,
    counts: Seq<u64>,
    es: int,
    new: Seq<u8>,
    n: nat,
)
    ensures
        rows_written(data, dims, starts, counts, es, new, n).len() == data.len(),
    decreases n,
{
    if n > 0 {
        lemma_rows_written_len(data, dims, starts, counts, es, new, (n - 1) as nat);
    }
}

} // verus!
