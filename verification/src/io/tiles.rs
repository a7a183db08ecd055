//! Cutting frames into tiles.

use crate::format::bytes::{filled, push_slice};
use crate::io::array::{
    element_count, inside, ints, lemma_linear_bound, lemma_place_len, linear, linear_of, place,
    place_of, volume,
};
use crate::io::chunks::{
    chunk_base, chunk_cut, chunked, global_place, grid, lemma_parts, shaped, shifted,
};
use crate::io::slices::lemma_byte_of;
use vstd::arithmetic::div_mod::lemma_fundamental_div_mod_converse;
use vstd::prelude::*;
use vstd::slice::slice_subrange;

verus! {

/// `n` zero bytes.
pub open spec fn zeros(n: nat) -> Seq<u8> {
    Seq::new(n, |i: int| 0u8)
}

/// The chunk at `cc` of an array, zero where it reaches over the border.
pub open spec fn tile(
    data: Seq<u8>,
    dims: Seq<u64>,
    cd: Seq<u64>,
    cc: Seq<int>,
    es: int,
) -> Seq<u8> {
    chunk_cut(data, dims, cd, cc, es, zeros((volume(cd) * es) as nat))
}

/// Number of chunks along each dimension.
pub fn chunk_grid(dims: &[u64], chunk_dims: &[u64]) -> (g: Vec<u64>)
    requires
        chunk_dims@.len() == dims@.len(),
    ensures
        g@ == grid(dims@, chunk_dims@),
{
    let mut g: Vec<u64> = Vec::with_capacity(dims.len());
    let mut d: usize = 0;
    while d < dims.len()
        invariant
            d <= dims@.len(),
            chunk_dims@.len() == dims@.len(),
            g@ == grid(dims@, chunk_dims@).take(d as int),
        decreases dims@.len() - d,
    {
        let n: u64 = dims[d];
        let m: u64 = chunk_dims[d];
        if m == 0 {
            g.push(0);
        } else {
            proof {
                lemma_parts(n as int, m as int);
            }
            let q: u128 = (n as u128 + m as u128 - 1) / m as u128;
            g.push(q as u64);
        }
        d = d + 1;
        assert(g@ =~= grid(dims@, chunk_dims@).take(d as int));
    }
    assert(g@ =~= grid(dims@, chunk_dims@));
    g
}

/// The row of a chunk that a byte stands in.
proof fn lemma_cut_row(
    data: Seq<u8>,
    dims: Seq<u64>,
    cd: Seq<u64>,
    cc: Seq<int>,
    es: int,
    pad: Seq<u8>,
    r: int,
    j: int,
)
    requires
        dims.len() > 0,
        cd.len() == dims.len(),
        cc.len() == dims.len(),
        es > 0,
        0 <= r < volume(cd.drop_last()),
        0 <= j < cd.last() * es,
    ensures
        ({
            let k = r * (cd.last() * es) + j;
            let f = shifted(
                chunk_base(cc.drop_last(), cd.drop_last()),
                place(r, cd.drop_last()),
            );
            let at = cc.last() * cd.last() + j / es;
            let src = linear(f, dims.drop_last()) * dims.last() + at;
            &&& 0 <= k < volume(cd) * es
            &&& chunk_cut(data, dims, cd, cc, es, pad)[k] == if inside(f, dims.drop_last()) && 0
                <= at < dims.last() {
                data[src * es + j % es]
            } else {
                pad[k]
            }
        }),
{
    let m = cd.last() as int;
    let row = m * es;
    let k = r * row + j;
    let v = volume(cd.drop_last()) as int;
    assert(0 <= k < v * m * es) by (nonlinear_arith)
        requires
            k == r * row + j,
            row == m * es,
            0 <= j < row,
            0 <= r,
            r + 1 <= v,
    ;
    lemma_byte_of(j, m, es);
    let i = r * m + j / es;
    assert(k == i * es + j % es) by (nonlinear_arith)
        requires
            k == r * row + j,
            row == m * es,
            i == r * m + j / es,
            j == es * (j / es) + j % es,
    ;
    lemma_fundamental_div_mod_converse(k, es, i, j % es);
    lemma_fundamental_div_mod_converse(i, m, r, j / es);
    let front = place(r, cd.drop_last());
    let c = place(i, cd);
    lemma_place_len(r, cd.drop_last());
    assert(c == front.push(j / es));
    let g = shifted(chunk_base(cc, cd), c);
    let f = shifted(chunk_base(cc.drop_last(), cd.drop_last()), front);
    assert(g.drop_last() =~= f) by {
        assert forall|d: int| 0 <= d < f.len() implies g[d] == f[d] by {
            assert(c[d] == front[d]);
        }
    }
    let at = cc.last() * cd.last() + j / es;
    assert(g.last() == at);
    let df = dims.drop_last();
    if inside(f, df) && 0 <= at < dims.last() {
        assert forall|d: int| 0 <= d < g.len() implies 0 <= #[trigger] g[d] < dims[d] by {
            if d < f.len() {
                assert(g[d] == f[d]);
                assert(0 <= f[d] < df[d]);
            }
        }
    } else {
        if inside(g, dims) {
            assert forall|d: int| 0 <= d < f.len() implies 0 <= #[trigger] f[d] < df[d] by {
                assert(g[d] == f[d]);
                assert(0 <= g[d] < dims[d]);
            }
            assert(0 <= g[g.len() - 1] < dims[dims.len() - 1]);
            assert(false);
        }
    }
}

/// Cut the chunk at `cc` out of an array, with `pad` where it reaches over the
/// border.
pub fn cut_chunk(
    data: &[u8],
    dims: &[u64],
    chunk_dims: &[u64],
    cc: &[u64],
    es: usize,
    pad: &[u8],
) -> (out: Vec<u8>)
    requires
        dims@.len() > 0,
        chunk_dims@.len() == dims@.len(),
        cc@.len() == dims@.len(),
        es > 0,
        shaped(data@.len(), dims@, es as nat),
        chunked(chunk_dims@),
        volume(chunk_dims@) * es <= usize::MAX,
        pad@.len() == volume(chunk_dims@) * es,
    ensures
        out@ == chunk_cut(data@, dims@, chunk_dims@, ints(cc@), es as int, pad@),
{
    let n: usize = dims.len();
    let ghost cd = chunk_dims@;
    let ghost cci = ints(cc@);
    let ghost esi = es as int;
    let ghost want = chunk_cut(data@, dims@, cd, cci, esi, pad@);
    let df = slice_subrange(dims, 0, n - 1);
    let cf = slice_subrange(chunk_dims, 0, n - 1);
    let ccf = slice_subrange(cc, 0, n - 1);
    let m: u64 = chunk_dims[n - 1];
    let len: usize = data.len();
    let total: usize = pad.len();
    proof {
        assert(df@ =~= dims@.drop_last());
        assert(cf@ =~= cd.drop_last());
        assert(ints(ccf@) =~= cci.drop_last());
        assert(m > 0);
        crate::io::array::lemma_prefix_volume(cd, n - 1);
        assert(cd.take(n - 1) =~= cf@);
        let v = volume(cf@) as int;
        assert(v <= v * m * es && m * es <= v * m * es && m <= m * es) by (nonlinear_arith)
            requires
                m >= 1,
                es >= 1,
                v >= 1,
        ;
        assert(volume(cd) == v * m);
    }
    let rows: u64 = match element_count(cf) {
        Some(v) => v,
        None => 0,
    };
    let run: usize = m as usize * es;
    let base: u128 = base_offset(cc[n - 1], m);
    let mut out: Vec<u8> = Vec::new();
    let mut r: u64 = 0;
    proof {
        assert(r * run == 0) by (nonlinear_arith)
            requires
                r == 0,
        ;
        assert(rows * run == volume(cd) * esi) by (nonlinear_arith)
            requires
                run == m * es,
                rows == volume(cf@),
                volume(cd) == volume(cf@) * m,
                esi == es,
        ;
    }
    assert(out@ =~= want.take(0));
    while r < rows
        invariant
            r <= rows,
            n == dims@.len(),
            n > 0,
            cd == chunk_dims@,
            cd.len() == n,
            cc@.len() == n,
            cci == ints(cc@),
            esi == es,
            es > 0,
            m == cd.last(),
            m > 0,
            run == m * es,
            base == cci.last() * m,
            df@ == dims@.drop_last(),
            cf@ == cd.drop_last(),
            ints(ccf@) == cci.drop_last(),
            ccf@.len() == n - 1,
            rows == volume(cf@),
            len == data@.len(),
            shaped(data@.len(), dims@, es as nat),
            want == chunk_cut(data@, dims@, cd, cci, esi, pad@),
            total == pad@.len(),
            pad@.len() == want.len(),
            want.len() == rows * run,
            out@ == want.take(r * run),
        decreases rows - r,
    {
        let ghost before = out@;
        let c = place_of(r, cf);
        let ghost f = shifted(chunk_base(cci.drop_last(), cf@), place(r as int, cf@));
        proof {
            assert(0 <= r * run && r * run + run <= rows * run && (r + 1) * run == r * run + run)
                by (nonlinear_arith)
                requires
                    r + 1 <= rows,
            ;
        }
        let spot = global_place(ccf, cf, c.as_slice(), df);
        let mut copied: usize = 0;
        if let Some(g) = spot {
            if base < dims[n - 1] as u128 {
                let start: u64 = base as u64;
                let left: u64 = dims[n - 1] - start;
                let count: u64 = if m < left {
                    m
                } else {
                    left
                };
                proof {
                    lemma_linear_bound(f, df@);
                    let v = volume(df@) as int;
                    let dl = dims@.last() as int;
                    let l = linear(f, df@);
                    assert(v <= v * dl * esi && 0 <= l * dl && l * dl + dl <= v * dl)
                        by (nonlinear_arith)
                        requires
                            0 <= l,
                            l + 1 <= v,
                            dl >= 1,
                            esi >= 1,
                    ;
                    let s = l * dl + start;
                    assert(0 <= s * esi && s * esi + count * esi <= v * dl * esi && s <= s * esi
                        && count <= count * esi) by (nonlinear_arith)
                        requires
                            0 <= s,
                            0 <= count,
                            s + count <= v * dl,
                            esi >= 1,
                    ;
                    assert(volume(dims@) == v * dl);
                }
                let l: u64 = linear_of(g.as_slice(), df);
                let from: usize = (l * dims[n - 1] + start) as usize * es;
                copied = count as usize * es;
                proof {
                    assert(count * es <= m * es) by (nonlinear_arith)
                        requires
                            count <= m,
                    ;
                }
                push_slice(&mut out, slice_subrange(data, from, from + copied));
                proof {
                    assert forall|k: int|
                        r * run <= k < r * run + copied implies #[trigger] want[k] == data@[from + (k
                        - r * run)] by {
                        let j = k - r * run;
                        lemma_byte_of(j, count as int, esi);
                        lemma_cut_row(data@, dims@, cd, cci, esi, pad@, r as int, j);
                        let s = linear(f, df@) * dims@.last() + start;
                        assert((s + j / esi) * esi + j % esi == s * esi + j) by (nonlinear_arith)
                            requires
                                j == esi * (j / esi) + j % esi,
                        ;
                    }
                    assert forall|k: int|
                        r * run + copied <= k < r * run + run implies #[trigger] want[k] == pad@[k] by {
                        let j = k - r * run;
                        lemma_byte_of(j, m as int, esi);
                        lemma_cut_row(data@, dims@, cd, cci, esi, pad@, r as int, j);
                        assert(j / esi >= count) by (nonlinear_arith)
                            requires
                                j == esi * (j / esi) + j % esi,
                                j >= count * esi,
                                j % esi < esi,
                                esi > 0,
                        ;
                    }
                }
            } else {
                proof {
                    assert forall|k: int|
                        r * run <= k < r * run + run implies #[trigger] want[k] == pad@[k] by {
                        let j = k - r * run;
                        lemma_byte_of(j, m as int, esi);
                        lemma_cut_row(data@, dims@, cd, cci, esi, pad@, r as int, j);
                    }
                }
            }
        } else {
            proof {
                assert forall|k: int|
                    r * run <= k < r * run + run implies #[trigger] want[k] == pad@[k] by {
                    let j = k - r * run;
                    lemma_byte_of(j, m as int, esi);
                    lemma_cut_row(data@, dims@, cd, cci, esi, pad@, r as int, j);
                }
            }
        }
        let done: usize = out.len();
        push_slice(&mut out, slice_subrange(pad, done, done + (run - copied)));
        proof {
            assert(out@.len() == before.len() + run);
            assert(out@ =~= want.take((r + 1) * run)) by {
                assert forall|k: int| 0 <= k < out@.len() implies out@[k] == want[k] by {
                    if k < before.len() {
                        assert(out@[k] == before[k]);
                    }
                }
            }
        }
        r = r + 1;
    }
    assert(want.take(r * run) =~= want);
    out
}

fn base_offset(c: u64, m: u64) -> (b: u128)
    ensures
        b == c * m,
{
    proof {
        assert(0 <= c * m <= 0xffff_ffff_ffff_ffff * 0xffff_ffff_ffff_ffff) by (nonlinear_arith)
            requires
                0 <= c <= 0xffff_ffff_ffff_ffff,
                0 <= m <= 0xffff_ffff_ffff_ffff,
        ;
    }
    c as u128 * m as u128
}

/// Bytes of a tile.
pub fn tile_bytes(dims: &[u64], es: usize) -> (n: usize)
    requires
        volume(dims@) * es <= usize::MAX,
        es > 0,
    ensures
        n == volume(dims@) * es,
{
    proof {
        let v = volume(dims@) as int;
        let e = es as int;
        assert(v <= v * e) by (nonlinear_arith)
            requires
                v >= 0,
                e >= 1,
        ;
    }
    match element_count(dims) {
        Some(v) => v as usize * es,
        None => 0,
    }
}

/// The tiles of a frame, in row-major order of the grid.
pub open spec fn tiles(frame: Seq<u8>, fd: Seq<u64>, td: Seq<u64>, es: int) -> Seq<Seq<u8>> {
    Seq::new(volume(grid(fd, td)), |t: int| tile(frame, fd, td, place(t, grid(fd, td)), es))
}

/// What a list of byte vectors holds.
pub open spec fn byte_views(v: Seq<Vec<u8>>) -> Seq<Seq<u8>> {
    Seq::new(v.len(), |i: int| v[i]@)
}

/// Cut a frame into its tiles, in row-major order of the grid. Tiles at the
/// border are filled up with zeros.
pub fn split_frame_into_tiles(frame: &[u8], frame_dims: &[u64], tile_dims: &[u64], elem_size: usize)
    -> (out: Vec<Vec<u8>>)
    requires
        frame_dims@.len() > 0,
        tile_dims@.len() == frame_dims@.len(),
        elem_size > 0,
        shaped(frame@.len(), frame_dims@, elem_size as nat),
        chunked(tile_dims@),
        volume(tile_dims@) * elem_size <= usize::MAX,
        volume(grid(frame_dims@, tile_dims@)) <= u64::MAX,
    ensures
        byte_views(out@) == tiles(frame@, frame_dims@, tile_dims@, elem_size as int),
{
    let ghost want = tiles(frame@, frame_dims@, tile_dims@, elem_size as int);
    let g = chunk_grid(frame_dims, tile_dims);
    let n: u64 = match element_count(g.as_slice()) {
        Some(v) => v,
        None => 0,
    };
    let pad = filled(tile_bytes(tile_dims, elem_size), 0);
    assert(pad@ =~= zeros((volume(tile_dims@) * elem_size) as nat));
    let mut out: Vec<Vec<u8>> = Vec::new();
    let mut t: u64 = 0;
    assert(byte_views(out@) =~= want.take(0));
    while t < n
        invariant
            t <= n,
            g@ == grid(frame_dims@, tile_dims@),
            n == volume(g@),
            frame_dims@.len() > 0,
            tile_dims@.len() == frame_dims@.len(),
            elem_size > 0,
            shaped(frame@.len(), frame_dims@, elem_size as nat),
            chunked(tile_dims@),
            volume(tile_dims@) * elem_size <= usize::MAX,
            pad@ == zeros((volume(tile_dims@) * elem_size) as nat),
            want == tiles(frame@, frame_dims@, tile_dims@, elem_size as int),
            byte_views(out@) == want.take(t as int),
        decreases n - t,
    {
        let cc = place_of(t, g.as_slice());
        let ghost before = out@;
        let one = cut_chunk(
            frame,
            frame_dims,
            tile_dims,
            cc.as_slice(),
            elem_size,
            pad.as_slice(),
        );
        assert(one@ == want[t as int]);
        let ghost one_view = one;
        out.push(one);
        t = t + 1;
        proof {
            assert(byte_views(out@) =~= want.take(t as int)) by {
                assert(want.len() == n);
                assert(byte_views(before).len() == want.take(t - 1).len());
                assert(out@ == before.push(one_view));
                assert forall|i: int| 0 <= i < t implies byte_views(out@)[i] == want.take(
                    t as int,
                )[i] by {
                    if i < t - 1 {
                        assert(byte_views(before)[i] == want.take(t - 1)[i]);
                    }
                }
            }
        }
    }
    assert(want.take(n as int) =~= want);
    out
}

} // verus!
