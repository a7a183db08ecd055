//! Chunks of an array: cutting an array into chunks and putting it together
//! again.
//!
//! An array is a sequence of elements of `es` bytes each, in row-major order.
//! The chunk at grid place `cc` holds the elements from `cc * cd` on, `cd` along
//! each dimension; chunks at the border reach over it.

use crate::io::array::{
    inside, ints, lemma_linear_bound, lemma_linear_of_place, lemma_place_len, lemma_place_of_linear,
    linear, linear_of, place, place_of, volume,
};
use vstd::arithmetic::div_mod::{
    lemma_fundamental_div_mod, lemma_fundamental_div_mod_converse, lemma_mod_bound,
};
use vstd::prelude::*;

verus! {

/// The first element of the chunk at `cc`.
pub open spec fn chunk_base(cc: Seq<int>, cd: Seq<u64>) -> Seq<int> {
    Seq::new(cc.len(), |d: int| cc[d] * cd[d])
}

/// Sum of two places.
pub open spec fn shifted(base: Seq<int>, c: Seq<int>) -> Seq<int> {
    Seq::new(base.len(), |d: int| base[d] + c[d])
}

/// Place `c` as seen from `base`.
pub open spec fn relative(c: Seq<int>, base: Seq<int>) -> Seq<int> {
    Seq::new(c.len(), |d: int| c[d] - base[d])
}

/// Whether the chunk at `cc` holds the element at `c`.
pub open spec fn in_chunk(c: Seq<int>, cc: Seq<int>, cd: Seq<u64>) -> bool {
    inside(relative(c, chunk_base(cc, cd)), cd)
}

/// The number, within the chunk at `cc`, of element `e` of the array.
pub open spec fn local_index(e: int, dims: Seq<u64>, cd: Seq<u64>, cc: Seq<int>) -> int {
    linear(relative(place(e, dims), chunk_base(cc, cd)), cd)
}

/// Whether the chunk at `cc` holds element `e`, among its first `n` elements
/// and within `len` bytes.
pub open spec fn holds_element(
    e: int,
    dims: Seq<u64>,
    cd: Seq<u64>,
    cc: Seq<int>,
    es: int,
    len: int,
    n: int,
) -> bool {
    &&& in_chunk(place(e, dims), cc, cd)
    &&& local_index(e, dims, cd, cc) < n
    &&& (local_index(e, dims, cd, cc) + 1) * es <= len
}

/// `out` with the first `n` elements of a chunk put in place.
pub open spec fn placed_upto(
    out: Seq<u8>,
    chunk: Seq<u8>,
    dims: Seq<u64>,
    cd: Seq<u64>,
    cc: Seq<int>,
    es: int,
    n: int,
) -> Seq<u8> {
    Seq::new(
        out.len(),
        |k: int|
            if holds_element(k / es, dims, cd, cc, es, chunk.len() as int, n) {
                chunk[local_index(k / es, dims, cd, cc) * es + k % es]
            } else {
                out[k]
            },
    )
}

/// How many elements a chunk of a list has within the list.
pub open spec fn span(dim: u64, cd: u64, cc: int) -> int {
    let start = cc * cd;
    if start >= dim {
        0
    } else if dim - start < cd {
        dim - start
    } else {
        cd as int
    }
}

/// `out` with a chunk put in place. Elements that the chunk does not hold stay
/// as they are; a chunk of a list that ends too early is left out.
pub open spec fn placed(
    out: Seq<u8>,
    chunk: Seq<u8>,
    dims: Seq<u64>,
    cd: Seq<u64>,
    cc: Seq<int>,
    es: int,
) -> Seq<u8> {
    if dims.len() == 0 || (dims.len() == 1 && span(dims[0], cd[0], cc[0]) * es > chunk.len()) {
        out
    } else {
        placed_upto(out, chunk, dims, cd, cc, es, volume(cd) as int)
    }
}

/// Whether an array of `len` bytes has the shape `dims`.
pub open spec fn shaped(len: nat, dims: Seq<u64>, es: nat) -> bool {
    len == volume(dims) * es
}

/// Which byte of the chunk goes where: element `n` of the chunk is element `e`
/// of the array exactly when it stands at the place of `e`.
proof fn lemma_element_of_chunk(
    e: int,
    n: int,
    dims: Seq<u64>,
    cd: Seq<u64>,
    cc: Seq<int>,
)
    requires
        0 <= e < volume(dims),
        0 <= n < volume(cd),
        cc.len() == dims.len(),
        cd.len() == dims.len(),
    ensures
        ({
            let g = shifted(chunk_base(cc, cd), place(n, cd));
            &&& (in_chunk(place(e, dims), cc, cd) && local_index(e, dims, cd, cc) == n) ==> (inside(
                g,
                dims,
            ) && linear(g, dims) == e)
            &&& (inside(g, dims) && linear(g, dims) == e) ==> (in_chunk(place(e, dims), cc, cd)
                && local_index(e, dims, cd, cc) == n)
        }),
{
    let base = chunk_base(cc, cd);
    let c = place(e, dims);
    let ci = place(n, cd);
    let g = shifted(base, ci);
    lemma_linear_of_place(e, dims);
    lemma_linear_of_place(n, cd);
    lemma_place_len(e, dims);
    lemma_place_len(n, cd);
    let r = relative(c, base);
    if in_chunk(c, cc, cd) && local_index(e, dims, cd, cc) == n {
        lemma_place_of_linear(r, cd);
        assert(r == ci);
        assert(g =~= c) by {
            assert forall|d: int| 0 <= d < g.len() implies g[d] == c[d] by {
                assert(r[d] == ci[d]);
            }
        }
    }
    if inside(g, dims) && linear(g, dims) == e {
        lemma_place_of_linear(g, dims);
        assert(c == g);
        assert(r =~= ci) by {
            assert forall|d: int| 0 <= d < r.len() implies r[d] == ci[d] by {
                assert(c[d] == g[d]);
            }
        }
    }
}

/// One more element in place.
proof fn lemma_one_more(
    out: Seq<u8>,
    now: Seq<u8>,
    next: Seq<u8>,
    chunk: Seq<u8>,
    dims: Seq<u64>,
    cd: Seq<u64>,
    cc: Seq<int>,
    es: nat,
    n: int,
)
    requires
        es > 0,
        shaped(out.len(), dims, es),
        0 <= n < volume(cd),
        cc.len() == dims.len(),
        cd.len() == dims.len(),
        now == placed_upto(out, chunk, dims, cd, cc, es as int, n),
        next.len() == out.len(),
        ({
            let g = shifted(chunk_base(cc, cd), place(n, cd));
            if inside(g, dims) && (n + 1) * es <= chunk.len() {
                let at = linear(g, dims) * es;
                forall|k: int|
                    0 <= k < next.len() ==> #[trigger] next[k] == (if at <= k < at + es {
                        chunk[n * es + (k - at)]
                    } else {
                        now[k]
                    })
            } else {
                next == now
            }
        }),
    ensures
        next == placed_upto(out, chunk, dims, cd, cc, es as int, n + 1),
{
    let want = placed_upto(out, chunk, dims, cd, cc, es as int, n + 1);
    let g = shifted(chunk_base(cc, cd), place(n, cd));
    let esi = es as int;
    assert forall|k: int| 0 <= k < next.len() implies next[k] == want[k] by {
        let e = k / esi;
        lemma_fundamental_div_mod(k, esi);
        lemma_mod_bound(k, esi);
        let v = volume(dims) as int;
        assert(0 <= e < v) by (nonlinear_arith)
            requires
                k == esi * e + k % esi,
                0 <= k % esi < esi,
                0 <= k < v * esi,
        ;
        lemma_element_of_chunk(e, n, dims, cd, cc);
        let l = local_index(e, dims, cd, cc);
        let fits = (n + 1) * esi <= chunk.len();
        let hit = inside(g, dims) && linear(g, dims) == e;
        if inside(g, dims) {
            let at = linear(g, dims) * esi;
            let gl = linear(g, dims);
            assert((at <= k < at + esi) <==> gl == e) by (nonlinear_arith)
                requires
                    at == gl * esi,
                    k == esi * e + k % esi,
                    0 <= k % esi < esi,
            ;
            if hit {
                assert(k - at == k % esi) by (nonlinear_arith)
                    requires
                        at == gl * esi,
                        gl == e,
                        k == esi * e + k % esi,
                ;
            }
        }
        if hit && fits {
            assert(l == n);
        }
    }
    assert(next =~= want);
}

/// The place in the array of place `c` of a chunk.
pub fn global_place(cc: &[u64], cd: &[u64], c: &[u64], dims: &[u64]) -> (r: Option<Vec<u64>>)
    requires
        cc@.len() == dims@.len(),
        cd@.len() == dims@.len(),
        c@.len() == dims@.len(),
    ensures
        match r {
            Some(g) => ints(g@) == shifted(chunk_base(ints(cc@), cd@), ints(c@)) && inside(
                ints(g@),
                dims@,
            ),
            None => !inside(shifted(chunk_base(ints(cc@), cd@), ints(c@)), dims@),
        },
{
    let ghost want = shifted(chunk_base(ints(cc@), cd@), ints(c@));
    let n: usize = dims.len();
    let mut g: Vec<u64> = Vec::with_capacity(n);
    let mut d: usize = 0;
    while d < n
        invariant
            d <= n,
            n == dims@.len(),
            cc@.len() == n,
            cd@.len() == n,
            c@.len() == n,
            want == shifted(chunk_base(ints(cc@), cd@), ints(c@)),
            g@.len() == d,
            forall|k: int| 0 <= k < d ==> #[trigger] g@[k] == want[k] && g@[k] < dims@[k],
        decreases n - d,
    {
        proof {
            let a = cc@[d as int];
            let b = cd@[d as int];
            assert(0 <= a * b <= 0xffff_ffff_ffff_ffff * 0xffff_ffff_ffff_ffff) by (nonlinear_arith)
                requires
                    0 <= a <= 0xffff_ffff_ffff_ffff,
                    0 <= b <= 0xffff_ffff_ffff_ffff,
            ;
        }
        let x: u128 = cc[d] as u128 * cd[d] as u128 + c[d] as u128;
        assert(x == want[d as int]);
        if x >= dims[d] as u128 {
            return None;
        }
        g.push(x as u64);
        d = d + 1;
    }
    proof {
        assert(ints(g@) =~= want);
        assert forall|k: int| 0 <= k < n implies 0 <= #[trigger] ints(g@)[k] < dims@[k] by {
            assert(g@[k] == want[k]);
        }
    }
    Some(g)
}

/// Copy `es` bytes.
fn copy_element(out: &mut Vec<u8>, at: usize, chunk: &[u8], from: usize, es: usize)
    requires
        at + es <= old(out)@.len(),
        from + es <= chunk@.len(),
    ensures
        final(out)@.len() == old(out)@.len(),
        forall|k: int|
            0 <= k < old(out)@.len() ==> #[trigger] final(out)@[k] == (if at <= k < at + es {
                chunk@[from + (k - at)]
            } else {
                old(out)@[k]
            }),
{
    let mut i: usize = 0;
    while i < es
        invariant
            i <= es,
            at + es <= out.len(),
            from + es <= chunk.len(),
            out@.len() == old(out)@.len(),
            forall|k: int|
                0 <= k < out@.len() ==> #[trigger] out@[k] == (if at <= k < at + i {
                    chunk@[from + (k - at)]
                } else {
                    old(out)@[k]
                }),
        decreases es - i,
    {
        out.set(at + i, chunk[from + i]);
        i = i + 1;
    }
}

/// Put a chunk in its place in an array.
pub fn copy_chunk_to_output(
    chunk_data: &[u8],
    output: &mut Vec<u8>,
    dims: &[u64],
    chunk_dims: &[u64],
    chunk_coords: &[u64],
    element_size: u64,
)
    requires
        chunk_dims@.len() == dims@.len(),
        chunk_coords@.len() == dims@.len(),
        element_size <= u32::MAX,
        shaped(old(output)@.len(), dims@, element_size as nat),
        dims@.len() > 1 ==> volume(chunk_dims@) * element_size <= usize::MAX,
    ensures
        final(output)@ == placed(
            old(output)@,
            chunk_data@,
            dims@,
            chunk_dims@,
            ints(chunk_coords@),
            element_size as int,
        ),
{
    let ghost out0 = output@;
    let ghost cc = ints(chunk_coords@);
    let n: usize = dims.len();
    if n == 0 {
        return;
    }
    if element_size == 0 {
        proof {
            assert(volume(dims@) * (element_size as nat) == 0) by (nonlinear_arith)
                requires
                    element_size == 0,
            ;
            assert(output@ =~= placed(
                out0,
                chunk_data@,
                dims@,
                chunk_dims@,
                cc,
                element_size as int,
            ));
        }
        return;
    }
    let es: usize = element_size as usize;
    if n == 1 {
        copy_list_chunk(chunk_data, output, dims, chunk_dims, chunk_coords, es);
        return;
    }
    proof {
        let v = volume(chunk_dims@);
        assert(v <= v * es) by (nonlinear_arith)
            requires
                es >= 1,
        ;
    }
    let chunk_elems: u64 = match crate::io::array::element_count(chunk_dims) {
        Some(v) => v,
        None => 0,
    };
    proof {
        assert(placed_upto(out0, chunk_data@, dims@, chunk_dims@, cc, es as int, 0) =~= out0) by {
            assert forall|k: int| 0 <= k < out0.len() implies placed_upto(
                out0,
                chunk_data@,
                dims@,
                chunk_dims@,
                cc,
                es as int,
                0,
            )[k] == out0[k] by {
                if in_chunk(place(k / es as int, dims@), cc, chunk_dims@) {
                    lemma_linear_bound(
                        relative(place(k / es as int, dims@), chunk_base(cc, chunk_dims@)),
                        chunk_dims@,
                    );
                }
            }
        }
    }
    let mut i: u64 = 0;
    while i < chunk_elems
        invariant
            i <= chunk_elems,
            chunk_elems == volume(chunk_dims@),
            chunk_dims@.len() == dims@.len(),
            chunk_coords@.len() == dims@.len(),
            es == element_size,
            es > 0,
            shaped(out0.len(), dims@, es as nat),
            output.len() == out0.len(),
            volume(chunk_dims@) * es <= usize::MAX,
            cc == ints(chunk_coords@),
            output@ == placed_upto(
                out0,
                chunk_data@,
                dims@,
                chunk_dims@,
                cc,
                es as int,
                i as int,
            ),
        decreases chunk_elems - i,
    {
        let ghost now = output@;
        let c = place_of(i, chunk_dims);
        proof {
            assert((i + 1) * es <= chunk_elems * es) by (nonlinear_arith)
                requires
                    i + 1 <= chunk_elems,
            ;
            assert((i + 1) * es == i * es + es) by (nonlinear_arith);
            assert(i <= i * es) by (nonlinear_arith)
                requires
                    es >= 1,
            ;
        }
        match global_place(chunk_coords, chunk_dims, c.as_slice(), dims) {
            Some(g) => {
                let from: usize = i as usize * es;
                proof {
                    lemma_linear_bound(ints(g@), dims@);
                    assert(volume(dims@) <= volume(dims@) * es) by (nonlinear_arith)
                        requires
                            es >= 1,
                    ;
                }
                if chunk_data.len() >= es && from <= chunk_data.len() - es {
                    let gl: u64 = linear_of(g.as_slice(), dims);
                    proof {
                        let v = volume(dims@) as int;
                        assert(gl * es + es <= v * es) by (nonlinear_arith)
                            requires
                                gl + 1 <= v,
                        ;
                    }
                    copy_element(output, gl as usize * es, chunk_data, from, es);
                }
            },
            None => {},
        }
        proof {
            lemma_one_more(
                out0,
                now,
                output@,
                chunk_data@,
                dims@,
                chunk_dims@,
                cc,
                es as nat,
                i as int,
            );
        }
        i = i + 1;
    }
}

/// Places in a list.
proof fn lemma_list(e: int, dims: Seq<u64>, cd: Seq<u64>, cc: Seq<int>)
    requires
        dims.len() == 1,
        cd.len() == 1,
        cc.len() == 1,
        0 <= e < dims[0],
    ensures
        volume(dims) == dims[0],
        volume(cd) == cd[0],
        in_chunk(place(e, dims), cc, cd) == (0 <= e - cc[0] * cd[0] < cd[0]),
        local_index(e, dims, cd, cc) == e - cc[0] * cd[0],
{
    reveal_with_fuel(volume, 2);
    reveal_with_fuel(place, 2);
    reveal_with_fuel(linear, 2);
    vstd::arithmetic::div_mod::lemma_small_mod(e as nat, dims[0] as nat);
    let c = place(e, dims);
    assert(c =~= seq![e]);
    let r = relative(c, chunk_base(cc, cd));
    assert(r =~= seq![e - cc[0] * cd[0]]);
    assert(1 * dims[0] == dims[0]);
    if 0 <= e - cc[0] * cd[0] < cd[0] {
        assert forall|d: int| 0 <= d < r.len() implies 0 <= #[trigger] r[d] < cd[d] by {}
    } else {
        assert(!(0 <= r[0] < cd[0]));
    }
}

/// Put a chunk of a list in its place.
fn copy_list_chunk(
    chunk_data: &[u8],
    output: &mut Vec<u8>,
    dims: &[u64],
    chunk_dims: &[u64],
    chunk_coords: &[u64],
    es: usize,
)
    requires
        dims@.len() == 1,
        chunk_dims@.len() == 1,
        chunk_coords@.len() == 1,
        es > 0,
        shaped(old(output)@.len(), dims@, es as nat),
    ensures
        final(output)@ == placed(
            old(output)@,
            chunk_data@,
            dims@,
            chunk_dims@,
            ints(chunk_coords@),
            es as int,
        ),
{
    let ghost out0 = output@;
    let ghost cc = ints(chunk_coords@);
    let ghost cd = chunk_dims@;
    let dim: u64 = dims[0];
    let len: usize = output.len();
    proof {
        reveal_with_fuel(volume, 2);
        assert(1 * dim == dim);
        assert(out0.len() == dim * es);
        assert(dim <= dim * es) by (nonlinear_arith)
            requires
                es >= 1,
        ;
        assert(chunk_coords@[0] * cd[0] <= 0xffff_ffff_ffff_ffff * 0xffff_ffff_ffff_ffff)
            by (nonlinear_arith)
            requires
                chunk_coords@[0] <= 0xffff_ffff_ffff_ffff,
                cd[0] <= 0xffff_ffff_ffff_ffff,
        ;
    }
    let start: u128 = chunk_coords[0] as u128 * chunk_dims[0] as u128;
    assert(start == cc[0] * cd[0]);
    if start >= dim as u128 {
        proof {
            let want = placed(out0, chunk_data@, dims@, cd, cc, es as int);
            assert forall|k: int| 0 <= k < out0.len() implies want[k] == out0[k] by {
                lemma_byte_element(k, dim as int, es as int);
                lemma_list(k / es as int, dims@, cd, cc);
            }
            assert(output@ =~= want);
        }
        return;
    }
    let start: u64 = start as u64;
    let count: u64 = if dim - start < chunk_dims[0] {
        dim - start
    } else {
        chunk_dims[0]
    };
    proof {
        assert(count == span(dim, cd[0], cc[0]));
        assert(count * es <= dim * es && start * es + count * es <= dim * es) by (nonlinear_arith)
            requires
                start + count <= dim,
                start >= 0,
        ;
    }
    let bytes: usize = count as usize * es;
    if bytes > chunk_data.len() {
        return;
    }
    copy_element(output, start as usize * es, chunk_data, 0, bytes);
    proof {
        let want = placed(out0, chunk_data@, dims@, cd, cc, es as int);
        assert forall|k: int| 0 <= k < out0.len() implies output@[k] == want[k] by {
            lemma_byte_element(k, dim as int, es as int);
            let e = k / es as int;
            lemma_list(e, dims@, cd, cc);
            let at = start * es;
            assert((at <= k < at + bytes) <==> (start <= e < start + count)) by (nonlinear_arith)
                requires
                    at == start * es,
                    bytes == count * es,
                    k == es * e + k % (es as int),
                    0 <= k % (es as int) < es,
            ;
            let l = e - start;
            if start <= e < start + count {
                assert((l + 1) * es <= bytes) by (nonlinear_arith)
                    requires
                        l + 1 <= count,
                        bytes == count * es,
                ;
                assert(k - at == l * es + k % (es as int)) by (nonlinear_arith)
                    requires
                        at == start * es,
                        l == e - start,
                        k == es * e + k % (es as int),
                ;
            }
        }
        assert(output@ =~= want);
    }
}

/// The element that a byte belongs to.
proof fn lemma_byte_element(k: int, n: int, es: int)
    requires
        es > 0,
        0 <= k < n * es,
    ensures
        0 <= k / es < n,
        k == es * (k / es) + k % es,
        0 <= k % es < es,
{
    lemma_fundamental_div_mod(k, es);
    lemma_mod_bound(k, es);
    let e = k / es;
    assert(0 <= e < n) by (nonlinear_arith)
        requires
            k == es * e + k % es,
            0 <= k % es < es,
            0 <= k < n * es,
    ;
}

/// The chunk at `cc` of an array, with `pad` where it reaches over the border.
pub open spec fn chunk_cut(
    data: Seq<u8>,
    dims: Seq<u64>,
    cd: Seq<u64>,
    cc: Seq<int>,
    es: int,
    pad: Seq<u8>,
) -> Seq<u8> {
    Seq::new(
        (volume(cd) * es) as nat,
        |j: int|
            {
                let g = shifted(chunk_base(cc, cd), place(j / es, cd));
                if inside(g, dims) {
                    data[linear(g, dims) * es + j % es]
                } else {
                    pad[j]
                }
            },
    )
}

/// Putting a chunk of an array in its place puts the elements that it holds in
/// their places.
pub proof fn lemma_cut_placed(
    out: Seq<u8>,
    data: Seq<u8>,
    dims: Seq<u64>,
    cd: Seq<u64>,
    cc: Seq<int>,
    es: nat,
    pad: Seq<u8>,
    k: int,
)
    requires
        es > 0,
        dims.len() > 0,
        cc.len() == dims.len(),
        cd.len() == dims.len(),
        shaped(out.len(), dims, es),
        shaped(data.len(), dims, es),
        0 <= k < out.len(),
        forall|d: int| 0 <= d < cc.len() ==> #[trigger] cc[d] >= 0,
    ensures
        placed(out, chunk_cut(data, dims, cd, cc, es as int, pad), dims, cd, cc, es as int)[k] == (
        if in_chunk(place(k / es as int, dims), cc, cd) {
            data[k]
        } else {
            out[k]
        }),
{
    let esi = es as int;
    let chunk = chunk_cut(data, dims, cd, cc, esi, pad);
    let v = volume(cd) as int;
    assert(0 <= v * esi) by (nonlinear_arith)
        requires
            v >= 0,
            esi > 0,
    ;
    if dims.len() == 1 {
        reveal_with_fuel(volume, 2);
        let n = span(dims[0], cd[0], cc[0]);
        assert(1 * cd[0] == cd[0]);
        assert(n * esi <= v * esi) by (nonlinear_arith)
            requires
                n <= v,
                esi > 0,
        ;
    }
    lemma_byte_element(k, volume(dims) as int, esi);
    let e = k / esi;
    let c = place(e, dims);
    lemma_linear_of_place(e, dims);
    lemma_place_len(e, dims);
    if in_chunk(c, cc, cd) {
        let r = relative(c, chunk_base(cc, cd));
        lemma_linear_bound(r, cd);
        lemma_place_of_linear(r, cd);
        let l = linear(r, cd);
        assert(l * esi + esi <= v * esi && (l + 1) * esi == l * esi + esi && 0 <= l * esi)
            by (nonlinear_arith)
            requires
                0 <= l,
                l + 1 <= v,
                esi > 0,
        ;
        let j = l * esi + k % esi;
        lemma_fundamental_div_mod_converse(j, esi, l, k % esi);
        let g = shifted(chunk_base(cc, cd), place(l, cd));
        assert(g =~= c) by {
            assert forall|d: int| 0 <= d < g.len() implies g[d] == c[d] by {
                assert(r[d] == place(l, cd)[d]);
            }
        }
        assert(chunk[j] == data[e * esi + k % esi]);
        assert(e * esi == esi * e) by (nonlinear_arith);
    }
}

/// Number of chunks along each dimension.
pub open spec fn grid(dims: Seq<u64>, cd: Seq<u64>) -> Seq<u64> {
    Seq::new(
        dims.len(),
        |d: int|
            if cd[d] == 0 {
                0
            } else {
                ((dims[d] + cd[d] - 1) / cd[d] as int) as u64
            },
    )
}

/// The grid place of the chunk that holds the element at `c`.
pub open spec fn owner(c: Seq<int>, cd: Seq<u64>) -> Seq<int> {
    Seq::new(c.len(), |d: int| c[d] / cd[d] as int)
}

/// Whether no chunk dimension is zero.
pub open spec fn chunked(cd: Seq<u64>) -> bool {
    forall|d: int| 0 <= d < cd.len() ==> #[trigger] cd[d] > 0
}

/// A number rounded up to a number of parts.
pub proof fn lemma_parts(n: int, m: int)
    requires
        0 <= n,
        0 < m,
    ensures
        0 <= (n + m - 1) / m <= n,
        n <= m * ((n + m - 1) / m) < n + m,
{
    let q = (n + m - 1) / m;
    lemma_fundamental_div_mod(n + m - 1, m);
    lemma_mod_bound(n + m - 1, m);
    assert(0 <= q) by (nonlinear_arith)
        requires
            n + m - 1 == m * q + (n + m - 1) % m,
            (n + m - 1) % m < m,
            0 <= n,
            0 < m,
    ;
    assert(q <= n) by (nonlinear_arith)
        requires
            n + m - 1 == m * q + (n + m - 1) % m,
            0 <= (n + m - 1) % m,
            0 <= n,
            0 < m,
            0 <= q,
    ;
}

/// Every element is held by the chunk at one grid place, and no other.
pub proof fn lemma_owner(c: Seq<int>, dims: Seq<u64>, cd: Seq<u64>, cc: Seq<int>)
    requires
        inside(c, dims),
        cd.len() == dims.len(),
        cc.len() == dims.len(),
        chunked(cd),
    ensures
        inside(owner(c, cd), grid(dims, cd)),
        in_chunk(c, cc, cd) <==> cc == owner(c, cd),
{
    let o = owner(c, cd);
    let g = grid(dims, cd);
    let r = relative(c, chunk_base(cc, cd));
    assert forall|d: int| 0 <= d < o.len() implies 0 <= #[trigger] o[d] < g[d] by {
        let m = cd[d] as int;
        let q = c[d] / m;
        assert(0 <= c[d] < dims[d]);
        lemma_parts(dims[d] as int, m);
        lemma_fundamental_div_mod(c[d], m);
        lemma_mod_bound(c[d], m);
        let p = (dims[d] + m - 1) / m;
        assert(0 <= q < p) by (nonlinear_arith)
            requires
                c[d] == m * q + c[d] % m,
                0 <= c[d] % m < m,
                0 <= c[d] < dims[d],
                dims[d] <= m * p,
        ;
    }
    assert forall|d: int| 0 <= d < c.len() implies (0 <= #[trigger] r[d] < cd[d] <==> cc[d] == o[d])
        by {
        let m = cd[d] as int;
        let q = c[d] / m;
        lemma_fundamental_div_mod(c[d], m);
        lemma_mod_bound(c[d], m);
        let x = cc[d];
        assert((0 <= c[d] - x * m < m) <==> x == q) by (nonlinear_arith)
            requires
                c[d] == m * q + c[d] % m,
                0 <= c[d] % m < m,
                m > 0,
        ;
    }
    if in_chunk(c, cc, cd) {
        assert(cc =~= o) by {
            assert forall|d: int| 0 <= d < cc.len() implies cc[d] == o[d] by {
                assert(0 <= r[d] < cd[d]);
            }
        }
    }
    if cc == o {
        assert forall|d: int| 0 <= d < r.len() implies 0 <= #[trigger] r[d] < cd[d] by {
            assert(cc[d] == o[d]);
        }
    }
}

/// `out` with the first `n` chunks of a numbered list put in place; a missing
/// chunk leaves its elements as they are.
pub open spec fn assembled(
    out: Seq<u8>,
    dims: Seq<u64>,
    cd: Seq<u64>,
    es: int,
    chunks: Seq<Option<Seq<u8>>>,
    n: nat,
) -> Seq<u8>
    decreases n,
{
    if n == 0 {
        out
    } else {
        let before = assembled(out, dims, cd, es, chunks, (n - 1) as nat);
        match chunks[n - 1] {
            Some(b) => placed(before, b, dims, cd, place(n - 1, grid(dims, cd)), es),
            None => before,
        }
    }
}

/// Whether the chunks that are there are the chunks of `data`.
pub open spec fn chunks_of(
    data: Seq<u8>,
    dims: Seq<u64>,
    cd: Seq<u64>,
    es: int,
    chunks: Seq<Option<Seq<u8>>>,
    pads: Seq<Seq<u8>>,
) -> bool {
    &&& pads.len() == chunks.len()
    &&& forall|i: int|
        0 <= i < chunks.len() ==> (#[trigger] chunks[i] matches Some(b) ==> b == chunk_cut(
            data,
            dims,
            cd,
            place(i, grid(dims, cd)),
            es,
            pads[i],
        ))
}

pub proof fn lemma_assembled_len(
    out: Seq<u8>,
    dims: Seq<u64>,
    cd: Seq<u64>,
    es: int,
    chunks: Seq<Option<Seq<u8>>>,
    n: nat,
)
    ensures
        assembled(out, dims, cd, es, chunks, n).len() == out.len(),
    decreases n,
{
    if n > 0 {
        lemma_assembled_len(out, dims, cd, es, chunks, (n - 1) as nat);
    }
}

/// Putting together the chunks of an array gives back the array, and leaves
/// what was there before where a chunk is missing.
pub proof fn lemma_chunks_roundtrip(
    out: Seq<u8>,
    data: Seq<u8>,
    dims: Seq<u64>,
    cd: Seq<u64>,
    es: nat,
    chunks: Seq<Option<Seq<u8>>>,
    pads: Seq<Seq<u8>>,
    n: nat,
    k: int,
)
    requires
        es > 0,
        dims.len() > 0,
        cd.len() == dims.len(),
        chunked(cd),
        shaped(out.len(), dims, es),
        shaped(data.len(), dims, es),
        chunks_of(data, dims, cd, es as int, chunks, pads),
        n <= chunks.len(),
        chunks.len() <= volume(grid(dims, cd)),
        0 <= k < out.len(),
    ensures
        ({
            let i = linear(owner(place(k / es as int, dims), cd), grid(dims, cd));
            &&& 0 <= i < volume(grid(dims, cd))
            &&& assembled(out, dims, cd, es as int, chunks, n).len() == out.len()
            &&& assembled(out, dims, cd, es as int, chunks, n)[k] == if i < n && chunks[i] is Some {
                data[k]
            } else {
                out[k]
            }
        }),
    decreases n,
{
    let esi = es as int;
    let g = grid(dims, cd);
    let e = k / esi;
    lemma_byte_element(k, volume(dims) as int, esi);
    lemma_linear_of_place(e, dims);
    let c = place(e, dims);
    lemma_owner(c, dims, cd, owner(c, cd));
    lemma_linear_bound(owner(c, cd), g);
    let i = linear(owner(c, cd), g);
    lemma_assembled_len(out, dims, cd, esi, chunks, n);
    if n > 0 {
        let m = (n - 1) as nat;
        lemma_chunks_roundtrip(out, data, dims, cd, es, chunks, pads, m, k);
        let before = assembled(out, dims, cd, esi, chunks, m);
        let cc = place(m as int, g);
        lemma_linear_of_place(m as int, g);
        lemma_place_len(m as int, g);
        lemma_owner(c, dims, cd, cc);
        if cc == owner(c, cd) {
            assert(i == m);
        } else if i == m {
            lemma_place_of_linear(owner(c, cd), g);
            assert(false);
        }
        if let Some(b) = chunks[m as int] {
            lemma_assembled_len(out, dims, cd, esi, chunks, m);
            assert forall|d: int| 0 <= d < cc.len() implies #[trigger] cc[d] >= 0 by {}
            lemma_cut_placed(before, data, dims, cd, cc, es, pads[m as int], k);
        }
    }
}

/// An array is put together again from all its chunks.
pub proof fn lemma_all_chunks_roundtrip(
    out: Seq<u8>,
    data: Seq<u8>,
    dims: Seq<u64>,
    cd: Seq<u64>,
    es: nat,
    chunks: Seq<Option<Seq<u8>>>,
    pads: Seq<Seq<u8>>,
)
    requires
        es > 0,
        dims.len() > 0,
        cd.len() == dims.len(),
        chunked(cd),
        shaped(out.len(), dims, es),
        shaped(data.len(), dims, es),
        chunks_of(data, dims, cd, es as int, chunks, pads),
        chunks.len() == volume(grid(dims, cd)),
        forall|i: int| 0 <= i < chunks.len() ==> #[trigger] chunks[i] is Some,
    ensures
        assembled(out, dims, cd, es as int, chunks, chunks.len()) == data,
{
    let r = assembled(out, dims, cd, es as int, chunks, chunks.len());
    lemma_assembled_len(out, dims, cd, es as int, chunks, chunks.len());
    assert forall|k: int| 0 <= k < r.len() implies r[k] == data[k] by {
        lemma_chunks_roundtrip(out, data, dims, cd, es, chunks, pads, chunks.len(), k);
    }
    assert(r =~= data);
}

/// Chunks of full size that have been put together are the chunks of what they give, and
/// where a chunk is missing, what was there before is there still.
pub proof fn lemma_chunks_of_assembled(
    out: Seq<u8>,
    dims: Seq<u64>,
    cd: Seq<u64>,
    es: nat,
    chunks: Seq<Option<Seq<u8>>>,
)
    requires
        es > 0,
        dims.len() > 0,
        cd.len() == dims.len(),
        chunked(cd),
        shaped(out.len(), dims, es),
        chunks.len() <= volume(grid(dims, cd)),
        full_size(chunks, cd, es),
    ensures
        ({
            let data = assembled(out, dims, cd, es as int, chunks, chunks.len());
            &&& data.len() == out.len()
            &&& chunks_of(data, dims, cd, es as int, chunks, own_pads(chunks))
            &&& forall|k: int|
                0 <= k < out.len() && missing_at(chunks, dims, cd, k / es as int)
                    ==> #[trigger] data[k] == out[k]
        }),
{
    let esi = es as int;
    let g = grid(dims, cd);
    let n = chunks.len();
    let data0 = Seq::new(
        out.len(),
        |k: int|
            if missing_at(chunks, dims, cd, k / esi) {
                out[k]
            } else {
                let i = linear(owner(place(k / esi, dims), cd), g);
                chunks[i]->0[local_index(k / esi, dims, cd, place(i, g)) * esi + k % esi]
            },
    );
    let pads = own_pads(chunks);
    assert forall|i: int| 0 <= i < n implies (#[trigger] chunks[i] matches Some(b) ==> b
        == chunk_cut(data0, dims, cd, place(i, g), esi, pads[i])) by {
        if chunks[i] is Some {
            lemma_cut_of_parts(data0, out, dims, cd, es, chunks, i);
        }
    }
    assert(chunks_of(data0, dims, cd, esi, chunks, pads));
    let data = assembled(out, dims, cd, esi, chunks, n);
    lemma_assembled_len(out, dims, cd, esi, chunks, n);
    assert forall|k: int| 0 <= k < out.len() implies data[k] == data0[k] by {
        lemma_chunks_roundtrip(out, data0, dims, cd, es, chunks, pads, n, k);
    }
    assert(data =~= data0);
}

/// Whether all chunks that are there have the bytes of their shape.
pub open spec fn full_size(chunks: Seq<Option<Seq<u8>>>, cd: Seq<u64>, es: nat) -> bool {
    forall|i: int|
        0 <= i < chunks.len() ==> (#[trigger] chunks[i] matches Some(b) ==> b.len() == volume(cd)
            * es)
}

/// What chunks hold outside the array, if only they are known.
pub open spec fn own_pads(chunks: Seq<Option<Seq<u8>>>) -> Seq<Seq<u8>> {
    Seq::new(
        chunks.len(),
        |i: int|
            match chunks[i] {
                Some(b) => b,
                None => Seq::empty(),
            },
    )
}

/// Whether the chunk that would hold element `e` is missing.
pub open spec fn missing_at(
    chunks: Seq<Option<Seq<u8>>>,
    dims: Seq<u64>,
    cd: Seq<u64>,
    e: int,
) -> bool {
    let i = linear(owner(place(e, dims), cd), grid(dims, cd));
    !(i < chunks.len() && chunks[i] is Some)
}

proof fn lemma_cut_of_parts(
    data: Seq<u8>,
    out: Seq<u8>,
    dims: Seq<u64>,
    cd: Seq<u64>,
    es: nat,
    chunks: Seq<Option<Seq<u8>>>,
    i: int,
)
    requires
        es > 0,
        dims.len() > 0,
        cd.len() == dims.len(),
        chunked(cd),
        shaped(out.len(), dims, es),
        chunks.len() <= volume(grid(dims, cd)),
        full_size(chunks, cd, es),
        0 <= i < chunks.len(),
        chunks[i] is Some,
        data == Seq::new(
            out.len(),
            |k: int|
                if missing_at(chunks, dims, cd, k / es as int) {
                    out[k]
                } else {
                    let i = linear(owner(place(k / es as int, dims), cd), grid(dims, cd));
                    chunks[i]->0[local_index(
                        k / es as int,
                        dims,
                        cd,
                        place(i, grid(dims, cd)),
                    ) * es as int + k % es as int]
                },
        ),
    ensures
        chunks[i]->0 == chunk_cut(
            data,
            dims,
            cd,
            place(i, grid(dims, cd)),
            es as int,
            own_pads(chunks)[i],
        ),
{
    let esi = es as int;
    let gr = grid(dims, cd);
    let b = chunks[i]->0;
    let cc = place(i, gr);
    let cut = chunk_cut(data, dims, cd, cc, esi, own_pads(chunks)[i]);
    lemma_place_len(i, gr);
    lemma_linear_of_place(i, gr);
    assert(b.len() == volume(cd) * es);
    assert forall|j: int| 0 <= j < b.len() implies b[j] == cut[j] by {
        lemma_byte_element(j, volume(cd) as int, esi);
        let at = place(j / esi, cd);
        lemma_place_len(j / esi, cd);
        lemma_linear_of_place(j / esi, cd);
        let g = shifted(chunk_base(cc, cd), at);
        if inside(g, dims) {
            lemma_linear_bound(g, dims);
            lemma_place_of_linear(g, dims);
            let l = linear(g, dims);
            let v = volume(dims) as int;
            let k = l * esi + j % esi;
            assert(0 <= k < v * esi) by (nonlinear_arith)
                requires
                    k == l * esi + j % esi,
                    0 <= l,
                    l + 1 <= v,
                    0 <= j % esi < esi,
            ;
            lemma_fundamental_div_mod_converse(k, esi, l, j % esi);
            assert(relative(g, chunk_base(cc, cd)) =~= at);
            assert(in_chunk(g, cc, cd));
            lemma_owner(g, dims, cd, cc);
            assert(linear(owner(g, cd), gr) == i);
            assert(local_index(l, dims, cd, cc) == j / esi);
            assert((j / esi) * esi + j % esi == j) by {
                lemma_fundamental_div_mod(j, esi);
            }
        }
    }
    assert(b =~= cut);
}

} // verus!
