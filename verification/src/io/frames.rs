//! Datasets that grow by frames: arrays of frames, cut into chunks that span
//! frames.

use crate::format::bytes::{joined, lemma_joined_len, lemma_joined_uniform};
use crate::format::messages::fill_value::tiled;
use crate::io::array::{
    inside, lemma_linear_bound, lemma_linear_of_place, lemma_place_len, lemma_place_of_linear,
    linear, place, volume,
};
use crate::io::chunks::{
    assembled, chunk_base, chunk_cut, chunked, chunks_of, grid, lemma_all_chunks_roundtrip,
    lemma_parts, shaped, shifted,
};
use crate::io::slices::lemma_byte_of;
use vstd::arithmetic::div_mod::{
    lemma_fundamental_div_mod, lemma_fundamental_div_mod_converse, lemma_mod_bound,
};
use vstd::prelude::*;

verus! {

/// `a` in front of `rest`.
pub open spec fn cons<T>(a: T, rest: Seq<T>) -> Seq<T> {
    seq![a] + rest
}

pub proof fn lemma_volume_cons(a: u64, rest: Seq<u64>)
    ensures
        volume(cons(a, rest)) == a * volume(rest),
    decreases rest.len(),
{
    let all = cons(a, rest);
    if rest.len() == 0 {
        reveal_with_fuel(volume, 2);
        assert(all.drop_last() =~= Seq::<u64>::empty());
        assert(all.last() == a);
        assert(1 * a == a * 1);
    } else {
        assert(all.drop_last() =~= cons(a, rest.drop_last()));
        assert(all.last() == rest.last());
        lemma_volume_cons(a, rest.drop_last());
        let v = volume(rest.drop_last());
        let m = rest.last() as nat;
        assert((a * v) * m == a * (v * m)) by (nonlinear_arith);
    }
}

pub proof fn lemma_linear_cons(s: int, c: Seq<int>, a: u64, rest: Seq<u64>)
    requires
        c.len() == rest.len(),
    ensures
        linear(cons(s, c), cons(a, rest)) == s * volume(rest) + linear(c, rest),
    decreases rest.len(),
{
    let all = cons(a, rest);
    let ac = cons(s, c);
    if rest.len() == 0 {
        reveal_with_fuel(linear, 2);
        assert(all.drop_last() =~= Seq::<u64>::empty());
        assert(ac.last() == s);
        assert(0 * a == 0);
        assert(s * 1 == s);
    } else {
        assert(all.drop_last() =~= cons(a, rest.drop_last()));
        assert(ac.drop_last() =~= cons(s, c.drop_last()));
        assert(all.last() == rest.last());
        assert(ac.last() == c.last());
        lemma_linear_cons(s, c.drop_last(), a, rest.drop_last());
        let v = volume(rest.drop_last()) as int;
        let m = rest.last() as int;
        let l = linear(c.drop_last(), rest.drop_last());
        assert((s * v + l) * m == s * (v * m) + l * m) by (nonlinear_arith);
    }
}

pub proof fn lemma_inside_cons(s: int, c: Seq<int>, a: u64, rest: Seq<u64>)
    requires
        c.len() == rest.len(),
    ensures
        inside(cons(s, c), cons(a, rest)) == (0 <= s < a && inside(c, rest)),
{
    let ac = cons(s, c);
    let all = cons(a, rest);
    assert forall|d: int| 0 <= d < c.len() implies ac[d + 1] == c[d] && all[d + 1] == rest[d] by {}
    if inside(ac, all) {
        assert(0 <= ac[0] < all[0]);
        assert forall|d: int| 0 <= d < c.len() implies 0 <= #[trigger] c[d] < rest[d] by {
            assert(0 <= ac[d + 1] < all[d + 1]);
        }
    }
    if 0 <= s < a && inside(c, rest) {
        assert forall|d: int| 0 <= d < ac.len() implies 0 <= #[trigger] ac[d] < all[d] by {
            if d > 0 {
                assert(0 <= c[d - 1] < rest[d - 1]);
            }
        }
    }
}

/// The place of an element, frame first.
pub proof fn lemma_place_cons(i: int, a: u64, rest: Seq<u64>)
    requires
        0 <= i < a * volume(rest),
    ensures
        volume(rest) > 0,
        0 <= i / (volume(rest) as int) < a,
        place(i, cons(a, rest)) == cons(
            i / volume(rest) as int,
            place(i % volume(rest) as int, rest),
        ),
{
    let v = volume(rest) as int;
    assert(v > 0) by (nonlinear_arith)
        requires
            0 < a * v,
            v >= 0,
            a >= 0,
    ;
    lemma_fundamental_div_mod(i, v);
    lemma_mod_bound(i, v);
    let s = i / v;
    let q = i % v;
    assert(0 <= s < a) by (nonlinear_arith)
        requires
            i == v * s + q,
            0 <= q < v,
            0 <= i < a * v,
    ;
    lemma_linear_of_place(q, rest);
    lemma_place_len(q, rest);
    let c = place(q, rest);
    lemma_inside_cons(s, c, a, rest);
    lemma_linear_cons(s, c, a, rest);
    assert(s * v == v * s) by (nonlinear_arith);
    lemma_place_of_linear(cons(s, c), cons(a, rest));
}

pub proof fn lemma_grid_cons(n: u64, fd: Seq<u64>, p: u64, td: Seq<u64>)
    requires
        td.len() == fd.len(),
        p > 0,
    ensures
        grid(cons(n, fd), cons(p, td)) == cons(((n + p - 1) / p as int) as u64, grid(fd, td)),
{
    let g = grid(cons(n, fd), cons(p, td));
    let w = cons(((n + p - 1) / p as int) as u64, grid(fd, td));
    assert forall|d: int| 0 <= d < g.len() implies g[d] == w[d] by {
        if d > 0 {
            assert(cons(n, fd)[d] == fd[d - 1]);
            assert(cons(p, td)[d] == td[d - 1]);
        }
    }
    assert(g =~= w);
}

/// A chunk that spans frames is made of the tiles of the frames.
proof fn lemma_cut_cons(
    data: Seq<u8>,
    n: u64,
    fd: Seq<u64>,
    p: u64,
    td: Seq<u64>,
    b: int,
    tg: Seq<int>,
    es: int,
    pad: Seq<u8>,
    frames: Seq<Seq<u8>>,
    k: int,
)
    requires
        es > 0,
        td.len() == fd.len(),
        tg.len() == fd.len(),
        0 <= b,
        frames.len() == n,
        forall|f: int| 0 <= f < n ==> (#[trigger] frames[f]).len() == volume(fd) * es,
        data == joined(frames),
        pad.len() == p * (volume(td) * es),
        0 <= k < p * (volume(td) * es),
    ensures
        ({
            let tb = volume(td) * es;
            let s = k / tb;
            &&& tb > 0
            &&& 0 <= s < p
            &&& 0 <= k % tb < tb
            &&& volume(cons(p, td)) * es == p * tb
            &&& chunk_cut(data, cons(n, fd), cons(p, td), cons(b, tg), es, pad)[k] == if b * p + s
                < n {
                chunk_cut(
                    frames[b * p + s],
                    fd,
                    td,
                    tg,
                    es,
                    pad.subrange(s * tb, s * tb + tb),
                )[k % tb]
            } else {
                pad[k]
            }
        }),
{
    let vt = volume(td) as int;
    let vf = volume(fd) as int;
    let tb = vt * es;
    lemma_volume_cons(p, td);
    assert(tb > 0) by (nonlinear_arith)
        requires
            0 < p * tb,
            p >= 0,
            tb >= 0 || tb < 0,
    ;
    assert(p * vt * es == p * tb) by (nonlinear_arith)
        requires
            tb == vt * es,
    ;
    lemma_fundamental_div_mod(k, tb);
    lemma_mod_bound(k, tb);
    let s = k / tb;
    let r = k % tb;
    assert(0 <= s < p) by (nonlinear_arith)
        requires
            k == tb * s + r,
            0 <= r < tb,
            0 <= k < p * tb,
    ;
    lemma_byte_of(r, vt, es);
    let q = r / es;
    let l = s * vt + q;
    assert(k == l * es + r % es) by (nonlinear_arith)
        requires
            k == tb * s + r,
            tb == vt * es,
            l == s * vt + q,
            r == es * q + r % es,
    ;
    lemma_fundamental_div_mod_converse(k, es, l, r % es);
    assert(0 <= l < p * vt) by (nonlinear_arith)
        requires
            l == s * vt + q,
            0 <= s,
            s + 1 <= p,
            0 <= q < vt,
    ;
    lemma_place_cons(l, p, td);
    lemma_fundamental_div_mod_converse(l, vt, s, q);
    let c = place(q, td);
    lemma_place_len(q, td);
    let g = shifted(chunk_base(cons(b, tg), cons(p, td)), place(l, cons(p, td)));
    let gf = shifted(chunk_base(tg, td), c);
    let f = b * p + s;
    assert(g =~= cons(f, gf)) by {
        assert forall|d: int| 0 <= d < g.len() implies g[d] == cons(f, gf)[d] by {
            if d > 0 {
                assert(cons(b, tg)[d] == tg[d - 1]);
                assert(cons(p, td)[d] == td[d - 1]);
                assert(place(l, cons(p, td))[d] == c[d - 1]);
            }
        }
    }
    lemma_inside_cons(f, gf, n, fd);
    lemma_linear_cons(f, gf, n, fd);
    assert(0 <= f) by (nonlinear_arith)
        requires
            f == b * p + s,
            0 <= b,
            0 <= s,
            p >= 0,
    ;
    assert(0 <= s * tb && s * tb + tb <= p * tb && k == s * tb + r) by (nonlinear_arith)
        requires
            k == tb * s + r,
            0 <= s,
            s + 1 <= p,
            tb >= 0,
    ;
    if f < n {
        if inside(gf, fd) {
            lemma_linear_bound(gf, fd);
            let e = linear(gf, fd);
            let fb = (vf * es) as nat;
            assert(0 <= vf * es) by (nonlinear_arith)
                requires
                    vf >= 0,
                    es > 0,
            ;
            lemma_joined_uniform(frames, fb, f);
            let at = e * es + r % es;
            assert(0 <= at < vf * es) by (nonlinear_arith)
                requires
                    at == e * es + r % es,
                    0 <= e,
                    e + 1 <= vf,
                    0 <= r % es < es,
            ;
            assert((f * vf + e) * es + r % es == f * (vf * es) + at) by (nonlinear_arith)
                requires
                    at == e * es + r % es,
            ;
            assert(joined(frames).subrange(f * fb, f * fb + fb)[at] == frames[f][at]);
        }
    }
}

/// The chunk that holds tile `cell` of up to `p` frames, with the fill value where
/// frames are missing and where it reaches over the border of the frames.
pub open spec fn band_chunk(
    frames: Seq<Seq<u8>>,
    p: nat,
    fd: Seq<u64>,
    td: Seq<u64>,
    es: int,
    fill: Option<Seq<u8>>,
    cell: int,
) -> Seq<u8> {
    let tb = volume(td) * es;
    let pad = tiled((p * tb) as nat, fill);
    Seq::new(
        (p * tb) as nat,
        |k: int|
            if k / tb < frames.len() {
                chunk_cut(
                    frames[k / tb],
                    fd,
                    td,
                    place(cell, grid(fd, td)),
                    es,
                    pad.subrange((k / tb) * tb, (k / tb) * tb + tb),
                )[k % tb]
            } else {
                pad[k]
            },
    )
}

/// The frames of band `b`.
pub open spec fn band_frames(frames: Seq<Seq<u8>>, p: int, b: int) -> Seq<Seq<u8>> {
    let end = if b * p + p <= frames.len() {
        b * p + p
    } else {
        frames.len() as int
    };
    frames.subrange(b * p, end)
}

/// The chunks of a dataset of frames: band by band, in each band tile by tile.
pub open spec fn frame_chunks(
    frames: Seq<Seq<u8>>,
    p: u64,
    fd: Seq<u64>,
    td: Seq<u64>,
    es: int,
    fill: Option<Seq<u8>>,
) -> Seq<Option<Seq<u8>>> {
    let cells = volume(grid(fd, td));
    let bands = (frames.len() + p - 1) / p as int;
    Seq::new(
        (bands * cells) as nat,
        |i: int|
            Some(
                band_chunk(
                    band_frames(frames, p as int, i / cells as int),
                    p as nat,
                    fd,
                    td,
                    es,
                    fill,
                    i % cells as int,
                ),
            ),
    )
}

/// A dataset of frames reads back as the frames, one behind the other, when its
/// chunks were written band by band.
pub proof fn lemma_frames_roundtrip(
    out: Seq<u8>,
    frames: Seq<Seq<u8>>,
    p: u64,
    fd: Seq<u64>,
    td: Seq<u64>,
    es: nat,
    fill: Option<Seq<u8>>,
)
    requires
        es > 0,
        p > 0,
        td.len() == fd.len(),
        chunked(td),
        frames.len() <= u64::MAX,
        forall|f: int| 0 <= f < frames.len() ==> (#[trigger] frames[f]).len() == volume(fd) * es,
        shaped(out.len(), cons(frames.len() as u64, fd), es),
        volume(fd) > 0,
    ensures
        assembled(
            out,
            cons(frames.len() as u64, fd),
            cons(p, td),
            es as int,
            frame_chunks(frames, p, fd, td, es as int, fill),
            frame_chunks(frames, p, fd, td, es as int, fill).len(),
        ) == joined(frames),
        frame_chunks(frames, p, fd, td, es as int, fill).len() == volume(
            grid(cons(frames.len() as u64, fd), cons(p, td)),
        ),
{
    let n = frames.len() as u64;
    let esi = es as int;
    let dims = cons(n, fd);
    let cd = cons(p, td);
    let data = joined(frames);
    let g = grid(dims, cd);
    let gt = grid(fd, td);
    let cells = volume(gt) as int;
    let bands = (n + p - 1) / p as int;
    let chunks = frame_chunks(frames, p, fd, td, esi, fill);
    lemma_parts(n as int, p as int);
    lemma_grid_cons(n, fd, p, td);
    lemma_volume_cons(bands as u64, gt);
    lemma_volume_cons(n, fd);
    lemma_joined_len(frames, (volume(fd) * es) as nat);
    let vf = volume(fd) as int;
    assert(n * vf * esi == n * (vf * esi)) by (nonlinear_arith);
    assert(shaped(data.len(), dims, es));
    let zs = tiled((volume(cd) * esi) as nat, fill);
    let pads = Seq::new(chunks.len(), |i: int| zs);
    assert(0 <= bands * cells) by (nonlinear_arith)
        requires
            0 <= bands,
            0 <= cells,
    ;
    assert forall|i: int| 0 <= i < chunks.len() implies (#[trigger] chunks[i] matches Some(b)
        ==> b == chunk_cut(data, dims, cd, place(i, g), esi, pads[i])) by {
        lemma_place_cons(i, bands as u64, gt);
        let b = i / cells;
        let cell = i % cells;
        lemma_fundamental_div_mod(i, cells);
        lemma_mod_bound(i, cells);
        let tg = place(cell, gt);
        lemma_place_len(cell, gt);
        let got = band_chunk(
            band_frames(frames, p as int, b),
            p as nat,
            fd,
            td,
            esi,
            fill,
            cell,
        );
        let want = chunk_cut(data, dims, cd, cons(b, tg), esi, zs);
        assert(place(i, g) == cons(b, tg));
        assert(b * p < n) by (nonlinear_arith)
            requires
                b + 1 <= bands,
                p * bands < n + p,
                p > 0,
        ;
        assert(0 <= b * p) by (nonlinear_arith)
            requires
                0 <= b,
                p > 0,
        ;
        lemma_volume_cons(p, td);
        let vt = volume(td) as int;
        let tb = vt * esi;
        assert(p * vt * esi == p * tb) by (nonlinear_arith)
            requires
                tb == vt * esi,
        ;
        assert(0 <= p * tb) by (nonlinear_arith)
            requires
                tb == vt * esi,
                vt >= 0,
                esi > 0,
                p > 0,
        ;
        assert(got =~= want) by {
            assert forall|k: int| 0 <= k < got.len() implies got[k] == want[k] by {
                lemma_cut_cons(data, n, fd, p, td, b, tg, esi, zs, frames, k);
                let s = k / tb;
                let bf = band_frames(frames, p as int, b);
                if s < bf.len() {
                    assert(bf[s] == frames[b * p + s]);
                }
            }
        }
    }
    assert(chunks_of(data, dims, cd, esi, chunks, pads));
    assert(chunked(cd)) by {
        assert forall|d: int| 0 <= d < cd.len() implies #[trigger] cd[d] > 0 by {
            if d > 0 {
                assert(cd[d] == td[d - 1]);
            }
        }
    }
    lemma_all_chunks_roundtrip(out, data, dims, cd, es, chunks, pads);
}

} // verus!
