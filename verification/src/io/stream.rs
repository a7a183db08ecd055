//! The chunks that a stream of frames fills.
//!
//! A chunk holds one tile of `p` frames in a row, a band. The chunks of a band are
//! written when its last frame has come.

use crate::format::bytes::push_slice;
use crate::format::messages::fill_value::{opt_bytes, tiled, tiled_fill};
use crate::io::array::{
    element_count, ints, lemma_linear_of_place, lemma_place_inside, lemma_place_len,
    linear, place, place_of, volume,
};
use crate::io::chunks::{chunk_base, chunk_cut, chunked, grid, shaped, shifted};
use crate::io::frames::{band_chunk, band_frames, frame_chunks};
use crate::io::slices::lemma_byte_of;
use crate::io::tiles::{byte_views, chunk_grid, cut_chunk, tile_bytes};
use vstd::arithmetic::div_mod::{
    lemma_fundamental_div_mod, lemma_fundamental_div_mod_converse, lemma_mod_bound,
};
use vstd::prelude::*;
use vstd::slice::slice_subrange;

verus! {

/// A chunk to be written.
#[derive(Debug)]
pub struct ChunkWrite {
    /// Number of the chunk.
    pub chunk_idx: u64,
    /// Its content.
    pub data: Vec<u8>,
}

/// A chunk with its number.
#[verifier::ext_equal]
pub struct NumberedChunk {
    pub idx: int,
    pub data: Seq<u8>,
}

/// What a list of chunks to be written says.
pub open spec fn numbered(v: Seq<ChunkWrite>) -> Seq<NumberedChunk> {
    Seq::new(v.len(), |i: int| NumberedChunk { idx: v[i].chunk_idx as int, data: v[i].data@ })
}

/// The chunks of a band.
pub open spec fn band_writes(
    frames: Seq<Seq<u8>>,
    p: nat,
    fd: Seq<u64>,
    td: Seq<u64>,
    es: int,
    fill: Option<Seq<u8>>,
    band: int,
) -> Seq<NumberedChunk> {
    let cells = volume(grid(fd, td));
    Seq::new(
        cells,
        |c: int|
            NumberedChunk { idx: band * cells + c, data: band_chunk(frames, p, fd, td, es, fill, c) },
    )
}

/// What is written while the first `n` frames come, one by one.
pub open spec fn stream_writes(
    frames: Seq<Seq<u8>>,
    p: u64,
    fd: Seq<u64>,
    td: Seq<u64>,
    es: int,
    fill: Option<Seq<u8>>,
    n: nat,
) -> Seq<NumberedChunk>
    decreases n,
{
    if n == 0 {
        Seq::empty()
    } else {
        stream_writes(frames, p, fd, td, es, fill, (n - 1) as nat) + (if n as int % p as int == 0 {
            band_writes(frames.subrange(n - p, n as int), p as nat, fd, td, es, fill, n as int / p as int - 1)
        } else {
            Seq::empty()
        })
    }
}

/// What is written at the end of the stream.
pub open spec fn closing_writes(
    frames: Seq<Seq<u8>>,
    p: u64,
    fd: Seq<u64>,
    td: Seq<u64>,
    es: int,
    fill: Option<Seq<u8>>,
) -> Seq<NumberedChunk> {
    let n = frames.len() as int;
    if n % p as int == 0 {
        Seq::empty()
    } else {
        band_writes(frames.subrange(n - n % p as int, n), p as nat, fd, td, es, fill, n / p as int)
    }
}

/// The first `n` chunks of a dataset of frames, each with its number.
pub open spec fn all_writes(
    frames: Seq<Seq<u8>>,
    p: u64,
    fd: Seq<u64>,
    td: Seq<u64>,
    es: int,
    fill: Option<Seq<u8>>,
    n: nat,
) -> Seq<NumberedChunk> {
    let cells = volume(grid(fd, td));
    Seq::new(
        n,
        |i: int|
            NumberedChunk {
                idx: i,
                data: band_chunk(
                    band_frames(frames, p as int, i / cells as int),
                    p as nat,
                    fd,
                    td,
                    es,
                    fill,
                    i % cells as int,
                ),
            },
    )
}

/// One more band.
proof fn lemma_band(
    frames: Seq<Seq<u8>>,
    p: u64,
    fd: Seq<u64>,
    td: Seq<u64>,
    es: int,
    fill: Option<Seq<u8>>,
    band: int,
    part: Seq<Seq<u8>>,
)
    requires
        p > 0,
        0 <= band,
        part == band_frames(frames, p as int, band),
    ensures
        all_writes(frames, p, fd, td, es, fill, (band * volume(grid(fd, td))) as nat) + band_writes(
            part,
            p as nat,
            fd,
            td,
            es,
            fill,
            band,
        ) == all_writes(frames, p, fd, td, es, fill, ((band + 1) * volume(grid(fd, td))) as nat),
{
    let cells = volume(grid(fd, td)) as int;
    let a = all_writes(frames, p, fd, td, es, fill, (band * cells) as nat);
    let b = band_writes(part, p as nat, fd, td, es, fill, band);
    let c = all_writes(frames, p, fd, td, es, fill, ((band + 1) * cells) as nat);
    assert((band + 1) * cells == band * cells + cells && 0 <= band * cells) by (nonlinear_arith)
        requires
            0 <= band,
            0 <= cells,
    ;
    assert forall|i: int| 0 <= i < c.len() implies (a + b)[i] == #[trigger] c[i] by {
        if i >= a.len() {
            let k = i - band * cells;
            lemma_fundamental_div_mod_converse(i, cells, band, k);
            assert((a + b)[i] == b[k]);
        }
    }
    assert(a + b =~= c);
}

/// Counting one frame on: the band is the same, or the next one begins.
proof fn lemma_count(n: int, p: int)
    requires
        0 < n,
        0 < p,
    ensures
        n % p == 0 ==> n / p == (n - 1) / p + 1 && (n / p - 1) * p == n - p && 0 <= n / p - 1,
        n % p != 0 ==> n / p == (n - 1) / p,
        0 <= (n - 1) / p,
        (n / p) * p == n - n % p,
        0 <= n / p,
{
    lemma_fundamental_div_mod(n, p);
    lemma_mod_bound(n, p);
    lemma_fundamental_div_mod(n - 1, p);
    lemma_mod_bound(n - 1, p);
    let q = n / p;
    let r = (n - 1) / p;
    assert(p * q == q * p && (q - 1) * p == q * p - p && p * r == r * p) by (nonlinear_arith);
    if n % p == 0 {
        assert((q - 1) * p + (p - 1) == n - 1);
        lemma_fundamental_div_mod_converse(n - 1, p, q - 1, p - 1);
        assert(0 <= q - 1) by (nonlinear_arith)
            requires
                q * p == n,
                0 < n,
                0 < p,
        ;
    } else {
        lemma_fundamental_div_mod_converse(n - 1, p, q, n % p - 1);
        assert(0 <= q) by (nonlinear_arith)
            requires
                q * p + n % p == n,
                n % p < p,
                0 < n,
                0 < p,
        ;
    }
}

proof fn lemma_stream_upto(
    frames: Seq<Seq<u8>>,
    p: u64,
    fd: Seq<u64>,
    td: Seq<u64>,
    es: int,
    fill: Option<Seq<u8>>,
    n: nat,
)
    requires
        p > 0,
        n <= frames.len(),
    ensures
        stream_writes(frames, p, fd, td, es, fill, n) == all_writes(
            frames,
            p,
            fd,
            td,
            es,
            fill,
            ((n as int / p as int) * volume(grid(fd, td))) as nat,
        ),
    decreases n,
{
    let cells = volume(grid(fd, td)) as int;
    let pi = p as int;
    if n == 0 {
        assert(0int / pi == 0) by (nonlinear_arith)
            requires
                pi > 0,
        ;
        assert(0 * cells == 0);
        assert(stream_writes(frames, p, fd, td, es, fill, n) =~= all_writes(frames, p, fd, td, es, fill, 0));
    } else {
        let ni = n as int;
        lemma_stream_upto(frames, p, fd, td, es, fill, (n - 1) as nat);
        lemma_count(ni, pi);
        if ni % pi == 0 {
            let band = ni / pi - 1;
            let part = frames.subrange(ni - pi, ni);
            assert(part =~= band_frames(frames, pi, band));
            lemma_band(frames, p, fd, td, es, fill, band, part);
        } else {
            assert(stream_writes(frames, p, fd, td, es, fill, n) =~= stream_writes(
                frames,
                p,
                fd,
                td,
                es,
                fill,
                (n - 1) as nat,
            ));
        }
    }
}

/// What a stream of frames writes, while the frames come and at its end, is the
/// chunks of the dataset of these frames, each once and under its number.
pub proof fn lemma_stream(
    frames: Seq<Seq<u8>>,
    p: u64,
    fd: Seq<u64>,
    td: Seq<u64>,
    es: int,
    fill: Option<Seq<u8>>,
)
    requires
        p > 0,
    ensures
        ({
            let all = frame_chunks(frames, p, fd, td, es, fill);
            let written = stream_writes(frames, p, fd, td, es, fill, frames.len()) + closing_writes(
                frames,
                p,
                fd,
                td,
                es,
                fill,
            );
            &&& written.len() == all.len()
            &&& forall|i: int|
                0 <= i < all.len() ==> #[trigger] written[i].idx == i && all[i] == Some(
                    written[i].data,
                )
        }),
{
    let n = frames.len() as int;
    let pi = p as int;
    let cells = volume(grid(fd, td)) as int;
    let all = frame_chunks(frames, p, fd, td, es, fill);
    let bands = (n + pi - 1) / pi;
    lemma_stream_upto(frames, p, fd, td, es, fill, n as nat);
    lemma_fundamental_div_mod(n, pi);
    lemma_mod_bound(n, pi);
    let q = n / pi;
    assert(pi * q == q * pi) by (nonlinear_arith);
    assert(0 <= q) by (nonlinear_arith)
        requires
            q * pi + n % pi == n,
            n % pi < pi,
            0 <= n,
            0 < pi,
    ;
    let written = stream_writes(frames, p, fd, td, es, fill, frames.len()) + closing_writes(
        frames,
        p,
        fd,
        td,
        es,
        fill,
    );
    if n % pi == 0 {
        lemma_fundamental_div_mod_converse(n + pi - 1, pi, q, pi - 1);
        assert(bands == q);
        assert(written =~= all_writes(frames, p, fd, td, es, fill, (q * cells) as nat));
    } else {
        assert((q + 1) * pi == q * pi + pi) by (nonlinear_arith);
        lemma_fundamental_div_mod_converse(n + pi - 1, pi, q + 1, n % pi - 1);
        let part = frames.subrange(n - n % pi, n);
        assert(part =~= band_frames(frames, pi, q));
        lemma_band(frames, p, fd, td, es, fill, q, part);
        assert(bands == q + 1);
        assert(written =~= all_writes(frames, p, fd, td, es, fill, ((q + 1) * cells) as nat));
    }
    assert(0 <= bands * cells) by (nonlinear_arith)
        requires
            0 <= bands,
            0 <= cells,
    ;
}

/// A frame that is its own tile.
pub proof fn lemma_whole_frame(
    frame: Seq<u8>,
    fd: Seq<u64>,
    es: nat,
    fill: Option<Seq<u8>>,
    band: int,
)
    requires
        es > 0,
        chunked(fd),
        shaped(frame.len(), fd, es),
    ensures
        band_writes(seq![frame], 1, fd, fd, es as int, fill, band) == seq![
            NumberedChunk { idx: band, data: frame },
        ],
{
    let g = grid(fd, fd);
    lemma_ones(fd);
    let esi = es as int;
    let got = band_writes(seq![frame], 1, fd, fd, esi, fill, band);
    let tb = volume(fd) * es;
    lemma_positive(fd);
    assert(tb > 0) by (nonlinear_arith)
        requires
            tb == volume(fd) * es,
            volume(fd) > 0,
            es > 0,
    ;
    let tg = place(0, g);
    lemma_place_len(0, g);
    lemma_place_inside(0, g);
    let pad = tiled((1 * tb) as nat, fill).subrange(0, tb as int);
    let t = chunk_cut(frame, fd, fd, tg, esi, pad);
    assert(t =~= frame) by {
        assert forall|j: int| 0 <= j < t.len() implies t[j] == frame[j] by {
            lemma_byte_of(j, volume(fd) as int, esi);
            let c = place(j / esi, fd);
            lemma_place_len(j / esi, fd);
            lemma_place_inside(j / esi, fd);
            lemma_linear_of_place(j / esi, fd);
            let at = shifted(chunk_base(tg, fd), c);
            assert(at =~= c) by {
                assert forall|d: int| 0 <= d < c.len() implies at[d] == c[d] by {
                    assert(0 <= tg[d] < g[d]);
                    assert(tg[d] * fd[d] == 0) by (nonlinear_arith)
                        requires
                            tg[d] == 0,
                    ;
                }
            }
            assert(linear(at, fd) * esi + j % esi == j) by (nonlinear_arith)
                requires
                    linear(at, fd) == j / esi,
                    j == esi * (j / esi) + j % esi,
            ;
        }
    }
    let b = band_chunk(seq![frame], 1, fd, fd, esi, fill, 0);
    assert(b =~= frame) by {
        assert forall|k: int| 0 <= k < b.len() implies b[k] == frame[k] by {
            lemma_fundamental_div_mod_converse(k, tb as int, 0, k);
        }
    }
    assert(got =~= seq![NumberedChunk { idx: band, data: frame }]);
}

proof fn lemma_ones(fd: Seq<u64>)
    requires
        chunked(fd),
    ensures
        volume(grid(fd, fd)) == 1,
        forall|d: int| 0 <= d < fd.len() ==> #[trigger] grid(fd, fd)[d] == 1,
    decreases fd.len(),
{
    let g = grid(fd, fd);
    assert forall|d: int| 0 <= d < fd.len() implies #[trigger] g[d] == 1 by {
        let m = fd[d] as int;
        assert(m > 0);
        lemma_fundamental_div_mod_converse(m + m - 1, m, 1, m - 1);
    }
    if fd.len() > 0 {
        let f = fd.drop_last();
        assert(chunked(f)) by {
            assert forall|d: int| 0 <= d < f.len() implies #[trigger] f[d] > 0 by {
                assert(f[d] == fd[d]);
            }
        }
        lemma_ones(f);
        assert(g.drop_last() =~= grid(f, f));
        assert(g.last() == g[fd.len() - 1]);
    }
}

/// An array without an empty dimension has elements.
pub proof fn lemma_positive(dims: Seq<u64>)
    requires
        chunked(dims),
    ensures
        volume(dims) > 0,
    decreases dims.len(),
{
    if dims.len() > 0 {
        let f = dims.drop_last();
        assert(chunked(f)) by {
            assert forall|d: int| 0 <= d < f.len() implies #[trigger] f[d] > 0 by {
                assert(f[d] == dims[d]);
            }
        }
        lemma_positive(f);
        let a = volume(f) as int;
        let b = dims.last() as int;
        assert(b == dims[dims.len() - 1]);
        assert(a * b > 0) by (nonlinear_arith)
            requires
                a > 0,
                b > 0,
        ;
    }
}

/// Put together tile `cell` of a band of frames.
fn band_tile(
    frames: &Vec<Vec<u8>>,
    p: usize,
    frame_dims: &[u64],
    tile_dims: &[u64],
    elem_size: usize,
    fill: Option<&[u8]>,
    cc: &[u64],
    cell: u64,
) -> (chunk: Vec<u8>)
    requires
        frame_dims@.len() > 0,
        tile_dims@.len() == frame_dims@.len(),
        elem_size > 0,
        chunked(tile_dims@),
        p * (volume(tile_dims@) * elem_size) <= usize::MAX,
        0 < frames@.len() <= p,
        forall|f: int|
            0 <= f < frames@.len() ==> shaped(
                (#[trigger] frames@[f])@.len(),
                frame_dims@,
                elem_size as nat,
            ),
        ints(cc@) == place(cell as int, grid(frame_dims@, tile_dims@)),
        cc@.len() == frame_dims@.len(),
    ensures
        chunk@ == band_chunk(
            byte_views(frames@),
            p as nat,
            frame_dims@,
            tile_dims@,
            elem_size as int,
            opt_bytes(fill),
            cell as int,
        ),
{
    let ghost fs = byte_views(frames@);
    let ghost want = band_chunk(
        fs,
        p as nat,
        frame_dims@,
        tile_dims@,
        elem_size as int,
        opt_bytes(fill),
        cell as int,
    );
    let ghost tb = volume(tile_dims@) * elem_size;
    proof {
        lemma_positive(tile_dims@);
        let v = volume(tile_dims@) as int;
        let e = elem_size as int;
        assert(v * e > 0) by (nonlinear_arith)
            requires
                v > 0,
                e > 0,
        ;
        assert(tb <= p * tb) by (nonlinear_arith)
            requires
                p >= 1,
                tb >= 0,
        ;
    }
    let n: usize = frames.len();
    let rows: usize = tile_bytes(tile_dims, elem_size);
    let pad = tiled_fill(p * rows, fill);
    let mut chunk: Vec<u8> = Vec::new();
    let mut s: usize = 0;
    while s < n
        invariant
            s <= n <= p,
            n == frames@.len(),
            frame_dims@.len() > 0,
            tile_dims@.len() == frame_dims@.len(),
            elem_size > 0,
            chunked(tile_dims@),
            tb == volume(tile_dims@) * elem_size,
            0 < tb <= usize::MAX,
            p * tb <= usize::MAX,
            rows == tb,
            pad@ == tiled((p * tb) as nat, opt_bytes(fill)),
            fs == byte_views(frames@),
            want == band_chunk(
                fs,
                p as nat,
                frame_dims@,
                tile_dims@,
                elem_size as int,
                opt_bytes(fill),
                cell as int,
            ),
            want.len() == p * tb,
            ints(cc@) == place(cell as int, grid(frame_dims@, tile_dims@)),
            cc@.len() == frame_dims@.len(),
            forall|f: int|
                0 <= f < frames@.len() ==> shaped(
                    (#[trigger] frames@[f])@.len(),
                    frame_dims@,
                    elem_size as nat,
                ),
            chunk@.len() == s * tb,
            forall|k: int| 0 <= k < chunk@.len() ==> #[trigger] chunk@[k] == want[k],
        decreases n - s,
    {
        proof {
            let si = s as int;
            assert((si + 1) * tb == si * tb + tb) by (nonlinear_arith);
            assert((si + 1) * tb <= p * tb && 0 <= si * tb) by (nonlinear_arith)
                requires
                    0 <= si,
                    si + 1 <= p,
                    tb >= 0,
            ;
        }
        let one = cut_chunk(
            frames[s].as_slice(),
            frame_dims,
            tile_dims,
            cc,
            elem_size,
            slice_subrange(pad.as_slice(), s * rows, s * rows + rows),
        );
        let ghost before = chunk@;
        push_slice(&mut chunk, one.as_slice());
        proof {
            let si = s as int;
            assert forall|k: int| 0 <= k < chunk@.len() implies #[trigger] chunk@[k] == want[k] by {
                if k >= before.len() {
                    let r = k - si * tb;
                    assert(k == si * tb + r);
                    lemma_fundamental_div_mod_converse(k, tb as int, si, r);
                    assert(fs[si] == frames@[si]@);
                    assert(chunk@[k] == one@[r]);
                } else {
                    assert(chunk@[k] == before[k]);
                }
            }
        }
        s = s + 1;
    }
    let have: usize = chunk.len();
    proof {
        assert(n * tb <= p * tb) by (nonlinear_arith)
            requires
                n <= p,
                tb >= 0,
        ;
    }
    let ghost before = chunk@;
    push_slice(&mut chunk, slice_subrange(pad.as_slice(), have, p * rows));
    proof {
        assert(chunk@.len() == want.len());
        assert forall|k: int| 0 <= k < chunk@.len() implies chunk@[k] == want[k] by {
            if k >= before.len() {
                lemma_fundamental_div_mod(k, tb as int);
                lemma_mod_bound(k, tb as int);
                let q = k / tb as int;
                let t = tb as int;
                let ni = n as int;
                assert(q >= ni) by (nonlinear_arith)
                    requires
                        k == t * q + k % t,
                        k % t < t,
                        k >= ni * t,
                        t > 0,
                ;
                assert(chunk@[k] == pad@[k]);
            } else {
                assert(chunk@[k] == before[k]);
            }
        }
        assert(chunk@ =~= want);
    }
    chunk
}

/// Put together the chunks of a band of frames, tile by tile.
pub fn assemble_band(
    frames: &Vec<Vec<u8>>,
    p: usize,
    frame_dims: &[u64],
    tile_dims: &[u64],
    elem_size: usize,
    fill: Option<&[u8]>,
    band: u64,
) -> (out: Vec<ChunkWrite>)
    requires
        frame_dims@.len() > 0,
        tile_dims@.len() == frame_dims@.len(),
        elem_size > 0,
        chunked(tile_dims@),
        p * (volume(tile_dims@) * elem_size) <= usize::MAX,
        0 < frames@.len() <= p,
        forall|f: int|
            0 <= f < frames@.len() ==> shaped(
                (#[trigger] frames@[f])@.len(),
                frame_dims@,
                elem_size as nat,
            ),
        (band + 1) * volume(grid(frame_dims@, tile_dims@)) <= u64::MAX,
    ensures
        numbered(out@) == band_writes(
            byte_views(frames@),
            p as nat,
            frame_dims@,
            tile_dims@,
            elem_size as int,
            opt_bytes(fill),
            band as int,
        ),
{
    let ghost want = band_writes(
        byte_views(frames@),
        p as nat,
        frame_dims@,
        tile_dims@,
        elem_size as int,
        opt_bytes(fill),
        band as int,
    );
    let g = chunk_grid(frame_dims, tile_dims);
    let ghost cells = volume(g@) as int;
    proof {
        let b = band as int;
        assert((b + 1) * cells == b * cells + cells && 0 <= b * cells) by (nonlinear_arith)
            requires
                0 <= b,
                0 <= cells,
        ;
    }
    let n: u64 = match element_count(g.as_slice()) {
        Some(v) => v,
        None => 0,
    };
    let base: u64 = band * n;
    let mut out: Vec<ChunkWrite> = Vec::new();
    let mut t: u64 = 0;
    assert(numbered(out@) =~= want.take(0));
    while t < n
        invariant
            t <= n,
            g@ == grid(frame_dims@, tile_dims@),
            n == volume(g@),
            base == band * n,
            base + n <= u64::MAX,
            frame_dims@.len() > 0,
            tile_dims@.len() == frame_dims@.len(),
            elem_size > 0,
            chunked(tile_dims@),
            p * (volume(tile_dims@) * elem_size) <= usize::MAX,
            0 < frames@.len() <= p,
            forall|f: int|
                0 <= f < frames@.len() ==> shaped(
                    (#[trigger] frames@[f])@.len(),
                    frame_dims@,
                    elem_size as nat,
                ),
            want == band_writes(
                byte_views(frames@),
                p as nat,
                frame_dims@,
                tile_dims@,
                elem_size as int,
                opt_bytes(fill),
                band as int,
            ),
            numbered(out@) == want.take(t as int),
        decreases n - t,
    {
        let cc = place_of(t, g.as_slice());
        let data = band_tile(frames, p, frame_dims, tile_dims, elem_size, fill, cc.as_slice(), t);
        let ghost before = out@;
        let one = ChunkWrite { chunk_idx: base + t, data };
        out.push(one);
        t = t + 1;
        proof {
            assert(want.len() == n);
            assert(out@ == before.push(one));
            assert(numbered(before).len() == want.take(t - 1).len());
            assert forall|i: int| 0 <= i < t implies numbered(out@)[i] == want.take(t as int)[i] by {
                if i < t - 1 {
                    assert(numbered(before)[i] == want.take(t - 1)[i]);
                }
            }
            assert(numbered(out@) =~= want.take(t as int));
        }
    }
    assert(want.take(n as int) =~= want);
    out
}

} // verus!
