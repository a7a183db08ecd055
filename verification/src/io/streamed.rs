//! A stream holds the frames that were appended to it, in their order.

use crate::format::bytes::joined;
use crate::format::messages::datatype::DatatypeMessage;
use crate::format::messages::filter::FilterPipeline;
use crate::io::array::volume;
use crate::format::UNDEF_ADDR;
use crate::io::chunks::{assembled, chunked, grid, shaped};
use crate::io::ea::{all_sized, ChunkEntry};
use crate::io::reader::chunked::{array_range, chunks_read, fetched, ReadRange};
use crate::io::frames::{cons, frame_chunks, lemma_frames_roundtrip};
use crate::io::search::{lemma_no_position, lemma_position, lemma_position_is};
use crate::io::stream::{
    closing_writes, lemma_positive, lemma_stream, lemma_whole_frame, stream_writes,
    NumberedChunk,
};
use crate::io::swmr::{
    band_added, band_of, lemma_one_on, one_more, stream_added, SwmrWriter,
};
use crate::io::tiles::byte_views;
use crate::io::writer::attributes::fill_of;
use crate::io::writer::catalog::live_dataset;
use crate::io::writer::content::dims_set;
use crate::io::writer::datasets::byte_len;
use crate::io::writer::storage::chunk_shape;
use vstd::arithmetic::div_mod::{
    lemma_fundamental_div_mod_converse, lemma_mod_bound, lemma_mod_decreases,
};
use vstd::prelude::*;

verus! {

/// What a stream is like: frames per chunk, shape of a frame, shape of a tile, bytes of an
/// element, fill value.
#[verifier::ext_equal]
pub struct StreamShape {
    pub p: u64,
    pub fd: Seq<u64>,
    pub td: Seq<u64>,
    pub es: nat,
    pub fill: Option<Seq<u8>>,
}

impl StreamShape {
    /// Chunks and elements are not empty.
    pub open spec fn wf(self) -> bool {
        &&& self.p > 0
        &&& self.es > 0
        &&& self.td.len() == self.fd.len()
        &&& chunked(self.td)
        &&& chunked(self.fd)
    }

    /// What the first `n` frames write.
    pub open spec fn writes(self, frames: Seq<Seq<u8>>, n: nat) -> Seq<NumberedChunk> {
        stream_writes(frames, self.p, self.fd, self.td, self.es as int, self.fill, n)
    }
}

/// Whether dataset `i` is a stream that holds `frames`; those of the last, unfinished band
/// wait in its buffer.
pub open spec fn streaming(
    w: SwmrWriter,
    i: int,
    s: StreamShape,
    frames: Seq<Seq<u8>>,
) -> bool {
    let d = w.writer.datasets@[i];
    let n = frames.len() as int;
    &&& 0 <= i < w.writer.datasets@.len()
    &&& n <= u64::MAX
    &&& d.dataspace.dims@ == cons(n as u64, s.fd)
    &&& d.chunked matches Some(c) && c.chunk_dims@ == cons(s.p, s.td)
    &&& d.datatype.spec_element_size() == s.es
    &&& fill_of(d) == s.fill
    &&& if s.p > 1 {
        w.band(i) matches Some(k) && {
            let b = w.bands@[k];
            &&& b.frames_per_chunk == s.p
            &&& b.frame_dims@ == s.fd
            &&& b.tile_dims@ == s.td
            &&& b.elem_size == s.es
            &&& byte_views(b.frames@) == frames.skip(n - n % s.p as int)
        }
    } else {
        w.band(i) is None
    }
}

/// What appending a frame without an error comes to.
pub open spec fn frame_added(
    a: SwmrWriter,
    b: SwmrWriter,
    i: int,
    data: Seq<u8>,
    out: Seq<NumberedChunk>,
) -> bool {
    &&& a.frame_error(i, data.len()) is None
    &&& out == a.frame_writes(i, data)
    &&& dims_set(a.writer, b.writer, i, one_more(a.writer.datasets@[i]))
    &&& a.bands_after(i, data, b.bands@)
}

/// Whether a stream is left alone: only its index has changed, as it does when its chunks
/// are written.
pub open spec fn undisturbed(a: SwmrWriter, b: SwmrWriter, i: int) -> bool {
    let d = a.writer.datasets@[i];
    let x = b.writer.datasets@[i];
    &&& b.bands == a.bands
    &&& 0 <= i < b.writer.datasets@.len()
    &&& x.dataspace == d.dataspace
    &&& x.datatype == d.datatype
    &&& x.fill_value == d.fill_value
    &&& (x.chunked is Some) == (d.chunked is Some)
    &&& d.chunked is Some ==> x.chunked->0.chunk_dims == d.chunked->0.chunk_dims
}

/// One more frame: the stream holds it behind the others, and what is written is the next
/// part of what all frames write.
pub proof fn lemma_frame_streamed(
    a: SwmrWriter,
    b: SwmrWriter,
    i: int,
    s: StreamShape,
    frames: Seq<Seq<u8>>,
    n: nat,
    out: Seq<NumberedChunk>,
)
    requires
        s.wf(),
        n < frames.len() <= u64::MAX,
        streaming(a, i, s, frames.take(n as int)),
        frame_added(a, b, i, frames[n as int], out),
    ensures
        streaming(b, i, s, frames.take(n as int + 1)),
        frames[n as int].len() == volume(s.fd) * s.es,
        s.writes(frames, n + 1) == s.writes(frames, n) + out,
{
    let data = frames[n as int];
    let before = frames.take(n as int);
    let after = frames.take(n as int + 1);
    let d = a.writer.datasets@[i];
    let ni = n as int;
    let p = s.p as int;
    assert(after =~= before.push(data));
    assert(d.dataspace.dims@.skip(1) =~= s.fd);
    assert(one_more(d) =~= cons((n + 1) as u64, s.fd));
    assert(chunk_shape(d) == Some(cons(s.p, s.td)));
    assert(cons(s.p, s.td).skip(1) =~= s.td);
    lemma_position_is(a.bands@.len(), band_of(a.bands@, i));
    lemma_one_on(ni, p);
    lemma_mod_decreases(n, s.p as nat);
    lemma_band_kept(a, b, i, data);
    if s.p > 1 {
        let k = a.band(i)->0;
        let x = a.bands@[k];
        let held = byte_views(x.frames@);
        assert(held == before.skip(ni - ni % p));
        assert(held.len() == ni % p);
        if ni % p + 1 == p {
            assert(held.push(data) =~= frames.subrange(ni + 1 - p, ni + 1));
            assert(after.skip(ni + 1) =~= Seq::<Seq<u8>>::empty());
        } else {
            assert(held.push(data) =~= after.skip(ni - ni % p));
            assert(s.writes(frames, n + 1) =~= s.writes(frames, n) + out);
        }
    } else {
        assert(p == 1);
        lemma_fundamental_div_mod_converse(ni + 1, 1, ni + 1, 0);
        assert(frames.subrange(ni, ni + 1) =~= seq![data]);
        if s.td == s.fd {
            lemma_whole_frame(data, s.fd, s.es, s.fill, ni);
        }
    }
}

/// Appending to a stream keeps its buffer in its place.
proof fn lemma_band_kept(a: SwmrWriter, b: SwmrWriter, i: int, data: Seq<u8>)
    requires
        a.bands_after(i, data, b.bands@),
    ensures
        b.band(i) == a.band(i),
{
    let f = band_of(a.bands@, i);
    let g = band_of(b.bands@, i);
    lemma_position_is(a.bands@.len(), f);
    match a.band(i) {
        Some(k) => {
            assert(f(k));
            assert(g(k));
            assert forall|j: int| 0 <= j < k implies !#[trigger] g(j) by {
                assert(!f(j));
                assert(b.bands@[j] == a.bands@[j]);
            }
            lemma_position(b.bands@.len(), g, k);
        },
        None => {
            assert forall|j: int| 0 <= j < b.bands@.len() implies !#[trigger] g(j) by {
                assert(!f(j));
                assert(b.bands@[j] == a.bands@[j]);
            }
            lemma_no_position(b.bands@.len(), g);
        },
    }
}

/// What the first `n` of many writes come to.
pub open spec fn all_out(outs: Seq<Seq<NumberedChunk>>, n: nat) -> Seq<NumberedChunk>
    decreases n,
{
    if n == 0 {
        Seq::empty()
    } else {
        all_out(outs, (n - 1) as nat) + outs[n - 1]
    }
}

/// Whether frames were appended one after the other: `before[k]` and `after[k]` are the
/// writer before and after frame `k`, and in between only chunks were written.
pub open spec fn frames_added(
    before: Seq<SwmrWriter>,
    after: Seq<SwmrWriter>,
    i: int,
    frames: Seq<Seq<u8>>,
    outs: Seq<Seq<NumberedChunk>>,
) -> bool {
    &&& before.len() == frames.len()
    &&& after.len() == frames.len()
    &&& outs.len() == frames.len()
    &&& forall|k: int|
        0 <= k < frames.len() ==> #[trigger] frame_added(
            before[k],
            after[k],
            i,
            frames[k],
            outs[k],
        )
    &&& forall|k: int|
        0 < k < frames.len() ==> #[trigger] undisturbed(after[k - 1], before[k], i)
}

/// After `n` frames the first dimension of the stream is `n`, and what was written is the
/// chunks of these frames.
pub proof fn lemma_frames_streamed(
    before: Seq<SwmrWriter>,
    after: Seq<SwmrWriter>,
    i: int,
    s: StreamShape,
    frames: Seq<Seq<u8>>,
    outs: Seq<Seq<NumberedChunk>>,
    n: nat,
)
    requires
        s.wf(),
        0 < n <= frames.len() <= u64::MAX,
        frames_added(before, after, i, frames, outs),
        streaming(before[0], i, s, Seq::empty()),
    ensures
        streaming(after[n - 1], i, s, frames.take(n as int)),
        after[n - 1].writer.datasets@[i].dataspace.dims@ == cons(n as u64, s.fd),
        all_out(outs, n) == s.writes(frames, n),
        forall|k: int| 0 <= k < n ==> (#[trigger] frames[k]).len() == volume(s.fd) * s.es,
    decreases n,
{
    if n == 1 {
        assert(frames.take(0) =~= Seq::empty());
        assert(s.writes(frames, 0) =~= Seq::empty());
        assert(frame_added(before[0], after[0], i, frames[0], outs[0]));
        lemma_frame_streamed(before[0], after[0], i, s, frames, 0, outs[0]);
        reveal_with_fuel(all_out, 2);
        assert(all_out(outs, 1) =~= s.writes(frames, 1));
    } else {
        let m = (n - 1) as nat;
        lemma_frames_streamed(before, after, i, s, frames, outs, m);
        assert(undisturbed(after[m - 1], before[m as int], i));
        assert(streaming(before[m as int], i, s, frames.take(m as int)));
        assert(frame_added(before[m as int], after[m as int], i, frames[m as int], outs[m as int]));
        lemma_frame_streamed(
            before[m as int],
            after[m as int],
            i,
            s,
            frames,
            m,
            outs[m as int],
        );
    }
}

/// The last band of a stream, when the file is closed.
pub proof fn lemma_last_band(w: SwmrWriter, i: int, s: StreamShape, frames: Seq<Seq<u8>>)
    requires
        s.wf(),
        streaming(w, i, s, frames),
    ensures
        frames.len() as int % s.p as int != 0 ==> {
            &&& w.band(i) is Some
            &&& w.bands@[w.band(i)->0].writes(
                byte_views(w.bands@[w.band(i)->0].frames@),
                fill_of(w.writer.datasets@[i]),
                w.writer.datasets@[i].dataspace.dims@[0] as int / s.p as int,
            ) == closing_writes(frames, s.p, s.fd, s.td, s.es as int, s.fill)
        },
{
    let n = frames.len() as int;
    let p = s.p as int;
    lemma_mod_bound(n, p);
    if p == 1 {
        lemma_fundamental_div_mod_converse(n, 1, n, 0);
    }
    assert(frames.skip(n - n % p) =~= frames.subrange(n - n % p, n));
}

/// The chunks that a stream of `n` frames has written once its last band has been written:
/// `outs` are those that were written while the frames came.
pub open spec fn stream_chunks(
    w: SwmrWriter,
    i: int,
    s: StreamShape,
    outs: Seq<Seq<NumberedChunk>>,
    n: nat,
) -> Seq<NumberedChunk> {
    all_out(outs, n) + if n as int % s.p as int == 0 {
        Seq::empty()
    } else {
        w.bands@[w.band(i)->0].writes(
            byte_views(w.bands@[w.band(i)->0].frames@),
            fill_of(w.writer.datasets@[i]),
            w.writer.datasets@[i].dataspace.dims@[0] as int / s.p as int,
        )
    }
}

/// A stream reads back as the frames that were appended, one behind the other, once its
/// last band has been written: the chunks that were written while the frames came and at
/// the end are those of a dataset that is assembled to the joined frames.
pub proof fn lemma_stream_reads_back(
    before: Seq<SwmrWriter>,
    after: Seq<SwmrWriter>,
    i: int,
    s: StreamShape,
    frames: Seq<Seq<u8>>,
    outs: Seq<Seq<NumberedChunk>>,
    out: Seq<u8>,
)
    requires
        s.wf(),
        0 < frames.len() <= u64::MAX,
        frames_added(before, after, i, frames, outs),
        streaming(before[0], i, s, Seq::empty()),
        shaped(out.len(), cons(frames.len() as u64, s.fd), s.es),
    ensures
        ({
            let written = stream_chunks(after[frames.len() - 1], i, s, outs, frames.len());
            let chunks = Seq::new(written.len(), |k: int| Some(written[k].data));
            &&& forall|k: int| 0 <= k < written.len() ==> (#[trigger] written[k]).idx == k
            &&& written.len() == volume(
                grid(cons(frames.len() as u64, s.fd), cons(s.p, s.td)),
            )
            &&& assembled(
                out,
                cons(frames.len() as u64, s.fd),
                cons(s.p, s.td),
                s.es as int,
                chunks,
                chunks.len(),
            ) == joined(frames)
        }),
{
    let n = frames.len();
    lemma_frames_streamed(before, after, i, s, frames, outs, n);
    let w = after[n - 1];
    assert(frames.take(n as int) =~= frames);
    lemma_last_band(w, i, s, frames);
    lemma_stream(frames, s.p, s.fd, s.td, s.es as int, s.fill);
    lemma_positive(s.fd);
    lemma_frames_roundtrip(out, frames, s.p, s.fd, s.td, s.es, s.fill);
    let all = frame_chunks(frames, s.p, s.fd, s.td, s.es as int, s.fill);
    let written = s.writes(frames, n) + closing_writes(
        frames,
        s.p,
        s.fd,
        s.td,
        s.es as int,
        s.fill,
    );
    let chunks = Seq::new(written.len(), |k: int| Some(written[k].data));
    assert forall|k: int| 0 <= k < all.len() implies all[k] == chunks[k] by {
        assert(written[k].idx == k);
    }
    assert(chunks =~= all);
}

/// A stream without filters is read from the file as the frames that were appended: where
/// the chunks that were written stand at the addresses that the index holds, what is
/// fetched and assembled is the joined frames. The index holds no sizes; every chunk has
/// the bytes of its shape.
pub proof fn lemma_stream_read_from_index(
    before: Seq<SwmrWriter>,
    after: Seq<SwmrWriter>,
    i: int,
    s: StreamShape,
    frames: Seq<Seq<u8>>,
    outs: Seq<Seq<NumberedChunk>>,
    out: Seq<u8>,
    file: Seq<u8>,
    stored: Seq<ChunkEntry>,
    ranges: Seq<Option<ReadRange>>,
    file_size: u64,
)
    requires
        s.wf(),
        0 < frames.len() <= u64::MAX,
        frames_added(before, after, i, frames, outs),
        streaming(before[0], i, s, Seq::empty()),
        shaped(out.len(), cons(frames.len() as u64, s.fd), s.es),
        byte_len(cons(s.p, s.td), s.es) <= u64::MAX,
        ({
            let written = stream_chunks(after[frames.len() - 1], i, s, outs, frames.len());
            &&& stored.len() >= written.len()
            &&& forall|k: int|
                0 <= k < written.len() ==> {
                    let at = (#[trigger] stored[k]).addr;
                    &&& at != UNDEF_ADDR
                    &&& file.subrange(at as int, at + byte_len(cons(s.p, s.td), s.es))
                        == written[k].data
                }
        }),
        ({
            let entries = all_sized(
                stored,
                false,
                byte_len(cons(s.p, s.td), s.es) as u64,
            );
            &&& ranges.len() == chunks_read(
                cons(frames.len() as u64, s.fd),
                cons(s.p, s.td),
                entries.len(),
            )
            &&& forall|k: int|
                0 <= k < ranges.len() ==> #[trigger] ranges[k] == array_range(
                    entries[k],
                    false,
                    file_size,
                )
        }),
    ensures
        assembled(
            out,
            cons(frames.len() as u64, s.fd),
            cons(s.p, s.td),
            s.es as int,
            fetched(file, ranges),
            ranges.len(),
        ) == joined(frames),
{
    lemma_stream_reads_back(before, after, i, s, frames, outs, out);
    let written = stream_chunks(after[frames.len() - 1], i, s, outs, frames.len());
    let chunks = Seq::new(written.len(), |k: int| Some(written[k].data));
    let got = fetched(file, ranges);
    assert(ranges.len() == written.len());
    assert forall|k: int| 0 <= k < got.len() implies got[k] == chunks[k] by {
        assert(stored[k].addr != UNDEF_ADDR);
        assert(ranges[k] == array_range(
            all_sized(stored, false, byte_len(cons(s.p, s.td), s.es) as u64)[k],
            false,
            file_size,
        ));
    }
    assert(got =~= chunks);
}

/// A stream that has been created is found under its name, has no frames, room for any
/// number of them and the chunks that were asked for; a second one of the same name is
/// refused.
pub proof fn lemma_stream_begins(
    a: SwmrWriter,
    b: SwmrWriter,
    i: usize,
    name: Seq<char>,
    datatype: DatatypeMessage,
    fd: Seq<u64>,
    cd: Seq<u64>,
    pipeline: Option<FilterPipeline>,
)
    requires
        a.wf(),
        a.writer.name_error(name) is None,
        stream_added(a.writer, b.writer, i as int, name, datatype, fd, cd, pipeline),
        cd.len() == fd.len() + 1,
        cd[0] > 0,
        band_added(a, b, Ok(i), fd, cd),
    ensures
        b.writer.spec_dataset_index(name) == Some(i as int),
        b.writer.name_error(name) is Some,
        b.writer.datasets@[i as int].dataspace.dims@ == cons(0u64, fd),
        b.writer.datasets@[i as int].dataspace.max_dims matches Some(m) && m@ == cons(u64::MAX, fd),
        b.writer.datasets@[i as int].chunked matches Some(c) && c.chunk_dims@ == cd,
        streaming(
            b,
            i as int,
            StreamShape {
                p: cd[0],
                fd,
                td: cd.skip(1),
                es: datatype.spec_element_size() as nat,
                fill: None,
            },
            Seq::empty(),
        ),
{
    let ds = a.writer.datasets@;
    let now = b.writer.datasets@;
    let f = live_dataset(ds, name);
    let g = live_dataset(now, name);
    lemma_position_is(ds.len(), f);
    assert(g(i as int));
    assert forall|j: int| 0 <= j < i implies !#[trigger] g(j) by {
        assert(!f(j));
        assert(now.take(ds.len() as int)[j] == ds[j]);
    }
    lemma_position(now.len(), g, i as int);
    assert(cons(cd[0], cd.skip(1)) =~= cd);
    let h = band_of(b.bands@, i as int);
    let m = a.bands@.len() as int;
    assert forall|j: int| 0 <= j < m implies !#[trigger] h(j) by {
        assert(a.bands@[j].ds_index < a.writer.datasets@.len());
        assert(b.bands@[j] == a.bands@[j]);
    }
    if cd[0] > 1 {
        assert(h(m));
        lemma_position(b.bands@.len(), h, m);
        let p = cd[0] as int;
        assert(0int % p == 0) by (nonlinear_arith)
            requires
                p > 0,
        ;
        assert(byte_views(b.bands@[m].frames@) =~= Seq::<Seq<u8>>::empty().skip(0));
    } else {
        lemma_no_position(b.bands@.len(), h);
    }
}

/// A frame of another size than the others is refused, however many frames the stream has;
/// it goes on with the frames that it had.
pub proof fn lemma_frame_refused(
    a: SwmrWriter,
    i: int,
    s: StreamShape,
    frames: Seq<Seq<u8>>,
    len: nat,
)
    requires
        s.wf(),
        streaming(a, i, s, frames),
        len != byte_len(s.fd, s.es),
    ensures
        a.frame_error(i, len) is Some,
        a.writer.datasets@[i].dataspace.dims@[0] == frames.len(),
{
    let d = a.writer.datasets@[i];
    assert(d.dataspace.dims@.skip(1) =~= s.fd);
}

} // verus!
