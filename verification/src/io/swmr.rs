//! SWMR (single writer, multiple readers): streams of frames and the order of
//! their writes.

use crate::format::messages::dataspace::{copy_dims, SpaceView};
use crate::format::messages::datatype::DatatypeMessage;
use crate::format::messages::filter::FilterPipeline;
use crate::io::array::volume;
use crate::io::chunks::{chunked, grid, shaped};
use crate::io::frames::cons;
use crate::io::search::{is_at, lemma_no_position, lemma_position, lemma_position_is, position};
use crate::io::stream::{
    assemble_band, band_writes, lemma_positive, numbered, ChunkWrite, NumberedChunk,
};
use crate::io::tiles::byte_views;
use crate::io::writer::attributes::{fill_of, fill_slice};
use crate::io::writer::content::dims_set;
use crate::io::writer::datasets::{
    added, bare_dataset, byte_count, byte_len, ea_element_size, ea_eof, new_chunked, new_file,
    size_width,
};
use crate::io::writer::finish::{
    final_steps, FinalStep, SWMR_FLAGS,
};
use crate::io::writer::state::{DatasetInfo, Hdf5Writer};
use crate::io::writer::storage::chunk_shape;
use crate::io::{invalid_state, IoErrorView, IoResult};
use crate::text::{decimal, Text};
use vstd::arithmetic::div_mod::{
    lemma_fundamental_div_mod, lemma_fundamental_div_mod_converse, lemma_mod_bound,
};
use vstd::prelude::*;
use vstd::slice::{slice_subrange, slice_to_vec};

verus! {

/// Frames of a dataset whose chunks span more than one frame, until they fill a
/// chunk.
pub struct BandBuffer {
    /// The dataset.
    pub ds_index: usize,
    /// Frames per chunk.
    pub frames_per_chunk: u64,
    /// Shape of a frame.
    pub frame_dims: Vec<u64>,
    /// Shape of a tile.
    pub tile_dims: Vec<u64>,
    /// Bytes of an element.
    pub elem_size: usize,
    /// The frames that have come so far.
    pub frames: Vec<Vec<u8>>,
}

/// A writer of streams of frames.
pub struct SwmrWriter {
    /// The file.
    pub writer: Hdf5Writer,
    /// Whether readers can attach.
    pub swmr_active: bool,
    /// Frames that wait for their chunk.
    pub bands: Vec<BandBuffer>,
}

/// A step of a flush.
#[derive(Debug, Clone, Copy, PartialEq, Eq, Structural)]
pub enum FlushStep {
    /// Write the index of a dataset.
    Index(usize),
    /// Rewrite the header of a dataset in its place.
    Header(usize),
    /// Write the superblock with these flags.
    Superblock(u8),
    /// Flush to disk what has been written so far.
    Sync,
}

/// The chunks of the last, unfinished band of a dataset.
#[derive(Debug)]
pub struct LastBand {
    /// The dataset.
    pub ds_index: usize,
    /// Its chunks.
    pub writes: Vec<ChunkWrite>,
}

/// What the last band of a dataset comes to.
#[verifier::ext_equal]
pub struct LastBandView {
    pub ds_index: usize,
    pub writes: Seq<NumberedChunk>,
}

/// What last bands come to.
pub open spec fn last_bands(v: Seq<LastBand>) -> Seq<LastBandView> {
    Seq::new(
        v.len(),
        |i: int| LastBandView { ds_index: v[i].ds_index, writes: numbered(v[i].writes@) },
    )
}

impl BandBuffer {
    /// Whether the buffer belongs to the dataset, and holds the frames that came
    /// after the last full chunk.
    pub open spec fn fits(self, d: DatasetInfo) -> bool {
        let dims = d.dataspace.dims@;
        let fd = self.frame_dims@;
        &&& self.frames_per_chunk > 1
        &&& self.tile_dims@.len() == fd.len()
        &&& chunked(self.tile_dims@)
        &&& self.elem_size == d.datatype.spec_element_size()
        &&& d.chunked is Some
        &&& d.chunked->0.chunk_dims@ == cons(self.frames_per_chunk, self.tile_dims@)
        &&& dims.len() == fd.len() + 1
        &&& dims.skip(1) == fd
        &&& d.dataspace.max_dims matches Some(m) && m@ == cons(u64::MAX, fd)
        &&& self.frames@.len() == dims[0] as int % self.frames_per_chunk as int
        &&& forall|f: int|
            0 <= f < self.frames@.len() ==> shaped(
                (#[trigger] self.frames@[f])@.len(),
                fd,
                self.elem_size as nat,
            )
    }

    /// Whether the chunks of band `band` fit the machine.
    pub open spec fn writable(self, band: int) -> bool {
        &&& self.frame_dims@.len() > 0
        &&& self.elem_size > 0
        &&& self.frames_per_chunk * (volume(self.tile_dims@) * self.elem_size) <= usize::MAX
        &&& (band + 1) * volume(grid(self.frame_dims@, self.tile_dims@)) <= u64::MAX
    }

    /// The chunks of band `band` when it holds `frames`, filled up with a fill value.
    pub open spec fn writes(
        self,
        frames: Seq<Seq<u8>>,
        fill: Option<Seq<u8>>,
        band: int,
    ) -> Seq<NumberedChunk> {
        band_writes(
            frames,
            self.frames_per_chunk as nat,
            self.frame_dims@,
            self.tile_dims@,
            self.elem_size as int,
            fill,
            band,
        )
    }
}

/// Whether a buffer is that of dataset `i`.
pub open spec fn band_of(bands: Seq<BandBuffer>, i: int) -> spec_fn(int) -> bool {
    |k: int| bands[k].ds_index == i
}

/// The error that a frame has the wrong size.
pub open spec fn frame_mismatch(got: nat, expected: nat) -> IoErrorView {
    IoErrorView::InvalidState(
        "append_frame: data is "@ + decimal(got) + " bytes, expected "@ + decimal(expected)
            + " for one frame"@,
    )
}

/// The shape of a dataset with one more frame.
pub open spec fn one_more(d: DatasetInfo) -> Seq<u64> {
    d.dataspace.dims@.update(0, (d.dataspace.dims@[0] + 1) as u64)
}

impl SwmrWriter {
    /// Every buffer belongs to its dataset, and no dataset has two.
    pub open spec fn wf(self) -> bool {
        &&& self.writer.wf()
        &&& forall|k: int|
            0 <= k < self.bands@.len() ==> (#[trigger] self.bands@[k]).ds_index
                < self.writer.datasets@.len() && self.bands@[k].fits(
                self.writer.datasets@[self.bands@[k].ds_index as int],
            )
        &&& forall|k: int, l: int|
            0 <= k < l < self.bands@.len() ==> (#[trigger] self.bands@[k]).ds_index != (
            #[trigger] self.bands@[l]).ds_index
    }

    /// The buffer of a dataset.
    pub open spec fn band(self, i: int) -> Option<int> {
        position(self.bands@.len(), band_of(self.bands@, i))
    }

    /// Why a frame of `len` bytes cannot be appended.
    pub open spec fn frame_error(self, i: int, len: nat) -> Option<IoErrorView> {
        let d = self.writer.datasets@[i];
        let fd = d.dataspace.dims@.skip(1);
        let expected = byte_len(fd, d.datatype.spec_element_size() as nat);
        match self.band(i) {
            Some(k) => if len != expected {
                Some(frame_mismatch(len, expected))
            } else {
                None
            },
            None => match chunk_shape(d) {
                None => Some(
                    IoErrorView::InvalidState("append_frame requires a chunked dataset"@),
                ),
                Some(c) => if c[0] > 1 {
                    Some(
                        IoErrorView::InvalidState(
                            "dataset "@ + decimal(i as nat) + " uses multi-frame chunks (chunk[0] = "@
                                + decimal(c[0] as nat)
                                + "); appending to it after open_append is not supported"@,
                        ),
                    )
                } else if len != expected {
                    Some(frame_mismatch(len, expected))
                } else if d.chunked is None && (c.skip(1) == fd || volume(grid(fd, c.skip(1))) > 0) {
                    Some(IoErrorView::InvalidState("not a chunked dataset"@))
                } else {
                    Hdf5Writer::extend_error(d, one_more(d))
                },
            },
        }
    }

    /// The chunks that a frame fills.
    pub open spec fn frame_writes(self, i: int, data: Seq<u8>) -> Seq<NumberedChunk> {
        let d = self.writer.datasets@[i];
        let n = d.dataspace.dims@[0] as int;
        let fd = d.dataspace.dims@.skip(1);
        match self.band(i) {
            Some(k) => {
                let b = self.bands@[k];
                let frames = byte_views(b.frames@).push(data);
                if frames.len() == b.frames_per_chunk {
                    b.writes(frames, fill_of(d), (n + 1) / b.frames_per_chunk as int - 1)
                } else {
                    Seq::empty()
                }
            },
            None => {
                let td = chunk_shape(d)->0.skip(1);
                if td == fd {
                    seq![NumberedChunk { idx: n, data }]
                } else {
                    band_writes(
                        seq![data],
                        1,
                        fd,
                        td,
                        d.datatype.spec_element_size() as int,
                        fill_of(d),
                        n,
                    )
                }
            },
        }
    }

    /// Whether a frame can be handled: the dataset has frames, and what has to be
    /// written fits the machine.
    pub open spec fn frame_fits(self, i: int) -> bool {
        let d = self.writer.datasets@[i];
        let dims = d.dataspace.dims@;
        let es = d.datatype.spec_element_size() as nat;
        &&& dims.len() > 0
        &&& dims[0] < u64::MAX
        &&& byte_len(dims.skip(1), es) <= usize::MAX
        &&& (d.dataspace.max_dims matches Some(m) ==> m@.len() == dims.len())
        &&& match self.band(i) {
            Some(k) => self.bands@[k].writable(
                (dims[0] + 1) / self.bands@[k].frames_per_chunk as int - 1,
            ) || (dims[0] + 1) % self.bands@[k].frames_per_chunk as int != 0,
            None => match chunk_shape(d) {
                None => true,
                Some(c) => {
                    &&& c.len() == dims.len()
                    &&& c[0] > 0
                    &&& c.skip(1) == dims.skip(1) || {
                        &&& es > 0
                        &&& chunked(c.skip(1))
                        &&& byte_len(c.skip(1), es) <= usize::MAX
                        &&& (dims[0] + 1) * volume(grid(dims.skip(1), c.skip(1))) <= u64::MAX
                    }
                },
            },
        }
    }

    /// The buffers with one more frame in that of dataset `i`; a full buffer is
    /// emptied.
    pub open spec fn bands_after(self, i: int, data: Seq<u8>, now: Seq<BandBuffer>) -> bool {
        &&& now.len() == self.bands@.len()
        &&& forall|l: int|
            0 <= l < now.len() && Some(l) != self.band(i) ==> #[trigger] now[l] == self.bands@[l]
        &&& match self.band(i) {
            Some(k) => {
                let b = self.bands@[k];
                let frames = byte_views(b.frames@).push(data);
                &&& now[k] == (BandBuffer { frames: now[k].frames, ..b })
                &&& byte_views(now[k].frames@) == (if frames.len() == b.frames_per_chunk {
                    Seq::empty()
                } else {
                    frames
                })
            },
            None => true,
        }
    }

    /// A writer for an empty file.
    pub fn create() -> (w: Self)
        ensures
            w.wf(),
            !w.swmr_active,
            w.bands@.len() == 0,
            new_file(w.writer),
    {
        let writer = Hdf5Writer::new();
        let bands: Vec<BandBuffer> = Vec::new();
        SwmrWriter { writer, swmr_active: false, bands }
    }

    /// A writer that goes on with a file. Datasets whose chunks span more than one
    /// frame cannot be continued.
    pub fn open_append(writer: Hdf5Writer) -> (w: Self)
        requires
            writer.wf(),
        ensures
            w.wf(),
            !w.swmr_active,
            w.bands@.len() == 0,
            w.writer == writer,
    {
        let bands: Vec<BandBuffer> = Vec::new();
        SwmrWriter { writer, swmr_active: false, bands }
    }

    /// The index of a dataset by name.
    pub fn dataset_index(&self, name: &str) -> (r: Option<usize>)
        ensures
            is_at(r, self.writer.spec_dataset_index(name@)),
    {
        self.writer.dataset_index(name)
    }

    /// The buffer of a dataset.
    pub fn find_band(&self, i: usize) -> (r: Option<usize>)
        ensures
            is_at(r, self.band(i as int)),
    {
        let ghost f = band_of(self.bands@, i as int);
        let mut k: usize = 0;
        while k < self.bands.len()
            invariant
                k <= self.bands.len(),
                f == band_of(self.bands@, i as int),
                forall|j: int| 0 <= j < k ==> !#[trigger] f(j),
            decreases self.bands.len() - k,
        {
            if self.bands[k].ds_index == i {
                proof {
                    assert(f(k as int));
                    lemma_position(self.bands@.len(), f, k as int);
                }
                return Some(k);
            }
            assert(!f(k as int));
            k = k + 1;
        }
        proof {
            lemma_no_position(self.bands@.len(), f);
        }
        None
    }
}

/// Counting one frame on.
pub proof fn lemma_one_on(n: int, p: int)
    requires
        0 <= n,
        0 < p,
    ensures
        0 <= n % p < p,
        (n % p) + 1 == p ==> (n + 1) % p == 0 && (n + 1 - p) / p == (n + 1) / p - 1 && (n + 1) / p
            >= 1 && n + 1 >= p,
        (n % p) + 1 != p ==> (n + 1) % p == (n % p) + 1,
{
    lemma_fundamental_div_mod(n, p);
    lemma_mod_bound(n, p);
    let q = n / p;
    assert(p * q == q * p && (q + 1) * p == q * p + p) by (nonlinear_arith);
    assert(0 <= q) by (nonlinear_arith)
        requires
            n == q * p + n % p,
            n % p < p,
            0 <= n,
            0 < p,
    ;
    if n % p + 1 == p {
        lemma_fundamental_div_mod_converse(n + 1, p, q + 1, 0);
        lemma_fundamental_div_mod_converse(n + 1 - p, p, q, 0);
        assert(0 <= q * p) by (nonlinear_arith)
            requires
                0 <= q,
                0 < p,
        ;
    } else {
        lemma_fundamental_div_mod_converse(n + 1, p, q, n % p + 1);
    }
}

/// A dataset without a limit on its frames can take one more.
proof fn lemma_unlimited(d: DatasetInfo, n: nat)
    requires
        d.dataspace.dims@.len() > 0,
        d.dataspace.dims@[0] < u64::MAX,
        d.dataspace.max_dims matches Some(m) && m@ == cons(
            u64::MAX,
            d.dataspace.dims@.skip(1),
        ),
        n <= d.dataspace.dims@.len(),
    ensures
        Hdf5Writer::extend_dims_error(d, one_more(d), n) is None,
    decreases n,
{
    if n > 0 {
        lemma_unlimited(d, (n - 1) as nat);
        let k = n - 1;
        if k > 0 {
            assert(cons(u64::MAX, d.dataspace.dims@.skip(1))[k] == d.dataspace.dims@[k]);
        }
    }
}

/// Appending a frame keeps the buffers in order.
proof fn lemma_appended(a: SwmrWriter, b: SwmrWriter, i: int, data: Seq<u8>)
    requires
        a.wf(),
        b.writer.wf(),
        0 <= i < a.writer.datasets@.len(),
        a.writer.datasets@[i].dataspace.dims@.len() > 0,
        a.writer.datasets@[i].dataspace.dims@[0] < u64::MAX,
        dims_set(a.writer, b.writer, i, one_more(a.writer.datasets@[i])),
        a.bands_after(i, data, b.bands@),
        a.band(i) is Some ==> data.len() == byte_len(
            a.writer.datasets@[i].dataspace.dims@.skip(1),
            a.writer.datasets@[i].datatype.spec_element_size() as nat,
        ),
    ensures
        b.wf(),
{
    lemma_position_is(a.bands@.len(), band_of(a.bands@, i));
    let d = a.writer.datasets@[i];
    let d2 = b.writer.datasets@[i];
    assert(d2.dataspace.dims@.skip(1) =~= d.dataspace.dims@.skip(1));
    assert forall|k: int| 0 <= k < b.bands@.len() implies (#[trigger] b.bands@[k]).ds_index
        < b.writer.datasets@.len() && b.bands@[k].fits(
        b.writer.datasets@[b.bands@[k].ds_index as int],
    ) by {
        let x = a.bands@[k];
        assert(x.fits(a.writer.datasets@[x.ds_index as int]));
        if Some(k) == a.band(i) {
            assert(band_of(a.bands@, i)(k));
            let p = x.frames_per_chunk as int;
            let n = d.dataspace.dims@[0] as int;
            lemma_one_on(n, p);
            let y = b.bands@[k];
            let now = byte_views(y.frames@);
            assert(now.len() == y.frames@.len());
            assert(byte_views(x.frames@).len() == x.frames@.len());
            assert forall|f: int| 0 <= f < y.frames@.len() implies shaped(
                (#[trigger] y.frames@[f])@.len(),
                y.frame_dims@,
                y.elem_size as nat,
            ) by {
                assert(now[f] == y.frames@[f]@);
                if f < x.frames@.len() {
                    assert(byte_views(x.frames@)[f] == x.frames@[f]@);
                }
            }
        } else {
            assert(b.bands@[k] == x);
            assert(x.ds_index != i) by {
                if x.ds_index == i {
                    assert(band_of(a.bands@, i)(k));
                    match a.band(i) {
                        Some(l) => {
                            assert(band_of(a.bands@, i)(l));
                            assert(a.bands@[l].ds_index == i);
                            if l < k {
                                assert(a.bands@[l].ds_index != a.bands@[k].ds_index);
                            } else {
                                assert(a.bands@[k].ds_index != a.bands@[l].ds_index);
                            }
                        },
                        None => {},
                    }
                }
            }
        }
    }
    assert forall|k: int, l: int| 0 <= k < l < b.bands@.len() implies (#[trigger] b.bands@[k]).ds_index
        != (#[trigger] b.bands@[l]).ds_index by {
        assert(b.bands@[k].ds_index == a.bands@[k].ds_index);
        assert(b.bands@[l].ds_index == a.bands@[l].ds_index);
        assert(a.bands@[k].ds_index != a.bands@[l].ds_index);
    }
}

/// Whether two shapes are the same.
fn same_dims(a: &[u64], b: &[u64]) -> (r: bool)
    ensures
        r == (a@ == b@),
{
    if a.len() != b.len() {
        return false;
    }
    let mut i: usize = 0;
    while i < a.len()
        invariant
            a@.len() == b@.len(),
            i <= a@.len(),
            forall|k: int| 0 <= k < i ==> a@[k] == b@[k],
        decreases a@.len() - i,
    {
        if a[i] != b[i] {
            return false;
        }
        i = i + 1;
    }
    assert(a@ =~= b@);
    true
}

impl SwmrWriter {
    /// Check that a frame of `len` bytes can be appended.
    fn check_frame(&self, i: usize, len: usize) -> (r: IoResult<()>)
        requires
            self.wf(),
            i < self.writer.datasets@.len(),
            self.frame_fits(i as int),
        ensures
            match r {
                Ok(_) => self.frame_error(i as int, len as nat) is None,
                Err(e) => self.frame_error(i as int, len as nat) == Some(e@),
            },
    {
        let d = &self.writer.datasets[i];
        let fd = slice_subrange(d.dataspace.dims.as_slice(), 1, d.dataspace.dims.len());
        assert(fd@ =~= d.dataspace.dims@.skip(1));
        let expected: u64 = byte_count(fd, d.datatype.element_size() as u64);
        match self.find_band(i) {
            Some(_) => {
                if len as u64 != expected {
                    return Err(
                        invalid_state(
                            Text::new("append_frame: data is ").number(len as u64).text(
                                " bytes, expected ",
                            ).number(expected).text(" for one frame"),
                        ),
                    );
                }
                Ok(())
            },
            None => match self.writer.dataset_chunk_dims(i) {
                None => Err(invalid_state(Text::new("append_frame requires a chunked dataset"))),
                Some(c) => {
                    if c[0] > 1 {
                        return Err(
                            invalid_state(
                                Text::new("dataset ").number(i as u64).text(
                                    " uses multi-frame chunks (chunk[0] = ",
                                ).number(c[0]).text(
                                    "); appending to it after open_append is not supported",
                                ),
                            ),
                        );
                    }
                    if len as u64 != expected {
                        return Err(
                            invalid_state(
                                Text::new("append_frame: data is ").number(len as u64).text(
                                    " bytes, expected ",
                                ).number(expected).text(" for one frame"),
                            ),
                        );
                    }
                    let td = slice_subrange(c, 1, c.len());
                    assert(td@ =~= c@.skip(1));
                    let written: bool = same_dims(td, fd) || Self::has_tiles(fd, td);
                    if d.chunked.is_none() && written {
                        return Err(invalid_state(Text::new("not a chunked dataset")));
                    }
                    let more = Self::with_one_more(d);
                    Hdf5Writer::check_extend(d, more.as_slice())
                },
            },
        }
    }

    /// Whether a frame has tiles.
    fn has_tiles(fd: &[u64], td: &[u64]) -> (r: bool)
        requires
            td@.len() == fd@.len(),
        ensures
            r == (volume(grid(fd@, td@)) > 0),
    {
        let g = crate::io::tiles::chunk_grid(fd, td);
        let mut i: usize = 0;
        while i < g.len()
            invariant
                i <= g@.len(),
                g@ == grid(fd@, td@),
                forall|k: int| 0 <= k < i ==> #[trigger] g@[k] > 0,
            decreases g@.len() - i,
        {
            if g[i] == 0 {
                proof {
                    crate::io::array::lemma_zero_volume(g@, i as int);
                }
                return false;
            }
            i = i + 1;
        }
        proof {
            lemma_positive(g@);
        }
        true
    }

    /// The shape of a dataset with one more frame.
    fn with_one_more(d: &DatasetInfo) -> (v: Vec<u64>)
        requires
            d.dataspace.dims@.len() > 0,
            d.dataspace.dims@[0] < u64::MAX,
        ensures
            v@ == one_more(*d),
    {
        let mut v = copy_dims(d.dataspace.dims.as_slice());
        let n: u64 = v[0];
        v.set(0, n + 1);
        v
    }

    /// The chunks that a frame fills in a dataset whose chunks hold one frame.
    fn single_frame(&self, i: usize, data: &[u8]) -> (out: Vec<ChunkWrite>)
        requires
            self.wf(),
            i < self.writer.datasets@.len(),
            self.frame_fits(i as int),
            self.band(i as int) is None,
            self.frame_error(i as int, data@.len()) is None,
        ensures
            numbered(out@) == self.frame_writes(i as int, data@),
    {
        let d = &self.writer.datasets[i];
        let n: u64 = d.dataspace.dims[0];
        let fd = slice_subrange(d.dataspace.dims.as_slice(), 1, d.dataspace.dims.len());
        assert(fd@ =~= d.dataspace.dims@.skip(1));
        match self.writer.dataset_chunk_dims(i) {
            None => {
                assert(false);
                Vec::new()
            },
            Some(c) => {
                let td = slice_subrange(c, 1, c.len());
                assert(td@ =~= c@.skip(1));
                let copy = slice_to_vec(data);
                if same_dims(td, fd) {
                    let mut out: Vec<ChunkWrite> = Vec::new();
                    out.push(ChunkWrite { chunk_idx: n, data: copy });
                    assert(numbered(out@) =~= self.frame_writes(i as int, data@));
                    out
                } else {
                    let mut one: Vec<Vec<u8>> = Vec::new();
                    one.push(copy);
                    assert(byte_views(one@) =~= seq![data@]);
                    assert(1 * byte_len(td@, d.datatype.spec_element_size() as nat) == byte_len(
                        td@,
                        d.datatype.spec_element_size() as nat,
                    ));
                    assert(fd@.len() > 0) by {
                        if fd@.len() == 0 {
                            assert(td@ =~= fd@);
                        }
                    }
                    assemble_band(
                        &one,
                        1,
                        fd,
                        td,
                        d.datatype.element_size() as usize,
                        fill_slice(d),
                        n,
                    )
                }
            },
        }
    }

    /// Append a frame to a stream. Returns the chunks that are to be written now:
    /// those of the frame, or those of its band once the band is complete.
    pub fn append_frame(&mut self, ds_index: usize, data: &[u8]) -> (r: IoResult<Vec<ChunkWrite>>)
        requires
            old(self).wf(),
            ds_index < old(self).writer.datasets@.len(),
            old(self).frame_fits(ds_index as int),
        ensures
            final(self).wf(),
            final(self).swmr_active == old(self).swmr_active,
            match old(self).frame_error(ds_index as int, data@.len()) {
                Some(x) => (r matches Err(e) && e@ == x) && *final(self) == *old(self),
                None => {
                    &&& r matches Ok(v) && numbered(v@) == old(self).frame_writes(
                        ds_index as int,
                        data@,
                    )
                    &&& dims_set(
                        old(self).writer,
                        final(self).writer,
                        ds_index as int,
                        one_more(old(self).writer.datasets@[ds_index as int]),
                    )
                    &&& final(self).writer.allocator == old(self).writer.allocator
                    &&& old(self).bands_after(ds_index as int, data@, final(self).bands@)
                },
            },
    {
        let ghost before = *self;
        let ghost i = ds_index as int;
        match self.check_frame(ds_index, data.len()) {
            Ok(_) => {},
            Err(e) => {
                return Err(e);
            },
        }
        let dims = Self::with_one_more(&self.writer.datasets[ds_index]);
        match self.find_band(ds_index) {
            None => {
                let out = self.single_frame(ds_index, data);
                match self.writer.extend_dataset(ds_index, dims.as_slice()) {
                    Ok(_) => {},
                    Err(e) => {
                        assert(false);
                        return Err(e);
                    },
                }
                proof {
                    lemma_appended(before, *self, i, data@);
                }
                Ok(out)
            },
            Some(k) => {
                proof {
                    lemma_position_is(before.bands@.len(), band_of(before.bands@, i));
                    assert(band_of(before.bands@, i)(k as int));
                    let d = before.writer.datasets@[i];
                    assert(before.bands@[k as int].fits(d));
                    lemma_unlimited(d, d.dataspace.dims@.len());
                }
                match self.writer.extend_dataset(ds_index, dims.as_slice()) {
                    Ok(_) => {},
                    Err(e) => {
                        assert(false);
                        return Err(e);
                    },
                }
                let ghost old_frames = self.bands@[k as int].frames@;
                let copy = slice_to_vec(data);
                self.bands[k].frames.push(copy);
                let p: u64 = self.bands[k].frames_per_chunk;
                let count: u64 = self.bands[k].frames.len() as u64;
                proof {
                    assert(byte_views(self.bands@[k as int].frames@) =~= byte_views(
                        old_frames,
                    ).push(data@));
                    lemma_one_on(before.writer.datasets@[i].dataspace.dims@[0] as int, p as int);
                }
                if count < p {
                    proof {
                        lemma_appended(before, *self, i, data@);
                        assert(numbered(Seq::<ChunkWrite>::empty()) =~= before.frame_writes(
                            i,
                            data@,
                        ));
                    }
                    return Ok(Vec::new());
                }
                let band: u64 = (dims[0] - count) / p;
                let ghost b = self.bands@[k as int];
                proof {
                    lemma_band_room(b);
                    assert forall|f: int| 0 <= f < b.frames@.len() implies shaped(
                        (#[trigger] b.frames@[f])@.len(),
                        b.frame_dims@,
                        b.elem_size as nat,
                    ) by {
                        if f < old_frames.len() {
                            assert(b.frames@[f] == old_frames[f]);
                        }
                    }
                }
                let out = assemble_band(
                    &self.bands[k].frames,
                    p as usize,
                    self.bands[k].frame_dims.as_slice(),
                    self.bands[k].tile_dims.as_slice(),
                    self.bands[k].elem_size,
                    fill_slice(&self.writer.datasets[ds_index]),
                    band,
                );
                self.bands[k].frames = Vec::new();
                proof {
                    assert(byte_views(self.bands@[k as int].frames@) =~= Seq::empty());
                    lemma_appended(before, *self, i, data@);
                }
                Ok(out)
            },
        }
    }
}

/// A band that fits the machine has few enough frames.
proof fn lemma_band_room(b: BandBuffer)
    requires
        b.elem_size > 0,
        chunked(b.tile_dims@),
        b.frames_per_chunk * (volume(b.tile_dims@) * b.elem_size) <= usize::MAX,
    ensures
        b.frames_per_chunk <= usize::MAX,
{
    lemma_positive(b.tile_dims@);
    let p = b.frames_per_chunk as int;
    let v = volume(b.tile_dims@) as int;
    let e = b.elem_size as int;
    assert(v * e >= 1) by (nonlinear_arith)
        requires
            v >= 1,
            e >= 1,
    ;
    let t = v * e;
    assert(p <= p * t) by (nonlinear_arith)
        requires
            t >= 1,
            p >= 0,
    ;
}

/// Why a tile shape does not fit a frame.
pub open spec fn tile_error(fd: Seq<u64>, td: Seq<u64>) -> Option<IoErrorView> {
    if td.len() != fd.len() {
        Some(
            IoErrorView::InvalidState(
                "frame_chunk rank "@ + decimal(td.len()) + " does not match frame_dims rank "@
                    + decimal(fd.len()),
            ),
        )
    } else if td.contains(0u64) {
        Some(IoErrorView::InvalidState("frame_chunk dimensions must be non-zero"@))
    } else if fd.contains(0u64) {
        Some(IoErrorView::InvalidState("frame_dims dimensions must be non-zero"@))
    } else {
        None
    }
}

/// Why a chunk shape does not fit a stream of frames.
pub open spec fn stream_chunk_error(fd: Seq<u64>, chunk: Seq<u64>) -> Option<IoErrorView> {
    if chunk.len() != fd.len() + 1 {
        Some(
            IoErrorView::InvalidState(
                "chunk rank "@ + decimal(chunk.len()) + " must be the frame rank + 1 ("@ + decimal(
                    fd.len() + 1,
                ) + ")"@,
            ),
        )
    } else if chunk.contains(0u64) {
        Some(IoErrorView::InvalidState("chunk dimensions must be non-zero"@))
    } else if fd.contains(0u64) {
        Some(IoErrorView::InvalidState("frame_dims dimensions must be non-zero"@))
    } else {
        None
    }
}

/// Whether a shape has an empty dimension.
fn has_zero(dims: &[u64]) -> (r: bool)
    ensures
        r == dims@.contains(0u64),
{
    let mut i: usize = 0;
    while i < dims.len()
        invariant
            i <= dims@.len(),
            forall|k: int| 0 <= k < i ==> #[trigger] dims@[k] != 0,
        decreases dims@.len() - i,
    {
        if dims[i] == 0 {
            assert(dims@[i as int] == 0u64);
            return true;
        }
        i = i + 1;
    }
    false
}

/// Reject a tile shape whose rank does not match that of the frames, or that has a
/// zero dimension.
pub fn validate_frame_chunk(frame_dims: &[u64], frame_chunk: &[u64]) -> (r: IoResult<()>)
    ensures
        match r {
            Ok(_) => tile_error(frame_dims@, frame_chunk@) is None,
            Err(e) => tile_error(frame_dims@, frame_chunk@) == Some(e@),
        },
{
    if frame_chunk.len() != frame_dims.len() {
        return Err(
            invalid_state(
                Text::new("frame_chunk rank ").number(frame_chunk.len() as u64).text(
                    " does not match frame_dims rank ",
                ).number(frame_dims.len() as u64),
            ),
        );
    }
    if has_zero(frame_chunk) {
        return Err(invalid_state(Text::new("frame_chunk dimensions must be non-zero")));
    }
    if has_zero(frame_dims) {
        return Err(invalid_state(Text::new("frame_dims dimensions must be non-zero")));
    }
    Ok(())
}

/// Reject a chunk shape that does not have one dimension more than the frames, or
/// that has a zero dimension.
pub fn validate_streaming_chunk(frame_dims: &[u64], chunk: &[u64]) -> (r: IoResult<()>)
    requires
        frame_dims@.len() < u64::MAX,
    ensures
        match r {
            Ok(_) => stream_chunk_error(frame_dims@, chunk@) is None,
            Err(e) => stream_chunk_error(frame_dims@, chunk@) == Some(e@),
        },
{
    if chunk.len() as u64 != frame_dims.len() as u64 + 1 {
        return Err(
            invalid_state(
                Text::new("chunk rank ").number(chunk.len() as u64).text(
                    " must be the frame rank + 1 (",
                ).number(frame_dims.len() as u64 + 1).text(")"),
            ),
        );
    }
    if has_zero(chunk) {
        return Err(invalid_state(Text::new("chunk dimensions must be non-zero")));
    }
    if has_zero(frame_dims) {
        return Err(invalid_state(Text::new("frame_dims dimensions must be non-zero")));
    }
    Ok(())
}

/// A shape with a dimension in front.
fn with_front(a: u64, rest: &[u64]) -> (v: Vec<u64>)
    ensures
        v@ == cons(a, rest@),
{
    let mut v: Vec<u64> = Vec::new();
    v.push(a);
    let mut i: usize = 0;
    while i < rest.len()
        invariant
            i <= rest@.len(),
            v@ == cons(a, rest@.take(i as int)),
        decreases rest@.len() - i,
    {
        v.push(rest[i]);
        i = i + 1;
        assert(v@ =~= cons(a, rest@.take(i as int)));
    }
    assert(rest@.take(i as int) =~= rest@);
    v
}

/// Bytes that the size of a stored chunk takes; only filtered chunks have one.
pub open spec fn stored_width(cd: Seq<u64>, es: nat, filtered: bool) -> Option<u8> {
    if filtered {
        Some(size_width(byte_len(cd, es)) as u8)
    } else {
        None
    }
}

/// Whether there is room for a stream with chunks of this shape.
pub open spec fn stream_room(w: Hdf5Writer, cd: Seq<u64>, es: nat, filtered: bool) -> bool {
    &&& w.index_room(stored_width(cd, es, filtered))
    &&& filtered ==> byte_len(cd, es) <= u64::MAX
}

/// Whether an empty stream has been added to the file: no frames yet, any number of
/// them to come.
pub open spec fn stream_added(
    a: Hdf5Writer,
    b: Hdf5Writer,
    i: int,
    name: Seq<char>,
    datatype: DatatypeMessage,
    fd: Seq<u64>,
    cd: Seq<u64>,
    pipeline: Option<FilterPipeline>,
) -> bool {
    let d = b.datasets@[i];
    let eof = a.allocator.spec_eof() as int;
    let width = stored_width(cd, datatype.spec_element_size() as nat, pipeline is Some);
    let max = cons(u64::MAX, fd);
    &&& i == a.datasets@.len()
    &&& added(a, b)
    &&& bare_dataset(d, name, datatype, SpaceView { dims: cons(0u64, fd), max_dims: Some(max) })
    &&& d.filter_pipeline == pipeline
    &&& new_chunked(d, a.ctx, width, eof, max, cd)
    &&& b.allocator.spec_eof() == ea_eof(a.ctx, ea_element_size(a.ctx, width), eof)
}

/// What creating a stream comes to.
pub open spec fn stream_created(
    a: SwmrWriter,
    b: SwmrWriter,
    r: IoResult<usize>,
    name: Seq<char>,
    datatype: DatatypeMessage,
    fd: Seq<u64>,
    cd: Seq<u64>,
    pipeline: Option<FilterPipeline>,
) -> bool {
    match r {
        Ok(i) => {
            &&& a.writer.name_error(name) is None
            &&& stream_added(a.writer, b.writer, i as int, name, datatype, fd, cd, pipeline)
            &&& b.swmr_active == a.swmr_active
        },
        Err(e) => a.writer.name_error(name) == Some(e@) && a == b,
    }
}

/// A new dataset leaves the buffers in order.
proof fn lemma_added(a: SwmrWriter, b: SwmrWriter)
    requires
        a.wf(),
        b.writer.wf(),
        added(a.writer, b.writer),
        b.bands == a.bands,
    ensures
        b.wf(),
{
    assert forall|k: int| 0 <= k < b.bands@.len() implies (#[trigger] b.bands@[k]).ds_index
        < b.writer.datasets@.len() && b.bands@[k].fits(
        b.writer.datasets@[b.bands@[k].ds_index as int],
    ) by {
        let x = a.bands@[k];
        assert(x.fits(a.writer.datasets@[x.ds_index as int]));
    }
}

impl SwmrWriter {
    /// Add an empty stream.
    fn new_stream(
        &mut self,
        name: &str,
        datatype: DatatypeMessage,
        frame_dims: &[u64],
        chunk_dims: &[u64],
        pipeline: Option<FilterPipeline>,
    ) -> (r: IoResult<usize>)
        requires
            old(self).wf(),
            stream_room(
                old(self).writer,
                chunk_dims@,
                datatype.spec_element_size() as nat,
                pipeline is Some,
            ),
        ensures
            final(self).wf(),
            final(self).bands == old(self).bands,
            stream_created(
                *old(self),
                *final(self),
                r,
                name@,
                datatype,
                frame_dims@,
                chunk_dims@,
                pipeline,
            ),
    {
        let ghost before = *self;
        let dims = with_front(0, frame_dims);
        let max_dims = with_front(u64::MAX, frame_dims);
        let r = match pipeline {
            Some(p) => self.writer.create_chunked_dataset_with_pipeline(
                name,
                datatype,
                dims.as_slice(),
                max_dims.as_slice(),
                chunk_dims,
                p,
            ),
            None => self.writer.create_chunked_dataset(
                name,
                datatype,
                dims.as_slice(),
                max_dims.as_slice(),
                chunk_dims,
            ),
        };
        proof {
            if r is Ok {
                lemma_added(before, *self);
            }
        }
        r
    }

    /// Create a stream of frames, each of which is one chunk.
    pub fn create_streaming_dataset(
        &mut self,
        name: &str,
        datatype: DatatypeMessage,
        frame_dims: &[u64],
    ) -> (r: IoResult<usize>)
        requires
            old(self).wf(),
            stream_room(
                old(self).writer,
                cons(1u64, frame_dims@),
                datatype.spec_element_size() as nat,
                false,
            ),
        ensures
            final(self).wf(),
            final(self).bands == old(self).bands,
            stream_created(
                *old(self),
                *final(self),
                r,
                name@,
                datatype,
                frame_dims@,
                cons(1u64, frame_dims@),
                None,
            ),
    {
        let chunk = with_front(1, frame_dims);
        self.new_stream(name, datatype, frame_dims, chunk.as_slice(), None)
    }

    /// Create a stream of frames, each of which is one filtered chunk.
    pub fn create_streaming_dataset_compressed(
        &mut self,
        name: &str,
        datatype: DatatypeMessage,
        frame_dims: &[u64],
        pipeline: FilterPipeline,
    ) -> (r: IoResult<usize>)
        requires
            old(self).wf(),
            stream_room(
                old(self).writer,
                cons(1u64, frame_dims@),
                datatype.spec_element_size() as nat,
                true,
            ),
        ensures
            final(self).wf(),
            final(self).bands == old(self).bands,
            stream_created(
                *old(self),
                *final(self),
                r,
                name@,
                datatype,
                frame_dims@,
                cons(1u64, frame_dims@),
                Some(pipeline),
            ),
    {
        let chunk = with_front(1, frame_dims);
        self.new_stream(name, datatype, frame_dims, chunk.as_slice(), Some(pipeline))
    }

    /// Create a stream of frames that are cut into tiles, filtered if there is a
    /// pipeline.
    fn tiled_stream(
        &mut self,
        name: &str,
        datatype: DatatypeMessage,
        frame_dims: &[u64],
        frame_chunk: &[u64],
        pipeline: Option<FilterPipeline>,
    ) -> (r: IoResult<usize>)
        requires
            old(self).wf(),
            stream_room(
                old(self).writer,
                cons(1u64, frame_chunk@),
                datatype.spec_element_size() as nat,
                pipeline is Some,
            ),
        ensures
            final(self).wf(),
            final(self).bands == old(self).bands,
            match tile_error(frame_dims@, frame_chunk@) {
                Some(x) => (r matches Err(e) && e@ == x) && *final(self) == *old(self),
                None => stream_created(
                    *old(self),
                    *final(self),
                    r,
                    name@,
                    datatype,
                    frame_dims@,
                    cons(1u64, frame_chunk@),
                    pipeline,
                ),
            },
    {
        match validate_frame_chunk(frame_dims, frame_chunk) {
            Ok(_) => {},
            Err(e) => {
                return Err(e);
            },
        }
        let chunk = with_front(1, frame_chunk);
        self.new_stream(name, datatype, frame_dims, chunk.as_slice(), pipeline)
    }

    /// Create a stream of frames that are cut into tiles, each tile a chunk.
    pub fn create_streaming_dataset_tiled(
        &mut self,
        name: &str,
        datatype: DatatypeMessage,
        frame_dims: &[u64],
        frame_chunk: &[u64],
    ) -> (r: IoResult<usize>)
        requires
            old(self).wf(),
            stream_room(
                old(self).writer,
                cons(1u64, frame_chunk@),
                datatype.spec_element_size() as nat,
                false,
            ),
        ensures
            final(self).wf(),
            final(self).bands == old(self).bands,
            match tile_error(frame_dims@, frame_chunk@) {
                Some(x) => (r matches Err(e) && e@ == x) && *final(self) == *old(self),
                None => stream_created(
                    *old(self),
                    *final(self),
                    r,
                    name@,
                    datatype,
                    frame_dims@,
                    cons(1u64, frame_chunk@),
                    None,
                ),
            },
    {
        self.tiled_stream(name, datatype, frame_dims, frame_chunk, None)
    }

    /// Create a stream of frames that are cut into tiles, each tile a filtered
    /// chunk.
    pub fn create_streaming_dataset_tiled_compressed(
        &mut self,
        name: &str,
        datatype: DatatypeMessage,
        frame_dims: &[u64],
        frame_chunk: &[u64],
        pipeline: FilterPipeline,
    ) -> (r: IoResult<usize>)
        requires
            old(self).wf(),
            stream_room(
                old(self).writer,
                cons(1u64, frame_chunk@),
                datatype.spec_element_size() as nat,
                true,
            ),
        ensures
            final(self).wf(),
            final(self).bands == old(self).bands,
            match tile_error(frame_dims@, frame_chunk@) {
                Some(x) => (r matches Err(e) && e@ == x) && *final(self) == *old(self),
                None => stream_created(
                    *old(self),
                    *final(self),
                    r,
                    name@,
                    datatype,
                    frame_dims@,
                    cons(1u64, frame_chunk@),
                    Some(pipeline),
                ),
            },
    {
        self.tiled_stream(name, datatype, frame_dims, frame_chunk, Some(pipeline))
    }

    /// Create a stream of frames with chunks of any shape. The first dimension of
    /// a chunk is the number of its frames; if there is more than one, frames wait
    /// until they fill a chunk.
    fn chunked_stream(
        &mut self,
        name: &str,
        datatype: DatatypeMessage,
        frame_dims: &[u64],
        chunk: &[u64],
        pipeline: Option<FilterPipeline>,
    ) -> (r: IoResult<usize>)
        requires
            old(self).wf(),
            frame_dims@.len() < u64::MAX,
            stream_room(
                old(self).writer,
                chunk@,
                datatype.spec_element_size() as nat,
                pipeline is Some,
            ),
        ensures
            final(self).wf(),
            match stream_chunk_error(frame_dims@, chunk@) {
                Some(x) => (r matches Err(e) && e@ == x) && *final(self) == *old(self),
                None => stream_created(
                    *old(self),
                    *final(self),
                    r,
                    name@,
                    datatype,
                    frame_dims@,
                    chunk@,
                    pipeline,
                ) && band_added(*old(self), *final(self), r, frame_dims@, chunk@),
            },
    {
        match validate_streaming_chunk(frame_dims, chunk) {
            Ok(_) => {},
            Err(e) => {
                return Err(e);
            },
        }
        let ghost before = *self;
        let elem_size: usize = datatype.element_size() as usize;
        let r = self.new_stream(name, datatype, frame_dims, chunk, pipeline);
        match r {
            Err(e) => Err(e),
            Ok(i) => {
                let ghost middle = *self;
                if chunk[0] > 1 {
                    let tile = slice_subrange(chunk, 1, chunk.len());
                    let b = BandBuffer {
                        ds_index: i,
                        frames_per_chunk: chunk[0],
                        frame_dims: copy_dims(frame_dims),
                        tile_dims: copy_dims(tile),
                        elem_size,
                        frames: Vec::new(),
                    };
                    proof {
                        let d = self.writer.datasets@[i as int];
                        assert(tile@ =~= chunk@.skip(1));
                        assert(cons(chunk@[0], tile@) =~= chunk@);
                        assert(d.dataspace.dims@ == cons(0u64, frame_dims@));
                        assert(d.dataspace.dims@.skip(1) =~= frame_dims@);
                        assert(chunked(tile@)) by {
                            assert forall|k: int| 0 <= k < tile@.len() implies #[trigger] tile@[k]
                                > 0 by {
                                assert(tile@[k] == chunk@[k + 1]);
                                assert(!chunk@.contains(0u64));
                                assert(chunk@[k + 1] != 0);
                            }
                        }
                        let p = chunk@[0] as int;
                        assert(0int % p == 0) by (nonlinear_arith)
                            requires
                                p > 0,
                        ;
                        assert(b.fits(d));
                    }
                    self.bands.push(b);
                    proof {
                        assert forall|k: int| 0 <= k < self.bands@.len() implies (
                        #[trigger] self.bands@[k]).ds_index < self.writer.datasets@.len()
                            && self.bands@[k].fits(
                            self.writer.datasets@[self.bands@[k].ds_index as int],
                        ) by {
                            if k < middle.bands@.len() {
                                assert(self.bands@[k] == middle.bands@[k]);
                            }
                        }
                        assert forall|k: int, l: int| 0 <= k < l < self.bands@.len() implies (
                        #[trigger] self.bands@[k]).ds_index != (#[trigger] self.bands@[l]).ds_index by {
                            assert(self.bands@[k] == middle.bands@[k]);
                            if l < middle.bands@.len() {
                                assert(self.bands@[l] == middle.bands@[l]);
                            } else {
                                assert(before.bands@[k].ds_index < before.writer.datasets@.len());
                            }
                        }
                    }
                }
                Ok(i)
            },
        }
    }

    /// Create a stream of frames with chunks of any shape.
    pub fn create_streaming_dataset_chunked(
        &mut self,
        name: &str,
        datatype: DatatypeMessage,
        frame_dims: &[u64],
        chunk: &[u64],
    ) -> (r: IoResult<usize>)
        requires
            old(self).wf(),
            frame_dims@.len() < u64::MAX,
            stream_room(old(self).writer, chunk@, datatype.spec_element_size() as nat, false),
        ensures
            final(self).wf(),
            match stream_chunk_error(frame_dims@, chunk@) {
                Some(x) => (r matches Err(e) && e@ == x) && *final(self) == *old(self),
                None => stream_created(
                    *old(self),
                    *final(self),
                    r,
                    name@,
                    datatype,
                    frame_dims@,
                    chunk@,
                    None,
                ) && band_added(*old(self), *final(self), r, frame_dims@, chunk@),
            },
    {
        self.chunked_stream(name, datatype, frame_dims, chunk, None)
    }

    /// Create a stream of frames with filtered chunks of any shape.
    pub fn create_streaming_dataset_chunked_compressed(
        &mut self,
        name: &str,
        datatype: DatatypeMessage,
        frame_dims: &[u64],
        chunk: &[u64],
        pipeline: FilterPipeline,
    ) -> (r: IoResult<usize>)
        requires
            old(self).wf(),
            frame_dims@.len() < u64::MAX,
            stream_room(old(self).writer, chunk@, datatype.spec_element_size() as nat, true),
        ensures
            final(self).wf(),
            match stream_chunk_error(frame_dims@, chunk@) {
                Some(x) => (r matches Err(e) && e@ == x) && *final(self) == *old(self),
                None => stream_created(
                    *old(self),
                    *final(self),
                    r,
                    name@,
                    datatype,
                    frame_dims@,
                    chunk@,
                    Some(pipeline),
                ) && band_added(*old(self), *final(self), r, frame_dims@, chunk@),
            },
    {
        self.chunked_stream(name, datatype, frame_dims, chunk, Some(pipeline))
    }
}

/// A new stream has an empty buffer exactly if its chunks span more than one frame.
pub open spec fn band_added(
    a: SwmrWriter,
    b: SwmrWriter,
    r: IoResult<usize>,
    fd: Seq<u64>,
    chunk: Seq<u64>,
) -> bool {
    match r {
        Ok(i) => if chunk[0] > 1 {
            let x = b.bands@[a.bands@.len() as int];
            &&& b.bands@ == a.bands@.push(x)
            &&& x.ds_index == i
            &&& x.frames_per_chunk == chunk[0]
            &&& x.frame_dims@ == fd
            &&& x.tile_dims@ == chunk.skip(1)
            &&& x.elem_size == b.writer.datasets@[i as int].datatype.spec_element_size()
            &&& x.frames@.len() == 0
        } else {
            b.bands@ == a.bands@
        },
        Err(_) => true,
    }
}

/// The indexes of the first `n` datasets, those of growing datasets only.
pub open spec fn index_flushes(ds: Seq<DatasetInfo>, n: nat) -> Seq<FlushStep>
    decreases n,
{
    if n == 0 {
        Seq::empty()
    } else if ds[n - 1].chunked is Some {
        index_flushes(ds, (n - 1) as nat).push(FlushStep::Index((n - 1) as usize))
    } else {
        index_flushes(ds, (n - 1) as nat)
    }
}

/// The headers of the first `n` datasets, those that are in the file.
pub open spec fn header_flushes(ds: Seq<DatasetInfo>, n: nat) -> Seq<FlushStep>
    decreases n,
{
    if n == 0 {
        Seq::empty()
    } else if ds[n - 1].obj_header_written_addr is Some {
        header_flushes(ds, (n - 1) as nat).push(FlushStep::Header((n - 1) as usize))
    } else {
        header_flushes(ds, (n - 1) as nat)
    }
}

/// The steps of a flush: indexes first, then headers, then the superblock, each on
/// disk before the next.
pub open spec fn flush_steps(w: SwmrWriter) -> Seq<FlushStep> {
    let ds = w.writer.datasets@;
    let first = index_flushes(ds, ds.len()).push(FlushStep::Sync);
    if w.swmr_active {
        first + header_flushes(ds, ds.len()) + seq![
            FlushStep::Sync,
            FlushStep::Superblock(SWMR_FLAGS),
            FlushStep::Sync,
        ]
    } else {
        first
    }
}

proof fn lemma_index_flushes(ds: Seq<DatasetInfo>, n: nat)
    ensures
        forall|i: int|
            0 <= i < index_flushes(ds, n).len() ==> #[trigger] index_flushes(ds, n)[i] is Index,
    decreases n,
{
    if n > 0 {
        lemma_index_flushes(ds, (n - 1) as nat);
    }
}

proof fn lemma_header_flushes(ds: Seq<DatasetInfo>, n: nat)
    ensures
        forall|i: int|
            0 <= i < header_flushes(ds, n).len() ==> #[trigger] header_flushes(ds, n)[i] is Header,
    decreases n,
{
    if n > 0 {
        lemma_header_flushes(ds, (n - 1) as nat);
    }
}

/// A reader never sees a header before the index behind it, nor a superblock before
/// the headers: between two kinds of writes there is a flush to disk, and one at
/// the end.
pub proof fn lemma_flush_order(w: SwmrWriter)
    ensures
        ({
            let s = flush_steps(w);
            let n = s.len() as int;
            &&& n > 0 && s[n - 1] == FlushStep::Sync
            &&& forall|i: int, j: int|
                #![trigger s[i], s[j]]
                0 <= i < n && 0 <= j < n && s[i] is Index && s[j] is Header ==> i < j && exists|
                    k: int,
                |
                    i < k < j && #[trigger] s[k] == FlushStep::Sync
            &&& forall|i: int, j: int|
                #![trigger s[i], s[j]]
                0 <= i < n && 0 <= j < n && !(s[i] is Sync) && !(s[i] is Superblock) && s[j]
                    is Superblock ==> i < j && exists|k: int|
                    i < k < j && #[trigger] s[k] == FlushStep::Sync
        }),
{
    let ds = w.writer.datasets@;
    lemma_index_flushes(ds, ds.len());
    lemma_header_flushes(ds, ds.len());
    let s = flush_steps(w);
    let a = index_flushes(ds, ds.len()).len() as int;
    let b = header_flushes(ds, ds.len()).len() as int;
    assert(s[a] == FlushStep::Sync);
    if w.swmr_active {
        assert(s[a + 1 + b] == FlushStep::Sync);
        assert forall|i: int| 0 <= i < s.len() implies (#[trigger] s[i] is Index ==> i < a) && (s[i]
            is Header ==> a < i < a + 1 + b) && (s[i] is Superblock ==> i == a + b + 2) by {
            if i < a {
                assert(s[i] == index_flushes(ds, ds.len())[i]);
            } else if a < i < a + 1 + b {
                assert(s[i] == header_flushes(ds, ds.len())[i - a - 1]);
            }
        }
    } else {
        assert forall|i: int| 0 <= i < a implies #[trigger] s[i] is Index by {
            assert(s[i] == index_flushes(ds, ds.len())[i]);
        }
    }
}

impl SwmrWriter {
    /// Make the file ready for readers. Returns the steps that write it; when they
    /// are done, the lock on the file is released.
    pub fn start_swmr(&mut self) -> (steps: Vec<FinalStep>)
        requires
            old(self).wf(),
        ensures
            final(self).wf(),
            steps@ == final_steps(old(self).writer, true, SWMR_FLAGS),
            *final(self) == (SwmrWriter { swmr_active: true, ..*old(self) }),
    {
        let steps = self.writer.finalize_for_swmr();
        self.swmr_active = true;
        steps
    }

    /// The steps that bring to disk what has been written, in an order that is safe
    /// for readers.
    pub fn flush(&self) -> (steps: Vec<FlushStep>)
        ensures
            steps@ == flush_steps(*self),
    {
        let ghost ds = self.writer.datasets@;
        let mut steps: Vec<FlushStep> = Vec::new();
        let n: usize = self.writer.datasets.len();
        let mut i: usize = 0;
        while i < n
            invariant
                i <= n,
                n == self.writer.datasets@.len(),
                ds == self.writer.datasets@,
                steps@ == index_flushes(ds, i as nat),
            decreases n - i,
        {
            if self.writer.datasets[i].chunked.is_some() {
                steps.push(FlushStep::Index(i));
            }
            i = i + 1;
        }
        steps.push(FlushStep::Sync);
        if self.swmr_active {
            let ghost first = steps@;
            let mut j: usize = 0;
            assert(steps@ =~= first + header_flushes(ds, 0));
            while j < n
                invariant
                    j <= n,
                    n == self.writer.datasets@.len(),
                    ds == self.writer.datasets@,
                    steps@ == first + header_flushes(ds, j as nat),
                decreases n - j,
            {
                if self.writer.datasets[j].obj_header_written_addr.is_some() {
                    steps.push(FlushStep::Header(j));
                }
                j = j + 1;
                assert(steps@ =~= first + header_flushes(ds, j as nat));
            }
            steps.push(FlushStep::Sync);
            steps.push(FlushStep::Superblock(SWMR_FLAGS));
            steps.push(FlushStep::Sync);
            assert(steps@ =~= flush_steps(*self));
        }
        steps
    }

    /// The last bands of the first `n` buffers: those with frames, filled up with
    /// the fill value.
    pub open spec fn unfinished(self, n: nat) -> Seq<LastBandView>
        decreases n,
    {
        if n == 0 {
            Seq::empty()
        } else {
            let b = self.bands@[n - 1];
            let before = self.unfinished((n - 1) as nat);
            if b.frames@.len() == 0 {
                before
            } else {
                let d = self.writer.datasets@[b.ds_index as int];
                before.push(
                    LastBandView {
                        ds_index: b.ds_index,
                        writes: b.writes(
                            byte_views(b.frames@),
                            fill_of(d),
                            d.dataspace.dims@[0] as int / b.frames_per_chunk as int,
                        ),
                    },
                )
            }
        }
    }

    /// The chunks of the bands that are not complete, which are written before the
    /// file is finished.
    pub fn close_bands(&mut self) -> (out: Vec<LastBand>)
        requires
            old(self).wf(),
            forall|k: int|
                0 <= k < old(self).bands@.len() && (#[trigger] old(self).bands@[k]).frames@.len()
                    > 0 ==> old(self).bands@[k].writable(
                    old(self).writer.datasets@[old(
                        self,
                    ).bands@[k].ds_index as int].dataspace.dims@[0] as int / old(
                        self,
                    ).bands@[k].frames_per_chunk as int,
                ),
        ensures
            last_bands(out@) == old(self).unfinished(old(self).bands@.len()),
            final(self).bands@.len() == 0,
            final(self).writer == old(self).writer,
            final(self).swmr_active == old(self).swmr_active,
            final(self).wf(),
    {
        let mut out: Vec<LastBand> = Vec::new();
        let n: usize = self.bands.len();
        let mut k: usize = 0;
        assert(last_bands(out@) =~= self.unfinished(0));
        while k < n
            invariant
                *self == *old(self),
                self.wf(),
                k <= n,
                n == self.bands@.len(),
                forall|k: int|
                    0 <= k < self.bands@.len() && (#[trigger] self.bands@[k]).frames@.len() > 0
                        ==> self.bands@[k].writable(
                        self.writer.datasets@[self.bands@[k].ds_index as int].dataspace.dims@[0] as int
                            / self.bands@[k].frames_per_chunk as int,
                    ),
                last_bands(out@) == self.unfinished(k as nat),
            decreases n - k,
        {
            let b = &self.bands[k];
            let ghost frames = self.writer.datasets@[b.ds_index as int].dataspace.dims@[0] as int;
            assert(b.fits(self.writer.datasets@[b.ds_index as int]));
            if b.frames.len() > 0 {
                let p: u64 = b.frames_per_chunk;
                let dim0: u64 = self.writer.datasets[b.ds_index].dataspace.dims[0];
                proof {
                    lemma_band_room(*b);
                    lemma_fundamental_div_mod(frames, p as int);
                    lemma_mod_bound(frames, p as int);
                    let q = frames / p as int;
                    let pi = p as int;
                    assert(0 <= pi * q) by (nonlinear_arith)
                        requires
                            frames == pi * q + frames % pi,
                            frames >= 0,
                            frames % pi < pi,
                            pi > 0,
                    ;
                    assert(pi * q == q * pi) by (nonlinear_arith);
                    lemma_fundamental_div_mod_converse(frames - frames % pi, pi, q, 0);
                }
                let band: u64 = (dim0 - b.frames.len() as u64) / p;
                let writes = assemble_band(
                    &b.frames,
                    p as usize,
                    b.frame_dims.as_slice(),
                    b.tile_dims.as_slice(),
                    b.elem_size,
                    fill_slice(&self.writer.datasets[b.ds_index]),
                    band,
                );
                let ghost before = out@;
                let one = LastBand { ds_index: b.ds_index, writes };
                out.push(one);
                assert(last_bands(out@) =~= last_bands(before).push(
                    LastBandView { ds_index: one.ds_index, writes: numbered(one.writes@) },
                ));
            }
            k = k + 1;
        }
        self.bands = Vec::new();
        out
    }
}

} // verus!
