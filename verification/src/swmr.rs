//! Single writer, multiple readers: streaming frames to a file that others read.

pub mod added;
pub mod groups;
pub mod reader;

pub use reader::SwmrFileReader;

use crate::format::messages::attribute::{
    scalar_attribute, text_attribute, AttributeMessage, AttributeView,
};
use crate::format::messages::filter::FilterPipeline;
use crate::format::messages::dataspace::SpaceView;
use crate::format::UNDEF_ADDR;
use crate::io::allocator::align8;
use crate::format::global_heap::reference_size;
use crate::io::array::{element_count, volume};
use crate::io::frames::cons;
use crate::io::locking::{policy_of, FileLocking};
use crate::io::search::is_at;
use crate::io::stream::{numbered, ChunkWrite};
use crate::io::swmr::{
    band_added, flush_steps, last_bands, one_more, stream_chunk_error, stream_created, stream_room,
    tile_error, FlushStep, LastBand, SwmrWriter,
};
use crate::io::writer::attributes::{
    dataset_attribute_set, fill_error, group_attribute_set, no_dataset, with_attribute, BytesWrite,
};
use crate::io::writer::content::dims_set;
use crate::io::writer::datasets::{added, bare_dataset, byte_len, in_one_piece, new_file};
use crate::io::writer::edits::{group_but_datasets, group_but_groups, new_group, same_rest};
use crate::io::names::{child_path, is_root, trimmed};
use crate::io::writer::finish::{final_steps, FinalStep, SWMR_FLAGS};
use crate::io::writer::links::same_parent;
use crate::io::writer::state::{DatasetInfo, Hdf5Writer};
use crate::io::writer::storage::same_others;
use crate::io::writer::vlen::{contents, references, HeapImage, VlenPlan};
use crate::io::{invalid_state, IoErrorView, IoResult};
use crate::text::{decimal, Text};
use crate::types::H5Type;
use vstd::prelude::*;
use vstd::utf8::encode_utf8;

verus! {

/// A writer of frame-based data.
pub struct SwmrFileWriter {
    /// The streams.
    pub inner: SwmrWriter,
    /// How the file is locked.
    pub locking: FileLocking,
}

/// A dataset that has been created, and the bytes that go into it.
#[derive(Debug)]
pub struct WholeDataset {
    /// Index of the dataset.
    pub index: usize,
    /// The bytes and their place; an empty dataset has neither.
    pub write: Option<BytesWrite>,
}

/// The elements that stand for values, one behind the other.
pub open spec fn elements<T: H5Type>(data: Seq<T>) -> Seq<u8>
    decreases data.len(),
{
    if data.len() == 0 {
        Seq::empty()
    } else {
        elements(data.drop_last()) + data.last().bytes()
    }
}

/// A shape in brackets.
pub open spec fn shape_text(dims: Seq<u64>) -> Seq<char> {
    "["@ + listed(dims, dims.len()) + "]"@
}

/// The first `n` dimensions, separated by commas.
pub open spec fn listed(dims: Seq<u64>, n: nat) -> Seq<char>
    decreases n,
{
    if n == 0 {
        ""@
    } else if n == 1 {
        decimal(dims[0] as nat)
    } else {
        listed(dims, (n - 1) as nat) + ", "@ + decimal(dims[n - 1] as nat)
    }
}

/// The shape in brackets, after `t`.
fn append_shape(t: Text, dims: &[u64]) -> (r: Text)
    ensures
        r@ == t@ + shape_text(dims@),
{
    let ghost start = t@;
    let mut r: Text = t.text("[");
    let mut i: usize = 0;
    proof {
        reveal_strlit("");
        assert(r@ =~= start + ("["@ + listed(dims@, 0)));
    }
    while i < dims.len()
        invariant
            i <= dims@.len(),
            r@ == start + ("["@ + listed(dims@, i as nat)),
        decreases dims@.len() - i,
    {
        if i > 0 {
            r = r.text(", ");
        }
        r = r.number(dims[i]);
        i = i + 1;
        proof {
            reveal_strlit("");
            assert(r@ =~= start + ("["@ + listed(dims@, i as nat)));
        }
    }
    let r2 = r.text("]");
    assert(r2@ =~= start + shape_text(dims@));
    r2
}

/// The elements that stand for values, one behind the other.
pub fn slice_to_bytes<T: H5Type>(data: &[T]) -> (b: Vec<u8>)
    ensures
        b@ == elements(data@),
        b@.len() == data@.len() * T::size(),
{
    let mut b: Vec<u8> = Vec::new();
    let mut i: usize = 0;
    assert(data@.take(0) =~= Seq::<T>::empty());
    assert(0 * T::size() == 0);
    while i < data.len()
        invariant
            i <= data@.len(),
            b@ == elements(data@.take(i as int)),
            b@.len() == i * T::size(),
        decreases data@.len() - i,
    {
        let one = data[i].to_bytes();
        crate::format::bytes::push_slice(&mut b, one.as_slice());
        proof {
            let t = data@.take(i + 1);
            assert(t.drop_last() =~= data@.take(i as int));
            let s = T::size() as int;
            let n = i as int;
            assert((n + 1) * s == n * s + s) by (nonlinear_arith);
        }
        i = i + 1;
    }
    assert(data@.take(i as int) =~= data@);
    b
}

/// The values that elements stand for.
pub fn bytes_to_typed<T: H5Type>(raw: &[u8]) -> (r: IoResult<Vec<T>>)
    ensures
        match r {
            Ok(v) => T::size() > 0 && raw@.len() == v@.len() * T::size() && elements(v@) == raw@,
            Err(e) => (T::size() == 0 || raw@.len() as int % T::size() as int != 0) && e@
                == IoErrorView::InvalidState(
                "raw data size "@ + decimal(raw@.len()) + " is not a multiple of element size "@
                    + decimal(T::size()),
            ),
        },
{
    let es: usize = T::element_size();
    if es == 0 || raw.len() % es != 0 {
        return Err(
            invalid_state(
                Text::new("raw data size ").number(raw.len() as u64).text(
                    " is not a multiple of element size ",
                ).number(es as u64),
            ),
        );
    }
    let n: usize = raw.len() / es;
    proof {
        vstd::arithmetic::div_mod::lemma_fundamental_div_mod(raw@.len() as int, es as int);
        assert(es * n == n * es) by (nonlinear_arith);
    }
    let mut v: Vec<T> = Vec::new();
    let mut i: usize = 0;
    assert(raw@.take(0) =~= Seq::<u8>::empty());
    assert(0 * es == 0);
    while i < n
        invariant
            i <= n,
            es == T::size(),
            raw@.len() == n * es,
            n * es <= usize::MAX,
            v@.len() == i,
            elements(v@) == raw@.take(i * es),
        decreases n - i,
    {
        proof {
            let ii = i as int;
            let e = es as int;
            let nn = n as int;
            assert(0 <= ii * e && ii * e + e == (ii + 1) * e && (ii + 1) * e <= nn * e)
                by (nonlinear_arith)
                requires
                    0 <= ii,
                    ii + 1 <= nn,
                    e >= 0,
            ;
        }
        let one = T::from_bytes(vstd::slice::slice_subrange(raw, i * es, i * es + es));
        let ghost before = v@;
        v.push(one);
        proof {
            assert(v@.drop_last() =~= before);
            assert(raw@.take(i * es) + raw@.subrange(i * es, i * es + es) =~= raw@.take(
                i * es + es,
            ));
            let ii = i as int;
            let e = es as int;
            assert(ii * e + e == (ii + 1) * e) by (nonlinear_arith);
        }
        i = i + 1;
    }
    assert(raw@.take(n * es) =~= raw@);
    Ok(v)
}

/// Values are read back from their elements as they were.
pub proof fn lemma_typed_roundtrip<T: H5Type>(a: Seq<T>, b: Seq<T>)
    requires
        a.len() == b.len(),
        elements(a) == elements(b),
    ensures
        a == b,
    decreases a.len(),
{
    if a.len() > 0 {
        T::lemma_bytes(a.last(), b.last());
        T::lemma_bytes(b.last(), a.last());
        let n = elements(a).len() - T::size();
        assert(elements(a).take(n) =~= elements(a.drop_last()));
        assert(elements(b).take(n) =~= elements(b.drop_last()));
        assert(elements(a).skip(n) =~= a.last().bytes());
        assert(elements(b).skip(n) =~= b.last().bytes());
        lemma_typed_roundtrip(a.drop_last(), b.drop_last());
        assert(a =~= a.drop_last().push(a.last()));
        assert(b =~= b.drop_last().push(b.last()));
    } else {
        assert(a =~= b);
    }
}

/// What creating a stream of values of a type comes to.
pub open spec fn typed_stream<T: H5Type>(
    a: SwmrWriter,
    b: SwmrWriter,
    r: IoResult<usize>,
    name: Seq<char>,
    fd: Seq<u64>,
    cd: Seq<u64>,
    pipeline: Option<FilterPipeline>,
) -> bool {
    match r {
        Ok(i) => {
            let dt = b.writer.datasets@[i as int].datatype;
            &&& dt.message_view() == T::type_view()
            &&& dt.spec_element_size() == T::size()
            &&& stream_created(a, b, r, name, dt, fd, cd, pipeline)
        },
        Err(e) => a.writer.name_error(name) == Some(e@) && a == b,
    }
}

/// Whether a text attribute or a number has been set in place of one of the same
/// name.
pub open spec fn attribute_put(
    a: Seq<AttributeMessage>,
    b: Seq<AttributeMessage>,
    v: AttributeView,
) -> bool {
    exists|m: AttributeMessage| m@ == v && #[trigger] with_attribute(a, m) == b
}

/// What setting an attribute of a group comes to. The root group is "/".
pub open spec fn group_attribute_put(
    a: Hdf5Writer,
    b: Hdf5Writer,
    r: IoResult<()>,
    path: Seq<char>,
    v: AttributeView,
) -> bool {
    if path == seq!['/'] {
        &&& r is Ok
        &&& attribute_put(a.root_attributes@, b.root_attributes@, v)
        &&& b == (Hdf5Writer { root_attributes: b.root_attributes, ..a })
    } else {
        match a.group_index(path) {
            Some(g) => r is Ok && exists|m: AttributeMessage|
                m@ == v && #[trigger] group_attribute_set(a, b, g, m),
            None => {
                &&& r matches Err(e) && e@ == IoErrorView::NotFound(
                    "group '"@ + path + "' not found"@,
                )
                &&& b == a
            },
        }
    }
}

/// What setting an attribute of a dataset comes to.
pub open spec fn dataset_attribute_put(
    a: Hdf5Writer,
    b: Hdf5Writer,
    r: IoResult<()>,
    i: int,
    v: AttributeView,
) -> bool {
    if i < a.datasets@.len() {
        r is Ok && exists|m: AttributeMessage|
            m@ == v && #[trigger] dataset_attribute_set(a, b, i, m)
    } else {
        &&& r matches Err(e) && e@ == no_dataset(i as nat, a)
        &&& b == a
    }
}

/// Whether a group has been created.
pub open spec fn group_made(
    a: Hdf5Writer,
    b: Hdf5Writer,
    parent_path: Seq<char>,
    name: Seq<char>,
) -> bool {
    let i = a.groups@.len() as int;
    let parent = if parent_path == seq!['/'] {
        None
    } else {
        a.group_index(parent_path)
    };
    &&& a.group_error(parent_path, name) is None
    &&& same_rest(b, a)
    &&& b.datasets == a.datasets
    &&& b.groups@.len() == i + 1
    &&& new_group(b.groups@[i], child_path(parent_path, name), parent)
    &&& forall|x: int| 0 <= x < i && parent != Some(x) ==> #[trigger] b.groups@[x] == a.groups@[x]
    &&& (parent matches Some(p) ==> group_but_groups(b.groups@[p], a.groups@[p])
        && b.groups@[p].child_groups@ == a.groups@[p].child_groups@.push(i as usize))
}

/// Whether a hard link has been created.
pub open spec fn link_made(
    a: Hdf5Writer,
    b: Hdf5Writer,
    parent: Seq<char>,
    name: Seq<char>,
    target: Seq<char>,
) -> bool {
    let n = a.hard_links@.len() as int;
    &&& a.link_error(parent, name, target) is None
    &&& b == (Hdf5Writer { hard_links: b.hard_links, ..a })
    &&& b.hard_links@.len() == n + 1
    &&& b.hard_links@.take(n) == a.hard_links@
    &&& same_parent(b.hard_links@[n].parent, a.link_parent(parent))
    &&& b.hard_links@[n].name@ == name
    &&& a.target_at(trimmed(target)) == Some(b.hard_links@[n].target)
}

/// What listing a dataset in a group comes to.
pub open spec fn dataset_listed(
    a: Hdf5Writer,
    b: Hdf5Writer,
    r: IoResult<()>,
    path: Seq<char>,
    i: usize,
) -> bool {
    match a.group_index(path) {
        Some(g) => {
            &&& r is Ok
            &&& same_rest(b, a)
            &&& b.datasets == a.datasets
            &&& b.groups@.len() == a.groups@.len()
            &&& forall|x: int|
                0 <= x < a.groups@.len() && x != g ==> #[trigger] b.groups@[x] == a.groups@[x]
            &&& group_but_datasets(b.groups@[g], a.groups@[g])
            &&& b.groups@[g].child_datasets@ == a.groups@[g].child_datasets@.push(i)
        },
        None => {
            &&& r matches Err(e) && e@ == IoErrorView::NotFound(
                "group '"@ + path + "' not found"@,
            )
            &&& b == a
        },
    }
}

/// What setting a fill value comes to.
pub open spec fn fill_put(
    a: Hdf5Writer,
    b: Hdf5Writer,
    r: IoResult<Option<BytesWrite>>,
    i: int,
    bytes: Seq<u8>,
) -> bool {
    match r {
        Ok(w) => {
            let d = a.datasets@[i];
            &&& fill_error(a, i, bytes.len()) is None
            &&& same_others(a, b, i)
            &&& b.datasets@[i] == (DatasetInfo {
                fill_value: b.datasets@[i].fill_value,
                header_changed: true,
                ..d
            })
            &&& b.datasets@[i].fill_value is Some
            &&& b.datasets@[i].fill_value->0@ == bytes
            &&& if !crate::io::writer::content::is_chunked(d) && d.data_addr != UNDEF_ADDR
                && d.data_size > 0 {
                w is Some && w->0.at == d.data_addr && w->0.bytes@
                    == crate::format::messages::fill_value::tiled(d.data_size as nat, Some(bytes))
            } else {
                w is None
            }
        },
        Err(e) => fill_error(a, i, bytes.len()) == Some(e@) && b == a,
    }
}

/// Why a whole dataset cannot be written: the number of values does not fit the
/// shape, or the name is taken.
pub open spec fn whole_error(w: Hdf5Writer, name: Seq<char>, dims: Seq<u64>, n: nat) -> Option<
    IoErrorView,
> {
    if n != volume(dims) {
        Some(
            IoErrorView::InvalidState(
                "write_dataset: data has "@ + decimal(n) + " elements but shape "@ + shape_text(
                    dims,
                ) + " needs "@ + decimal(volume(dims)),
            ),
        )
    } else if w.name_error(name) is Some {
        w.name_error(name)
    } else {
        None
    }
}

/// Whether a dataset in one piece has been added to the file.
pub open spec fn piece_added<T: H5Type>(
    a: Hdf5Writer,
    b: Hdf5Writer,
    name: Seq<char>,
    dims: Seq<u64>,
) -> bool {
    let i = a.datasets@.len() as int;
    let size = byte_len(dims, T::size());
    let eof = a.allocator.spec_eof() as int;
    let d = b.datasets@[i];
    &&& added(a, b)
    &&& d.datatype.message_view() == T::type_view()
    &&& bare_dataset(d, name, d.datatype, SpaceView { dims, max_dims: None })
    &&& in_one_piece(
        d,
        if size > 0 {
            align8(eof) as u64
        } else {
            UNDEF_ADDR
        },
        size as u64,
    )
    &&& b.allocator.spec_eof() == if size > 0 {
        align8(eof) + size
    } else {
        eof
    }
}

/// Whether a dataset of strings has been added to the file.
pub open spec fn strings_added(
    a: Hdf5Writer,
    b: Hdf5Writer,
    p: VlenPlan,
    name: Seq<char>,
    strings: Seq<Seq<char>>,
    heap: HeapImage,
) -> bool {
    let eof = a.allocator.spec_eof() as int;
    let size = strings.len() * reference_size(a.ctx);
    let d = b.datasets@[p.index as int];
    &&& p.index == a.datasets@.len()
    &&& added(a, b)
    &&& p.heap_addr == align8(eof)
    &&& p.data_addr == align8(p.heap_addr + heap.size)
    &&& p.raw@ == references(strings, heap.indices@, p.heap_addr, a.ctx)
    &&& bare_dataset(
        d,
        name,
        crate::format::messages::datatype::DatatypeMessage::VarLenString { size: 16 },
        SpaceView { dims: seq![strings.len() as u64], max_dims: None },
    )
    &&& in_one_piece(d, p.data_addr, size as u64)
    &&& b.allocator.spec_eof() == p.data_addr + size
}

/// Whether the buffers of frames stay with their datasets when the file changes.
pub open spec fn streams_kept(a: Hdf5Writer, b: Hdf5Writer) -> bool {
    &&& b.wf()
    &&& b.datasets@.len() >= a.datasets@.len()
    &&& forall|i: int|
        0 <= i < a.datasets@.len() ==> {
            let x = a.datasets@[i];
            let y = #[trigger] b.datasets@[i];
            &&& y.datatype == x.datatype
            &&& y.dataspace == x.dataspace
            &&& y.chunked == x.chunked
        }
}

proof fn lemma_kept(a: SwmrWriter, b: SwmrWriter)
    requires
        a.wf(),
        streams_kept(a.writer, b.writer),
        b.bands == a.bands,
    ensures
        b.wf(),
{
    assert forall|k: int| 0 <= k < b.bands@.len() implies (#[trigger] b.bands@[k]).ds_index
        < b.writer.datasets@.len() && b.bands@[k].fits(
        b.writer.datasets@[b.bands@[k].ds_index as int],
    ) by {
        let x = a.bands@[k];
        assert(x.fits(a.writer.datasets@[x.ds_index as int]));
        let i = x.ds_index as int;
        assert(b.writer.datasets@[i].chunked == a.writer.datasets@[i].chunked);
    }
}

proof fn lemma_added_kept(a: Hdf5Writer, b: Hdf5Writer)
    requires
        added(a, b),
        b.wf(),
    ensures
        streams_kept(a, b),
{
    assert forall|i: int| 0 <= i < a.datasets@.len() implies ({
        let x = a.datasets@[i];
        let y = #[trigger] b.datasets@[i];
        &&& y.datatype == x.datatype
        &&& y.dataspace == x.dataspace
        &&& y.chunked == x.chunked
    }) by {
        assert(b.datasets@.take(a.datasets@.len() as int)[i] == b.datasets@[i]);
    }
}

impl SwmrFileWriter {
    /// The streams are in order.
    pub open spec fn wf(self) -> bool {
        self.inner.wf()
    }

    /// A writer for a new file. `setting` is the value of `HDF5_USE_FILE_LOCKING`.
    pub fn create(setting: Option<&str>) -> (w: Self)
        ensures
            w.wf(),
            w.locking == policy_of(
                match setting {
                    Some(v) => Some(v@),
                    None => None,
                },
            ),
            !w.inner.swmr_active,
            w.inner.bands@.len() == 0,
            new_file(w.inner.writer),
    {
        SwmrFileWriter {
            inner: SwmrWriter::create(),
            locking: FileLocking::parse_env_value(setting),
        }
    }

    /// A writer for a new file with an explicit locking policy.
    pub fn create_with_locking(locking: FileLocking) -> (w: Self)
        ensures
            w.wf(),
            w.locking == locking,
            !w.inner.swmr_active,
            w.inner.bands@.len() == 0,
            new_file(w.inner.writer),
    {
        SwmrFileWriter { inner: SwmrWriter::create(), locking }
    }

    /// A writer that goes on with a file, as it was found. `setting` is the value of
    /// `HDF5_USE_FILE_LOCKING`.
    pub fn open_append(writer: Hdf5Writer, setting: Option<&str>) -> (w: Self)
        requires
            writer.wf(),
        ensures
            w.wf(),
            w.locking == policy_of(
                match setting {
                    Some(v) => Some(v@),
                    None => None,
                },
            ),
            !w.inner.swmr_active,
            w.inner.bands@.len() == 0,
            w.inner.writer == writer,
    {
        SwmrFileWriter {
            inner: SwmrWriter::open_append(writer),
            locking: FileLocking::parse_env_value(setting),
        }
    }

    /// A writer that goes on with a file, with an explicit locking policy.
    pub fn open_append_with_locking(writer: Hdf5Writer, locking: FileLocking) -> (w: Self)
        requires
            writer.wf(),
        ensures
            w.wf(),
            w.locking == locking,
            !w.inner.swmr_active,
            w.inner.bands@.len() == 0,
            w.inner.writer == writer,
    {
        SwmrFileWriter { inner: SwmrWriter::open_append(writer), locking }
    }

    /// The index of a dataset by name.
    pub fn dataset_index(&self, name: &str) -> (r: Option<usize>)
        ensures
            is_at(r, self.inner.writer.spec_dataset_index(name@)),
    {
        self.inner.dataset_index(name)
    }

    /// Create a stream of frames. The dataset begins with the shape `[0, frame_dims...]`;
    /// each frame is one chunk.
    pub fn create_streaming_dataset<T: H5Type>(
        &mut self,
        name: &str,
        frame_dims: &[u64],
    ) -> (r: IoResult<usize>)
        requires
            old(self).wf(),
            frame_dims@.len() < u64::MAX,
            stream_room(old(self).inner.writer, cons(1u64, frame_dims@), T::size(), false),
        ensures
            final(self).wf(),
            final(self).locking == old(self).locking,
            typed_stream::<T>(
                old(self).inner,
                final(self).inner,
                r,
                name@,
                frame_dims@,
                cons(1u64, frame_dims@),
                None,
            ) && final(self).inner.bands == old(self).inner.bands,
    {
        self.inner.create_streaming_dataset(name, T::hdf5_type(), frame_dims)
    }

    /// Create a stream of frames that pass a filter pipeline.
    pub fn create_streaming_dataset_compressed<T: H5Type>(
        &mut self,
        name: &str,
        frame_dims: &[u64],
        pipeline: FilterPipeline,
    ) -> (r: IoResult<usize>)
        requires
            old(self).wf(),
            frame_dims@.len() < u64::MAX,
            stream_room(old(self).inner.writer, cons(1u64, frame_dims@), T::size(), true),
        ensures
            final(self).wf(),
            final(self).locking == old(self).locking,
            typed_stream::<T>(
                old(self).inner,
                final(self).inner,
                r,
                name@,
                frame_dims@,
                cons(1u64, frame_dims@),
                Some(pipeline),
            ) && final(self).inner.bands == old(self).inner.bands,
    {
        self.inner.create_streaming_dataset_compressed(name, T::hdf5_type(), frame_dims, pipeline)
    }

    /// Create a stream of frames that are cut into tiles of the shape `frame_chunk`.
    pub fn create_streaming_dataset_tiled<T: H5Type>(
        &mut self,
        name: &str,
        frame_dims: &[u64],
        frame_chunk: &[u64],
    ) -> (r: IoResult<usize>)
        requires
            old(self).wf(),
            frame_dims@.len() < u64::MAX,
            stream_room(old(self).inner.writer, cons(1u64, frame_chunk@), T::size(), false),
        ensures
            final(self).wf(),
            final(self).locking == old(self).locking,
            match tile_error(frame_dims@, frame_chunk@) {
                Some(x) => (r matches Err(e) && e@ == x) && *final(self) == *old(self),
                None => typed_stream::<T>(
                old(self).inner,
                final(self).inner,
                r,
                name@,
                frame_dims@,
                cons(1u64, frame_chunk@),
                None,
            ) && final(self).inner.bands == old(self).inner.bands,
            },
    {
        self.inner.create_streaming_dataset_tiled(name, T::hdf5_type(), frame_dims, frame_chunk)
    }

    /// Create a stream of frames that are cut into tiles, each of which passes a filter
    /// pipeline.
    pub fn create_streaming_dataset_tiled_compressed<T: H5Type>(
        &mut self,
        name: &str,
        frame_dims: &[u64],
        frame_chunk: &[u64],
        pipeline: FilterPipeline,
    ) -> (r: IoResult<usize>)
        requires
            old(self).wf(),
            frame_dims@.len() < u64::MAX,
            stream_room(old(self).inner.writer, cons(1u64, frame_chunk@), T::size(), true),
        ensures
            final(self).wf(),
            final(self).locking == old(self).locking,
            match tile_error(frame_dims@, frame_chunk@) {
                Some(x) => (r matches Err(e) && e@ == x) && *final(self) == *old(self),
                None => typed_stream::<T>(
                old(self).inner,
                final(self).inner,
                r,
                name@,
                frame_dims@,
                cons(1u64, frame_chunk@),
                Some(pipeline),
            ) && final(self).inner.bands == old(self).inner.bands,
            },
    {
        self.inner.create_streaming_dataset_tiled_compressed(name, T::hdf5_type(), frame_dims, frame_chunk, pipeline)
    }

    /// Create a stream of frames with chunks of any shape: `chunk[0]` frames, each cut
    /// into tiles of the shape `chunk[1..]`.
    pub fn create_streaming_dataset_chunked<T: H5Type>(
        &mut self,
        name: &str,
        frame_dims: &[u64],
        chunk: &[u64],
    ) -> (r: IoResult<usize>)
        requires
            old(self).wf(),
            frame_dims@.len() < u64::MAX,
            stream_room(old(self).inner.writer, chunk@, T::size(), false),
        ensures
            final(self).wf(),
            final(self).locking == old(self).locking,
            match stream_chunk_error(frame_dims@, chunk@) {
                Some(x) => (r matches Err(e) && e@ == x) && *final(self) == *old(self),
                None => typed_stream::<T>(
                old(self).inner,
                final(self).inner,
                r,
                name@,
                frame_dims@,
                chunk@,
                None,
            ) && band_added(
                    old(self).inner,
                    final(self).inner,
                    r,
                    frame_dims@,
                    chunk@,
                ),
            },
    {
        self.inner.create_streaming_dataset_chunked(name, T::hdf5_type(), frame_dims, chunk)
    }

    /// Create a stream of frames with chunks of any shape that pass a filter pipeline.
    pub fn create_streaming_dataset_chunked_compressed<T: H5Type>(
        &mut self,
        name: &str,
        frame_dims: &[u64],
        chunk: &[u64],
        pipeline: FilterPipeline,
    ) -> (r: IoResult<usize>)
        requires
            old(self).wf(),
            frame_dims@.len() < u64::MAX,
            stream_room(old(self).inner.writer, chunk@, T::size(), true),
        ensures
            final(self).wf(),
            final(self).locking == old(self).locking,
            match stream_chunk_error(frame_dims@, chunk@) {
                Some(x) => (r matches Err(e) && e@ == x) && *final(self) == *old(self),
                None => typed_stream::<T>(
                old(self).inner,
                final(self).inner,
                r,
                name@,
                frame_dims@,
                chunk@,
                Some(pipeline),
            ) && band_added(
                    old(self).inner,
                    final(self).inner,
                    r,
                    frame_dims@,
                    chunk@,
                ),
            },
    {
        self.inner.create_streaming_dataset_chunked_compressed(name, T::hdf5_type(), frame_dims, chunk, pipeline)
    }

    /// Create a hard link: an additional name for a dataset or group that already
    /// exists in the file.
    pub fn create_hard_link(
        &mut self,
        parent_group_path: &str,
        link_name: &str,
        target_path: &str,
    ) -> (r: IoResult<()>)
        requires
            old(self).wf(),
        ensures
            final(self).wf(),
            match r {
                Ok(_) => link_made(
                    old(self).inner.writer,
                    final(self).inner.writer,
                    parent_group_path@,
                    link_name@,
                    target_path@,
                ) && kept(*old(self), *final(self)),
                Err(e) => old(self).inner.writer.link_error(
                    parent_group_path@,
                    link_name@,
                    target_path@,
                ) == Some(e@) && *final(self) == *old(self),
            },
    {
        let ghost before = *self;
        let r = self.inner.writer.create_hard_link(parent_group_path, link_name, target_path);
        proof {
            lemma_kept(before.inner, self.inner);
        }
        r
    }

    /// Create a group in the group at `parent_group_path` ("/" for the root group).
    pub fn create_group(&mut self, parent_group_path: &str, name: &str) -> (r: IoResult<()>)
        requires
            old(self).wf(),
            old(self).inner.writer.groups@.len() < usize::MAX,
        ensures
            final(self).wf(),
            match r {
                Ok(_) => group_made(
                    old(self).inner.writer,
                    final(self).inner.writer,
                    parent_group_path@,
                    name@,
                ) && kept(*old(self), *final(self)),
                Err(e) => old(self).inner.writer.group_error(parent_group_path@, name@) == Some(e@)
                    && *final(self) == *old(self),
            },
    {
        let ghost before = *self;
        let r = self.inner.writer.create_group(parent_group_path, name);
        proof {
            lemma_kept(before.inner, self.inner);
        }
        match r {
            Ok(_) => Ok(()),
            Err(e) => Err(e),
        }
    }

    /// Set an attribute of a group, or of the root group.
    fn put_group_attribute(&mut self, group_path: &str, attr: AttributeMessage) -> (r: IoResult<
        (),
    >)
        requires
            old(self).wf(),
        ensures
            final(self).wf(),
            kept(*old(self), *final(self)),
            group_attribute_put(
                old(self).inner.writer,
                final(self).inner.writer,
                r,
                group_path@,
                attr@,
            ),
    {
        let ghost before = *self;
        if is_root(group_path) {
            self.inner.writer.add_root_attribute(attr);
            proof {
                lemma_kept(before.inner, self.inner);
            }
            Ok(())
        } else {
            let r = self.inner.writer.add_group_attribute(group_path, attr);
            proof {
                lemma_kept(before.inner, self.inner);
            }
            r
        }
    }

    /// Set a string attribute of a group, or of the root group when the path is
    /// "/". An existing attribute of the same name is replaced.
    pub fn set_group_attr_string(&mut self, group_path: &str, name: &str, value: &str) -> (r:
        IoResult<()>)
        requires
            old(self).wf(),
            encode_utf8(value@).len() <= u32::MAX,
        ensures
            final(self).wf(),
            kept(*old(self), *final(self)),
            group_attribute_put(
                old(self).inner.writer,
                final(self).inner.writer,
                r,
                group_path@,
                text_attribute(name@, value@),
            ),
    {
        self.put_group_attribute(group_path, AttributeMessage::scalar_string(name, value))
    }

    /// Set a numeric attribute of a group, or of the root group when the path is
    /// "/". An existing attribute of the same name is replaced.
    pub fn set_group_attr_numeric<T: H5Type>(&mut self, group_path: &str, name: &str, value: &T)
        -> (r: IoResult<()>)
        requires
            old(self).wf(),
        ensures
            final(self).wf(),
            kept(*old(self), *final(self)),
            group_attribute_put(
                old(self).inner.writer,
                final(self).inner.writer,
                r,
                group_path@,
                scalar_attribute(name@, T::type_view(), value.bytes()),
            ),
    {
        self.put_group_attribute(
            group_path,
            AttributeMessage::scalar_numeric(name, T::hdf5_type(), value.to_bytes()),
        )
    }

    /// Create a dataset of fixed shape and write all its data. The shape of a single
    /// value is empty. Returns the bytes that are to be written; nothing is written
    /// to an empty dataset, which has no place in the file.
    pub fn write_dataset<T: H5Type>(&mut self, name: &str, dims: &[u64], data: &[T]) -> (r:
        IoResult<WholeDataset>)
        requires
            old(self).wf(),
            old(self).inner.writer.datasets@.len() < usize::MAX,
            volume(dims@) <= u64::MAX,
            data@.len() == volume(dims@) ==> old(self).inner.writer.allocator.spec_eof() + 8
                + byte_len(dims@, T::size()) <= u64::MAX,
        ensures
            final(self).wf(),
            match whole_error(old(self).inner.writer, name@, dims@, data@.len()) {
                Some(x) => (r matches Err(e) && e@ == x) && *final(self) == *old(self),
                None => {
                    let b = final(self).inner.writer;
                    let i = old(self).inner.writer.datasets@.len() as int;
                    &&& kept(*old(self), *final(self))
                    &&& piece_added::<T>(old(self).inner.writer, b, name@, dims@)
                    &&& r matches Ok(w) && w.index == i && if byte_len(dims@, T::size()) > 0 {
                        w.write matches Some(x) && x.at == b.datasets@[i].data_addr && x.bytes@
                            == elements(data@)
                    } else {
                        w.write is None
                    }
                },
            },
    {
        let ghost before = *self;
        let expected: u64 = match element_count(dims) {
            Some(n) => n,
            None => 0,
        };
        if data.len() as u64 != expected {
            let t = append_shape(
                Text::new("write_dataset: data has ").number(data.len() as u64).text(
                    " elements but shape ",
                ),
                dims,
            );
            return Err(invalid_state(t.text(" needs ").number(expected)));
        }
        let bytes = slice_to_bytes(data);
        match self.inner.writer.create_dataset(name, T::hdf5_type(), dims) {
            Err(e) => Err(e),
            Ok(index) => {
                proof {
                    lemma_added_kept(before.inner.writer, self.inner.writer);
                    lemma_kept(before.inner, self.inner);
                }
                if bytes.len() == 0 {
                    return Ok(WholeDataset { index, write: None });
                }
                match self.inner.writer.write_dataset_raw(index, bytes.as_slice()) {
                    Err(e) => Err(e),
                    Ok(at) => Ok(WholeDataset { index, write: Some(BytesWrite { at, bytes }) }),
                }
            },
        }
    }

    /// Create a dataset of strings, one element per string.
    pub fn write_string_dataset(&mut self, name: &str, strings: &[&str], heap: &HeapImage) -> (r:
        IoResult<VlenPlan>)
        requires
            old(self).wf(),
            old(self).inner.writer.datasets@.len() < usize::MAX,
            heap.indices@.len() == strings@.len(),
            old(self).inner.writer.allocator.spec_eof() + 16 + heap.size + strings@.len()
                * reference_size(old(self).inner.writer.ctx) <= u64::MAX,
        ensures
            final(self).wf(),
            kept(*old(self), *final(self)),
            match old(self).inner.writer.name_error(name@) {
                Some(x) => (r matches Err(e) && e@ == x) && *final(self) == *old(self),
                None => r matches Ok(p) && strings_added(
                    old(self).inner.writer,
                    final(self).inner.writer,
                    p,
                    name@,
                    contents(strings@),
                    *heap,
                ),
            },
    {
        let ghost before = *self;
        let r = self.inner.writer.create_vlen_string_dataset(name, strings, heap);
        proof {
            if r is Ok {
                lemma_added_kept(before.inner.writer, self.inner.writer);
            }
            lemma_kept(before.inner, self.inner);
        }
        r
    }

    /// Set a string attribute of a dataset. An existing attribute of the same name is
    /// replaced.
    pub fn set_dataset_attr_string(&mut self, ds_index: usize, name: &str, value: &str) -> (r:
        IoResult<()>)
        requires
            old(self).wf(),
            encode_utf8(value@).len() <= u32::MAX,
        ensures
            final(self).wf(),
            kept(*old(self), *final(self)),
            dataset_attribute_put(
                old(self).inner.writer,
                final(self).inner.writer,
                r,
                ds_index as int,
                text_attribute(name@, value@),
            ),
    {
        let ghost before = *self;
        let r = self.inner.writer.put_dataset_attribute(
            ds_index,
            AttributeMessage::scalar_string(name, value),
        );
        proof {
            lemma_kept(before.inner, self.inner);
        }
        r
    }

    /// Set a numeric attribute of a dataset. An existing attribute of the same name is
    /// replaced.
    pub fn set_dataset_attr_numeric<T: H5Type>(
        &mut self,
        ds_index: usize,
        name: &str,
        value: &T,
    ) -> (r: IoResult<()>)
        requires
            old(self).wf(),
        ensures
            final(self).wf(),
            kept(*old(self), *final(self)),
            dataset_attribute_put(
                old(self).inner.writer,
                final(self).inner.writer,
                r,
                ds_index as int,
                scalar_attribute(name@, T::type_view(), value.bytes()),
            ),
    {
        let ghost before = *self;
        let r = self.inner.writer.put_dataset_attribute(
            ds_index,
            AttributeMessage::scalar_numeric(name, T::hdf5_type(), value.to_bytes()),
        );
        proof {
            lemma_kept(before.inner, self.inner);
        }
        r
    }

    /// Set the fill value of a dataset, before frames are appended.
    pub fn set_dataset_fill_value<T: H5Type>(&mut self, ds_index: usize, value: &T) -> (r: IoResult<
        Option<BytesWrite>,
    >)
        requires
            old(self).wf(),
            ds_index < old(self).inner.writer.datasets@.len() ==> old(
                self,
            ).inner.writer.datasets@[ds_index as int].data_size <= usize::MAX,
        ensures
            final(self).wf(),
            kept(*old(self), *final(self)),
            fill_put(
                old(self).inner.writer,
                final(self).inner.writer,
                r,
                ds_index as int,
                value.bytes(),
            ),
    {
        let ghost before = *self;
        let bytes = value.to_bytes();
        let r = self.inner.writer.set_dataset_fill_value(ds_index, bytes);
        proof {
            lemma_kept(before.inner, self.inner);
        }
        r
    }

    /// Place an existing dataset inside a group.
    pub fn assign_dataset_to_group(&mut self, group_path: &str, ds_index: usize) -> (r: IoResult<
        (),
    >)
        requires
            old(self).wf(),
            ds_index < old(self).inner.writer.datasets@.len(),
        ensures
            final(self).wf(),
            kept(*old(self), *final(self)),
            dataset_listed(
                old(self).inner.writer,
                final(self).inner.writer,
                r,
                group_path@,
                ds_index,
            ),
    {
        let ghost before = *self;
        let r = self.inner.writer.assign_dataset_to_group(group_path, ds_index);
        proof {
            lemma_kept(before.inner, self.inner);
        }
        r
    }

    /// Begin the time in which others can read the file. Returns the steps that write
    /// it.
    pub fn start_swmr(&mut self) -> (steps: Vec<FinalStep>)
        requires
            old(self).wf(),
        ensures
            final(self).wf(),
            steps@ == final_steps(old(self).inner.writer, true, SWMR_FLAGS),
            final(self).inner == (SwmrWriter { swmr_active: true, ..old(self).inner }),
            final(self).locking == old(self).locking,
    {
        self.inner.start_swmr()
    }

    /// Append a frame to a stream. Returns the chunks that are to be written now.
    pub fn append_frame(&mut self, ds_index: usize, data: &[u8]) -> (r: IoResult<Vec<ChunkWrite>>)
        requires
            old(self).wf(),
            ds_index < old(self).inner.writer.datasets@.len(),
            old(self).inner.frame_fits(ds_index as int),
        ensures
            final(self).wf(),
            final(self).locking == old(self).locking,
            final(self).inner.swmr_active == old(self).inner.swmr_active,
            match old(self).inner.frame_error(ds_index as int, data@.len()) {
                Some(x) => (r matches Err(e) && e@ == x) && *final(self) == *old(self),
                None => {
                    &&& r matches Ok(v) && numbered(v@) == old(self).inner.frame_writes(
                        ds_index as int,
                        data@,
                    )
                    &&& dims_set(
                        old(self).inner.writer,
                        final(self).inner.writer,
                        ds_index as int,
                        one_more(old(self).inner.writer.datasets@[ds_index as int]),
                    )
                    &&& final(self).inner.writer.allocator == old(self).inner.writer.allocator
                    &&& old(self).inner.bands_after(
                        ds_index as int,
                        data@,
                        final(self).inner.bands@,
                    )
                },
            },
    {
        self.inner.append_frame(ds_index, data)
    }

    /// The steps that bring to disk what has been written, in an order that is safe
    /// for readers.
    pub fn flush(&self) -> (steps: Vec<FlushStep>)
        ensures
            steps@ == flush_steps(self.inner),
    {
        self.inner.flush()
    }

    /// End the streams. Returns the chunks of the bands that are not complete; when
    /// they are written, the file is finished.
    pub fn close(&mut self) -> (out: Vec<LastBand>)
        requires
            old(self).wf(),
            forall|k: int|
                0 <= k < old(self).inner.bands@.len() && (
                #[trigger] old(self).inner.bands@[k]).frames@.len() > 0 ==> old(
                    self,
                ).inner.bands@[k].writable(
                    old(self).inner.writer.datasets@[old(
                        self,
                    ).inner.bands@[k].ds_index as int].dataspace.dims@[0] as int / old(
                        self,
                    ).inner.bands@[k].frames_per_chunk as int,
                ),
        ensures
            final(self).wf(),
            last_bands(out@) == old(self).inner.unfinished(old(self).inner.bands@.len()),
            final(self).inner.bands@.len() == 0,
            final(self).inner.writer == old(self).inner.writer,
            final(self).inner.swmr_active == old(self).inner.swmr_active,
            final(self).locking == old(self).locking,
    {
        self.inner.close_bands()
    }
}

/// Whether everything but the file itself has stayed.
pub open spec fn kept(a: SwmrFileWriter, b: SwmrFileWriter) -> bool {
    &&& b.locking == a.locking
    &&& b.inner == (SwmrWriter { writer: b.inner.writer, ..a.inner })
}

} // verus!
