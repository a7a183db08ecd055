//! Datasets of strings of any length.
//!
//! The strings stand in global heaps; an element of the dataset is a reference
//! to a string.

use crate::format::bytes::{copy_range, joined, push_slice};
use crate::format::global_heap::{
    encode_vlen_reference, reference_bytes, reference_size, vlen_reference_size,
};
use crate::format::messages::dataspace::{DataspaceMessage, SpaceView};
use crate::format::messages::datatype::DatatypeMessage;
use crate::format::messages::fill_value::{tiled, tiled_fill};
use crate::format::messages::filter::FilterPipeline;
use crate::format::{FormatContext, UNDEF_ADDR};
use crate::io::allocator::align8;
use crate::io::writer::datasets::{
    added, bare_dataset, byte_len, compute_chunk_size_len, ea_element_size, ea_eof, in_one_piece,
    new_chunked, size_width,
};
use crate::io::writer::state::{DatasetInfo, Hdf5Writer};
use crate::io::IoResult;
use vstd::prelude::*;
use vstd::utf8::encode_utf8;

verus! {

/// The strings of a call, in the heap that holds them.
#[derive(Debug)]
pub struct HeapImage {
    /// The number of each string within the heap.
    pub indices: Vec<u16>,
    /// Bytes of the heap.
    pub size: u64,
}

/// The reference to string `i` in the heap at `addr`.
pub open spec fn string_reference(
    strings: Seq<Seq<char>>,
    indices: Seq<u16>,
    addr: u64,
    ctx: FormatContext,
    i: int,
) -> Seq<u8> {
    reference_bytes(
        (encode_utf8(strings[i]).len() as usize) as u32,
        addr,
        indices[i] as u32,
        ctx,
    )
}

/// The references to all strings, one behind the other.
pub open spec fn references(
    strings: Seq<Seq<char>>,
    indices: Seq<u16>,
    addr: u64,
    ctx: FormatContext,
) -> Seq<u8> {
    joined(Seq::new(strings.len(), |i: int| string_reference(strings, indices, addr, ctx, i)))
}

/// What strings say.
pub open spec fn contents(strings: Seq<&str>) -> Seq<Seq<char>> {
    Seq::new(strings.len(), |i: int| strings[i]@)
}

/// The references to all strings, one behind the other.
pub fn string_references(strings: &[&str], indices: &Vec<u16>, addr: u64, ctx: &FormatContext) -> (raw:
    Vec<u8>)
    requires
        indices@.len() == strings@.len(),
    ensures
        raw@ == references(contents(strings@), indices@, addr, *ctx),
        raw@.len() == strings@.len() * reference_size(*ctx),
{
    let mut raw: Vec<u8> = Vec::new();
    let ghost text = contents(strings@);
    let ghost n = reference_size(*ctx);
    let mut i: usize = 0;
    let ghost items = Seq::new(
        text.len(),
        |i: int| string_reference(text, indices@, addr, *ctx, i),
    );
    assert(items.take(0) =~= Seq::<Seq<u8>>::empty());
    assert(0 * n == 0) by (nonlinear_arith);
    while i < strings.len()
        invariant
            i <= strings@.len(),
            indices@.len() == strings@.len(),
            text == contents(strings@),
            n == reference_size(*ctx),
            items == Seq::new(
                text.len(),
                |i: int| string_reference(text, indices@, addr, *ctx, i),
            ),
            raw@ == joined(items.take(i as int)),
            raw@.len() == i * n,
        decreases strings@.len() - i,
    {
        let len: u32 = strings[i].len() as u32;
        let b = encode_vlen_reference(len, addr, indices[i] as u32, ctx);
        proof {
            let t = items.take(i + 1);
            assert(t.drop_last() =~= items.take(i as int));
            assert(t.last() == items[i as int]);
            assert(items[i as int] == b@);
            let k = i as int;
            let m = n as int;
            assert((k + 1) * m == k * m + m) by (nonlinear_arith);
        }
        push_slice(&mut raw, b.as_slice());
        i = i + 1;
    }
    assert(items.take(i as int) =~= items);
    raw
}

/// Where the parts of a new string dataset go.
#[derive(Debug)]
pub struct VlenPlan {
    /// The new dataset.
    pub index: usize,
    /// Address of the heap.
    pub heap_addr: u64,
    /// Address of the references, if they stand in one piece.
    pub data_addr: u64,
    /// The references.
    pub raw: Vec<u8>,
}

/// Data cut into chunks of `size` bytes, the last one filled up.
pub open spec fn filled_chunk(raw: Seq<u8>, size: int, fill: Option<Seq<u8>>, i: int) -> Seq<u8> {
    let rest = tiled(size as nat, fill);
    Seq::new(
        size as nat,
        |k: int|
            if i * size + k < raw.len() {
                raw[i * size + k]
            } else {
                rest[k]
            },
    )
}

/// How many chunks of `size` bytes hold `len` bytes.
pub open spec fn chunks_for(len: int, size: int) -> int {
    (len + size - 1) / size
}

/// Cut data into chunks of `size` bytes, the last one filled up.
pub fn cut_into_chunks(raw: &[u8], size: usize, fill: Option<&[u8]>) -> (chunks: Vec<Vec<u8>>)
    requires
        size > 0,
    ensures
        chunks@.len() == chunks_for(raw@.len() as int, size as int),
        forall|i: int|
            0 <= i < chunks@.len() ==> #[trigger] chunks@[i]@ == filled_chunk(
                raw@,
                size as int,
                match fill {
                    Some(b) => Some(b@),
                    None => None,
                },
                i,
            ),
{
    let ghost fv: Option<Seq<u8>> = match fill {
        Some(b) => Some(b@),
        None => None,
    };
    let mut chunks: Vec<Vec<u8>> = Vec::new();
    let mut at: usize = 0;
    let len: usize = raw.len();
    let ghost s = size as int;
    let ghost l = len as int;
    let ghost mut i: int = 0;
    assert(0 * s == 0) by (nonlinear_arith);
    while at < len
        invariant
            len == raw@.len(),
            size > 0,
            s == size,
            l == len,
            0 <= i,
            chunks@.len() == i,
            at <= len,
            at < len ==> at == i * s,
            at == len ==> i * s >= l,
            i > 0 ==> (i - 1) * s < l,
            fv == (match fill {
                Some(b) => Some(b@),
                None => None::<Seq<u8>>,
            }),
            forall|k: int|
                0 <= k < i ==> #[trigger] chunks@[k]@ == filled_chunk(raw@, s, fv, k),
        decreases len - at,
    {
        let end: usize = if len - at > size {
            at + size
        } else {
            len
        };
        let mut chunk: Vec<u8> = copy_range(raw, at, end);
        if end - at < size {
            let rest = tiled_fill(size, fill);
            let tail = copy_range(rest.as_slice(), end - at, size);
            push_slice(&mut chunk, tail.as_slice());
        }
        assert(chunk@ =~= filled_chunk(raw@, s, fv, i));
        chunks.push(chunk);
        proof {
            assert((i + 1) * s == i * s + s) by (nonlinear_arith);
            i = i + 1;
        }
        at = end;
    }
    proof {
        let c = chunks_for(l, s);
        if l == 0 {
            assert(i * s >= 0);
            assert(i == 0) by {
                if i > 0 {
                    assert((i - 1) * s >= 0) by (nonlinear_arith)
                        requires
                            i > 0,
                            s > 0,
                    ;
                }
            }
            assert((s - 1) / s == 0) by (nonlinear_arith)
                requires
                    s > 0,
            ;
        } else {
            assert(i > 0) by {
                if i == 0 {
                    assert(i * s == 0) by (nonlinear_arith)
                        requires
                            i == 0,
                    ;
                }
            }
            vstd::arithmetic::div_mod::lemma_fundamental_div_mod(l + s - 1, s);
            vstd::arithmetic::div_mod::lemma_mod_bound(l + s - 1, s);
            assert(c == i) by (nonlinear_arith)
                requires
                    l + s - 1 == s * c + (l + s - 1) % s,
                    0 <= (l + s - 1) % s < s,
                    i * s >= l,
                    (i - 1) * s < l,
                    s > 0,
            ;
        }
    }
    chunks
}

/// The chunks of data hold the data: byte `k` stands in chunk `k / size` at
/// `k % size`.
pub proof fn lemma_cut_into_chunks(raw: Seq<u8>, size: int, fill: Option<Seq<u8>>, k: int)
    requires
        size > 0,
        0 <= k < raw.len(),
    ensures
        0 <= k / size < chunks_for(raw.len() as int, size),
        filled_chunk(raw, size, fill, k / size)[k % size] == raw[k],
{
    let l = raw.len() as int;
    vstd::arithmetic::div_mod::lemma_fundamental_div_mod(k, size);
    vstd::arithmetic::div_mod::lemma_mod_bound(k, size);
    vstd::arithmetic::div_mod::lemma_fundamental_div_mod(l + size - 1, size);
    vstd::arithmetic::div_mod::lemma_mod_bound(l + size - 1, size);
    let q = k / size;
    let c = chunks_for(l, size);
    assert(0 <= q < c) by (nonlinear_arith)
        requires
            k == size * q + k % size,
            0 <= k % size < size,
            l + size - 1 == size * c + (l + size - 1) % size,
            0 <= (l + size - 1) % size < size,
            0 <= k < l,
            size > 0,
    ;
    assert(q * size + k % size == k) by (nonlinear_arith)
        requires
            k == size * q + k % size,
    ;
}

impl Hdf5Writer {
    /// Create a dataset of strings that stands in one piece.
    pub fn create_vlen_string_dataset(
        &mut self,
        name: &str,
        strings: &[&str],
        heap: &HeapImage,
    ) -> (r: IoResult<VlenPlan>)
        requires
            old(self).wf(),
            old(self).datasets@.len() < usize::MAX,
            heap.indices@.len() == strings@.len(),
            old(self).allocator.spec_eof() + 16 + heap.size + strings@.len() * reference_size(
                old(self).ctx,
            ) <= u64::MAX,
        ensures
            final(self).wf(),
            match r {
                Ok(p) => {
                    let eof = old(self).allocator.spec_eof() as int;
                    let size = strings@.len() * reference_size(old(self).ctx);
                    let d = final(self).datasets@[p.index as int];
                    &&& old(self).name_error(name@) is None
                    &&& p.index == old(self).datasets@.len()
                    &&& added(*old(self), *final(self))
                    &&& p.heap_addr == align8(eof)
                    &&& p.data_addr == align8(p.heap_addr + heap.size)
                    &&& p.raw@ == references(
                        contents(strings@),
                        heap.indices@,
                        p.heap_addr,
                        old(self).ctx,
                    )
                    &&& bare_dataset(
                        d,
                        name@,
                        DatatypeMessage::VarLenString { size: 16 },
                        SpaceView { dims: seq![strings@.len() as u64], max_dims: None },
                    )
                    &&& in_one_piece(d, p.data_addr, size as u64)
                    &&& final(self).allocator.spec_eof() == p.data_addr + size
                },
                Err(e) => {
                    &&& old(self).name_error(name@) == Some(e@)
                    &&& *final(self) == *old(self)
                },
            },
    {
        match self.ensure_unique_dataset_name(name) {
            Ok(_) => {},
            Err(e) => {
                return Err(e);
            },
        }
        let heap_addr: u64 = self.allocator.allocate(heap.size);
        let raw = string_references(strings, &heap.indices, heap_addr, &self.ctx);
        let size: u64 = raw.len() as u64;
        let data_addr: u64 = self.allocator.allocate(size);
        let mut dims: Vec<u64> = Vec::new();
        dims.push(strings.len() as u64);
        assert(dims@ =~= seq![strings@.len() as u64]);
        let index: usize = self.push_dataset(
            DatasetInfo {
                name: name.to_owned(),
                datatype: DatatypeMessage::vlen_string_utf8(),
                dataspace: DataspaceMessage::simple(dims.as_slice()),
                obj_header_addr: 0,
                data_addr,
                data_size: size,
                chunked: None,
                fixed_array: None,
                btree_v2: None,
                attributes: Vec::new(),
                obj_header_written_addr: None,
                obj_header_encoded_size: 0,
                filter_pipeline: None,
                append_buffer: Vec::new(),
                append_buffered_frames: 0,
                deleted: false,
                fill_value: None,
                kept_layout: None,
                header_changed: false,
            },
        );
        Ok(VlenPlan { index, heap_addr, data_addr, raw })
    }

    /// Create a dataset of strings whose references stand in compressed chunks of
    /// `chunk_size` strings. The references are written chunk by chunk, the last chunk
    /// filled up with zeros.
    pub fn create_vlen_string_dataset_compressed(
        &mut self,
        name: &str,
        strings: &[&str],
        chunk_size: usize,
        pipeline: FilterPipeline,
        heap: &HeapImage,
    ) -> (r: IoResult<VlenPlan>)
        requires
            old(self).wf(),
            old(self).datasets@.len() < usize::MAX,
            heap.indices@.len() == strings@.len(),
            old(self).allocator.spec_eof() + 8 + heap.size <= u64::MAX,
            chunk_size * reference_size(old(self).ctx) <= u64::MAX,
            ({
                let csl = Some(size_width(chunk_size as nat * reference_size(old(self).ctx)) as u8);
                let raw = ea_element_size(old(self).ctx, csl);
                raw <= 255 && ea_eof(
                    old(self).ctx,
                    raw,
                    align8(old(self).allocator.spec_eof() as int) + heap.size,
                ) <= u64::MAX
            }),
        ensures
            final(self).wf(),
            match r {
                Ok(p) => {
                    let eof = old(self).allocator.spec_eof() as int;
                    let n = strings@.len() as u64;
                    let csl = Some(size_width(chunk_size as nat * reference_size(old(self).ctx)) as u8);
                    let d = final(self).datasets@[p.index as int];
                    &&& old(self).name_error(name@) is None
                    &&& p.index == old(self).datasets@.len()
                    &&& added(*old(self), *final(self))
                    &&& p.heap_addr == align8(eof)
                    &&& p.data_addr == UNDEF_ADDR
                    &&& p.raw@ == references(
                        contents(strings@),
                        heap.indices@,
                        p.heap_addr,
                        old(self).ctx,
                    )
                    &&& bare_dataset(
                        d,
                        name@,
                        DatatypeMessage::VarLenString { size: 16 },
                        SpaceView { dims: seq![n], max_dims: Some(seq![n]) },
                    )
                    &&& d.filter_pipeline == Some(pipeline)
                    &&& new_chunked(
                        d,
                        old(self).ctx,
                        csl,
                        p.heap_addr + heap.size,
                        seq![n],
                        seq![chunk_size as u64],
                    )
                    &&& final(self).allocator.spec_eof() == ea_eof(
                        old(self).ctx,
                        ea_element_size(old(self).ctx, csl),
                        p.heap_addr + heap.size,
                    )
                },
                Err(e) => {
                    &&& old(self).name_error(name@) == Some(e@)
                    &&& *final(self) == *old(self)
                },
            },
    {
        match self.ensure_unique_dataset_name(name) {
            Ok(_) => {},
            Err(e) => {
                return Err(e);
            },
        }
        let ghost before = *self;
        let heap_addr: u64 = self.allocator.allocate(heap.size);
        let raw = string_references(strings, &heap.indices, heap_addr, &self.ctx);
        let width: u64 = vlen_reference_size(&self.ctx) as u64;
        let csl: u8 = compute_chunk_size_len(chunk_size as u64 * width);
        let mut dims: Vec<u64> = Vec::new();
        dims.push(strings.len() as u64);
        let mut chunk_dims: Vec<u64> = Vec::new();
        chunk_dims.push(chunk_size as u64);
        assert(dims@ =~= seq![strings@.len() as u64]);
        assert(chunk_dims@ =~= seq![chunk_size as u64]);
        let ghost mid = *self;
        proof {
            crate::io::writer::content::lemma_same_catalog(before, mid);
        }
        let index: usize = self.push_chunked(
            name,
            DatatypeMessage::vlen_string_utf8(),
            dims.as_slice(),
            dims.as_slice(),
            chunk_dims.as_slice(),
            Some(pipeline),
            Some(csl),
        );
        Ok(VlenPlan { index, heap_addr, data_addr: UNDEF_ADDR, raw })
    }

    /// Create an empty dataset of strings that can be appended to, in chunks of
    /// `chunk_size` strings.
    pub fn create_appendable_vlen_string_dataset(
        &mut self,
        name: &str,
        chunk_size: usize,
        pipeline: Option<FilterPipeline>,
    ) -> (r: IoResult<usize>)
        requires
            chunk_size * 16 <= u64::MAX,
            old(self).index_room(appendable_width(chunk_size, pipeline)),
        ensures
            final(self).wf(),
            match r {
                Ok(i) => {
                    let eof = old(self).allocator.spec_eof() as int;
                    let csl = appendable_width(chunk_size, pipeline);
                    let d = final(self).datasets@[i as int];
                    &&& old(self).name_error(name@) is None
                    &&& i == old(self).datasets@.len()
                    &&& added(*old(self), *final(self))
                    &&& bare_dataset(
                        d,
                        name@,
                        DatatypeMessage::VarLenString { size: 16 },
                        SpaceView { dims: seq![0u64], max_dims: Some(seq![u64::MAX]) },
                    )
                    &&& d.filter_pipeline == pipeline
                    &&& new_chunked(
                        d,
                        old(self).ctx,
                        csl,
                        eof,
                        seq![u64::MAX],
                        seq![chunk_size as u64],
                    )
                    &&& final(self).allocator.spec_eof() == ea_eof(
                        old(self).ctx,
                        ea_element_size(old(self).ctx, csl),
                        eof,
                    )
                },
                Err(e) => {
                    &&& old(self).name_error(name@) == Some(e@)
                    &&& *final(self) == *old(self)
                },
            },
    {
        let mut dims: Vec<u64> = Vec::new();
        dims.push(0);
        let mut max_dims: Vec<u64> = Vec::new();
        max_dims.push(u64::MAX);
        let mut chunk_dims: Vec<u64> = Vec::new();
        chunk_dims.push(chunk_size as u64);
        assert(dims@ =~= seq![0u64]);
        assert(max_dims@ =~= seq![u64::MAX]);
        assert(chunk_dims@ =~= seq![chunk_size as u64]);
        proof {
            lemma_list_len(chunk_size as u64);
        }
        match pipeline {
            Some(p) => self.create_chunked_dataset_with_pipeline(
                name,
                DatatypeMessage::vlen_string_utf8(),
                dims.as_slice(),
                max_dims.as_slice(),
                chunk_dims.as_slice(),
                p,
            ),
            None => self.create_chunked_dataset(
                name,
                DatatypeMessage::vlen_string_utf8(),
                dims.as_slice(),
                max_dims.as_slice(),
                chunk_dims.as_slice(),
            ),
        }
    }
}

/// Bytes of the size of a chunk of an appendable dataset of strings.
pub open spec fn appendable_width(chunk_size: usize, pipeline: Option<FilterPipeline>) -> Option<
    u8,
> {
    match pipeline {
        Some(_) => Some(size_width(chunk_size as nat * 16) as u8),
        None => None,
    }
}

/// A list has as many elements as its one dimension says.
proof fn lemma_list_len(n: u64)
    ensures
        crate::io::array::volume(seq![n]) == n,
        byte_len(seq![n], 16) == n * 16,
{
    let s = seq![n];
    assert(s.drop_last() =~= Seq::<u64>::empty());
    assert(crate::io::array::volume(Seq::<u64>::empty()) == 1);
    assert(crate::io::array::volume(s) == n) by {
        assert(1 * n == n) by (nonlinear_arith);
    }
}

} // verus!
