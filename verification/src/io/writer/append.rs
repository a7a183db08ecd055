//! Appending frames to a chunked dataset.
//!
//! Frames that do not fill a chunk wait in a buffer until more come.

use crate::format::bytes::{copy_range, push_slice};
use crate::format::global_heap::{reference_size, vlen_reference_size};
use crate::format::messages::dataspace::copy_dims;
use crate::format::messages::fill_value::tiled;
use crate::io::allocator::align8;
use crate::io::slices::patched;
use crate::io::writer::attributes::fill_of;
use crate::io::writer::content::lemma_same_catalog;
use crate::io::writer::datasets::{byte_count, byte_len};
use crate::io::writer::state::{DatasetInfo, Hdf5Writer};
use crate::io::writer::storage::{chunk_shape, same_others};
use crate::io::writer::vlen::{contents, references, string_references, HeapImage};
use crate::io::{invalid_state, IoError, IoErrorView, IoResult};
use crate::text::{decimal, Text};
use vstd::arithmetic::div_mod::{lemma_fundamental_div_mod, lemma_mod_bound};
use vstd::prelude::*;

verus! {

/// Bytes of the appended data that go into one chunk.
#[derive(Debug, Clone, Copy, PartialEq, Eq, Structural)]
pub struct AppendStep {
    /// The chunk.
    pub chunk_idx: u64,
    /// First byte within the chunk. The chunk holds earlier frames before it.
    pub offset: usize,
    /// First byte of the data.
    pub from: usize,
    /// End of the data.
    pub to: usize,
}

impl AppendStep {
    /// What the chunk holds after the step, if it held `existing` before.
    pub open spec fn content(self, data: Seq<u8>, existing: Seq<u8>) -> Seq<u8> {
        let new = data.subrange(self.from as int, self.to as int);
        if self.offset == 0 {
            new
        } else {
            patched(existing, self.offset as int, new)
        }
    }

    /// The bytes of the chunk after the step. A chunk that is filled up from its first
    /// frame on is new; any other has to be there already, and keeps its earlier frames.
    pub fn chunk_bytes(&self, data: &[u8], existing: Option<Vec<u8>>) -> (r: IoResult<Vec<u8>>)
        requires
            self.from <= self.to <= data@.len(),
            self.offset > 0 ==> (existing matches Some(e) ==> self.offset + (self.to - self.from)
                <= e@.len()),
        ensures
            match existing {
                Some(e) => r matches Ok(b) && b@ == self.content(data@, e@),
                None => if self.offset == 0 {
                    r matches Ok(b) && b@ == self.content(data@, Seq::empty())
                } else {
                    r matches Err(e) && e@ == IoErrorView::InvalidState(
                        "cannot append into partially-written chunk "@ + decimal(
                            self.chunk_idx as nat,
                        )
                            + ": its existing content was not found in the chunk index (the file may be inconsistent)"@,
                    )
                },
            },
    {
        let new = copy_range(data, self.from, self.to);
        if self.offset == 0 {
            return Ok(new);
        }
        match existing {
            None => Err(
                invalid_state(
                    Text::new("cannot append into partially-written chunk ").number(
                        self.chunk_idx,
                    ).text(
                        ": its existing content was not found in the chunk index (the file may be inconsistent)",
                    ),
                ),
            ),
            Some(e) => {
                let n: usize = e.len();
                let end: usize = self.offset + (self.to - self.from);
                let mut b = copy_range(e.as_slice(), 0, self.offset);
                let tail = copy_range(e.as_slice(), end, n);
                push_slice(&mut b, new.as_slice());
                push_slice(&mut b, tail.as_slice());
                assert(b@ =~= self.content(data@, e@));
                Ok(b)
            },
        }
    }
}

/// The larger of two numbers.
pub open spec fn later(a: int, b: int) -> int {
    if a < b {
        b
    } else {
        a
    }
}

/// What goes into chunk `k` when frames from `base` on are appended. Chunks hold
/// `c` frames of `fb` bytes.
pub open spec fn step_for(base: int, c: int, fb: int, k: int) -> AppendStep {
    let s = later(base, k * c);
    AppendStep {
        chunk_idx: k as u64,
        offset: ((s - k * c) * fb) as usize,
        from: ((s - base) * fb) as usize,
        to: (((k + 1) * c - base) * fb) as usize,
    }
}

/// The chunks that `total` frames from `base` on fill up.
pub open spec fn steps_for(base: int, total: int, c: int, fb: int) -> Seq<AppendStep> {
    Seq::new(
        ((base + total) / c - base / c) as nat,
        |j: int| step_for(base, c, fb, base / c + j),
    )
}

/// How many frames stay behind after the last chunk that is filled up.
pub open spec fn frames_left(base: int, total: int, c: int) -> int {
    base + total - later(base, ((base + total) / c) * c)
}

proof fn lemma_step(base: int, total: int, c: int, fb: int, k: int)
    requires
        0 <= base,
        0 <= total,
        0 < c,
        0 <= fb,
        base / c <= k < (base + total) / c,
    ensures
        0 <= k,
        base < (k + 1) * c <= base + total,
        0 <= later(base, k * c) - k * c < c,
        0 <= (later(base, k * c) - k * c) * fb,
        (later(base, k * c) - k * c) * fb + ((k + 1) * c - later(base, k * c)) * fb == c * fb,
        0 <= (later(base, k * c) - base) * fb <= ((k + 1) * c - base) * fb,
        ((k + 1) * c - base) * fb <= total * fb,
{
    lemma_fundamental_div_mod(base, c);
    lemma_mod_bound(base, c);
    lemma_fundamental_div_mod(base + total, c);
    lemma_mod_bound(base + total, c);
    let q = base / c;
    let e = (base + total) / c;
    assert(0 <= q) by (nonlinear_arith)
        requires
            base == c * q + base % c,
            0 <= base,
            base % c < c,
            c > 0,
    ;
    assert(base < (k + 1) * c <= base + total) by (nonlinear_arith)
        requires
            base == c * q + base % c,
            0 <= base % c < c,
            base + total == c * e + (base + total) % c,
            0 <= (base + total) % c,
            q <= k < e,
            c > 0,
    ;
    assert((k + 1) * c == k * c + c) by (nonlinear_arith);
    let s = later(base, k * c);
    let x = s - k * c;
    let y = (k + 1) * c - s;
    assert(x * fb >= 0 && x * fb + y * fb == c * fb) by (nonlinear_arith)
        requires
            x >= 0,
            fb >= 0,
            x + y == c,
    ;
    let f = s - base;
    let t = (k + 1) * c - base;
    assert(0 <= f * fb <= t * fb && t * fb <= total * fb) by (nonlinear_arith)
        requires
            0 <= f <= t <= total,
            fb >= 0,
    ;
}

/// The chunks that `total` frames from `base` on fill up. Chunks hold `c` frames
/// of `fb` bytes.
pub fn append_steps(base: u64, total: u64, c: u64, fb: usize) -> (steps: Vec<AppendStep>)
    requires
        c > 0,
        base + total <= u64::MAX,
        total * fb <= usize::MAX,
        c * fb <= usize::MAX,
    ensures
        steps@ == steps_for(base as int, total as int, c as int, fb as int),
{
    let first: u64 = base / c;
    let end: u64 = (base + total) / c;
    let mut steps: Vec<AppendStep> = Vec::new();
    let ghost bi = base as int;
    let ghost ti = total as int;
    let ghost ci = c as int;
    let ghost fi = fb as int;
    proof {
        assert(bi / ci <= (bi + ti) / ci) by (nonlinear_arith)
            requires
                0 <= bi,
                0 <= ti,
                0 < ci,
        ;
    }
    let mut k: u64 = first;
    while k < end
        invariant
            c > 0,
            bi == base,
            ti == total,
            ci == c,
            fi == fb,
            base + total <= u64::MAX,
            total * fb <= usize::MAX,
            c * fb <= usize::MAX,
            first == bi / ci,
            end == (bi + ti) / ci,
            first <= k <= end,
            steps@ == steps_for(bi, ti, ci, fi).take(k - first),
        decreases end - k,
    {
        proof {
            lemma_step(bi, ti, ci, fi, k as int);
            let ki = k as int;
            assert((ki + 1) * ci == ki * ci + ci) by (nonlinear_arith);
        }
        let start: u64 = k * c;
        let s: u64 = if base < start {
            start
        } else {
            base
        };
        proof {
            let ki = k as int;
            let x = later(bi, ki * ci) - ki * ci;
            let y = (ki + 1) * ci - later(bi, ki * ci);
            assert(y * fi >= 0) by (nonlinear_arith)
                requires
                    y >= 0,
                    fi >= 0,
            ;
            assert(s as int == later(bi, ki * ci));
            lemma_small_factor((s - start) as int, fi, usize::MAX as int);
            lemma_small_factor((s - base) as int, fi, usize::MAX as int);
            lemma_small_factor(start + c - base, fi, usize::MAX as int);
        }
        let offset: usize = ((s - start) as u128 * fb as u128) as usize;
        let from: usize = ((s - base) as u128 * fb as u128) as usize;
        let to: usize = ((start + c - base) as u128 * fb as u128) as usize;
        let step = AppendStep { chunk_idx: k, offset, from, to };
        proof {
            let all = steps_for(bi, ti, ci, fi);
            assert(step == step_for(bi, ci, fi, k as int));
            assert(all[k - first] == step);
            assert(all.take(k - first + 1) =~= all.take(k - first).push(step));
        }
        steps.push(step);
        k = k + 1;
    }
    proof {
        let all = steps_for(bi, ti, ci, fi);
        assert(all.take(k - first) =~= all);
    }
    steps
}

proof fn lemma_small_factor(a: int, b: int, m: int)
    requires
        0 <= a,
        0 <= b,
        a * b <= m,
        m <= 0xffff_ffff_ffff_ffff,
    ensures
        a * b <= 0xffff_ffff_ffff_ffff,
        0 <= a * b,
{
    assert(0 <= a * b) by (nonlinear_arith)
        requires
            0 <= a,
            0 <= b,
    ;
}

/// What appending strings to a dataset comes to.
#[derive(Debug)]
pub struct AppendPlan {
    /// Address of the heap with the strings.
    pub heap_addr: u64,
    /// The waiting frames and the new ones, one behind the other.
    pub combined: Vec<u8>,
    /// The chunks that are filled up.
    pub steps: Vec<AppendStep>,
    /// The shape of the dataset with the new frames.
    pub new_dims: Vec<u64>,
}

/// Whether the buffer of a dataset holds what its counters say.
pub open spec fn buffer_ok(d: DatasetInfo, fb: nat) -> bool {
    let c = chunk_shape(d)->0;
    &&& d.dataspace.dims@.len() > 0
    &&& c.len() > 0
    &&& c[0] > 0
    &&& d.append_buffered_frames <= d.dataspace.dims@[0]
    &&& d.append_buffer@.len() == d.append_buffered_frames * fb
}

/// Whether appending `n` frames fits the machine.
pub open spec fn append_fits(d: DatasetInfo, fb: nat, n: nat) -> bool {
    &&& d.dataspace.dims@[0] + n <= u64::MAX
    &&& (d.append_buffered_frames + n) * fb <= usize::MAX
    &&& chunk_shape(d)->0[0] * fb <= usize::MAX
}

/// Whether frames have been appended to a dataset, its shape not yet changed.
pub open spec fn appended(
    d: DatasetInfo,
    d2: DatasetInfo,
    raw: Seq<u8>,
    n: nat,
    fb: nat,
    p: AppendPlan,
) -> bool {
    let c = chunk_shape(d)->0[0] as int;
    let base = d.dataspace.dims@[0] - d.append_buffered_frames;
    let total = d.append_buffered_frames + n;
    let left = frames_left(base, total, c);
    &&& p.combined@ == d.append_buffer@ + raw
    &&& p.steps@ == steps_for(base, total, c, fb as int)
    &&& p.new_dims@ == d.dataspace.dims@.update(0, (d.dataspace.dims@[0] + n) as u64)
    &&& d2 == (DatasetInfo {
        append_buffer: d2.append_buffer,
        append_buffered_frames: left as u64,
        ..d
    })
    &&& d2.append_buffer@ == p.combined@.subrange(
        (total - left) * fb,
        p.combined@.len() as int,
    )
}

impl Hdf5Writer {
    /// Append strings to a chunked dataset of strings: place the heap that holds
    /// them, and tell which chunks are filled up with which references. The
    /// references that do not fill a chunk wait in the buffer of the dataset.
    pub fn append_vlen_strings(&mut self, ds_index: usize, strings: &[&str], heap: &HeapImage) -> (r:
        IoResult<Option<AppendPlan>>)
        requires
            old(self).wf(),
            ds_index < old(self).datasets@.len(),
            heap.indices@.len() == strings@.len(),
            old(self).allocator.spec_eof() + 8 + heap.size <= u64::MAX,
            chunk_shape(old(self).datasets@[ds_index as int]) is Some ==> {
                &&& buffer_ok(old(self).datasets@[ds_index as int], reference_size(old(self).ctx))
                &&& append_fits(
                    old(self).datasets@[ds_index as int],
                    reference_size(old(self).ctx),
                    strings@.len(),
                )
            },
        ensures
            final(self).wf(),
            ({
                let d = old(self).datasets@[ds_index as int];
                let fb = reference_size(old(self).ctx);
                let at = align8(old(self).allocator.spec_eof() as int);
                if strings@.len() == 0 {
                    r == Ok::<Option<AppendPlan>, IoError>(None) && *final(self) == *old(self)
                } else {
                    &&& final(self).allocator.spec_eof() == at + heap.size
                    &&& same_others(*old(self), *final(self), ds_index as int)
                    &&& if chunk_shape(d) is None {
                        &&& (r matches Err(e) && e@ == IoErrorView::InvalidState(
                            "not a chunked dataset"@,
                        ))
                        &&& final(self).datasets@[ds_index as int] == d
                    } else {
                        &&& r matches Ok(Some(p)) && p.heap_addr == at && appended(
                            d,
                            final(self).datasets@[ds_index as int],
                            references(
                                contents(strings@),
                                heap.indices@,
                                at as u64,
                                old(self).ctx,
                            ),
                            strings@.len(),
                            fb,
                            p,
                        )
                    }
                }
            }),
    {
        if strings.len() == 0 {
            return Ok(None);
        }
        let ghost before = *self;
        let ghost d0 = self.datasets@[ds_index as int];
        let heap_addr: u64 = self.allocator.allocate(heap.size);
        let ctx = self.ctx;
        let raw = string_references(strings, &heap.indices, heap_addr, &ctx);
        proof {
            lemma_same_catalog(before, *self);
        }
        let fb: usize = vlen_reference_size(&ctx);
        let c: u64 = match self.dataset_chunk_dims(ds_index) {
            None => {
                return Err(invalid_state(Text::new("not a chunked dataset")));
            },
            Some(cd) => cd[0],
        };
        let n: u64 = strings.len() as u64;
        let buffered: u64 = self.datasets[ds_index].append_buffered_frames;
        let dim0: u64 = self.datasets[ds_index].dataspace.dims[0];
        let base: u64 = dim0 - buffered;
        let total: u64 = buffered + n;
        let ghost fi = fb as int;
        let mut combined: Vec<u8> = copy_range(
            self.datasets[ds_index].append_buffer.as_slice(),
            0,
            self.datasets[ds_index].append_buffer.len(),
        );
        push_slice(&mut combined, raw.as_slice());
        proof {
            assert(combined@ =~= d0.append_buffer@ + raw@);
            assert(combined@.len() == total * fb) by {
                assert(buffered * fi + n * fi == (buffered + n) * fi) by (nonlinear_arith);
            }
        }
        let steps = append_steps(base, total, c, fb);
        let end: u64 = (base + total) / c;
        proof {
            let e = end as int;
            let ci = c as int;
            lemma_fundamental_div_mod(base + total, ci);
            lemma_mod_bound(base + total, ci);
            assert(0 <= e * ci <= base + total) by (nonlinear_arith)
                requires
                    base + total == ci * e + (base + total) % ci,
                    0 <= (base + total) % ci,
                    0 <= e,
                    0 < ci,
            ;
        }
        let full: u64 = end * c;
        let start: u64 = if base < full {
            full
        } else {
            base
        };
        let left: u64 = base + total - start;
        proof {
            let done = (start - base) as int;
            assert(0 <= done * fi <= total * fi) by (nonlinear_arith)
                requires
                    0 <= done <= total,
                    0 <= fi,
            ;
        }
        let from: usize = ((start - base) as u128 * fb as u128) as usize;
        let rest: Vec<u8> = copy_range(combined.as_slice(), from, combined.len());
        let mut new_dims: Vec<u64> = copy_dims(self.datasets[ds_index].dataspace.dims.as_slice());
        new_dims.set(0, base + total);
        self.datasets[ds_index].append_buffer = rest;
        self.datasets[ds_index].append_buffered_frames = left;
        proof {
            lemma_same_catalog(before, *self);
        }
        Ok(Some(AppendPlan { heap_addr, combined, steps, new_dims }))
    }

    /// The chunk that the waiting frames of a dataset go into, and what it holds
    /// then. Frames that the chunk already holds come from `existing`; the rest
    /// of the chunk is filled up. The buffer is emptied.
    pub fn flush_append_buffer(&mut self, i: usize, existing: Option<&[u8]>) -> (r: Option<
        (u64, Vec<u8>),
    >)
        requires
            old(self).wf(),
            i < old(self).datasets@.len(),
            flushable(old(self).datasets@[i as int]) ==> flush_ok(old(self).datasets@[i as int]),
        ensures
            final(self).wf(),
            final(self).allocator == old(self).allocator,
            ({
                let d = old(self).datasets@[i as int];
                if flushable(d) {
                    &&& r matches Some(c) && c.0 == flush_number(d) && c.1@ == flush_content(
                        d,
                        match existing {
                            Some(b) => Some(b@),
                            None => None,
                        },
                    )
                    &&& same_others(*old(self), *final(self), i as int)
                    &&& final(self).datasets@[i as int].append_buffer@.len() == 0
                    &&& final(self).datasets@[i as int] == (DatasetInfo {
                        append_buffer: final(self).datasets@[i as int].append_buffer,
                        append_buffered_frames: 0,
                        ..d
                    })
                } else {
                    r is None && *final(self) == *old(self)
                }
            }),
    {
        if self.datasets[i].append_buffer.len() == 0 {
            return None;
        }
        let ghost before = *self;
        let ghost d0 = self.datasets@[i as int];
        let size: u64;
        let c: u64;
        match self.dataset_chunk_dims(i) {
            None => {
                return None;
            },
            Some(cd) => {
                size = byte_count(cd, self.datasets[i].datatype.element_size() as u64);
                c = cd[0];
            },
        }
        let dims = self.datasets[i].dataspace.dims.as_slice();
        let es: u64 = self.datasets[i].datatype.element_size() as u64;
        let rest = vstd::slice::slice_subrange(dims, 1, dims.len());
        let frame: u64 = byte_count(rest, es);
        let base: u64 = dims[0] - self.datasets[i].append_buffered_frames;
        let number: u64 = base / c;
        let ghost at = (base as int % c as int) * frame as int;
        proof {
            assert(at >= 0) by (nonlinear_arith)
                requires
                    at == (base as int % c as int) * frame as int,
                    c > 0,
            ;
        }
        let offset: usize = ((base % c) as u128 * frame as u128) as usize;
        let mut chunk: Vec<u8> = match existing {
            Some(b) => {
                if b.len() as u64 == size {
                    copy_range(b, 0, b.len())
                } else {
                    self.new_chunk_buffer(i, size as usize)
                }
            },
            None => self.new_chunk_buffer(i, size as usize),
        };
        let ghost empty = chunk@;
        let n: usize = self.datasets[i].append_buffer.len();
        let mut k: usize = 0;
        while k < n
            invariant
                i < self.datasets@.len(),
                *self == before,
                n == self.datasets@[i as int].append_buffer@.len(),
                k <= n,
                offset + n <= empty.len(),
                chunk.len() == empty.len(),
                chunk@ == patched(
                    empty,
                    offset as int,
                    self.datasets@[i as int].append_buffer@.take(k as int),
                ),
            decreases n - k,
        {
            let b: u8 = self.datasets[i].append_buffer[k];
            chunk.set(offset + k, b);
            assert(chunk@ =~= patched(
                empty,
                offset as int,
                self.datasets@[i as int].append_buffer@.take(k + 1),
            ));
            k = k + 1;
        }
        assert(d0.append_buffer@.take(n as int) =~= d0.append_buffer@);
        self.datasets[i].append_buffer = Vec::new();
        self.datasets[i].append_buffered_frames = 0;
        proof {
            lemma_same_catalog(before, *self);
        }
        Some((number, chunk))
    }
}

/// Whether frames of a chunked dataset wait.
pub open spec fn flushable(d: DatasetInfo) -> bool {
    d.append_buffer@.len() > 0 && chunk_shape(d) is Some
}

/// Bytes of a frame.
pub open spec fn frame_len(d: DatasetInfo) -> nat {
    byte_len(
        d.dataspace.dims@.subrange(1, d.dataspace.dims@.len() as int),
        d.datatype.spec_element_size() as nat,
    )
}

/// First of the frames that wait.
pub open spec fn flush_base(d: DatasetInfo) -> int {
    d.dataspace.dims@[0] - d.append_buffered_frames
}

/// Whether the waiting frames fit into their chunk.
pub open spec fn flush_ok(d: DatasetInfo) -> bool {
    let c = chunk_shape(d)->0;
    &&& d.dataspace.dims@.len() > 0
    &&& c.len() > 0
    &&& c[0] > 0
    &&& d.append_buffered_frames <= d.dataspace.dims@[0]
    &&& byte_len(c, d.datatype.spec_element_size() as nat) <= usize::MAX
    &&& frame_len(d) <= u64::MAX
    &&& flush_offset(d) + d.append_buffer@.len() <= byte_len(
        c,
        d.datatype.spec_element_size() as nat,
    )
}

/// Where the waiting frames stand in their chunk.
pub open spec fn flush_offset(d: DatasetInfo) -> int {
    (flush_base(d) % chunk_shape(d)->0[0] as int) * frame_len(d)
}

/// The chunk that the waiting frames go into.
pub open spec fn flush_number(d: DatasetInfo) -> int {
    flush_base(d) / chunk_shape(d)->0[0] as int
}

/// The chunk with the waiting frames in it.
pub open spec fn flush_content(d: DatasetInfo, existing: Option<Seq<u8>>) -> Seq<u8> {
    let size = byte_len(chunk_shape(d)->0, d.datatype.spec_element_size() as nat);
    let start = match existing {
        Some(b) => if b.len() == size {
            b
        } else {
            tiled(size, fill_of(d))
        },
        None => tiled(size, fill_of(d)),
    };
    patched(start, flush_offset(d), d.append_buffer@)
}

/// Every appended frame has its place: a frame of a chunk that is filled up goes
/// to its place in that chunk, a frame beyond those chunks waits in the buffer.
pub proof fn lemma_frame_placed(base: int, total: int, c: int, fb: int, f: int)
    requires
        0 <= base <= f < base + total,
        0 < c,
        0 <= fb,
        total * fb <= usize::MAX,
        c * fb <= usize::MAX,
        base + total <= u64::MAX,
    ensures
        if f / c < (base + total) / c {
            let s = steps_for(base, total, c, fb)[f / c - base / c];
            &&& 0 <= f / c - base / c < steps_for(base, total, c, fb).len()
            &&& s.chunk_idx == f / c
            &&& (f - base) * fb - s.from == (f % c) * fb - s.offset
            &&& s.from <= (f - base) * fb
            &&& (f - base) * fb + fb <= s.to
        } else {
            f >= base + total - frames_left(base, total, c)
        },
{
    lemma_fundamental_div_mod(f, c);
    lemma_mod_bound(f, c);
    lemma_fundamental_div_mod(base, c);
    lemma_mod_bound(base, c);
    lemma_fundamental_div_mod(base + total, c);
    lemma_mod_bound(base + total, c);
    let k = f / c;
    let q = base / c;
    let e = (base + total) / c;
    assert(q <= k <= e) by (nonlinear_arith)
        requires
            f == c * k + f % c,
            0 <= f % c < c,
            base == c * q + base % c,
            0 <= base % c < c,
            base + total == c * e + (base + total) % c,
            0 <= (base + total) % c < c,
            base <= f < base + total,
            c > 0,
    ;
    if k < e {
        lemma_step(base, total, c, fb, k);
        let s = later(base, k * c);
        assert(k * c == c * k) by (nonlinear_arith);
        assert(k >= 0 && e <= base + total) by (nonlinear_arith)
            requires
                base + total == c * e + (base + total) % c,
                0 <= (base + total) % c,
                base == c * q + base % c,
                0 <= base % c < c,
                0 <= base,
                q <= k,
                k < e,
                c > 0,
        ;
        let x = (s - k * c) * fb;
        let from = (s - base) * fb;
        let to = ((k + 1) * c - base) * fb;
        let g = (f - base) * fb;
        let m = (f % c) * fb;
        assert(g - from == m - x) by (nonlinear_arith)
            requires
                g == (f - base) * fb,
                from == (s - base) * fb,
                m == (f % c) * fb,
                x == (s - k * c) * fb,
                f == c * k + f % c,
                k * c == c * k,
        ;
        assert((k + 1) * c == k * c + c) by (nonlinear_arith);
        assert(from <= g && g + fb <= to) by (nonlinear_arith)
            requires
                g == (f - base) * fb,
                from == (s - base) * fb,
                to == ((k + 1) * c - base) * fb,
                s <= f,
                f + 1 <= (k + 1) * c,
                fb >= 0,
        ;
        let y = (k + 1) * c - s;
        assert(y * fb >= 0) by (nonlinear_arith)
            requires
                y >= 0,
                fb >= 0,
        ;
    } else {
        assert(e * c <= f) by (nonlinear_arith)
            requires
                f == c * k + f % c,
                0 <= f % c,
                k == e,
        ;
    }
}

} // verus!
