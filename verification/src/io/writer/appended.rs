//! Frames that have been appended are kept, each in its place.

use crate::io::slices::patched;
use crate::io::writer::append::{
    appended, flush_content, flush_number, flush_ok, flushable, frame_len, frames_left, later,
    lemma_frame_placed, step_for, AppendPlan,
};
use crate::io::writer::datasets::byte_len;
use crate::io::writer::state::DatasetInfo;
use crate::io::writer::storage::chunk_shape;
use vstd::arithmetic::div_mod::{
    lemma_fundamental_div_mod, lemma_fundamental_div_mod_converse, lemma_mod_bound,
};
use vstd::prelude::*;

verus! {

/// Frames that are in chunks; the others wait in the buffer.
pub open spec fn frames_stored(d: DatasetInfo) -> int {
    d.dataspace.dims@[0] - d.append_buffered_frames
}

/// Frame `g` of a dataset: `c` frames of `fb` bytes stand in each of its chunks, and those
/// behind them wait.
pub open spec fn frame_at(
    d: DatasetInfo,
    chunks: Map<int, Seq<u8>>,
    c: int,
    fb: int,
    g: int,
) -> Seq<u8> {
    if g < frames_stored(d) {
        chunks[g / c].subrange((g % c) * fb, (g % c) * fb + fb)
    } else {
        d.append_buffer@.subrange(
            (g - frames_stored(d)) * fb,
            (g - frames_stored(d)) * fb + fb,
        )
    }
}

/// Whether all frames of a dataset are there: those that are stored in whole chunks, those
/// that wait in the buffer, and they belong into one chunk.
pub open spec fn all_there(d: DatasetInfo, chunks: Map<int, Seq<u8>>, c: int, fb: int) -> bool {
    let base = frames_stored(d);
    &&& d.dataspace.dims@.len() > 0
    &&& chunk_shape(d) matches Some(s) && s.len() > 0 && s[0] == c
    &&& c > 0
    &&& fb > 0
    &&& c * fb <= usize::MAX
    &&& 0 <= base
    &&& d.append_buffer@.len() == d.append_buffered_frames * fb
    &&& base % c + d.append_buffered_frames <= c
    &&& forall|k: int|
        0 <= k && k * c < base ==> #[trigger] chunks.contains_key(k) && chunks[k].len() == c * fb
}

/// Whether the chunks have been written that an append fills up: each holds what it held
/// before and the new frames, all others are the same.
pub open spec fn steps_written(
    chunks: Map<int, Seq<u8>>,
    now: Map<int, Seq<u8>>,
    p: AppendPlan,
) -> bool {
    &&& forall|j: int|
        0 <= j < p.steps@.len() ==> {
            let s = #[trigger] p.steps@[j];
            &&& now.contains_key(s.chunk_idx as int)
            &&& now[s.chunk_idx as int] == s.content(p.combined@, chunks[s.chunk_idx as int])
        }
    &&& forall|k: int|
        #![trigger now.contains_key(k)]
        #![trigger now[k]]
        (forall|j: int| 0 <= j < p.steps@.len() ==> (#[trigger] p.steps@[j]).chunk_idx != k) ==> {
            &&& now.contains_key(k) == chunks.contains_key(k)
            &&& now[k] == chunks[k]
        }
}

proof fn lemma_div_order(a: int, b: int, c: int)
    requires
        a <= b,
        c > 0,
    ensures
        a / c <= b / c,
        a == c * (a / c) + a % c,
        0 <= a % c < c,
{
    lemma_fundamental_div_mod(a, c);
    lemma_fundamental_div_mod(b, c);
    lemma_mod_bound(a, c);
    lemma_mod_bound(b, c);
    let x = a / c;
    let y = b / c;
    assert(x <= y) by (nonlinear_arith)
        requires
            a == c * x + a % c,
            0 <= a % c < c,
            b == c * y + b % c,
            0 <= b % c < c,
            a <= b,
            c > 0,
    ;
}

/// Products of frames and bytes keep their order.
proof fn lemma_span(a: int, b: int, fb: int)
    requires
        0 <= a,
        a + 1 <= b,
        0 <= fb,
    ensures
        0 <= a * fb,
        a * fb + fb <= b * fb,
{
    assert(0 <= a * fb && a * fb + fb <= b * fb) by (nonlinear_arith)
        requires
            0 <= a,
            a + 1 <= b,
            0 <= fb,
    ;
}

/// How many frames stay behind.
proof fn lemma_left(base: int, total: int, c: int)
    requires
        0 <= base,
        0 <= total,
        0 < c,
    ensures
        ({
            let left = frames_left(base, total, c);
            let now = base + total - left;
            &&& 0 <= left <= total
            &&& now % c + left < c
            &&& now == base || now % c == 0
            &&& now <= ((base + total) / c) * c || now == base
            &&& base / c <= (base + total) / c
        }),
{
    lemma_div_order(base, base + total, c);
    lemma_div_order(base + total, base + total, c);
    let e = (base + total) / c;
    assert(e * c == c * e) by (nonlinear_arith);
    if base < e * c {
        lemma_fundamental_div_mod_converse(e * c, c, e, 0);
    } else {
        let q = base / c;
        assert(q == e) by (nonlinear_arith)
            requires
                base == c * q + base % c,
                base % c < c,
                q <= e,
                base >= c * e,
                c > 0,
        ;
    }
}

/// The frames of the waiting and the appended bytes together.
proof fn lemma_combined(d: DatasetInfo, raw: Seq<u8>, n: int, fb: int, f: int)
    requires
        fb > 0,
        d.append_buffer@.len() == d.append_buffered_frames * fb,
        raw.len() == n * fb,
        0 <= f < d.append_buffered_frames + n,
    ensures
        ({
            let all = d.append_buffer@ + raw;
            let b = d.append_buffered_frames as int;
            &&& all.len() == (b + n) * fb
            &&& 0 <= f * fb
            &&& f * fb + fb <= all.len()
            &&& all.subrange(f * fb, f * fb + fb) == if f < b {
                d.append_buffer@.subrange(f * fb, f * fb + fb)
            } else {
                raw.subrange((f - b) * fb, (f - b) * fb + fb)
            }
        }),
{
    let all = d.append_buffer@ + raw;
    let b = d.append_buffered_frames as int;
    assert((b + n) * fb == b * fb + n * fb) by (nonlinear_arith);
    lemma_span(f, b + n, fb);
    if f < b {
        lemma_span(f, b, fb);
        assert(all.subrange(f * fb, f * fb + fb) =~= d.append_buffer@.subrange(
            f * fb,
            f * fb + fb,
        ));
    } else {
        lemma_span(f - b, n, fb);
        assert((f - b) * fb == f * fb - b * fb) by (nonlinear_arith);
        assert(all.subrange(f * fb, f * fb + fb) =~= raw.subrange(
            (f - b) * fb,
            (f - b) * fb + fb,
        ));
    }
}

/// What step `k` of an append is, in numbers that fit.
proof fn lemma_step_numbers(base: int, total: int, c: int, fb: int, k: int)
    requires
        0 <= base,
        0 <= total,
        0 < c,
        0 < fb,
        total * fb <= usize::MAX,
        c * fb <= usize::MAX,
        base + total <= u64::MAX,
        base / c <= k < (base + total) / c,
    ensures
        ({
            let s = step_for(base, c, fb, k);
            let first = later(base, k * c);
            &&& 0 <= k
            &&& k * c <= first < (k + 1) * c
            &&& s.chunk_idx == k
            &&& s.offset == (first - k * c) * fb
            &&& s.from == (first - base) * fb
            &&& s.to == ((k + 1) * c - base) * fb
            &&& s.from <= s.to <= total * fb
            &&& s.to - s.from + s.offset == c * fb
            &&& (s.offset == 0 <==> first == k * c)
        }),
{
    lemma_div_order(base, base + total, c);
    lemma_div_order(base + total, base + total, c);
    let e = (base + total) / c;
    let q = base / c;
    let first = later(base, k * c);
    assert(0 <= q) by (nonlinear_arith)
        requires
            base == c * q + base % c,
            0 <= base,
            base % c < c,
            c > 0,
    ;
    assert((k + 1) * c == k * c + c) by (nonlinear_arith);
    assert(base < (k + 1) * c) by (nonlinear_arith)
        requires
            base == c * q + base % c,
            base % c < c,
            q <= k,
            c > 0,
    ;
    assert((k + 1) * c <= base + total) by (nonlinear_arith)
        requires
            base + total == c * e + (base + total) % c,
            0 <= (base + total) % c,
            k + 1 <= e,
            c > 0,
    ;
    assert(0 <= k * c && k <= k * c) by (nonlinear_arith)
        requires
            0 <= k,
            c >= 1,
    ;
    let off = (first - k * c) * fb;
    let from = (first - base) * fb;
    let to = ((k + 1) * c - base) * fb;
    assert(0 <= off && off < c * fb) by (nonlinear_arith)
        requires
            off == (first - k * c) * fb,
            0 <= first - k * c < c,
            fb > 0,
    ;
    assert(0 <= from <= to && to <= total * fb) by (nonlinear_arith)
        requires
            from == (first - base) * fb,
            to == ((k + 1) * c - base) * fb,
            0 <= first - base <= (k + 1) * c - base <= total,
            fb > 0,
    ;
    assert(to - from + off == c * fb) by (nonlinear_arith)
        requires
            off == (first - k * c) * fb,
            from == (first - base) * fb,
            to == ((k + 1) * c - base) * fb,
            (k + 1) * c == k * c + c,
    ;
    assert(off == 0 <==> first == k * c) by (nonlinear_arith)
        requires
            off == (first - k * c) * fb,
            fb > 0,
    ;
}

/// Frames that are appended are kept: after the chunks that they fill up have been written,
/// every frame that was there before is there with the same bytes, and behind them stand the
/// new frames, in their order. So strings that are appended come behind those that a dataset
/// holds, also in a chunk that was partly filled.
pub proof fn lemma_append_keeps_frames(
    d: DatasetInfo,
    planned: DatasetInfo,
    after: DatasetInfo,
    chunks: Map<int, Seq<u8>>,
    now: Map<int, Seq<u8>>,
    raw: Seq<u8>,
    n: nat,
    c: int,
    fb: nat,
    p: AppendPlan,
)
    requires
        all_there(d, chunks, c, fb as int),
        raw.len() == n * fb,
        d.dataspace.dims@[0] + n <= u64::MAX,
        (d.append_buffered_frames + n) * fb <= usize::MAX,
        appended(d, planned, raw, n, fb, p),
        after == (DatasetInfo {
            dataspace: after.dataspace,
            header_changed: after.header_changed,
            ..planned
        }),
        after.dataspace.dims@ == p.new_dims@,
        steps_written(chunks, now, p),
    ensures
        after.dataspace.dims@[0] == d.dataspace.dims@[0] + n,
        all_there(after, now, c, fb as int),
        forall|g: int|
            0 <= g < d.dataspace.dims@[0] ==> #[trigger] frame_at(after, now, c, fb as int, g)
                == frame_at(d, chunks, c, fb as int, g),
        forall|f: int|
            0 <= f < n ==> #[trigger] frame_at(
                after,
                now,
                c,
                fb as int,
                d.dataspace.dims@[0] + f,
            ) == raw.subrange(f * fb, f * fb + fb),
{
    let fbi = fb as int;
    let base = frames_stored(d);
    let b = d.append_buffered_frames as int;
    let total = b + n;
    let old_n = d.dataspace.dims@[0] as int;
    let left = frames_left(base, total, c);
    let now_base = base + total - left;
    lemma_left(base, total, c);
    assert(frames_stored(after) == now_base);
    assert(total * fbi == (b + n) * fb);
    let all = p.combined@;
    assert((total - left) * fbi + left * fbi == total * fbi) by (nonlinear_arith);
    assert(0 <= (total - left) * fbi && 0 <= left * fbi) by (nonlinear_arith)
        requires
            0 <= left <= total,
            fbi > 0,
    ;
    assert((b + n) * fbi == b * fbi + n * fbi) by (nonlinear_arith);
    assert(all.len() == total * fbi);
    assert(after.append_buffer@.len() == left * fbi);
    assert forall|k: int| 0 <= k && k * c < now_base implies #[trigger] now.contains_key(k)
        && now[k].len() == c * fbi by {
        lemma_chunk_there(d, planned, chunks, now, raw, n, c, fb, p, k);
    }
    assert forall|g: int| 0 <= g < old_n + n implies #[trigger] frame_at(after, now, c, fbi, g) == (
    if g < old_n {
        frame_at(d, chunks, c, fbi, g)
    } else {
        raw.subrange((g - old_n) * fbi, (g - old_n) * fbi + fbi)
    }) by {
        lemma_one_frame(d, planned, after, chunks, now, raw, n, c, fb, p, g);
    }
    assert forall|f: int| 0 <= f < n implies #[trigger] frame_at(after, now, c, fbi, old_n + f)
        == raw.subrange(f * fb, f * fb + fb) by {
        assert(old_n + f - old_n == f);
    }
}

/// The chunk that holds stored frames is there.
proof fn lemma_chunk_there(
    d: DatasetInfo,
    planned: DatasetInfo,
    chunks: Map<int, Seq<u8>>,
    now: Map<int, Seq<u8>>,
    raw: Seq<u8>,
    n: nat,
    c: int,
    fb: nat,
    p: AppendPlan,
    k: int,
)
    requires
        all_there(d, chunks, c, fb as int),
        raw.len() == n * fb,
        d.dataspace.dims@[0] + n <= u64::MAX,
        (d.append_buffered_frames + n) * fb <= usize::MAX,
        appended(d, planned, raw, n, fb, p),
        steps_written(chunks, now, p),
        0 <= k,
        k * c < frames_stored(d) + d.append_buffered_frames + n - frames_left(
            frames_stored(d),
            d.append_buffered_frames + n,
            c,
        ),
    ensures
        now.contains_key(k),
        now[k].len() == c * fb,
{
    let fbi = fb as int;
    let base = frames_stored(d);
    let b = d.append_buffered_frames as int;
    let total = b + n;
    assert((b + n) * fbi == b * fbi + n * fbi) by (nonlinear_arith);
    lemma_left(base, total, c);
    lemma_div_order(base, base + total, c);
    let q = base / c;
    let e = (base + total) / c;
    if q <= k < e {
        let s = p.steps@[k - q];
        assert(s == step_for(base, c, fbi, k));
        lemma_step_numbers(base, total, c, fbi, k);
        if s.offset > 0 {
            assert(k * c < base);
            assert(chunks.contains_key(k));
        }
    } else {
        assert(k < e || k * c < base) by (nonlinear_arith)
            requires
                k * c < e * c || k * c < base,
                c > 0,
        ;
        assert(k * c < base) by (nonlinear_arith)
            requires
                k < q || k * c < base,
                base == c * q + base % c,
                0 <= base % c,
                c > 0,
        ;
        assert(chunks.contains_key(k));
        assert forall|j: int| 0 <= j < p.steps@.len() implies (#[trigger] p.steps@[j]).chunk_idx
            != k by {
            lemma_step_numbers(base, total, c, fbi, q + j);
            assert(p.steps@[j] == step_for(base, c, fbi, q + j));
        }
    }
}

/// Where one frame is.
proof fn lemma_one_frame(
    d: DatasetInfo,
    planned: DatasetInfo,
    after: DatasetInfo,
    chunks: Map<int, Seq<u8>>,
    now: Map<int, Seq<u8>>,
    raw: Seq<u8>,
    n: nat,
    c: int,
    fb: nat,
    p: AppendPlan,
    g: int,
)
    requires
        all_there(d, chunks, c, fb as int),
        raw.len() == n * fb,
        d.dataspace.dims@[0] + n <= u64::MAX,
        (d.append_buffered_frames + n) * fb <= usize::MAX,
        appended(d, planned, raw, n, fb, p),
        after == (DatasetInfo {
            dataspace: after.dataspace,
            header_changed: after.header_changed,
            ..planned
        }),
        after.dataspace.dims@ == p.new_dims@,
        steps_written(chunks, now, p),
        0 <= g < d.dataspace.dims@[0] + n,
    ensures
        frame_at(after, now, c, fb as int, g) == if g < d.dataspace.dims@[0] {
            frame_at(d, chunks, c, fb as int, g)
        } else {
            raw.subrange(
                (g - d.dataspace.dims@[0]) * fb,
                (g - d.dataspace.dims@[0]) * fb + fb,
            )
        },
{
    let fbi = fb as int;
    let base = frames_stored(d);
    let b = d.append_buffered_frames as int;
    let total = b + n;
    let left = frames_left(base, total, c);
    let now_base = base + total - left;
    let all = p.combined@;
    assert((b + n) * fbi == b * fbi + n * fbi) by (nonlinear_arith);
    lemma_left(base, total, c);
    lemma_div_order(base, base + total, c);
    lemma_div_order(g, g, c);
    let q = base / c;
    let k = g / c;
    assert(k * c == c * k) by (nonlinear_arith);
    assert(0 <= k) by (nonlinear_arith)
        requires
            g == c * k + g % c,
            0 <= g,
            g % c < c,
            c > 0,
    ;
    lemma_span(g % c, c, fbi);
    if g >= base {
        let f = g - base;
        lemma_combined(d, raw, n as int, fbi, f);
        if g >= now_base {
            let x = (g - now_base) * fbi;
            let y = (total - left) * fbi;
            assert(x + y == f * fbi) by (nonlinear_arith)
                requires
                    x == (g - now_base) * fbi,
                    y == (total - left) * fbi,
                    f == g - base,
                    now_base == base + total - left,
            ;
            lemma_span(g - now_base, left, fbi);
            assert(y + left * fbi == total * fbi) by (nonlinear_arith)
                requires
                    y == (total - left) * fbi,
            ;
            assert(after.append_buffer@.subrange(x, x + fbi) =~= all.subrange(
                f * fbi,
                f * fbi + fbi,
            ));
        } else {
            lemma_frame_placed(base, total, c, fbi, g);
            assert(k < (base + total) / c);
            lemma_div_order(base, g, c);
            let s = p.steps@[k - q];
            assert(s == step_for(base, c, fbi, k));
            lemma_step_numbers(base, total, c, fbi, k);
            let at = (g % c) * fbi;
            let got = now[k];
            if s.offset > 0 {
                assert(k * c < base);
                assert(chunks.contains_key(k));
            }
            assert(got == s.content(all, chunks[k]));
            assert(got.subrange(at, at + fbi) =~= all.subrange(f * fbi, f * fbi + fbi));
        }
    } else {
        lemma_div_order(g, base, c);
        assert(k * c < base);
        assert(chunks.contains_key(k));
        let at = (g % c) * fbi;
        if k == q && q < (base + total) / c {
            let s = p.steps@[0];
            assert(s == step_for(base, c, fbi, k));
            lemma_step_numbers(base, total, c, fbi, k);
            assert(s.offset == (base - k * c) * fbi);
            lemma_span(g % c, base - k * c, fbi);
            let got = now[k];
            assert(got == patched(chunks[k], s.offset as int, all.subrange(s.from as int, s.to as int)));
            assert(got.subrange(at, at + fbi) =~= chunks[k].subrange(at, at + fbi));
        } else {
            assert forall|j: int| 0 <= j < p.steps@.len() implies (
            #[trigger] p.steps@[j]).chunk_idx != k by {
                lemma_step_numbers(base, total, c, fbi, q + j);
                assert(p.steps@[j] == step_for(base, c, fbi, q + j));
            }
            assert(now[k] == chunks[k]);
        }
    }
}

/// After a flush every waiting frame is in its chunk: frame `f` of those that wait stands at
/// the place of its number within the chunk of its number, and the other frames of the chunk
/// are those that it held.
pub proof fn lemma_flush_places_frames(d: DatasetInfo, existing: Option<Seq<u8>>, c: int, f: int)
    requires
        flushable(d),
        flush_ok(d),
        chunk_shape(d)->0[0] == c,
        byte_len(chunk_shape(d)->0, d.datatype.spec_element_size() as nat) == c * frame_len(d),
        d.append_buffer@.len() == d.append_buffered_frames * frame_len(d),
        frames_stored(d) % c + d.append_buffered_frames <= c,
        frame_len(d) > 0,
        0 <= f < c,
    ensures
        ({
            let fb = frame_len(d) as int;
            let first = frames_stored(d) % c;
            let number = frames_stored(d) / c;
            let got = flush_content(d, existing);
            &&& flush_number(d) == number
            &&& got.len() == c * fb
            &&& 0 <= f * fb
            &&& f * fb + fb <= got.len()
            &&& first <= f < first + d.append_buffered_frames ==> {
                &&& (number * c + f) / c == number
                &&& (number * c + f) % c == f
                &&& got.subrange(f * fb, f * fb + fb) == d.append_buffer@.subrange(
                    (f - first) * fb,
                    (f - first) * fb + fb,
                )
            }
            &&& f < first || f >= first + d.append_buffered_frames ==> match existing {
                Some(b) => b.len() == c * fb ==> got.subrange(f * fb, f * fb + fb) == b.subrange(
                    f * fb,
                    f * fb + fb,
                ),
                None => true,
            }
        }),
{
    let fb = frame_len(d) as int;
    let base = frames_stored(d);
    let n = d.append_buffered_frames as int;
    let first = base % c;
    let got = flush_content(d, existing);
    lemma_mod_bound(base, c);
    lemma_span(f, c, fb);
    assert(0 <= first * fb) by (nonlinear_arith)
        requires
            0 <= first,
            fb > 0,
    ;
    assert((first + n) * fb == first * fb + n * fb) by (nonlinear_arith);
    assert(first * fb + n * fb <= c * fb) by (nonlinear_arith)
        requires
            first + n <= c,
            fb > 0,
    ;
    if first <= f < first + n {
        lemma_span(f - first, n, fb);
        let x = (f - first) * fb;
        assert(x == f * fb - first * fb) by (nonlinear_arith)
            requires
                x == (f - first) * fb,
        ;
        let number = base / c;
        assert(number * c == c * number) by (nonlinear_arith);
        lemma_fundamental_div_mod_converse(number * c + f, c, number, f);
        assert(got.subrange(f * fb, f * fb + fb) =~= d.append_buffer@.subrange(x, x + fb));
    } else if f < first {
        lemma_span(f, first, fb);
        match existing {
            Some(b) => {
                if b.len() == c * fb {
                    assert(got.subrange(f * fb, f * fb + fb) =~= b.subrange(
                        f * fb,
                        f * fb + fb,
                    ));
                }
            },
            None => {},
        }
    } else {
        assert((first + n) * fb <= f * fb) by (nonlinear_arith)
            requires
                first + n <= f,
                fb > 0,
        ;
        match existing {
            Some(b) => {
                if b.len() == c * fb {
                    assert(got.subrange(f * fb, f * fb + fb) =~= b.subrange(
                        f * fb,
                        f * fb + fb,
                    ));
                }
            },
            None => {},
        }
    }
}

/// A flush keeps every frame: once the chunk of the waiting frames has been written, all
/// frames are in chunks, each with the bytes that it had.
pub proof fn lemma_flush_keeps_frames(
    d: DatasetInfo,
    after: DatasetInfo,
    chunks: Map<int, Seq<u8>>,
    c: int,
)
    requires
        flushable(d),
        flush_ok(d),
        all_there(d, chunks, c, frame_len(d) as int),
        byte_len(chunk_shape(d)->0, d.datatype.spec_element_size() as nat) == c * frame_len(d),
        after.append_buffer@.len() == 0,
        after == (DatasetInfo {
            append_buffer: after.append_buffer,
            append_buffered_frames: 0,
            ..d
        }),
    ensures
        ({
            let fb = frame_len(d) as int;
            let k = flush_number(d);
            let existing = if chunks.contains_key(k) {
                Some(chunks[k])
            } else {
                None
            };
            let now = chunks.insert(k, flush_content(d, existing));
            &&& frames_stored(after) == d.dataspace.dims@[0]
            &&& all_there(after, now, c, fb)
            &&& forall|g: int|
                0 <= g < d.dataspace.dims@[0] ==> #[trigger] frame_at(after, now, c, fb, g)
                    == frame_at(d, chunks, c, fb, g)
        }),
{
    let fb = frame_len(d) as int;
    let k = flush_number(d);
    let existing = if chunks.contains_key(k) {
        Some(chunks[k])
    } else {
        None
    };
    let got = flush_content(d, existing);
    let now = chunks.insert(k, got);
    let base = frames_stored(d);
    let n = d.append_buffered_frames as int;
    let first = base % c;
    let q = base / c;
    lemma_div_order(base, base, c);
    lemma_mod_bound(d.dataspace.dims@[0] as int, c);
    lemma_flush_places_frames(d, existing, c, 0);
    assert(q * c == c * q) by (nonlinear_arith);
    assert forall|j: int| 0 <= j && j * c < base + n implies #[trigger] now.contains_key(j)
        && now[j].len() == c * fb by {
        if j != k {
            assert(j * c < base) by (nonlinear_arith)
                requires
                    j != q,
                    j * c < base + n,
                    base == c * q + base % c,
                    0 <= base % c,
                    base % c + n <= c,
                    c > 0,
            ;
            assert(chunks.contains_key(j));
        }
    }
    assert forall|g: int| 0 <= g < base + n implies #[trigger] frame_at(after, now, c, fb, g)
        == frame_at(d, chunks, c, fb, g) by {
        lemma_div_order(g, g, c);
        let m = g / c;
        let f = g % c;
        if g < base {
            if m == q {
                assert(q * c < base);
                assert(0 <= q) by (nonlinear_arith)
                    requires
                        base == c * q + base % c,
                        0 <= base,
                        base % c < c,
                        c > 0,
                ;
                assert(chunks.contains_key(q));
                lemma_flush_places_frames(d, existing, c, f);
            }
        } else {
            assert(m == q) by (nonlinear_arith)
                requires
                    g == c * m + f,
                    0 <= f < c,
                    base <= g < base + n,
                    base == c * q + base % c,
                    0 <= base % c,
                    base % c + n <= c,
                    c > 0,
            ;
            lemma_flush_places_frames(d, existing, c, f);
        }
    }
}

} // verus!
