//! The N-bit filter: only the significant bits of an element are stored.

use crate::format::bitstream::{packed, read_bits, stream_of, BitWriter};
use crate::format::nbit_scaleoffset::pieces::{
    all_fit, begun_fit, bit_count, emit_piece, lemma_begun_copy, lemma_begun_one,
    lemma_begun_split, lemma_moved_concat, lemma_moved_moved, lemma_moved_repeated,
    lemma_packed_bits_concat, lemma_packed_bits_len, lemma_unpacked_concat, lemma_unpacked_len, moved,
    packed_bits, repeated, store_piece, stream_bit, unpacked, Piece,
};
use crate::format::nbit_scaleoffset::tree::{
    atomic_ok, atomic_piece, bad_base, bad_member, fault_message, left, lemma_walk_member_next,
    plain_piece, read_atomic, short_message, truncated, walk_array, walk_atomic, walk_compound,
    walk_member, walk_members, walk_repeated, NbitAtomic, Walk, WalkEnd, NBIT_ARRAY, NBIT_ATOMIC,
    NBIT_COMPOUND, NBIT_NOOPTYPE, NBIT_ORDER_LE,
};
use crate::format::bytes::filled;
use crate::format::{invalid_data, FormatError, FormatResult};
use crate::text::{append_decimal, decimal};
use vstd::prelude::*;
use vstd::slice::slice_to_vec;
use vstd::string::StringExecFns;

verus! {

/// Whether offsets below a subtree at `idx` fit in 64 bits, and indices behind
/// it in a machine word.
pub open spec fn room(off: nat, parms: Seq<u32>, idx: nat) -> bool {
    &&& off + left(parms, idx) * 0x1_0000_0000 <= u64::MAX
    &&& parms.len() < usize::MAX
}

/// What a walk may meet: it does not get stuck, and all pieces lie within `len`
/// bytes.
pub open spec fn walkable(w: Walk, off: nat, len: nat) -> bool {
    &&& w.end !is Stuck
    &&& all_fit(moved(w.pieces, off), len)
}

/// The copies of pieces that fit all fit.
proof fn lemma_repeated_fit(ps: Seq<Piece>, n: nat, step: nat, len: nat, k: nat)
    requires
        all_fit(repeated(ps, n, step), len),
        k < n,
    ensures
        all_fit(moved(ps, k * step), len),
    decreases n,
{
    let head = repeated(ps, (n - 1) as nat, step);
    let tail = moved(ps, (n - 1) as nat * step);
    assert(repeated(ps, n, step) == head + tail);
    if k == n - 1 {
        assert forall|i: int| 0 <= i < tail.len() implies (#[trigger] tail[i]).fits(len) by {
            assert((head + tail)[head.len() + i] == tail[i]);
        }
    } else {
        assert forall|i: int| 0 <= i < head.len() implies (#[trigger] head[i]).fits(len) by {
            assert((head + tail)[i] == head[i]);
        }
        lemma_repeated_fit(ps, (n - 1) as nat, step, len, k);
    }
}

proof fn lemma_fit_split(a: Seq<Piece>, b: Seq<Piece>, len: nat)
    requires
        all_fit(a + b, len),
    ensures
        all_fit(a, len),
        all_fit(b, len),
{
    assert forall|i: int| 0 <= i < a.len() implies (#[trigger] a[i]).fits(len) by {
        assert((a + b)[i] == a[i]);
    }
    assert forall|i: int| 0 <= i < b.len() implies (#[trigger] b[i]).fits(len) by {
        assert((a + b)[a.len() + i] == b[i]);
    }
}

proof fn lemma_one_piece(p: Piece, data: Seq<u8>, out: Seq<u8>, s: Seq<bool>, q: int)
    ensures
        packed_bits(seq![p], data) == p.bits(data),
        unpacked(seq![p], out, s, q) == if q + p.precision > s.len() {
            None
        } else {
            Some((p.stored(out, s, q), q + p.precision))
        },
{
    assert(seq![p].drop_last() =~= Seq::<Piece>::empty());
    reveal_with_fuel(packed_bits, 2);
    reveal_with_fuel(unpacked, 2);
    assert(packed_bits(seq![p], data) =~= p.bits(data));
}

proof fn lemma_moved_one(p: Piece, off: nat)
    ensures
        moved(seq![p], off) == seq![p.moved(off)],
{
    assert(moved(seq![p], off) =~= seq![p.moved(off)]);
}

/// Append `size` bytes from `at` on.
fn nbit_compress_one_nooptype(data: &[u8], at: u64, writer: &mut BitWriter, size: u32)
    requires
        old(writer).wf(),
        plain_piece(size).moved(at as nat).fits(data@.len()),
    ensures
        final(writer).wf(),
        final(writer).bits() == old(writer).bits() + plain_piece(size).moved(at as nat).bits(data@),
{
    let ghost want = plain_piece(size).moved(at as nat).bits(data@);
    let mut j: u64 = 0;
    let total: u64 = 8 * size as u64;
    let len: usize = data.len();
    proof {
        assert(writer.bits() =~= old(writer).bits() + want.take(0));
    }
    while j < total
        invariant
            writer.wf(),
            total == 8 * size,
            j <= total,
            len == data@.len(),
            at + size <= len,
            want == plain_piece(size).moved(at as nat).bits(data@),
            writer.bits() == old(writer).bits() + want.take(j as int),
        decreases total - j,
    {
        let x: u8 = 7 - (j % 8) as u8;
        let byte: u8 = data[(at + j / 8) as usize];
        let bit: bool = (byte >> x) & 1 == 1;
        assert(bit == want[j as int]);
        writer.push_bit(bit);
        j = j + 1;
        assert(writer.bits() =~= old(writer).bits() + want.take(j as int));
    }
    assert(want.take(j as int) =~= want);
}

/// Append the significant bits of a number.
fn nbit_compress_one_atomic(data: &[u8], at: u64, writer: &mut BitWriter, p: &NbitAtomic)
    requires
        old(writer).wf(),
        atomic_ok(p.size, p.precision, p.offset),
        atomic_piece(p.size, p.order, p.precision, p.offset).moved(at as nat).fits(data@.len()),
    ensures
        final(writer).wf(),
        final(writer).bits() == old(writer).bits() + atomic_piece(
            p.size,
            p.order,
            p.precision,
            p.offset,
        ).moved(at as nat).bits(data@),
{
    let len: usize = data.len();
    emit_piece(
        data,
        at as usize,
        p.size,
        p.order == NBIT_ORDER_LE,
        p.precision,
        p.offset,
        writer,
        Ghost(atomic_piece(p.size, p.order, p.precision, p.offset).moved(at as nat)),
    );
}

/// Append the significant bits of the array described at `idx`. Returns the
/// index behind it.
fn nbit_compress_one_array(
    data: &[u8],
    off: u64,
    writer: &mut BitWriter,
    parms: &[u32],
    idx: usize,
) -> (r: FormatResult<usize>)
    requires
        old(writer).wf(),
        room(off as nat, parms@, idx as nat),
        walkable(walk_array(parms@, idx as nat), off as nat, data@.len()),
    ensures
        final(writer).wf(),
        match walk_array(parms@, idx as nat).end {
            WalkEnd::Done(next) => r matches Ok(n) && n == next && final(writer).bits() == old(
                writer,
            ).bits() + packed_bits(moved(walk_array(parms@, idx as nat).pieces, off as nat), data@),
            WalkEnd::Fail(f) => r matches Err(e) && e.is_invalid(fault_message(f)),
            WalkEnd::Stuck => false,
        },
    decreases left(parms@, idx as nat), 0nat,
{
    let ghost w = walk_array(parms@, idx as nat);
    let plen: usize = parms.len();
    if plen < 2 || idx > plen - 2 {
        return Err(truncated());
    }
    let total: u32 = parms[idx];
    let class: u32 = parms[idx + 1];
    let i: usize = idx + 2;
    let ghost start = writer.bits();
    if class == NBIT_ATOMIC {
        let p = match read_atomic(parms, i) {
            Ok(p) => p,
            Err(e) => return Err(e),
        };
        let n: u32 = total / p.size;
        let ghost piece = atomic_piece(p.size, p.order, p.precision, p.offset);
        let ghost ps = moved(seq![piece], off as nat);
        proof {
            lemma_moved_repeated(seq![piece], n as nat, p.size as nat, off as nat);
            assert(packed_bits(repeated(ps, 0, p.size as nat), data@) =~= Seq::<bool>::empty());
            assert(writer.bits() =~= start + packed_bits(
                repeated(ps, 0, p.size as nat),
                data@,
            ));
        }
        let mut k: u32 = 0;
        while k < n
            invariant
                writer.wf(),
                k <= n,
                n == total / p.size,
                p.size > 0,
                off + 0x1_0000_0000 <= u64::MAX,
                atomic_ok(p.size, p.precision, p.offset),
                piece == atomic_piece(p.size, p.order, p.precision, p.offset),
                ps == moved(seq![piece], off as nat),
                all_fit(repeated(ps, n as nat, p.size as nat), data@.len()),
                writer.bits() == start + packed_bits(
                    repeated(ps, k as nat, p.size as nat),
                    data@,
                ),
            decreases n - k,
        {
            proof {
                assert(k * p.size <= total) by (nonlinear_arith)
                    requires
                        k < total / p.size,
                        p.size > 0,
                ;
                let step = (k * p.size) as nat;
                lemma_repeated_fit(ps, n as nat, p.size as nat, data@.len(), k as nat);
                assert(k as nat * p.size as nat == step);
                lemma_moved_moved(seq![piece], off as nat, step);
                lemma_moved_one(piece, (off + step) as nat);
                assert(moved(ps, step)[0] == piece.moved((off + step) as nat));
                lemma_packed_bits_concat(
                    repeated(ps, k as nat, p.size as nat),
                    moved(ps, step),
                    data@,
                );
                lemma_one_piece(
                    piece.moved((off + step) as nat),
                    data@,
                    data@,
                    Seq::empty(),
                    0,
                );
            }
            let at: u64 = off + k as u64 * p.size as u64;
            nbit_compress_one_atomic(data, at, writer, &p);
            k = k + 1;
            assert(writer.bits() =~= start + packed_bits(
                repeated(ps, k as nat, p.size as nat),
                data@,
            ));
        }
        Ok(i + 4)
    } else if class == NBIT_ARRAY || class == NBIT_COMPOUND {
        let step: u32 = parms[i];
        let n: u32 = total / step;
        let ghost w0 = if class == NBIT_ARRAY {
            walk_array(parms@, i as nat)
        } else {
            walk_compound(parms@, i as nat)
        };
        let ghost ps = moved(w0.pieces, off as nat);
        proof {
            lemma_moved_repeated(w0.pieces, n as nat, step as nat, off as nat);
            assert(w == walk_repeated(w0, i as nat, n as nat, step as nat));
            assert(packed_bits(repeated(ps, 0, step as nat), data@) =~= Seq::<bool>::empty());
            assert(writer.bits() =~= start + packed_bits(repeated(ps, 0, step as nat), data@));
        }
        let mut next: usize = i;
        let mut k: u32 = 0;
        while k < n
            invariant
                writer.wf(),
                k <= n,
                n == total / step,
                step > 0,
                idx + 2 == i,
                i < parms@.len(),
                room(off as nat, parms@, idx as nat),
                class == NBIT_ARRAY || class == NBIT_COMPOUND,
                w == walk_array(parms@, idx as nat),
                w == walk_repeated(w0, i as nat, n as nat, step as nat),
                w0 == (if class == NBIT_ARRAY {
                    walk_array(parms@, i as nat)
                } else {
                    walk_compound(parms@, i as nat)
                }),
                walkable(w, off as nat, data@.len()),
                ps == moved(w0.pieces, off as nat),
                moved(repeated(w0.pieces, n as nat, step as nat), off as nat) == repeated(
                    ps,
                    n as nat,
                    step as nat,
                ),
                k > 0 ==> w0.end == WalkEnd::Done(next as nat),
                k == 0 ==> next == i,
                writer.bits() == start + packed_bits(repeated(ps, k as nat, step as nat), data@),
            decreases n - k,
        {
            proof {
                assert(k * step <= total) by (nonlinear_arith)
                    requires
                        k < total / step,
                        step > 0,
                ;
                assert(0 <= k * step) by (nonlinear_arith);
                let by = (k * step) as nat;
                assert(k as nat * step as nat == by);
                assert(left(parms@, i as nat) + 2 == left(parms@, idx as nat));
                if w0.end is Done {
                    lemma_repeated_fit(ps, n as nat, step as nat, data@.len(), k as nat);
                    lemma_moved_moved(w0.pieces, off as nat, by);
                } else {
                    assert(k == 0);
                    assert(0 * step == 0);
                }
                lemma_packed_bits_concat(
                    repeated(ps, k as nat, step as nat),
                    moved(ps, by),
                    data@,
                );
            }
            let at: u64 = off + k as u64 * step as u64;
            let r = if class == NBIT_ARRAY {
                nbit_compress_one_array(data, at, writer, parms, i)
            } else {
                nbit_compress_one_compound(data, at, writer, parms, i)
            };
            match r {
                Ok(m) => {
                    next = m;
                },
                Err(e) => return Err(e),
            }
            k = k + 1;
            assert(writer.bits() =~= start + packed_bits(
                repeated(ps, k as nat, step as nat),
                data@,
            ));
        }
        Ok(next)
    } else if class == NBIT_NOOPTYPE {
        proof {
            let piece = plain_piece(total);
            lemma_moved_one(piece, off as nat);
            assert(moved(w.pieces, off as nat)[0] == piece.moved(off as nat));
            lemma_one_piece(piece.moved(off as nat), data@, data@, Seq::empty(), 0);
        }
        nbit_compress_one_nooptype(data, off, writer, total);
        Ok(i + 1)
    } else {
        Err(bad_base(class))
    }
}

/// Append the significant bits of the compound described at `idx`. Returns the
/// index behind it.
fn nbit_compress_one_compound(
    data: &[u8],
    off: u64,
    writer: &mut BitWriter,
    parms: &[u32],
    idx: usize,
) -> (r: FormatResult<usize>)
    requires
        old(writer).wf(),
        room(off as nat, parms@, idx as nat),
        walkable(walk_compound(parms@, idx as nat), off as nat, data@.len()),
    ensures
        final(writer).wf(),
        match walk_compound(parms@, idx as nat).end {
            WalkEnd::Done(next) => r matches Ok(n) && n == next && final(writer).bits() == old(
                writer,
            ).bits() + packed_bits(
                moved(walk_compound(parms@, idx as nat).pieces, off as nat),
                data@,
            ),
            WalkEnd::Fail(f) => r matches Err(e) && e.is_invalid(fault_message(f)),
            WalkEnd::Stuck => false,
        },
    decreases left(parms@, idx as nat), 0nat,
{
    let ghost w = walk_compound(parms@, idx as nat);
    let plen: usize = parms.len();
    if plen < 2 || idx > plen - 2 {
        return Err(truncated());
    }
    let members: u32 = parms[idx + 1];
    let mut at_idx: usize = idx + 2;
    let mut todo: u32 = members;
    let ghost start = writer.bits();
    let ghost all = packed_bits(moved(w.pieces, off as nat), data@);
    while todo > 0
        invariant
            writer.wf(),
            plen == parms.len(),
            room(off as nat, parms@, idx as nat),
            at_idx >= idx + 2,
            w == walk_compound(parms@, idx as nat),
            w.end !is Stuck,
            all == packed_bits(moved(w.pieces, off as nat), data@),
            walk_members(parms@, at_idx as nat, todo as nat).end == w.end,
            all_fit(
                moved(walk_members(parms@, at_idx as nat, todo as nat).pieces, off as nat),
                data@.len(),
            ),
            writer.bits() + packed_bits(
                moved(walk_members(parms@, at_idx as nat, todo as nat).pieces, off as nat),
                data@,
            ) == start + all,
        decreases todo,
    {
        if plen < 2 || at_idx > plen - 2 {
            return Err(truncated());
        }
        let member_offset: u32 = parms[at_idx];
        let class: u32 = parms[at_idx + 1];
        let i: usize = at_idx + 2;
        let at: u64 = off + member_offset as u64;
        let ghost rest0 = walk_members(parms@, at_idx as nat, todo as nat);
        let ghost sub = walk_member(parms@, i as nat, class);
        proof {
            lemma_walk_member_next(parms@, i as nat, class);
            lemma_moved_moved(sub.pieces, member_offset as nat, off as nat);
            match sub.end {
                WalkEnd::Done(next) => {
                    let rest = walk_members(parms@, next, (todo - 1) as nat);
                    let first = moved(sub.pieces, member_offset as nat);
                    lemma_moved_concat(first, rest.pieces, off as nat);
                    lemma_fit_split(
                        moved(first, off as nat),
                        moved(rest.pieces, off as nat),
                        data@.len(),
                    );
                    lemma_packed_bits_concat(
                        moved(first, off as nat),
                        moved(rest.pieces, off as nat),
                        data@,
                    );
                },
                _ => {},
            }
            assert(walkable(sub, at as nat, data@.len()));
        }
        let ghost before = writer.bits();
        let next: usize = if class == NBIT_ATOMIC {
            let p = match read_atomic(parms, i) {
                Ok(p) => p,
                Err(e) => return Err(e),
            };
            proof {
                let piece = atomic_piece(p.size, p.order, p.precision, p.offset);
                lemma_moved_one(piece, at as nat);
                assert(moved(sub.pieces, at as nat)[0] == piece.moved(at as nat));
                lemma_one_piece(piece.moved(at as nat), data@, data@, Seq::empty(), 0);
            }
            nbit_compress_one_atomic(data, at, writer, &p);
            i + 4
        } else if class == NBIT_ARRAY {
            match nbit_compress_one_array(data, at, writer, parms, i) {
                Ok(m) => m,
                Err(e) => return Err(e),
            }
        } else if class == NBIT_COMPOUND {
            match nbit_compress_one_compound(data, at, writer, parms, i) {
                Ok(m) => m,
                Err(e) => return Err(e),
            }
        } else if class == NBIT_NOOPTYPE {
            let size: u32 = parms[i];
            proof {
                let piece = plain_piece(size);
                lemma_moved_one(piece, at as nat);
                assert(moved(sub.pieces, at as nat)[0] == piece.moved(at as nat));
                lemma_one_piece(piece.moved(at as nat), data@, data@, Seq::empty(), 0);
            }
            nbit_compress_one_nooptype(data, at, writer, size);
            i + 1
        } else {
            return Err(bad_member(class));
        };
        at_idx = next;
        todo = todo - 1;
        proof {
            let rest = walk_members(parms@, at_idx as nat, todo as nat);
            assert(writer.bits() + packed_bits(moved(rest.pieces, off as nat), data@) =~= before
                + packed_bits(moved(rest0.pieces, off as nat), data@));
        }
    }
    proof {
        assert(packed_bits(moved(Seq::<Piece>::empty(), off as nat), data@) =~= Seq::<
            bool,
        >::empty());
        assert(writer.bits() =~= start + all);
    }
    Ok(at_idx)
}

fn too_short() -> (e: FormatError)
    ensures
        e.is_invalid(short_message()),
{
    invalid_data("nbit: buffer too short")
}

/// What unpacking may meet: the pieces that are begun before the stream ends lie within the
/// elements, and the stream ends before the walk gets stuck.
pub open spec fn readable(w: Walk, off: nat, out: Seq<u8>, s: Seq<bool>, pos: int) -> bool {
    &&& begun_fit(moved(w.pieces, off), out.len(), s.len() as int, pos)
    &&& w.end is Stuck ==> unpacked(moved(w.pieces, off), out, s, pos) is None
}

/// What a function that unpacks the walk `w` returns.
pub open spec fn unpack_result(
    w: Walk,
    off: nat,
    out: Seq<u8>,
    s: Seq<bool>,
    pos: int,
    new_out: Seq<u8>,
    new_pos: int,
    r: FormatResult<usize>,
) -> bool {
    match unpacked(moved(w.pieces, off), out, s, pos) {
        None => r matches Err(e) && e.is_invalid(short_message()),
        Some((o, q)) => match w.end {
            WalkEnd::Done(next) => r matches Ok(n) && n == next && new_out == o && new_pos == q,
            WalkEnd::Fail(f) => r matches Err(e) && e.is_invalid(fault_message(f)),
            WalkEnd::Stuck => false,
        },
    }
}

/// Restore `size` bytes at `at`. Returns the position behind them, or `None`
/// when the stream ends too early.
fn nbit_decompress_one_nooptype(
    out: &mut Vec<u8>,
    at: u64,
    data: &[u8],
    pos: u64,
    size: u32,
) -> (r: Option<u64>)
    requires
        8 * data@.len() + 64 <= u64::MAX,
        pos <= 8 * data@.len(),
        pos + 8 * size <= 8 * data@.len() ==> plain_piece(size).moved(at as nat).fits(
            old(out)@.len(),
        ),
    ensures
        final(out)@.len() == old(out)@.len(),
        if pos + 8 * size > 8 * data@.len() {
            r is None
        } else {
            r == Some((pos + 8 * size) as u64) && final(out)@ == plain_piece(size).moved(
                at as nat,
            ).stored(old(out)@, stream_of(data@), pos as int)
        },
{
    let total: u64 = 8 * size as u64;
    if total > 8 * data.len() as u64 - pos {
        return None;
    }
    let ghost piece = plain_piece(size).moved(at as nat);
    let ghost s = stream_of(data@);
    let ghost want = piece.stored(out@, s, pos as int);
    let mut k: u32 = 0;
    while k < size
        invariant
            total == 8 * size,
            8 * data@.len() + 64 <= u64::MAX,
            pos + total <= 8 * data@.len(),
            piece == plain_piece(size).moved(at as nat),
            s == stream_of(data@),
            want == piece.stored(old(out)@, s, pos as int),
            k <= size,
            out.len() == old(out)@.len(),
            at + size <= out.len(),
            forall|i: int|
                0 <= i < out@.len() ==> #[trigger] out@[i] == (if at <= i < at + k {
                    want[i]
                } else {
                    old(out)@[i]
                }),
        decreases size - k,
    {
        let mut v: u8 = 0;
        let mut x: u32 = 0;
        let ghost bits = Seq::new(8, |x: int| piece.stored_bit(s, pos as int, k as int, x));
        while x < 8
            invariant
                x <= 8,
                k < size,
                total == 8 * size,
                8 * data@.len() + 64 <= u64::MAX,
                pos + total <= 8 * data@.len(),
                piece == plain_piece(size).moved(at as nat),
                s == stream_of(data@),
                bits == Seq::new(8, |x: int| piece.stored_bit(s, pos as int, k as int, x)),
                v == read_bits(bits, 0, x as nat),
                x == 0 ==> v < 1,
                x == 1 ==> v < 2,
                x == 2 ==> v < 4,
                x == 3 ==> v < 8,
                x == 4 ==> v < 16,
                x == 5 ==> v < 32,
                x == 6 ==> v < 64,
                x == 7 ==> v < 128,
            decreases 8 - x,
        {
            let bit: bool = stream_bit(data, pos + 8 * k as u64 + x as u64);
            assert(bit == bits[x as int]);
            v = 2 * v + if bit {
                1
            } else {
                0
            };
            x = x + 1;
        }
        out.set((at + k as u64) as usize, v);
        assert(v == piece.stored_byte(s, pos as int, k as int));
        assert(piece.touches(k as int));
        k = k + 1;
    }
    assert(out@ =~= want);
    Some(pos + total)
}

/// Restore a number at `at`. Returns the position behind its bits, or `None`
/// when the stream ends too early.
fn nbit_decompress_one_atomic(
    out: &mut Vec<u8>,
    at: u64,
    data: &[u8],
    pos: u64,
    p: &NbitAtomic,
) -> (r: Option<u64>)
    requires
        8 * data@.len() + 64 <= u64::MAX,
        pos <= 8 * data@.len(),
        atomic_ok(p.size, p.precision, p.offset),
        pos + p.precision <= 8 * data@.len() ==> atomic_piece(
            p.size,
            p.order,
            p.precision,
            p.offset,
        ).moved(at as nat).fits(old(out)@.len()),
    ensures
        final(out)@.len() == old(out)@.len(),
        if pos + p.precision > 8 * data@.len() {
            r is None
        } else {
            r == Some((pos + p.precision) as u64) && final(out)@ == atomic_piece(
                p.size,
                p.order,
                p.precision,
                p.offset,
            ).moved(at as nat).stored(old(out)@, stream_of(data@), pos as int)
        },
{
    if p.precision as u64 > 8 * data.len() as u64 - pos {
        return None;
    }
    let len: usize = out.len();
    store_piece(
        out,
        at as usize,
        p.size,
        p.order == NBIT_ORDER_LE,
        p.precision,
        p.offset,
        data,
        pos,
        Ghost(atomic_piece(p.size, p.order, p.precision, p.offset).moved(at as nat)),
    );
    Some(pos + p.precision as u64)
}

/// Restore the array described at `idx`. Returns the index behind it.
#[verifier::rlimit(60)]
fn nbit_decompress_one_array(
    out: &mut Vec<u8>,
    off: u64,
    data: &[u8],
    pos: &mut u64,
    parms: &[u32],
    idx: usize,
) -> (r: FormatResult<usize>)
    requires
        8 * data@.len() + 64 <= u64::MAX,
        *old(pos) <= 8 * data@.len(),
        room(off as nat, parms@, idx as nat),
        readable(
            walk_array(parms@, idx as nat),
            off as nat,
            old(out)@,
            stream_of(data@),
            *old(pos) as int,
        ),
    ensures
        final(out)@.len() == old(out)@.len(),
        *final(pos) <= 8 * data@.len(),
        unpack_result(
            walk_array(parms@, idx as nat),
            off as nat,
            old(out)@,
            stream_of(data@),
            *old(pos) as int,
            final(out)@,
            *final(pos) as int,
            r,
        ),
    decreases left(parms@, idx as nat), 0nat,
{
    let ghost w = walk_array(parms@, idx as nat);
    let ghost s = stream_of(data@);
    let ghost out0 = out@;
    let ghost pos0 = *pos as int;
    let plen: usize = parms.len();
    proof {
        assert(moved(Seq::<Piece>::empty(), off as nat) =~= Seq::<Piece>::empty());
    }
    if plen < 2 || idx > plen - 2 {
        return Err(truncated());
    }
    let total: u32 = parms[idx];
    let class: u32 = parms[idx + 1];
    let i: usize = idx + 2;
    if class == NBIT_ATOMIC {
        let p = match read_atomic(parms, i) {
            Ok(p) => p,
            Err(e) => return Err(e),
        };
        let n: u32 = total / p.size;
        let ghost piece = atomic_piece(p.size, p.order, p.precision, p.offset);
        let ghost ps = moved(seq![piece], off as nat);
        proof {
            lemma_moved_repeated(seq![piece], n as nat, p.size as nat, off as nat);
        }
        let mut k: u32 = 0;
        while k < n
            invariant
                k <= n,
                n == total / p.size,
                p.size > 0,
                off + 0x1_0000_0000 <= u64::MAX,
                8 * data@.len() + 64 <= u64::MAX,
                *pos <= 8 * data@.len(),
                s == stream_of(data@),
                s.len() == 8 * data@.len(),
                out@.len() == out0.len(),
                out0 == old(out)@,
                pos0 == *old(pos),
                w == walk_array(parms@, idx as nat),
                moved(w.pieces, off as nat) == repeated(ps, n as nat, p.size as nat),
                atomic_ok(p.size, p.precision, p.offset),
                piece == atomic_piece(p.size, p.order, p.precision, p.offset),
                ps == moved(seq![piece], off as nat),
                begun_fit(
                    repeated(ps, n as nat, p.size as nat),
                    out0.len(),
                    s.len() as int,
                    pos0,
                ),
                unpacked(repeated(ps, k as nat, p.size as nat), out0, s, pos0) == Some(
                    (out@, *pos as int),
                ),
            decreases n - k,
        {
            proof {
                assert(k * p.size <= total) by (nonlinear_arith)
                    requires
                        k < total / p.size,
                        p.size > 0,
                ;
                let step = (k * p.size) as nat;
                lemma_begun_copy(
                    ps,
                    n as nat,
                    p.size as nat,
                    out0.len(),
                    s.len() as int,
                    pos0,
                    k as nat,
                );
                lemma_unpacked_len(repeated(ps, k as nat, p.size as nat), out0, s, pos0);
                assert(k as nat * p.size as nat == step);
                lemma_moved_moved(seq![piece], off as nat, step);
                lemma_moved_one(piece, (off + step) as nat);
                assert(moved(ps, step)[0] == piece.moved((off + step) as nat));
                assert(moved(ps, step) =~= seq![piece.moved((off + step) as nat)]);
                lemma_begun_one(
                    piece.moved((off + step) as nat),
                    out0.len(),
                    s.len() as int,
                    *pos as int,
                );
                lemma_unpacked_concat(
                    repeated(ps, k as nat, p.size as nat),
                    moved(ps, step),
                    out0,
                    s,
                    pos0,
                );
                lemma_one_piece(piece.moved((off + step) as nat), out@, out@, s, *pos as int);
            }
            let at: u64 = off + k as u64 * p.size as u64;
            match nbit_decompress_one_atomic(out, at, data, *pos, &p) {
                Some(q) => {
                    *pos = q;
                },
                None => {
                    proof {
                        lemma_repeated_short(
                            ps,
                            (k + 1) as nat,
                            n as nat,
                            p.size as nat,
                            out0,
                            s,
                            pos0,
                        );
                    }
                    return Err(too_short());
                },
            }
            k = k + 1;
        }
        Ok(i + 4)
    } else if class == NBIT_ARRAY || class == NBIT_COMPOUND {
        assert(!(i >= parms@.len() || parms@[i as int] == 0)) by {
            if i >= parms@.len() || parms@[i as int] == 0 {
                assert(w.end is Stuck);
                assert(moved(w.pieces, off as nat) =~= Seq::<Piece>::empty());
            }
        }
        let step: u32 = parms[i];
        let n: u32 = total / step;
        let ghost w0 = if class == NBIT_ARRAY {
            walk_array(parms@, i as nat)
        } else {
            walk_compound(parms@, i as nat)
        };
        let ghost ps = moved(w0.pieces, off as nat);
        proof {
            lemma_moved_repeated(w0.pieces, n as nat, step as nat, off as nat);
            assert(w == walk_repeated(w0, i as nat, n as nat, step as nat));
        }
        let mut next: usize = i;
        let mut k: u32 = 0;
        while k < n
            invariant
                k <= n,
                n == total / step,
                step > 0,
                idx + 2 == i,
                i < parms@.len(),
                room(off as nat, parms@, idx as nat),
                8 * data@.len() + 64 <= u64::MAX,
                *pos <= 8 * data@.len(),
                s == stream_of(data@),
                out@.len() == out0.len(),
                out0 == old(out)@,
                pos0 == *old(pos),
                class == NBIT_ARRAY || class == NBIT_COMPOUND,
                w == walk_array(parms@, idx as nat),
                w == walk_repeated(w0, i as nat, n as nat, step as nat),
                w0 == (if class == NBIT_ARRAY {
                    walk_array(parms@, i as nat)
                } else {
                    walk_compound(parms@, i as nat)
                }),
                s.len() == 8 * data@.len(),
                readable(w, off as nat, out0, s, pos0),
                ps == moved(w0.pieces, off as nat),
                moved(repeated(w0.pieces, n as nat, step as nat), off as nat) == repeated(
                    ps,
                    n as nat,
                    step as nat,
                ),
                k > 0 ==> w0.end == WalkEnd::Done(next as nat),
                k == 0 ==> next == i,
                unpacked(repeated(ps, k as nat, step as nat), out0, s, pos0) == Some(
                    (out@, *pos as int),
                ),
            decreases n - k,
        {
            let ghost out1 = out@;
            let ghost pos1 = *pos as int;
            proof {
                assert(k * step <= total) by (nonlinear_arith)
                    requires
                        k < total / step,
                        step > 0,
                ;
                assert(0 <= k * step) by (nonlinear_arith);
                let by = (k * step) as nat;
                assert(k as nat * step as nat == by);
                assert(left(parms@, i as nat) + 2 == left(parms@, idx as nat));
                lemma_moved_moved(w0.pieces, off as nat, by);
                lemma_unpacked_len(repeated(ps, k as nat, step as nat), out0, s, pos0);
                if w0.end is Done {
                    lemma_begun_copy(
                        ps,
                        n as nat,
                        step as nat,
                        out0.len(),
                        s.len() as int,
                        pos0,
                        k as nat,
                    );
                } else {
                    assert(k == 0);
                    assert(0 * step == 0);
                    assert(moved(ps, 0) =~= ps);
                }
                lemma_unpacked_concat(
                    repeated(ps, k as nat, step as nat),
                    moved(ps, by),
                    out0,
                    s,
                    pos0,
                );
            }
            let at: u64 = off + k as u64 * step as u64;
            let r = if class == NBIT_ARRAY {
                nbit_decompress_one_array(out, at, data, pos, parms, i)
            } else {
                nbit_decompress_one_compound(out, at, data, pos, parms, i)
            };
            match r {
                Ok(m) => {
                    next = m;
                },
                Err(e) => {
                    proof {
                        if w0.end is Done {
                            lemma_repeated_short(
                                ps,
                                (k + 1) as nat,
                                n as nat,
                                step as nat,
                                out0,
                                s,
                                pos0,
                            );
                        } else {
                            assert(out1 == out0);
                        }
                    }
                    return Err(e);
                },
            }
            k = k + 1;
        }
        Ok(next)
    } else if class == NBIT_NOOPTYPE {
        proof {
            let piece = plain_piece(total);
            lemma_moved_one(piece, off as nat);
            assert(moved(w.pieces, off as nat)[0] == piece.moved(off as nat));
            assert(moved(w.pieces, off as nat) =~= seq![piece.moved(off as nat)]);
            lemma_begun_one(piece.moved(off as nat), out0.len(), s.len() as int, pos0);
            lemma_one_piece(piece.moved(off as nat), out@, out@, s, *pos as int);
        }
        match nbit_decompress_one_nooptype(out, off, data, *pos, total) {
            Some(q) => {
                *pos = q;
                Ok(i + 1)
            },
            None => Err(too_short()),
        }
    } else {
        Err(bad_base(class))
    }
}

/// Copies that cannot be unpacked fail every longer run of copies.
proof fn lemma_repeated_short(
    ps: Seq<Piece>,
    k: nat,
    n: nat,
    step: nat,
    out: Seq<u8>,
    s: Seq<bool>,
    p: int,
)
    requires
        k <= n,
        unpacked(repeated(ps, k, step), out, s, p) is None,
    ensures
        unpacked(repeated(ps, n, step), out, s, p) is None,
    decreases n - k,
{
    if k < n {
        lemma_repeated_short(ps, k, (n - 1) as nat, step, out, s, p);
        lemma_unpacked_concat(
            repeated(ps, (n - 1) as nat, step),
            moved(ps, (n - 1) as nat * step),
            out,
            s,
            p,
        );
    }
}

/// Restore the compound described at `idx`. Returns the index behind it.
#[verifier::rlimit(60)]
fn nbit_decompress_one_compound(
    out: &mut Vec<u8>,
    off: u64,
    data: &[u8],
    pos: &mut u64,
    parms: &[u32],
    idx: usize,
) -> (r: FormatResult<usize>)
    requires
        8 * data@.len() + 64 <= u64::MAX,
        *old(pos) <= 8 * data@.len(),
        room(off as nat, parms@, idx as nat),
        readable(
            walk_compound(parms@, idx as nat),
            off as nat,
            old(out)@,
            stream_of(data@),
            *old(pos) as int,
        ),
    ensures
        final(out)@.len() == old(out)@.len(),
        *final(pos) <= 8 * data@.len(),
        unpack_result(
            walk_compound(parms@, idx as nat),
            off as nat,
            old(out)@,
            stream_of(data@),
            *old(pos) as int,
            final(out)@,
            *final(pos) as int,
            r,
        ),
    decreases left(parms@, idx as nat), 0nat,
{
    let ghost w = walk_compound(parms@, idx as nat);
    let ghost s = stream_of(data@);
    let ghost out0 = out@;
    let ghost pos0 = *pos as int;
    let plen: usize = parms.len();
    proof {
        assert(moved(Seq::<Piece>::empty(), off as nat) =~= Seq::<Piece>::empty());
    }
    if plen < 2 || idx > plen - 2 {
        return Err(truncated());
    }
    let members: u32 = parms[idx + 1];
    let mut at_idx: usize = idx + 2;
    let mut todo: u32 = members;
    let ghost all = unpacked(moved(w.pieces, off as nat), out0, s, pos0);
    while todo > 0
        invariant
            plen == parms.len(),
            room(off as nat, parms@, idx as nat),
            8 * data@.len() + 64 <= u64::MAX,
            *pos <= 8 * data@.len(),
            s == stream_of(data@),
            s.len() == 8 * data@.len(),
            out@.len() == out0.len(),
            out0 == old(out)@,
            pos0 == *old(pos),
            at_idx >= idx + 2,
            moved(Seq::<Piece>::empty(), off as nat) == Seq::<Piece>::empty(),
            w == walk_compound(parms@, idx as nat),
            w.end is Stuck ==> all is None,
            all == unpacked(moved(w.pieces, off as nat), out0, s, pos0),
            walk_members(parms@, at_idx as nat, todo as nat).end == w.end,
            begun_fit(
                moved(walk_members(parms@, at_idx as nat, todo as nat).pieces, off as nat),
                out0.len(),
                s.len() as int,
                *pos as int,
            ),
            unpacked(
                moved(walk_members(parms@, at_idx as nat, todo as nat).pieces, off as nat),
                out@,
                s,
                *pos as int,
            ) == all,
        decreases todo,
    {
        if plen < 2 || at_idx > plen - 2 {
            return Err(truncated());
        }
        let member_offset: u32 = parms[at_idx];
        let class: u32 = parms[at_idx + 1];
        let i: usize = at_idx + 2;
        let at: u64 = off + member_offset as u64;
        let ghost sub = walk_member(parms@, i as nat, class);
        proof {
            lemma_walk_member_next(parms@, i as nat, class);
            lemma_moved_moved(sub.pieces, member_offset as nat, off as nat);
            match sub.end {
                WalkEnd::Done(next) => {
                    let rest = walk_members(parms@, next, (todo - 1) as nat);
                    let first = moved(sub.pieces, member_offset as nat);
                    lemma_moved_concat(first, rest.pieces, off as nat);
                    lemma_begun_split(
                        moved(first, off as nat),
                        moved(rest.pieces, off as nat),
                        out0.len(),
                        s.len() as int,
                        *pos as int,
                    );
                    lemma_unpacked_len(moved(first, off as nat), out@, s, *pos as int);
                    lemma_unpacked_concat(
                        moved(first, off as nat),
                        moved(rest.pieces, off as nat),
                        out@,
                        s,
                        *pos as int,
                    );
                },
                _ => {},
            }
            assert(readable(sub, at as nat, out@, s, *pos as int));
            assert(moved(Seq::<Piece>::empty(), at as nat) =~= Seq::<Piece>::empty());
        }
        let next: usize = if class == NBIT_ATOMIC {
            let p = match read_atomic(parms, i) {
                Ok(p) => p,
                Err(e) => return Err(e),
            };
            proof {
                let piece = atomic_piece(p.size, p.order, p.precision, p.offset);
                lemma_moved_one(piece, at as nat);
                assert(moved(sub.pieces, at as nat)[0] == piece.moved(at as nat));
                assert(moved(sub.pieces, at as nat) =~= seq![piece.moved(at as nat)]);
                lemma_begun_one(
                    piece.moved(at as nat),
                    out0.len(),
                    s.len() as int,
                    *pos as int,
                );
                lemma_one_piece(piece.moved(at as nat), out@, out@, s, *pos as int);
            }
            match nbit_decompress_one_atomic(out, at, data, *pos, &p) {
                Some(q) => {
                    *pos = q;
                },
                None => return Err(too_short()),
            }
            i + 4
        } else if class == NBIT_ARRAY {
            match nbit_decompress_one_array(out, at, data, pos, parms, i) {
                Ok(m) => m,
                Err(e) => return Err(e),
            }
        } else if class == NBIT_COMPOUND {
            match nbit_decompress_one_compound(out, at, data, pos, parms, i) {
                Ok(m) => m,
                Err(e) => return Err(e),
            }
        } else if class == NBIT_NOOPTYPE {
            assert(i < parms@.len()) by {
                if i >= parms@.len() {
                    assert(sub.end is Stuck);
                    assert(moved(sub.pieces, at as nat) =~= Seq::<Piece>::empty());
                }
            }
            let size: u32 = parms[i];
            proof {
                let piece = plain_piece(size);
                lemma_moved_one(piece, at as nat);
                assert(moved(sub.pieces, at as nat)[0] == piece.moved(at as nat));
                assert(moved(sub.pieces, at as nat) =~= seq![piece.moved(at as nat)]);
                lemma_begun_one(
                    piece.moved(at as nat),
                    out0.len(),
                    s.len() as int,
                    *pos as int,
                );
                lemma_one_piece(piece.moved(at as nat), out@, out@, s, *pos as int);
            }
            match nbit_decompress_one_nooptype(out, at, data, *pos, size) {
                Some(q) => {
                    *pos = q;
                },
                None => return Err(too_short()),
            }
            i + 1
        } else {
            return Err(bad_member(class));
        };
        at_idx = next;
        todo = todo - 1;
    }
    Ok(at_idx)
}

/// Element count in a parameter list.
pub open spec fn nbit_count(cd: Seq<u32>) -> nat {
    cd[2] as nat
}

/// Element size in a parameter list.
pub open spec fn nbit_size(cd: Seq<u32>) -> nat {
    cd[4] as nat
}

/// Bytes of all elements.
pub open spec fn nbit_total(cd: Seq<u32>) -> nat {
    nbit_count(cd) * nbit_size(cd)
}

/// Whether the class of the elements is one the filter knows.
pub open spec fn nbit_class_known(cd: Seq<u32>) -> bool {
    cd[3] == NBIT_ATOMIC || cd[3] == NBIT_ARRAY || cd[3] == NBIT_COMPOUND
}

/// The walk over the tree of one element.
pub open spec fn nbit_tree(cd: Seq<u32>) -> Walk {
    if cd[3] == NBIT_ATOMIC {
        walk_atomic(cd, 4)
    } else if cd[3] == NBIT_ARRAY {
        walk_array(cd, 4)
    } else {
        walk_compound(cd, 4)
    }
}

/// The pieces of all elements.
pub open spec fn nbit_pieces(cd: Seq<u32>) -> Seq<Piece> {
    repeated(nbit_tree(cd).pieces, nbit_count(cd), nbit_size(cd))
}

/// Whether the tree is looked at.
pub open spec fn nbit_walked(cd: Seq<u32>) -> bool {
    nbit_class_known(cd) && (cd[3] == NBIT_ATOMIC || nbit_count(cd) > 0)
}

/// What the filter can work on: the element count and size fit, the tree has
/// all its sizes, and its pieces lie within the elements.
pub open spec fn nbit_workable(cd: Seq<u32>) -> bool {
    &&& cd.len() >= 5
    &&& nbit_total(cd) <= usize::MAX
    &&& nbit_total(cd) + left(cd, 4) * 0x1_0000_0000 <= u64::MAX
    &&& cd.len() < usize::MAX
    &&& nbit_size(cd) > 0 && nbit_walked(cd) ==> {
        &&& nbit_tree(cd).end !is Stuck
        &&& nbit_tree(cd).end is Done ==> all_fit(nbit_pieces(cd), nbit_total(cd))
        &&& nbit_tree(cd).end is Fail ==> all_fit(nbit_tree(cd).pieces, nbit_total(cd))
    }
}

/// Packed bits as bytes: a byte more than whole bytes, up to `limit + 1` bytes.
pub open spec fn nbit_bytes(bits: Seq<bool>, limit: nat) -> Seq<u8> {
    Seq::new(
        if bits.len() / 8 <= limit {
            bits.len() / 8 + 1
        } else {
            limit + 1
        },
        |j: int| crate::format::bitstream::packed_byte(bits, j),
    )
}

/// The packed form of `data`.
pub open spec fn nbit_packed(cd: Seq<u32>, data: Seq<u8>) -> Seq<u8> {
    nbit_bytes(packed_bits(nbit_pieces(cd), data), nbit_total(cd))
}

/// The elements that packed `data` stand for, `None` where it ends too early.
pub open spec fn nbit_unpacked(cd: Seq<u32>, data: Seq<u8>) -> Option<(Seq<u8>, int)> {
    unpacked(nbit_pieces(cd), Seq::new(nbit_total(cd), |i: int| 0u8), stream_of(data), 0)
}

/// What packing returns.
pub open spec fn nbit_pack_result(cd: Seq<u32>, data: Seq<u8>, r: FormatResult<Vec<u8>>) -> bool {
    if data.len() != nbit_total(cd) {
        r matches Err(e) && e.is_invalid(
            "nbit: input size "@ + decimal(data.len()) + " != expected "@ + decimal(
                nbit_total(cd),
            ),
        )
    } else if !nbit_class_known(cd) {
        r matches Err(e) && e.is_invalid("nbit: unsupported top class "@ + decimal(cd[3] as nat))
    } else {
        match nbit_tree(cd).end {
            WalkEnd::Fail(f) if nbit_walked(cd) => r matches Err(e) && e.is_invalid(
                fault_message(f),
            ),
            _ => r matches Ok(out) && out@ == nbit_packed(cd, data),
        }
    }
}

/// What unpacking returns.
pub open spec fn nbit_unpack_result(cd: Seq<u32>, data: Seq<u8>, r: FormatResult<Vec<u8>>) -> bool {
    if !nbit_class_known(cd) {
        r matches Err(e) && e.is_invalid("nbit: unsupported top class "@ + decimal(cd[3] as nat))
    } else {
        match nbit_tree(cd).end {
            WalkEnd::Fail(f) if nbit_walked(cd) => if unpacked(
                nbit_tree(cd).pieces,
                Seq::new(nbit_total(cd), |i: int| 0u8),
                stream_of(data),
                0,
            ) is None {
                r matches Err(e) && e.is_invalid(short_message())
            } else {
                r matches Err(e) && e.is_invalid(fault_message(f))
            },
            _ => match nbit_unpacked(cd, data) {
                Some((o, q)) => r matches Ok(out) && out@ == o,
                None => r matches Err(e) && e.is_invalid(short_message()),
            },
        }
    }
}

fn unsupported_top(class: u32) -> (e: FormatError)
    ensures
        e.is_invalid("nbit: unsupported top class "@ + decimal(class as nat)),
{
    let mut s = "nbit: unsupported top class ".to_owned();
    append_decimal(&mut s, class as u64);
    FormatError::InvalidData(s)
}

proof fn lemma_element_fit(cd: Seq<u32>, k: nat)
    requires
        nbit_workable(cd),
        nbit_size(cd) > 0,
        nbit_walked(cd),
        k < nbit_count(cd),
        nbit_tree(cd).end is Fail ==> k == 0,
    ensures
        walkable(nbit_tree(cd), k * nbit_size(cd), nbit_total(cd)),
        k * nbit_size(cd) + nbit_size(cd) <= nbit_total(cd),
{
    let n = nbit_count(cd);
    let size = nbit_size(cd);
    assert(k * size + size <= n * size) by (nonlinear_arith)
        requires
            k + 1 <= n,
    ;
    if nbit_tree(cd).end is Done {
        lemma_repeated_fit(nbit_tree(cd).pieces, n, size, nbit_total(cd), k);
    } else {
        assert(0 * size == 0);
        assert(moved(nbit_tree(cd).pieces, 0) =~= nbit_tree(cd).pieces);
    }
}

fn nbit_pack(data: &[u8], cd: &[u32]) -> (r: FormatResult<Vec<u8>>)
    requires
        cd@.len() >= 5,
        nbit_total(cd@) <= usize::MAX,
        data@.len() == nbit_total(cd@) ==> nbit_workable(cd@),
        nbit_size(cd@) > 0,
        data@.len() == nbit_total(cd@) && nbit_class_known(cd@) && (nbit_tree(cd@).end is Done
            || !nbit_walked(cd@)) ==> bit_count(nbit_pieces(cd@)) <= 8 * (nbit_total(cd@) + 1),
    ensures
        nbit_pack_result(cd@, data@, r),
{
    let n: u32 = cd[2];
    let size: u32 = cd[4];
    let class: u32 = cd[3];
    assert(n * size == nbit_total(cd@));
    let total: u64 = n as u64 * size as u64;
    if data.len() as u64 != total {
        let mut s = "nbit: input size ".to_owned();
        append_decimal(&mut s, data.len() as u64);
        s.append(" != expected ");
        append_decimal(&mut s, total);
        return Err(FormatError::InvalidData(s));
    }
    let ghost tree = nbit_tree(cd@);
    let ghost sz = size as nat;
    let mut writer = BitWriter::new();
    let ghost none = packed_bits(repeated(tree.pieces, 0, sz), data@);
    proof {
        assert(writer.bits() =~= none);
    }
    if class == NBIT_ATOMIC {
        let p = match read_atomic(cd, 4) {
            Ok(p) => p,
            Err(e) => return Err(e),
        };
        let ghost piece = atomic_piece(p.size, p.order, p.precision, p.offset);
        let mut k: u32 = 0;
        while k < n
            invariant
                writer.wf(),
                k <= n,
                n == cd@[2],
                size == cd@[4],
                p.size == size,
                sz == size,
                total == n * size,
                data@.len() == total,
                class == NBIT_ATOMIC,
                cd@[3] == class,
                nbit_workable(cd@),
                size > 0,
                tree == nbit_tree(cd@),
                tree.end is Done,
                atomic_ok(p.size, p.precision, p.offset),
                piece == atomic_piece(p.size, p.order, p.precision, p.offset),
                tree.pieces == seq![piece],
                writer.bits() == packed_bits(repeated(tree.pieces, k as nat, sz), data@),
            decreases n - k,
        {
            proof {
                lemma_element_fit(cd@, k as nat);
                let by = k as nat * sz;
                lemma_moved_one(piece, by);
                assert(moved(tree.pieces, by)[0] == piece.moved(by));
                lemma_packed_bits_concat(
                    repeated(tree.pieces, k as nat, sz),
                    moved(tree.pieces, by),
                    data@,
                );
                lemma_one_piece(piece.moved(by), data@, data@, Seq::empty(), 0);
                assert(k * size <= total) by (nonlinear_arith)
                    requires
                        k < n,
                        total == n * size,
                ;
            }
            nbit_compress_one_atomic(data, k as u64 * size as u64, &mut writer, &p);
            k = k + 1;
        }
    } else if class == NBIT_ARRAY || class == NBIT_COMPOUND {
        let mut k: u32 = 0;
        while k < n
            invariant
                writer.wf(),
                k <= n,
                n == cd@[2],
                size == cd@[4],
                sz == size,
                total == n * size,
                data@.len() == total,
                class == NBIT_ARRAY || class == NBIT_COMPOUND,
                cd@[3] == class,
                nbit_workable(cd@),
                size > 0,
                tree == nbit_tree(cd@),
                k > 0 ==> tree.end is Done,
                writer.bits() == packed_bits(repeated(tree.pieces, k as nat, sz), data@),
            decreases n - k,
        {
            proof {
                lemma_element_fit(cd@, k as nat);
                lemma_packed_bits_concat(
                    repeated(tree.pieces, k as nat, sz),
                    moved(tree.pieces, k as nat * sz),
                    data@,
                );
                assert(k * size <= total) by (nonlinear_arith)
                    requires
                        k < n,
                        total == n * size,
                ;
            }
            let at: u64 = k as u64 * size as u64;
            let r = if class == NBIT_ARRAY {
                nbit_compress_one_array(data, at, &mut writer, cd, 4)
            } else {
                nbit_compress_one_compound(data, at, &mut writer, cd, 4)
            };
            match r {
                Ok(_) => {},
                Err(e) => return Err(e),
            }
            k = k + 1;
        }
    } else {
        return Err(unsupported_top(class));
    }
    let ghost bits = writer.bits();
    proof {
        lemma_packed_bits_len(nbit_pieces(cd@), data@);
        assert(bits.len() <= 8 * (total + 1));
    }
    let whole: bool = writer.is_whole();
    let empty: bool = writer.is_empty();
    let mut out: Vec<u8> = writer.finish();
    if whole && !empty && (out.len() as u64) <= total {
        out.push(0);
        proof {
            crate::format::bitstream::lemma_read_past_end(bits, bits.len() as int, 8);
        }
    }
    assert(out@ =~= nbit_packed(cd@, data@));
    Ok(out)
}

/// What unpacking can work on: the element count and size fit, the pieces that are begun
/// before the data end lie within the elements, and the data end before the tree turns out
/// to lack a size.
pub open spec fn nbit_readable(cd: Seq<u32>, data: Seq<u8>) -> bool {
    let s = stream_of(data);
    let total = nbit_total(cd);
    &&& cd.len() >= 5
    &&& total <= usize::MAX
    &&& total + left(cd, 4) * 0x1_0000_0000 <= u64::MAX
    &&& cd.len() < usize::MAX
    &&& nbit_size(cd) > 0 && nbit_walked(cd) ==> {
        let ps = if nbit_tree(cd).end is Done {
            nbit_pieces(cd)
        } else {
            nbit_tree(cd).pieces
        };
        &&& begun_fit(ps, total, s.len() as int, 0)
        &&& nbit_tree(cd).end is Stuck ==> unpacked(
            ps,
            Seq::new(total, |i: int| 0u8),
            s,
            0,
        ) is None
    }
}

proof fn lemma_element_read(cd: Seq<u32>, data: Seq<u8>, k: nat)
    requires
        nbit_readable(cd, data),
        nbit_size(cd) > 0,
        nbit_walked(cd),
        k < nbit_count(cd),
        !(nbit_tree(cd).end is Done) ==> k == 0,
    ensures
        ({
            let q = bit_count(repeated(nbit_tree(cd).pieces, k, nbit_size(cd))) as int;
            &&& begun_fit(
                moved(nbit_tree(cd).pieces, k * nbit_size(cd)),
                nbit_total(cd),
                stream_of(data).len() as int,
                q,
            )
            &&& nbit_tree(cd).end is Stuck ==> unpacked(
                moved(nbit_tree(cd).pieces, k * nbit_size(cd)),
                Seq::new(nbit_total(cd), |i: int| 0u8),
                stream_of(data),
                q,
            ) is None
        }),
        k * nbit_size(cd) + nbit_size(cd) <= nbit_total(cd),
{
    let n = nbit_count(cd);
    let size = nbit_size(cd);
    assert(k * size + size <= n * size) by (nonlinear_arith)
        requires
            k + 1 <= n,
    ;
    if nbit_tree(cd).end is Done {
        lemma_begun_copy(
            nbit_tree(cd).pieces,
            n,
            size,
            nbit_total(cd),
            stream_of(data).len() as int,
            0,
            k,
        );
    } else {
        assert(0 * size == 0);
        assert(moved(nbit_tree(cd).pieces, 0) =~= nbit_tree(cd).pieces);
        reveal_with_fuel(repeated, 1);
        reveal_with_fuel(bit_count, 1);
    }
}

/// Parameters that can be worked on whatever the data.
pub proof fn lemma_workable_readable(cd: Seq<u32>, data: Seq<u8>)
    requires
        nbit_workable(cd),
    ensures
        nbit_readable(cd, data),
{
}

fn nbit_unpack(data: &[u8], cd: &[u32]) -> (r: FormatResult<Vec<u8>>)
    requires
        nbit_readable(cd@, data@),
        nbit_size(cd@) > 0,
        8 * data@.len() + 64 <= u64::MAX,
    ensures
        nbit_unpack_result(cd@, data@, r),
{
    let n: u32 = cd[2];
    let size: u32 = cd[4];
    let class: u32 = cd[3];
    proof {
        assert(n * size == nbit_total(cd@));
    }
    let total: usize = n as usize * size as usize;
    let ghost tree = nbit_tree(cd@);
    let ghost sz = size as nat;
    let ghost s = stream_of(data@);
    let mut out: Vec<u8> = filled(total, 0);
    let ghost out0 = out@;
    let mut pos: u64 = 0;
    if class == NBIT_ATOMIC {
        let p = match read_atomic(cd, 4) {
            Ok(p) => p,
            Err(e) => return Err(e),
        };
        let ghost piece = atomic_piece(p.size, p.order, p.precision, p.offset);
        let mut k: u32 = 0;
        while k < n
            invariant
                k <= n,
                n == cd@[2],
                size == cd@[4],
                p.size == size,
                sz == size,
                total == n * size,
                out@.len() == total,
                8 * data@.len() + 64 <= u64::MAX,
                pos <= 8 * data@.len(),
                s == stream_of(data@),
                out0 == Seq::new(nbit_total(cd@), |i: int| 0u8),
                class == NBIT_ATOMIC,
                cd@[3] == class,
                nbit_readable(cd@, data@),
                s.len() == 8 * data@.len(),
                size > 0,
                tree == nbit_tree(cd@),
                tree.end is Done,
                atomic_ok(p.size, p.precision, p.offset),
                piece == atomic_piece(p.size, p.order, p.precision, p.offset),
                tree.pieces == seq![piece],
                unpacked(repeated(tree.pieces, k as nat, sz), out0, s, 0) == Some(
                    (out@, pos as int),
                ),
            decreases n - k,
        {
            proof {
                lemma_element_read(cd@, data@, k as nat);
                lemma_unpacked_len(repeated(tree.pieces, k as nat, sz), out0, s, 0);
                let by = k as nat * sz;
                lemma_moved_one(piece, by);
                assert(moved(tree.pieces, by)[0] == piece.moved(by));
                assert(moved(tree.pieces, by) =~= seq![piece.moved(by)]);
                lemma_begun_one(piece.moved(by), out0.len(), s.len() as int, pos as int);
                lemma_unpacked_concat(
                    repeated(tree.pieces, k as nat, sz),
                    moved(tree.pieces, by),
                    out0,
                    s,
                    0,
                );
                lemma_one_piece(piece.moved(by), out@, out@, s, pos as int);
                assert(k * size <= total) by (nonlinear_arith)
                    requires
                        k < n,
                        total == n * size,
                ;
            }
            match nbit_decompress_one_atomic(&mut out, k as u64 * size as u64, data, pos, &p) {
                Some(q) => {
                    pos = q;
                },
                None => {
                    proof {
                        lemma_repeated_short(
                            tree.pieces,
                            (k + 1) as nat,
                            n as nat,
                            sz,
                            out0,
                            s,
                            0,
                        );
                    }
                    return Err(too_short());
                },
            }
            k = k + 1;
        }
    } else if class == NBIT_ARRAY || class == NBIT_COMPOUND {
        let mut k: u32 = 0;
        while k < n
            invariant
                k <= n,
                n == cd@[2],
                size == cd@[4],
                sz == size,
                total == n * size,
                out@.len() == total,
                8 * data@.len() + 64 <= u64::MAX,
                pos <= 8 * data@.len(),
                s == stream_of(data@),
                out0 == Seq::new(nbit_total(cd@), |i: int| 0u8),
                class == NBIT_ARRAY || class == NBIT_COMPOUND,
                cd@[3] == class,
                nbit_readable(cd@, data@),
                s.len() == 8 * data@.len(),
                size > 0,
                tree == nbit_tree(cd@),
                k > 0 ==> tree.end is Done,
                unpacked(repeated(tree.pieces, k as nat, sz), out0, s, 0) == Some(
                    (out@, pos as int),
                ),
            decreases n - k,
        {
            proof {
                lemma_element_read(cd@, data@, k as nat);
                lemma_unpacked_len(repeated(tree.pieces, k as nat, sz), out0, s, 0);
                lemma_unpacked_concat(
                    repeated(tree.pieces, k as nat, sz),
                    moved(tree.pieces, k as nat * sz),
                    out0,
                    s,
                    0,
                );
                assert(k * size <= total) by (nonlinear_arith)
                    requires
                        k < n,
                        total == n * size,
                ;
                if k == 0 {
                    assert(0 * sz == 0);
                    assert(moved(tree.pieces, 0) =~= tree.pieces);
                }
            }
            let at: u64 = k as u64 * size as u64;
            let r = if class == NBIT_ARRAY {
                nbit_decompress_one_array(&mut out, at, data, &mut pos, cd, 4)
            } else {
                nbit_decompress_one_compound(&mut out, at, data, &mut pos, cd, 4)
            };
            match r {
                Ok(_) => {},
                Err(e) => {
                    proof {
                        if !(tree.end is Fail) {
                            lemma_repeated_short(
                                tree.pieces,
                                (k + 1) as nat,
                                n as nat,
                                sz,
                                out0,
                                s,
                                0,
                            );
                        }
                    }
                    return Err(e);
                },
            }
            k = k + 1;
        }
    } else {
        return Err(unsupported_top(class));
    }
    Ok(out)
}

/// Apply the HDF5 N-bit filter.
///
/// `cd_values` holds the parameters:
/// `[0]` = number of parameters, `[1]` = need-not-compress flag,
/// `[2]` = element count, `[3..]` = the datatype parameter tree.
///
/// On compress, `data` is the raw element buffer; on decompress, `data`
/// is the packed buffer and the result is the unpacked element buffer.
pub fn apply_nbit(data: &[u8], cd_values: &[u32], compress: bool) -> (r: FormatResult<Vec<u8>>)
    requires
        cd_values@.len() >= 4 && cd_values@[1] == 0 ==> {
            &&& cd_values@.len() >= 5
            &&& nbit_total(cd_values@) <= usize::MAX
            &&& nbit_size(cd_values@) > 0 ==> if compress {
                data@.len() == nbit_total(cd_values@) ==> nbit_workable(cd_values@)
            } else {
                nbit_readable(cd_values@, data@)
            }
        },
        8 * data@.len() + 64 <= u64::MAX,
        compress && cd_values@.len() >= 4 && cd_values@[1] == 0 && nbit_size(cd_values@) > 0
            && data@.len() == nbit_total(cd_values@) && nbit_class_known(cd_values@) && (nbit_tree(
            cd_values@,
        ).end is Done || !nbit_walked(cd_values@)) ==> bit_count(nbit_pieces(cd_values@)) <= 8 * (
        nbit_total(cd_values@) + 1),
    ensures
        cd_values@.len() < 4 ==> (r matches Err(e) && e.is_invalid("nbit: cd_values too short"@)),
        cd_values@.len() >= 4 && cd_values@[1] != 0 ==> (r matches Ok(out) && out@ == data@),
        cd_values@.len() >= 4 && cd_values@[1] == 0 ==> if nbit_size(cd_values@) == 0 {
            r matches Err(e) && e.is_invalid("nbit: zero datatype size"@)
        } else if compress {
            nbit_pack_result(cd_values@, data@, r)
        } else {
            nbit_unpack_result(cd_values@, data@, r)
        },
{
    if cd_values.len() < 4 {
        return Err(invalid_data("nbit: cd_values too short"));
    }
    if cd_values[1] != 0 {
        return Ok(slice_to_vec(data));
    }
    if cd_values[4] == 0 {
        return Err(invalid_data("nbit: zero datatype size"));
    }
    if compress {
        nbit_pack(data, cd_values)
    } else {
        nbit_unpack(data, cd_values)
    }
}

} // verus!
