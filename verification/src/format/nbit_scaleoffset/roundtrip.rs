//! What comes back of packed elements.

use crate::format::bitstream::{
    bit_at, byte_bit, lemma_byte_of_bits, lemma_byte_value, lemma_packed_stream, packed,
    packed_byte, read_bits, stream_of,
};
use crate::format::nbit_scaleoffset::nbit::{
    nbit_bytes, nbit_class_known, nbit_count, nbit_packed, nbit_pieces, nbit_size, nbit_total,
    nbit_tree, nbit_unpacked,
};
use crate::format::nbit_scaleoffset::pieces::{
    all_fit, bit_count, lemma_packed_bits_len, moved, packed_bits, repeated, unpacked, Piece,
};
use crate::format::nbit_scaleoffset::tree::{atomic_ok, atomic_piece, NBIT_ATOMIC};
use vstd::prelude::*;

verus! {

/// Whether bit `x` of byte `i`, counted from the most significant, is a
/// significant bit of `p`.
pub open spec fn significant(p: Piece, i: int, x: int) -> bool {
    let t = 8 * p.rank(i - p.at) + 7 - x;
    &&& 0 <= i - p.at < p.size
    &&& p.shift <= t < p.shift + p.precision
}

/// Whether the bit is a significant bit of one of the pieces.
pub open spec fn kept(ps: Seq<Piece>, i: int, x: int) -> bool {
    exists|j: int| 0 <= j < ps.len() && significant(#[trigger] ps[j], i, x)
}

/// Whether no byte holds significant bits of two pieces.
pub open spec fn disjoint(ps: Seq<Piece>) -> bool {
    forall|j: int, k: int, i: int|
        0 <= j < k < ps.len() && (#[trigger] ps[j]).touches(i - ps[j].at) ==> !(
        #[trigger] ps[k]).touches(#[trigger] (i - ps[k].at))
}

/// Whether all bits but the significant ones are zero.
pub open spec fn only_significant(ps: Seq<Piece>, data: Seq<u8>) -> bool {
    forall|i: int, x: int|
        0 <= i < data.len() && 0 <= x < 8 && #[trigger] byte_bit(data[i], x) ==> kept(ps, i, x)
}

/// `out` holds the significant bits of `data` and zero bits.
pub open spec fn keeps(ps: Seq<Piece>, data: Seq<u8>, out: Seq<u8>) -> bool {
    &&& out.len() == data.len()
    &&& forall|i: int, x: int|
        0 <= i < data.len() && 0 <= x < 8 ==> #[trigger] byte_bit(out[i], x) == (kept(ps, i, x)
            && byte_bit(data[i], x))
}

proof fn lemma_stored_byte_bit(p: Piece, s: Seq<bool>, q: int, k: int, x: int)
    requires
        0 <= x < 8,
    ensures
        byte_bit(p.stored_byte(s, q, k), x) == p.stored_bit(s, q, k, x),
{
    let bits = Seq::new(8, |x: int| p.stored_bit(s, q, k, x));
    reveal_with_fuel(read_bits, 9);
    assert(bit_at(bits, 0) == p.stored_bit(s, q, k, 0));
    assert(bit_at(bits, 1) == p.stored_bit(s, q, k, 1));
    assert(bit_at(bits, 2) == p.stored_bit(s, q, k, 2));
    assert(bit_at(bits, 3) == p.stored_bit(s, q, k, 3));
    assert(bit_at(bits, 4) == p.stored_bit(s, q, k, 4));
    assert(bit_at(bits, 5) == p.stored_bit(s, q, k, 5));
    assert(bit_at(bits, 6) == p.stored_bit(s, q, k, 6));
    assert(bit_at(bits, 7) == p.stored_bit(s, q, k, 7));
    lemma_byte_of_bits(
        bits[0],
        bits[1],
        bits[2],
        bits[3],
        bits[4],
        bits[5],
        bits[6],
        bits[7],
        p.stored_byte(s, q, k),
    );
}

/// A byte is known by its bits.
proof fn lemma_same_byte(a: u8, b: u8)
    requires
        forall|x: int| 0 <= x < 8 ==> #[trigger] byte_bit(a, x) == byte_bit(b, x),
    ensures
        a == b,
{
    lemma_byte_value(a);
    lemma_byte_value(b);
    assert(byte_bit(a, 0) == byte_bit(b, 0));
    assert(byte_bit(a, 1) == byte_bit(b, 1));
    assert(byte_bit(a, 2) == byte_bit(b, 2));
    assert(byte_bit(a, 3) == byte_bit(b, 3));
    assert(byte_bit(a, 4) == byte_bit(b, 4));
    assert(byte_bit(a, 5) == byte_bit(b, 5));
    assert(byte_bit(a, 6) == byte_bit(b, 6));
    assert(byte_bit(a, 7) == byte_bit(b, 7));
}

proof fn lemma_zero_byte(x: int)
    requires
        0 <= x < 8,
    ensures
        !byte_bit(0u8, x),
{
    lemma_byte_of_bits(false, false, false, false, false, false, false, false, 0u8);
}

/// One piece, put in place from where its bits were written.
proof fn lemma_store_one(p: Piece, data: Seq<u8>, out: Seq<u8>, s: Seq<bool>, q: int, i: int, x: int)
    requires
        p.fits(data.len()),
        out.len() == data.len(),
        0 <= q,
        q + p.precision <= s.len(),
        s.subrange(q, q + p.precision) == p.bits(data),
        0 <= i < data.len(),
        0 <= x < 8,
    ensures
        significant(p, i, x) ==> p.touches(i - p.at),
        byte_bit(p.stored(out, s, q)[i], x) == if p.touches(i - p.at) {
            significant(p, i, x) && byte_bit(data[i], x)
        } else {
            byte_bit(out[i], x)
        },
{
    let k = i - p.at;
    let t = 8 * p.rank(k) + 7 - x;
    if significant(p, i, x) {
        assert(t / 8 == p.rank(k));
        assert(t % 8 == 7 - x);
        assert(p.touches(k));
        let j = p.shift + p.precision - 1 - t;
        assert(s.subrange(q, q + p.precision)[j] == s[q + j]);
        assert(p.byte_of(t) == k);
        assert(p.bits(data)[j] == byte_bit(data[i], x));
    }
    if p.touches(k) {
        lemma_stored_byte_bit(p, s, q, k, x);
    }
}

/// Unpacking the significant bits of `data` gives them back.
pub proof fn lemma_unpack_packed(ps: Seq<Piece>, data: Seq<u8>, out: Seq<u8>, s: Seq<bool>)
    requires
        all_fit(ps, data.len()),
        disjoint(ps),
        out == Seq::new(data.len(), |i: int| 0u8),
        packed_bits(ps, data).len() <= s.len(),
        s.subrange(0, packed_bits(ps, data).len() as int) == packed_bits(ps, data),
    ensures
        unpacked(ps, out, s, 0) matches Some((o, q)) && keeps(ps, data, o) && q == bit_count(ps),
    decreases ps.len(),
{
    if ps.len() == 0 {
        assert forall|i: int, x: int| 0 <= i < data.len() && 0 <= x < 8 implies #[trigger] byte_bit(
            out[i],
            x,
        ) == (kept(ps, i, x) && byte_bit(data[i], x)) by {
            lemma_zero_byte(x);
        }
    } else {
        let qs = ps.drop_last();
        let p = ps.last();
        let head = packed_bits(qs, data);
        let all = packed_bits(ps, data);
        lemma_packed_bits_len(qs, data);
        assert(all == head + p.bits(data));
        assert(s.subrange(0, head.len() as int) =~= s.subrange(0, all.len() as int).subrange(
            0,
            head.len() as int,
        ));
        assert(all.subrange(0, head.len() as int) =~= head);
        assert forall|j: int, k: int, i: int|
            0 <= j < k < qs.len() && (#[trigger] qs[j]).touches(i - qs[j].at) implies !(
        #[trigger] qs[k]).touches(#[trigger] (i - qs[k].at)) by {
            assert(ps[j].touches(i - ps[j].at));
            assert(qs[k] == ps[k]);
        }
        lemma_unpack_packed(qs, data, out, s);
        let (o, q) = unpacked(qs, out, s, 0).unwrap();
        assert(s.subrange(q, q + p.precision) =~= p.bits(data)) by {
            assert forall|j: int| 0 <= j < p.precision implies s[q + j] == p.bits(data)[j] by {
                assert(s.subrange(0, all.len() as int)[q + j] == all[q + j]);
            }
        }
        let r = p.stored(o, s, q);
        assert forall|i: int, x: int| 0 <= i < data.len() && 0 <= x < 8 implies #[trigger] byte_bit(
            r[i],
            x,
        ) == (kept(ps, i, x) && byte_bit(data[i], x)) by {
            lemma_store_one(p, data, o, s, q, i, x);
            assert(byte_bit(o[i], x) == (kept(qs, i, x) && byte_bit(data[i], x)));
            let last = ps.len() - 1;
            if p.touches(i - p.at) {
                if kept(ps, i, x) {
                    let j = choose|j: int|
                        0 <= j < ps.len() && significant(#[trigger] ps[j], i, x);
                    if j < last {
                        let pj = ps[j];
                        assert(pj.touches(i - pj.at)) by {
                            let t = 8 * pj.rank(i - pj.at) + 7 - x;
                            assert(t / 8 == pj.rank(i - pj.at));
                        }
                        assert(!ps[last].touches(i - ps[last].at));
                        assert(false);
                    }
                }
                if significant(p, i, x) {
                    assert(significant(ps[last], i, x));
                }
            } else {
                if kept(ps, i, x) {
                    let j = choose|j: int|
                        0 <= j < ps.len() && significant(#[trigger] ps[j], i, x);
                    assert(significant(qs[j], i, x));
                }
                if kept(qs, i, x) {
                    let j = choose|j: int|
                        0 <= j < qs.len() && significant(#[trigger] qs[j], i, x);
                    assert(significant(ps[j], i, x));
                }
            }
        }
    }
}

/// The stream of the packed bytes starts with the packed bits.
pub proof fn lemma_nbit_bytes_stream(bits: Seq<bool>, limit: nat)
    requires
        bits.len() <= 8 * (limit + 1),
    ensures
        bits.len() <= stream_of(nbit_bytes(bits, limit)).len(),
        stream_of(nbit_bytes(bits, limit)).subrange(0, bits.len() as int) == bits,
{
    let bytes = nbit_bytes(bits, limit);
    lemma_packed_stream(bits);
    assert forall|i: int| 0 <= i < bits.len() implies stream_of(bytes)[i] == bits[i] by {
        assert(stream_of(packed(bits)).subrange(0, bits.len() as int)[i] == bits[i]);
        assert(bytes[i / 8] == packed_byte(bits, i / 8));
        assert(packed(bits)[i / 8] == packed_byte(bits, i / 8));
    }
    assert(stream_of(bytes).subrange(0, bits.len() as int) =~= bits);
}

/// Pieces that do not share bytes within an element do not share bytes in a
/// row of elements.
proof fn lemma_repeated_disjoint(ps: Seq<Piece>, n: nat, step: nat)
    requires
        all_fit(ps, step),
        disjoint(ps),
    ensures
        all_fit(repeated(ps, n, step), n * step),
        disjoint(repeated(ps, n, step)),
    decreases n,
{
    if n == 0 {
        assert(repeated(ps, n, step).len() == 0);
    } else {
        let m = (n - 1) as nat;
        let head = repeated(ps, m, step);
        let tail = moved(ps, m * step);
        let all = repeated(ps, n, step);
        assert(n * step == m * step + step) by (nonlinear_arith)
            requires
                n == m + 1,
        ;
        lemma_repeated_disjoint(ps, m, step);
        assert forall|i: int| 0 <= i < all.len() implies (#[trigger] all[i]).fits(n * step) by {
            if i < head.len() {
                assert(all[i] == head[i]);
            } else {
                assert(ps[i - head.len()].fits(step));
            }
        }
        assert forall|j: int, k: int, i: int|
            0 <= j < k < all.len() && (#[trigger] all[j]).touches(i - all[j].at) implies !(
        #[trigger] all[k]).touches(#[trigger] (i - all[k].at)) by {
            let h = head.len() as int;
            if k < h {
                assert(all[j] == head[j]);
                assert(all[k] == head[k]);
                assert(head[j].touches(i - head[j].at));
                assert(!head[k].touches(i - head[k].at));
            } else if j < h {
                assert(all[j] == head[j]);
                assert(head[j].fits(m * step));
                assert(all[k].at == ps[k - h].at + m * step);
            } else {
                let a = ps[j - h];
                let b = ps[k - h];
                let i2 = i - m * step;
                assert(all[j] == a.moved(m * step));
                assert(all[k] == b.moved(m * step));
                assert(i - all[j].at == i2 - a.at);
                assert(a.touches(i2 - a.at));
                assert(!b.touches(i2 - b.at));
                assert(i - all[k].at == i2 - b.at);
            }
        }
    }
}

/// Unpacking what packing wrote gives back the significant bits of every
/// element and zero bits elsewhere: all of the data, when its other bits are
/// zero.
pub proof fn lemma_nbit_roundtrip(cd: Seq<u32>, data: Seq<u8>)
    requires
        cd.len() >= 5,
        nbit_class_known(cd),
        nbit_tree(cd).end is Done,
        all_fit(nbit_tree(cd).pieces, nbit_size(cd)),
        disjoint(nbit_tree(cd).pieces),
        data.len() == nbit_total(cd),
        bit_count(nbit_pieces(cd)) <= 8 * (nbit_total(cd) + 1),
    ensures
        nbit_unpacked(cd, nbit_packed(cd, data)) matches Some((o, q)) && keeps(
            nbit_pieces(cd),
            data,
            o,
        ) && (only_significant(nbit_pieces(cd), data) ==> o == data),
{
    let ps = nbit_pieces(cd);
    lemma_repeated_disjoint(nbit_tree(cd).pieces, nbit_count(cd), nbit_size(cd));
    lemma_packed_bits_len(ps, data);
    let bits = packed_bits(ps, data);
    lemma_nbit_bytes_stream(bits, nbit_total(cd));
    let s = stream_of(nbit_packed(cd, data));
    let zeros = Seq::new(data.len(), |i: int| 0u8);
    assert(zeros =~= Seq::new(nbit_total(cd), |i: int| 0u8));
    lemma_unpack_packed(ps, data, zeros, s);
    let (o, q) = nbit_unpacked(cd, nbit_packed(cd, data)).unwrap();
    if only_significant(ps, data) {
        assert forall|i: int| 0 <= i < data.len() implies o[i] == data[i] by {
            assert forall|x: int| 0 <= x < 8 implies #[trigger] byte_bit(o[i], x) == byte_bit(
                data[i],
                x,
            ) by {
                if byte_bit(data[i], x) {
                    assert(kept(ps, i, x));
                }
            }
            lemma_same_byte(o[i], data[i]);
        }
        assert(o =~= data);
    }
}

/// Copies of a number take as many bits each as its precision.
pub proof fn lemma_repeated_count(p: Piece, n: nat, step: nat)
    ensures
        bit_count(repeated(seq![p], n, step)) == n * p.precision,
    decreases n,
{
    if n > 0 {
        let m = (n - 1) as nat;
        lemma_repeated_count(p, m, step);
        let head = repeated(seq![p], m, step);
        let all = repeated(seq![p], n, step);
        assert(all.drop_last() =~= head);
        assert(all.last() == p.moved(m * step));
        assert(n * p.precision == m * p.precision + p.precision) by (nonlinear_arith)
            requires
                n == m + 1,
        ;
    } else {
        assert(n * p.precision == 0) by (nonlinear_arith)
            requires
                n == 0,
        ;
    }
}

/// Unpacking what packing wrote of numbers with reduced precision gives the
/// numbers back when the bits outside the precision are zero, and otherwise
/// the numbers with those bits cleared.
pub proof fn lemma_nbit_atomic_roundtrip(cd: Seq<u32>, data: Seq<u8>)
    requires
        cd.len() >= 8,
        cd[3] == NBIT_ATOMIC,
        atomic_ok(cd[4], cd[6], cd[7]),
        data.len() == nbit_total(cd),
    ensures
        nbit_unpacked(cd, nbit_packed(cd, data)) matches Some((o, q)) && keeps(
            nbit_pieces(cd),
            data,
            o,
        ) && (only_significant(nbit_pieces(cd), data) ==> o == data),
{
    let p = atomic_piece(cd[4], cd[5], cd[6], cd[7]);
    let n = nbit_count(cd);
    let size = nbit_size(cd);
    assert(nbit_tree(cd).pieces == seq![p]);
    lemma_repeated_count(p, n, size);
    assert(n * p.precision <= 8 * (n * size)) by (nonlinear_arith)
        requires
            p.precision <= 8 * size,
    ;
    lemma_nbit_roundtrip(cd, data);
}

} // verus!
