//! Packed numbers of reduced precision.

use crate::format::bitstream::{
    bit_at, byte_bit, read_bits, stream_of,
};
use crate::format::bytes::{be_value, le_value};
use crate::format::nbit_scaleoffset::nbit::{
    nbit_count, nbit_packed, nbit_pieces, nbit_size, nbit_total, nbit_tree,
};
use crate::format::nbit_scaleoffset::pieces::{
    lemma_packed_bits_len, moved, packed_bits, repeated, Piece,
};
use crate::format::nbit_scaleoffset::roundtrip::{lemma_nbit_bytes_stream, lemma_repeated_count};
use crate::format::nbit_scaleoffset::tree::{
    atomic_ok, atomic_piece, walk_array, walk_compound, walk_member, walk_members, walk_moved,
    NbitAtomic, WalkEnd, NBIT_ATOMIC, NBIT_ORDER_LE,
};
use vstd::arithmetic::div_mod::{lemma_div_denominator, lemma_mod_breakdown};
use vstd::arithmetic::power2::{
    lemma2_to64, lemma_pow2_adds, lemma_pow2_pos, lemma_pow2_unfold, pow2,
};
use vstd::prelude::*;

verus! {

/// The number that a piece is a part of, in its byte order.
pub open spec fn number_at(p: Piece, data: Seq<u8>) -> nat {
    let bytes = data.subrange(p.at as int, (p.at + p.size) as int);
    if p.little {
        le_value(bytes)
    } else {
        be_value(bytes)
    }
}

proof fn lemma_shifted(b: u8)
    by (bit_vector)
    ensures
        (b >> 0u8) & 1u8 == (b / 1u8) % 2u8,
        (b >> 1u8) & 1u8 == (b / 2u8) % 2u8,
        (b >> 2u8) & 1u8 == (b / 4u8) % 2u8,
        (b >> 3u8) & 1u8 == (b / 8u8) % 2u8,
        (b >> 4u8) & 1u8 == (b / 16u8) % 2u8,
        (b >> 5u8) & 1u8 == (b / 32u8) % 2u8,
        (b >> 6u8) & 1u8 == (b / 64u8) % 2u8,
        (b >> 7u8) & 1u8 == (b / 128u8) % 2u8,
{
}

proof fn lemma_parity(b: int, rest: int, d: int, h: int)
    requires
        0 <= b < 256,
        0 <= rest,
        0 < d,
        0 <= h,
        d * (2 * h) == 256,
    ensures
        ((b + 256 * rest) / d) % 2 == (b / d) % 2,
{
    let k = 2 * h * rest;
    assert(256 * rest == d * k) by (nonlinear_arith)
        requires
            d * (2 * h) == 256,
            k == 2 * h * rest,
    ;
    vstd::arithmetic::div_mod::lemma_hoist_over_denominator(b, k, d as nat);
    assert(b / d + k == (b + k * d) / d);
    assert(k * d == d * k) by (nonlinear_arith);
    assert(k == 2 * (h * rest)) by (nonlinear_arith)
        requires
            k == 2 * h * rest,
    ;
    assert((b / d + 2 * (h * rest)) % 2 == (b / d) % 2);
}

proof fn lemma_low_bit(b: u8, rest: nat, t: nat)
    requires
        t < 8,
    ensures
        (((b as nat + 256 * rest) / pow2(t)) % 2 == 1) == byte_bit(b, 7 - t),
{
    lemma2_to64();
    lemma_shifted(b);
    if t == 0 {
        lemma_parity(b as int, rest as int, 1, 128);
    } else if t == 1 {
        lemma_parity(b as int, rest as int, 2, 64);
    } else if t == 2 {
        lemma_parity(b as int, rest as int, 4, 32);
    } else if t == 3 {
        lemma_parity(b as int, rest as int, 8, 16);
    } else if t == 4 {
        lemma_parity(b as int, rest as int, 16, 8);
    } else if t == 5 {
        lemma_parity(b as int, rest as int, 32, 4);
    } else if t == 6 {
        lemma_parity(b as int, rest as int, 64, 2);
    } else {
        lemma_parity(b as int, rest as int, 128, 1);
    }
}

proof fn lemma_high_bit(b: u8, rest: nat, t: nat)
    requires
        8 <= t,
    ensures
        (b as nat + 256 * rest) / pow2(t) == rest / pow2((t - 8) as nat),
{
    lemma2_to64();
    let s = (t - 8) as nat;
    lemma_pow2_adds(8, s);
    lemma_pow2_pos(s);
    let v = b as int + 256 * rest;
    lemma_div_denominator(v, 256, pow2(s) as int);
    assert(v / 256 == rest);
}

proof fn lemma_le_bit(b: Seq<u8>, t: nat)
    requires
        t < 8 * b.len(),
    ensures
        ((le_value(b) / pow2(t)) % 2 == 1) == byte_bit(b[t as int / 8], 7 - t as int % 8),
    decreases b.len(),
{
    let rest = b.drop_first();
    if t < 8 {
        lemma_low_bit(b[0], le_value(rest), t);
    } else {
        lemma_high_bit(b[0], le_value(rest), t);
        let s = (t - 8) as nat;
        lemma_le_bit(rest, s);
        assert(rest[s as int / 8] == b[t as int / 8]);
    }
}

proof fn lemma_be_bit(b: Seq<u8>, t: nat)
    requires
        t < 8 * b.len(),
    ensures
        ((be_value(b) / pow2(t)) % 2 == 1) == byte_bit(
            b[b.len() - 1 - t as int / 8],
            7 - t as int % 8,
        ),
    decreases b.len(),
{
    let rest = b.drop_last();
    if t < 8 {
        lemma_low_bit(b.last(), be_value(rest), t);
    } else {
        lemma_high_bit(b.last(), be_value(rest), t);
        let s = (t - 8) as nat;
        lemma_be_bit(rest, s);
        assert(rest[rest.len() - 1 - s as int / 8] == b[b.len() - 1 - t as int / 8]);
    }
}

proof fn lemma_piece_bit(p: Piece, data: Seq<u8>, t: nat)
    requires
        p.fits(data.len()),
        t < 8 * p.size,
    ensures
        ((number_at(p, data) / pow2(t)) % 2 == 1) == byte_bit(
            data[p.at + p.byte_of(t as int)],
            7 - t as int % 8,
        ),
{
    let bytes = data.subrange(p.at as int, (p.at + p.size) as int);
    if p.little {
        lemma_le_bit(bytes, t);
    } else {
        lemma_be_bit(bytes, t);
    }
}

proof fn lemma_piece_upto(p: Piece, data: Seq<u8>, n: nat)
    requires
        p.fits(data.len()),
        n <= p.precision,
    ensures
        read_bits(p.bits(data), 0, n) == (number_at(p, data) / pow2(
            (p.shift + p.precision - n) as nat,
        )) % pow2(n),
    decreases n,
{
    lemma2_to64();
    let v = number_at(p, data);
    if n == 0 {
        assert(pow2(0) == 1);
    } else {
        let m = (n - 1) as nat;
        let k = (p.shift + p.precision - n) as nat;
        lemma_piece_upto(p, data, m);
        lemma_piece_bit(p, data, k);
        assert(p.bits(data)[m as int] == byte_bit(
            data[p.at + p.byte_of(k as int)],
            7 - k as int % 8,
        ));
        assert(bit_at(p.bits(data), 0 + m as int) == p.bits(data)[m as int]);
        lemma_pow2_unfold(k + 1);
        lemma_pow2_unfold(n);
        lemma_pow2_pos(k);
        lemma_pow2_pos(m);
        let x = (v / pow2(k)) as int;
        lemma_div_denominator(v as int, pow2(k) as int, 2);
        assert(pow2(k) as int * 2 == pow2(k + 1));
        assert(x / 2 == v as int / pow2(k + 1) as int);
        lemma_mod_breakdown(x, 2, pow2(m) as int);
        assert(2 * pow2(m) as int == pow2(n));
    }
}

proof fn lemma_read_same(s: Seq<bool>, q: int, t: Seq<bool>, n: nat)
    requires
        0 <= q,
        q + t.len() <= s.len(),
        s.subrange(q, q + t.len()) == t,
        n <= t.len(),
    ensures
        read_bits(s, q, n) == read_bits(t, 0, n),
    decreases n,
{
    if n > 0 {
        lemma_read_same(s, q, t, (n - 1) as nat);
        assert(s.subrange(q, q + t.len())[n - 1] == s[q + n - 1]);
    }
}

proof fn lemma_copy_bits(p: Piece, n: nat, step: nat, data: Seq<u8>, i: nat)
    requires
        i < n,
    ensures
        ({
            let all = packed_bits(repeated(seq![p], n, step), data);
            let from = i * p.precision;
            &&& from + p.precision <= all.len()
            &&& all.subrange(from as int, (from + p.precision) as int) == p.moved(i * step).bits(data)
        }),
    decreases n,
{
    let m = (n - 1) as nat;
    let head = repeated(seq![p], m, step);
    let ps = repeated(seq![p], n, step);
    assert(ps.drop_last() =~= head);
    assert(ps.last() == p.moved(m * step));
    let first = packed_bits(head, data);
    lemma_repeated_count(p, m, step);
    lemma_packed_bits_len(head, data);
    let from = i * p.precision;
    assert(from + p.precision <= m * p.precision || i == m) by (nonlinear_arith)
        requires
            from == i * p.precision,
            i + 1 <= m || i == m,
    ;
    if i < m {
        lemma_copy_bits(p, m, step, data, i);
        assert(packed_bits(ps, data).subrange(from as int, (from + p.precision) as int)
            =~= first.subrange(from as int, (from + p.precision) as int));
    } else {
        assert(packed_bits(ps, data).subrange(from as int, (from + p.precision) as int)
            =~= p.moved(m * step).bits(data));
    }
}

/// Numbers of reduced precision are packed one behind the other: number `i` takes the `i`-th
/// group of as many bits as its precision, and these hold the number without the bits below
/// its offset and above its precision.
pub proof fn lemma_numbers_packed(cd: Seq<u32>, data: Seq<u8>, i: nat)
    requires
        cd.len() >= 8,
        cd[3] == NBIT_ATOMIC,
        atomic_ok(cd[4], cd[6], cd[7]),
        data.len() == cd[2] * cd[4],
        i < cd[2],
    ensures
        ({
            let bytes = data.subrange(i * cd[4], i * cd[4] + cd[4]);
            let number = if cd[5] == NBIT_ORDER_LE {
                le_value(bytes)
            } else {
                be_value(bytes)
            };
            read_bits(stream_of(nbit_packed(cd, data)), i * cd[6], cd[6] as nat) == (number / pow2(
                cd[7] as nat,
            )) % pow2(cd[6] as nat)
        }),
{
    let p = atomic_piece(cd[4], cd[5], cd[6], cd[7]);
    let n = nbit_count(cd);
    let size = nbit_size(cd);
    assert(nbit_tree(cd).pieces == seq![p]);
    let ps = nbit_pieces(cd);
    let bits = packed_bits(ps, data);
    lemma_repeated_count(p, n, size);
    lemma_packed_bits_len(ps, data);
    assert(n * p.precision <= 8 * (n * size)) by (nonlinear_arith)
        requires
            p.precision <= 8 * size,
    ;
    lemma_nbit_bytes_stream(bits, nbit_total(cd));
    lemma_copy_bits(p, n, size, data, i);
    let s = stream_of(nbit_packed(cd, data));
    let one = p.moved(i * size);
    let from = (i * p.precision) as int;
    assert(0 <= i * size && i * size + size <= n * size) by (nonlinear_arith)
        requires
            i + 1 <= n,
    ;
    assert(one.fits(data.len()));
    assert(0 <= from) by (nonlinear_arith)
        requires
            from == i * p.precision,
    ;
    assert(s.subrange(from, from + p.precision) =~= one.bits(data)) by {
        assert(s.subrange(0, bits.len() as int) == bits);
        assert forall|k: int| 0 <= k < p.precision implies s[from + k] == one.bits(data)[k] by {
            assert(s.subrange(0, bits.len() as int)[from + k] == bits[from + k]);
            assert(bits.subrange(from, from + p.precision)[k] == one.bits(data)[k]);
        }
    }
    lemma_read_same(s, from, one.bits(data), p.precision);
    lemma_piece_upto(one, data, p.precision);
    assert(data.subrange(one.at as int, (one.at + one.size) as int) =~= data.subrange(
        i * cd[4],
        i * cd[4] + cd[4],
    ));
}

proof fn lemma_copy(p: Piece, n: nat, step: nat, k: int)
    requires
        0 <= k < n,
    ensures
        repeated(seq![p], n, step).len() == n,
        repeated(seq![p], n, step)[k] == p.moved((k * step) as nat),
    decreases n,
{
    let m = (n - 1) as nat;
    let head = repeated(seq![p], m, step);
    if m > 0 {
        if k < m {
            lemma_copy(p, m, step, k);
        } else {
            lemma_copy(p, m, step, 0);
        }
    }
    if k == m {
        assert(repeated(seq![p], n, step)[k] == moved(seq![p], m * step)[0]);
    }
}

/// Whether a number is described at `i`: its size, its byte order, its precision and its
/// offset.
pub open spec fn describes(parms: Seq<u32>, i: int, x: NbitAtomic) -> bool {
    &&& 0 <= i
    &&& i + 4 <= parms.len()
    &&& parms[i] == x.size
    &&& parms[i + 1] == x.order
    &&& parms[i + 2] == x.precision
    &&& parms[i + 3] == x.offset
    &&& x.size > 0
    &&& x.precision > 0
    &&& 8 * x.size <= u32::MAX
    &&& x.precision + x.offset <= 8 * x.size
}

/// Whether a piece is a number that stands at `at`.
pub open spec fn is_number(p: Piece, x: NbitAtomic, at: nat) -> bool {
    &&& p.at == at
    &&& p.size == x.size
    &&& p.little == (x.order == NBIT_ORDER_LE)
    &&& p.precision == x.precision
    &&& p.shift == x.offset
}

/// An array of numbers has as many of them as fit in its bytes, one behind the other.
pub proof fn lemma_array_described(parms: Seq<u32>, idx: nat, x: NbitAtomic, k: int)
    requires
        idx + 2 <= parms.len(),
        parms[idx as int + 1] == NBIT_ATOMIC,
        describes(parms, idx as int + 2, x),
        0 <= k < parms[idx as int] / x.size,
    ensures
        ({
            let w = walk_array(parms, idx);
            &&& w.end == WalkEnd::Done(idx + 6)
            &&& w.pieces.len() == parms[idx as int] / x.size
            &&& is_number(w.pieces[k], x, (k * x.size) as nat)
        }),
{
    let p = atomic_piece(x.size, x.order, x.precision, x.offset);
    lemma_copy(p, (parms[idx as int] / x.size) as nat, x.size as nat, k);
    assert(0 <= k * x.size) by (nonlinear_arith)
        requires
            0 <= k,
            0 <= x.size,
    ;
}

/// Whether a member that is a number is described at `i`: where it stands in the compound,
/// its class, and the number.
pub open spec fn listed_at(parms: Seq<u32>, i: int, at: u32, x: NbitAtomic) -> bool {
    &&& describes(parms, i + 2, x)
    &&& 0 <= i
    &&& parms[i] == at
    &&& parms[i + 1] == NBIT_ATOMIC
}

/// Whether members that are numbers are described from `i` on.
pub open spec fn lists(parms: Seq<u32>, i: int, at: Seq<u32>, members: Seq<NbitAtomic>) -> bool {
    &&& at.len() == members.len()
    &&& forall|j: int|
        0 <= j < members.len() ==> listed_at(parms, i + 6 * j, #[trigger] at[j], members[j])
}

proof fn lemma_members(
    parms: Seq<u32>,
    idx: nat,
    at: Seq<u32>,
    members: Seq<NbitAtomic>,
)
    requires
        lists(parms, idx as int, at, members),
    ensures
        ({
            let w = walk_members(parms, idx, members.len());
            &&& w.end == WalkEnd::Done(idx + 6 * members.len())
            &&& w.pieces.len() == members.len()
            &&& forall|j: int|
                0 <= j < members.len() ==> is_number(
                    w.pieces[j],
                    #[trigger] members[j],
                    at[j] as nat,
                )
        }),
    decreases members.len(),
{
    let n = members.len();
    if n > 0 {
        let rest = members.drop_first();
        let ats = at.drop_first();
        let z = 0int;
        assert(listed_at(parms, idx as int + 6 * z, at[z], members[z]));
        let next = idx as int + 6;
        assert forall|j: int| 0 <= j < rest.len() implies listed_at(
            parms,
            next + 6 * j,
            #[trigger] ats[j],
            rest[j],
        ) by {
            let i = j + 1;
            assert(ats[j] == at[i]);
            assert(listed_at(parms, idx as int + 6 * i, at[i], members[i]));
        }
        lemma_members(parms, idx + 6, ats, rest);
        let w = walk_members(parms, idx, n);
        let x = members[0];
        let first = walk_moved(walk_member(parms, idx + 2, NBIT_ATOMIC), at[0] as nat);
        assert(first.end == WalkEnd::Done(idx + 6));
        assert(first.pieces.len() == 1);
        let more = walk_members(parms, idx + 6, rest.len());
        assert(w.pieces == first.pieces + more.pieces);
        assert forall|j: int| 0 <= j < n implies is_number(
            w.pieces[j],
            #[trigger] members[j],
            at[j] as nat,
        ) by {
            if j > 0 {
                assert(rest[j - 1] == members[j]);
                assert(w.pieces[j] == more.pieces[j - 1]);
            } else {
                assert(first.pieces[0] == atomic_piece(
                    x.size,
                    x.order,
                    x.precision,
                    x.offset,
                ).moved(at[0] as nat));
            }
        }
    }
}

/// A compound of numbers has each of them where its member stands.
pub proof fn lemma_compound_described(
    parms: Seq<u32>,
    idx: nat,
    at: Seq<u32>,
    members: Seq<NbitAtomic>,
)
    requires
        idx + 2 <= parms.len(),
        parms[idx as int + 1] == members.len(),
        lists(parms, idx as int + 2, at, members),
    ensures
        ({
            let w = walk_compound(parms, idx);
            &&& w.end == WalkEnd::Done(idx + 2 + 6 * members.len())
            &&& w.pieces.len() == members.len()
            &&& forall|j: int|
                0 <= j < members.len() ==> is_number(
                    w.pieces[j],
                    #[trigger] members[j],
                    at[j] as nat,
                )
        }),
{
    lemma_members(parms, idx + 2, at, members);
}

} // verus!
