//! Numbers as bytes, in either byte order.

use vstd::arithmetic::power2::{
    lemma2_to64, lemma2_to64_rest, lemma_pow2_adds, lemma_pow2_strictly_increases,
    lemma_pow2_unfold, pow2,
};
use vstd::prelude::*;
use vstd::slice::slice_subrange;

verus! {

/// The number that `s` holds, least significant byte first.
pub open spec fn le_value(s: Seq<u8>) -> nat
    decreases s.len(),
{
    if s.len() == 0 {
        0
    } else {
        s[0] as nat + 256 * le_value(s.drop_first())
    }
}

/// The number that `s` holds, most significant byte first.
pub open spec fn be_value(s: Seq<u8>) -> nat
    decreases s.len(),
{
    if s.len() == 0 {
        0
    } else {
        256 * be_value(s.drop_last()) + s.last() as nat
    }
}

/// The low `n` bytes of `x`, least significant first.
pub open spec fn le_bytes(x: nat, n: nat) -> Seq<u8>
    decreases n,
{
    if n == 0 {
        Seq::empty()
    } else {
        seq![(x % 256) as u8] + le_bytes(x / 256, (n - 1) as nat)
    }
}

/// The low `n` bytes of `x`, most significant first.
pub open spec fn be_bytes(x: nat, n: nat) -> Seq<u8>
    decreases n,
{
    if n == 0 {
        Seq::empty()
    } else {
        be_bytes(x / 256, (n - 1) as nat).push((x % 256) as u8)
    }
}

/// `256^n`.
pub open spec fn pow256(n: nat) -> nat
    decreases n,
{
    if n == 0 {
        1
    } else {
        256 * pow256((n - 1) as nat)
    }
}

pub proof fn lemma_le_value_bound(s: Seq<u8>)
    ensures
        le_value(s) < pow256(s.len()),
    decreases s.len(),
{
    if s.len() > 0 {
        lemma_le_value_bound(s.drop_first());
    }
}

pub proof fn lemma_be_value_bound(s: Seq<u8>)
    ensures
        be_value(s) < pow256(s.len()),
    decreases s.len(),
{
    if s.len() > 0 {
        lemma_be_value_bound(s.drop_last());
    }
}

pub proof fn lemma_pow256_pos(n: nat)
    ensures
        pow256(n) > 0,
    decreases n,
{
    if n > 0 {
        lemma_pow256_pos((n - 1) as nat);
    }
}

pub proof fn lemma_pow256_grows(a: nat, b: nat)
    requires
        a <= b,
    ensures
        pow256(a) <= pow256(b),
    decreases b - a,
{
    if a < b {
        lemma_pow256_grows(a, (b - 1) as nat);
    }
}

pub proof fn lemma_pow256_values()
    ensures
        pow256(0) == 1,
        pow256(1) == 0x100,
        pow256(2) == 0x1_0000,
        pow256(3) == 0x100_0000,
        pow256(4) == 0x1_0000_0000,
        pow256(5) == 0x100_0000_0000,
        pow256(6) == 0x1_0000_0000_0000,
        pow256(7) == 0x100_0000_0000_0000,
        pow256(8) == 0x1_0000_0000_0000_0000,
{
    reveal_with_fuel(pow256, 9);
}

/// `256^n` is `2^(8n)`.
pub proof fn lemma_pow256_is_pow2(n: nat)
    ensures
        pow256(n) == pow2(8 * n),
    decreases n,
{
    lemma2_to64();
    if n > 0 {
        lemma_pow256_is_pow2((n - 1) as nat);
        lemma_pow2_adds(8, (8 * (n - 1)) as nat);
    }
}

pub proof fn lemma_le_bytes_len(x: nat, n: nat)
    ensures
        le_bytes(x, n).len() == n,
    decreases n,
{
    if n > 0 {
        lemma_le_bytes_len(x / 256, (n - 1) as nat);
    }
}

pub proof fn lemma_be_bytes_len(x: nat, n: nat)
    ensures
        be_bytes(x, n).len() == n,
    decreases n,
{
    if n > 0 {
        lemma_be_bytes_len(x / 256, (n - 1) as nat);
    }
}

/// Reading back `n` bytes of a number gives it modulo `256^n`.
pub proof fn lemma_le_roundtrip(x: nat, n: nat)
    ensures
        le_value(le_bytes(x, n)) == x % pow256(n),
    decreases n,
{
    if n > 0 {
        let m = (n - 1) as nat;
        lemma_le_roundtrip(x / 256, m);
        lemma_le_bytes_len(x / 256, m);
        assert(le_bytes(x, n).drop_first() =~= le_bytes(x / 256, m));
        lemma_pow256_pos(m);
        vstd::arithmetic::div_mod::lemma_mod_breakdown(x as int, 256, pow256(m) as int);
    }
}

/// Reading back `n` bytes of a number gives it modulo `256^n`.
pub proof fn lemma_be_roundtrip(x: nat, n: nat)
    ensures
        be_value(be_bytes(x, n)) == x % pow256(n),
    decreases n,
{
    if n > 0 {
        let m = (n - 1) as nat;
        lemma_be_roundtrip(x / 256, m);
        assert(be_bytes(x, n).drop_last() =~= be_bytes(x / 256, m));
        lemma_pow256_pos(m);
        vstd::arithmetic::div_mod::lemma_mod_breakdown(x as int, 256, pow256(m) as int);
    }
}

/// A number that fits in `n` bytes is read back as it is.
pub proof fn lemma_le_roundtrip_exact(x: nat, n: nat)
    requires
        x < pow256(n),
    ensures
        le_value(le_bytes(x, n)) == x,
        le_bytes(x, n).len() == n,
{
    lemma_le_roundtrip(x, n);
    lemma_le_bytes_len(x, n);
    lemma_pow256_pos(n);
    vstd::arithmetic::div_mod::lemma_small_mod(x, pow256(n));
}

/// The bytes of the number that `s` holds are `s`.
pub proof fn lemma_le_bytes_of_value(s: Seq<u8>)
    ensures
        le_bytes(le_value(s), s.len()) == s,
    decreases s.len(),
{
    if s.len() > 0 {
        lemma_le_bytes_of_value(s.drop_first());
        let v = le_value(s);
        assert(v % 256 == s[0]);
        assert(v / 256 == le_value(s.drop_first()));
        assert(le_bytes(v, s.len()) =~= s);
    } else {
        assert(le_bytes(le_value(s), 0) =~= s);
    }
}

/// The bytes of the number that `s` holds are `s`.
pub proof fn lemma_be_bytes_of_value(s: Seq<u8>)
    ensures
        be_bytes(be_value(s), s.len()) == s,
    decreases s.len(),
{
    if s.len() > 0 {
        lemma_be_bytes_of_value(s.drop_last());
        let v = be_value(s);
        assert(v % 256 == s.last());
        assert(v / 256 == be_value(s.drop_last()));
        assert(be_bytes(v, s.len()) =~= s);
    } else {
        assert(be_bytes(be_value(s), 0) =~= s);
    }
}

/// Read the first `n` bytes of `buf`, least significant first.
pub fn read_le_uint(buf: &[u8], n: usize) -> (v: u64)
    requires
        n <= 8,
        n <= buf@.len(),
    ensures
        v == le_value(buf@.take(n as int)),
        v < pow256(n as nat),
{
    read_le_at(buf, 0, n)
}

/// Read `n` bytes of `buf` from `pos`, least significant first.
pub fn read_le_at(buf: &[u8], pos: usize, n: usize) -> (v: u64)
    requires
        n <= 8,
        pos + n <= buf@.len(),
    ensures
        v == le_value(buf@.subrange(pos as int, pos + n)),
        v < pow256(n as nat),
{
    let mut v: u64 = 0;
    let mut i: usize = n;
    proof {
        lemma_pow256_values();
        assert(buf@.subrange(pos + n, pos + n) =~= Seq::<u8>::empty());
    }
    while i > 0
        invariant
            i <= n <= 8,
            pos + n <= buf.len(),
            v == le_value(buf@.subrange(pos + i, pos + n)),
            v < pow256((n - i) as nat),
        decreases i,
    {
        proof {
            let t = buf@.subrange(pos + i - 1, pos + n);
            assert(t.drop_first() =~= buf@.subrange(pos + i, pos + n));
            assert(t[0] == buf@[pos + i - 1]);
            lemma_le_value_bound(t);
            lemma_pow256_values();
            lemma_pow256_grows((n - i + 1) as nat, 8);
        }
        i = i - 1;
        v = v * 256 + buf[pos + i] as u64;
    }
    v
}

/// Read `n` bytes of `buf` from `pos`, most significant first.
pub fn read_be_at(buf: &[u8], pos: usize, n: usize) -> (v: u64)
    requires
        n <= 8,
        pos + n <= buf@.len(),
    ensures
        v == be_value(buf@.subrange(pos as int, pos + n)),
        v < pow256(n as nat),
{
    let mut v: u64 = 0;
    let mut i: usize = 0;
    proof {
        lemma_pow256_values();
        assert(buf@.subrange(pos as int, pos as int) =~= Seq::<u8>::empty());
    }
    while i < n
        invariant
            i <= n <= 8,
            pos + n <= buf.len(),
            v == be_value(buf@.subrange(pos as int, pos + i)),
            v < pow256(i as nat),
        decreases n - i,
    {
        proof {
            let t = buf@.subrange(pos as int, pos + i + 1);
            assert(t.drop_last() =~= buf@.subrange(pos as int, pos + i));
            assert(t.last() == buf@[pos + i]);
            lemma_be_value_bound(t);
            lemma_pow256_values();
            lemma_pow256_grows((i + 1) as nat, 8);
        }
        v = v * 256 + buf[pos + i] as u64;
        i = i + 1;
    }
    v
}

/// Append the low `n` bytes of `value`, least significant first.
pub fn push_le(buf: &mut Vec<u8>, value: u64, n: usize)
    ensures
        final(buf)@ == old(buf)@ + le_bytes(value as nat, n as nat),
{
    let mut v: u64 = value;
    let mut i: usize = 0;
    assert(buf@ + le_bytes(v as nat, (n - i) as nat) == old(buf)@ + le_bytes(
        value as nat,
        n as nat,
    ));
    while i < n
        invariant
            i <= n,
            buf@ + le_bytes(v as nat, (n - i) as nat) == old(buf)@ + le_bytes(
                value as nat,
                n as nat,
            ),
        decreases n - i,
    {
        let ghost before = buf@;
        let ghost vv = v as nat;
        buf.push((v % 256) as u8);
        v = v / 256;
        i = i + 1;
        proof {
            assert(buf@ + le_bytes(v as nat, (n - i) as nat) =~= before + le_bytes(
                vv,
                (n - i + 1) as nat,
            ));
        }
    }
    assert(buf@ + le_bytes(v as nat, 0) =~= buf@);
}

/// Append the low `n` bytes of `value`, most significant first.
pub fn push_be(buf: &mut Vec<u8>, value: u64, n: usize)
    requires
        n <= 8,
    ensures
        final(buf)@ == old(buf)@ + be_bytes(value as nat, n as nat),
    decreases n,
{
    if n > 0 {
        push_be(buf, value / 256, n - 1);
        buf.push((value % 256) as u8);
        assert(buf@ =~= old(buf)@ + be_bytes(value as nat, n as nat));
    } else {
        assert(buf@ =~= old(buf)@ + be_bytes(value as nat, 0));
    }
}

/// The low `n` bytes of `x` in the given byte order.
pub open spec fn number_bytes(x: nat, n: nat, little: bool) -> Seq<u8> {
    if little {
        le_bytes(x, n)
    } else {
        be_bytes(x, n)
    }
}

/// The number that `s` holds in the given byte order.
pub open spec fn number_value(s: Seq<u8>, little: bool) -> nat {
    if little {
        le_value(s)
    } else {
        be_value(s)
    }
}

/// Append the low `n` bytes of `value` in the given byte order.
pub fn push_number(buf: &mut Vec<u8>, value: u64, n: usize, little: bool)
    requires
        n <= 8,
    ensures
        final(buf)@ == old(buf)@ + number_bytes(value as nat, n as nat, little),
{
    if little {
        push_le(buf, value, n);
    } else {
        push_be(buf, value, n);
    }
}

/// Read `n` bytes of `buf` from `pos` in the given byte order.
pub fn read_number_at(buf: &[u8], pos: usize, n: usize, little: bool) -> (v: u64)
    requires
        n <= 8,
        pos + n <= buf@.len(),
    ensures
        v == number_value(buf@.subrange(pos as int, pos + n), little),
        v < pow256(n as nat),
{
    if little {
        read_le_at(buf, pos, n)
    } else {
        read_be_at(buf, pos, n)
    }
}

/// Bytes of numbers, one behind the other.
pub open spec fn numbers_bytes(vals: Seq<nat>, size: nat, little: bool) -> Seq<u8>
    decreases vals.len(),
{
    if vals.len() == 0 {
        Seq::empty()
    } else {
        numbers_bytes(vals.drop_last(), size, little) + number_bytes(vals.last(), size, little)
    }
}

pub proof fn lemma_number_bytes_len(x: nat, n: nat, little: bool)
    ensures
        number_bytes(x, n, little).len() == n,
{
    lemma_le_bytes_len(x, n);
    lemma_be_bytes_len(x, n);
}

pub proof fn lemma_numbers_bytes_len(vals: Seq<nat>, size: nat, little: bool)
    ensures
        numbers_bytes(vals, size, little).len() == vals.len() * size,
    decreases vals.len(),
{
    if vals.len() > 0 {
        let m = (vals.len() - 1) as nat;
        lemma_numbers_bytes_len(vals.drop_last(), size, little);
        lemma_number_bytes_len(vals.last(), size, little);
        assert(vals.len() * size == m * size + size) by (nonlinear_arith)
            requires
                vals.len() == m + 1,
        ;
    } else {
        assert(vals.len() * size == 0) by (nonlinear_arith)
            requires
                vals.len() == 0,
        ;
    }
}

/// `2^n`.
pub fn power_of_two(n: u32) -> (p: u128)
    requires
        n <= 64,
    ensures
        p == pow2(n as nat),
        0 < p <= 0x1_0000_0000_0000_0000,
{
    proof {
        lemma2_to64();
        lemma2_to64_rest();
    }
    let mut p: u128 = 1;
    let mut i: u32 = 0;
    while i < n
        invariant
            i <= n <= 64,
            p == pow2(i as nat),
            0 < p <= 0x1_0000_0000_0000_0000,
        decreases n - i,
    {
        proof {
            lemma2_to64_rest();
            lemma_pow2_unfold((i + 1) as nat);
            if i + 1 < 64 {
                lemma_pow2_strictly_increases((i + 1) as nat, 64);
            }
        }
        p = 2 * p;
        i = i + 1;
    }
    p
}

/// Append a copy of `src`.
pub fn push_slice(buf: &mut Vec<u8>, src: &[u8])
    ensures
        final(buf)@ == old(buf)@ + src@,
{
    buf.extend_from_slice(src);
    assert(buf@ =~= old(buf)@ + src@);
}

/// A copy of the bytes `from..to` of `src`.
pub fn copy_range(src: &[u8], from: usize, to: usize) -> (v: Vec<u8>)
    requires
        from <= to <= src@.len(),
    ensures
        v@ == src@.subrange(from as int, to as int),
{
    let mut v: Vec<u8> = Vec::with_capacity(to - from);
    push_slice(&mut v, slice_subrange(src, from, to));
    assert(v@ =~= src@.subrange(from as int, to as int));
    v
}

/// `n` copies of the byte `b`.
pub fn filled(n: usize, b: u8) -> (v: Vec<u8>)
    ensures
        v@ == Seq::new(n as nat, |i: int| b),
{
    let v: Vec<u8> = vec![b; n];
    assert(v@ =~= Seq::new(n as nat, |i: int| b));
    v
}

/// Byte strings one behind the other.
pub open spec fn joined(items: Seq<Seq<u8>>) -> Seq<u8>
    decreases items.len(),
{
    if items.len() == 0 {
        Seq::empty()
    } else {
        joined(items.drop_last()) + items.last()
    }
}

/// Where item `i` stands.
pub proof fn lemma_joined_at(items: Seq<Seq<u8>>, i: int)
    requires
        0 <= i < items.len(),
    ensures
        joined(items.take(i + 1)).len() == joined(items.take(i)).len() + items[i].len(),
        joined(items.take(i + 1)).len() <= joined(items).len(),
        joined(items).subrange(
            joined(items.take(i)).len() as int,
            joined(items.take(i + 1)).len() as int,
        ) == items[i],
    decreases items.len(),
{
    let front = items.drop_last();
    assert(items.take(i + 1).drop_last() =~= items.take(i));
    assert(items.take(i + 1).last() == items[i]);
    let from = joined(items.take(i)).len() as int;
    let to = joined(items.take(i + 1)).len() as int;
    if i == items.len() - 1 {
        assert(items.take(i) =~= front);
        assert(items.take(i + 1) =~= items);
        assert(joined(items).subrange(from, to) =~= items[i]);
    } else {
        lemma_joined_at(front, i);
        assert(front.take(i) =~= items.take(i));
        assert(front.take(i + 1) =~= items.take(i + 1));
        assert(joined(items).subrange(from, to) =~= joined(front).subrange(from, to));
    }
}

/// Items of one width take that width each.
pub proof fn lemma_joined_len(items: Seq<Seq<u8>>, width: nat)
    requires
        forall|i: int| 0 <= i < items.len() ==> (#[trigger] items[i]).len() == width,
    ensures
        joined(items).len() == items.len() * width,
    decreases items.len(),
{
    if items.len() > 0 {
        let front = items.drop_last();
        lemma_joined_len(front, width);
        assert(items.last() == items[items.len() - 1]);
        assert(items.len() * width == front.len() * width + width) by (nonlinear_arith)
            requires
                items.len() == front.len() + 1,
        ;
    } else {
        assert(items.len() * width == 0) by (nonlinear_arith)
            requires
                items.len() == 0,
        ;
    }
}

/// Where item `i` of items of one width stands.
pub proof fn lemma_joined_uniform(items: Seq<Seq<u8>>, width: nat, i: int)
    requires
        forall|k: int| 0 <= k < items.len() ==> (#[trigger] items[k]).len() == width,
        0 <= i < items.len(),
    ensures
        i * width + width <= joined(items).len(),
        joined(items).subrange(i * width, i * width + width) == items[i],
{
    lemma_joined_at(items, i);
    assert forall|k: int| 0 <= k < items.take(i).len() implies (#[trigger] items.take(i)[k]).len()
        == width by {
        assert(items.take(i)[k] == items[k]);
    }
    lemma_joined_len(items.take(i), width);
    assert(items[i].len() == width);
}

} // verus!
