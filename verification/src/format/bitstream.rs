//! Bit streams, most significant bit first.
//!
//! A stream of bits is modelled by a `Seq<bool>`. [`BitWriter`] appends to one
//! and [`BitReader`] consumes one; both agree on [`stream_of`], which lays the
//! bits of a byte sequence out from the top bit of the first byte down.

use vstd::arithmetic::div_mod::lemma_mod_breakdown;
use vstd::arithmetic::power2::{lemma2_to64, lemma_pow2_pos, lemma_pow2_unfold, pow2};
use vstd::prelude::*;

verus! {

/// The low `n` bits of `x`, most significant first.
pub open spec fn bits_of(x: nat, n: nat) -> Seq<bool>
    decreases n,
{
    if n == 0 {
        Seq::empty()
    } else {
        bits_of(x / 2, (n - 1) as nat).push(x % 2 == 1)
    }
}

/// A fundamental sequence: `n` zero bits and a one bit.
pub open spec fn fs_code(n: nat) -> Seq<bool> {
    Seq::new(n, |i: int| false).push(true)
}

/// Bit `i` of a byte, counted from the most significant.
pub open spec fn byte_bit(b: u8, i: int) -> bool {
    (b >> ((7 - i) as u8)) & 1u8 == 1u8
}

/// The bits of a byte sequence, most significant bit of each byte first.
pub open spec fn stream_of(bytes: Seq<u8>) -> Seq<bool> {
    Seq::new(8 * bytes.len(), |i: int| byte_bit(bytes[i / 8], i % 8))
}

/// Bit `i` of a stream; past the end a stream reads as zero bits.
pub open spec fn bit_at(s: Seq<bool>, i: int) -> bool {
    0 <= i < s.len() && s[i]
}

/// The number written in the `n` bits that start at `p`.
pub open spec fn read_bits(s: Seq<bool>, p: int, n: nat) -> nat
    decreases n,
{
    if n == 0 {
        0
    } else {
        2 * read_bits(s, p, (n - 1) as nat) + (if bit_at(s, p + n - 1) { 1nat } else { 0nat })
    }
}

/// The position of the first one bit at or after `p`.
pub open spec fn next_one(s: Seq<bool>, p: int) -> Option<int>
    decreases s.len() - p,
{
    if p >= s.len() {
        None
    } else if s[p] {
        Some(p)
    } else {
        next_one(s, p + 1)
    }
}

/// Where a reader stands after `n` bits from `p`. Past the end only the place
/// within the current (zero) byte matters.
pub open spec fn advance(s: Seq<bool>, p: int, n: nat) -> int {
    if p + n <= s.len() {
        p + n
    } else {
        s.len() + (p + n - s.len()) % 8
    }
}

/// Length of the fundamental sequence at `p`: the zero bits before the next
/// one bit, or all bits that are left when there is none.
pub open spec fn fs_length(s: Seq<bool>, p: int) -> nat {
    match next_one(s, p) {
        Some(q) => (q - p) as nat,
        None => if p <= s.len() {
            (s.len() - p) as nat
        } else {
            (s.len() + 8 - p) as nat
        },
    }
}

/// Where a reader stands after the fundamental sequence at `p`.
pub open spec fn fs_end(s: Seq<bool>, p: int) -> int {
    match next_one(s, p) {
        Some(q) => q + 1,
        None => s.len() as int,
    }
}

proof fn lemma_set_bit(b: u8, f: u8, j: u8)
    by (bit_vector)
    requires
        f < 8,
        j < 8,
    ensures
        ((b | (1u8 << f)) >> j) & 1u8 == (if j == f { 1u8 } else { (b >> j) & 1u8 }),
        (0u8 >> j) & 1u8 == 0u8,
{
}

proof fn lemma_shr_step(d: u64, i: u64)
    by (bit_vector)
    requires
        i < 63,
    ensures
        (d >> i) / 2 == d >> ((i + 1) as u64),
        (d >> i) & 1 == (d >> i) % 2,
        d >> 0u64 == d,
{
}

pub proof fn lemma_bits_of_len(x: nat, n: nat)
    ensures
        bits_of(x, n).len() == n,
    decreases n,
{
    if n > 0 {
        lemma_bits_of_len(x / 2, (n - 1) as nat);
    }
}

/// A number of `n` bits is below `2^n`.
pub proof fn lemma_read_bits_bound(s: Seq<bool>, p: int, n: nat)
    ensures
        read_bits(s, p, n) < pow2(n),
    decreases n,
{
    if n == 0 {
        lemma2_to64();
    } else {
        lemma_read_bits_bound(s, p, (n - 1) as nat);
        lemma_pow2_unfold(n);
    }
}

/// Past the end there are only zero bits.
pub proof fn lemma_read_past_end(s: Seq<bool>, p: int, n: nat)
    requires
        p >= s.len(),
    ensures
        read_bits(s, p, n) == 0,
    decreases n,
{
    if n > 0 {
        lemma_read_past_end(s, p, (n - 1) as nat);
    }
}

/// Reading back the low `n` bits of `x` gives `x` modulo `2^n`.
pub proof fn lemma_read_bits_of(s: Seq<bool>, p: int, x: nat, n: nat)
    requires
        0 <= p,
        p + n <= s.len(),
        s.subrange(p, p + n) == bits_of(x, n),
    ensures
        read_bits(s, p, n) == x % pow2(n),
    decreases n,
{
    lemma_bits_of_len(x, n);
    lemma_pow2_pos(n);
    if n == 0 {
        lemma2_to64();
    } else {
        let m = (n - 1) as nat;
        lemma_bits_of_len(x / 2, m);
        let whole = s.subrange(p, p + n);
        assert(s.subrange(p, p + m) =~= bits_of(x / 2, m)) by {
            assert(s.subrange(p, p + m) =~= whole.drop_last());
            assert(bits_of(x, n).drop_last() =~= bits_of(x / 2, m));
        }
        lemma_read_bits_of(s, p, x / 2, m);
        assert(s[p + n - 1] == (x % 2 == 1)) by {
            assert(s.subrange(p, p + n)[n - 1] == s[p + n - 1]);
        }
        lemma_pow2_unfold(n);
        lemma_pow2_pos(m);
        lemma_mod_breakdown(x as int, 2, pow2(m) as int);
    }
}

/// A fundamental sequence written at `p` is read back from there.
pub proof fn lemma_read_fs(s: Seq<bool>, p: int, n: nat)
    requires
        0 <= p,
        p + n + 1 <= s.len(),
        s.subrange(p, p + n + 1) == fs_code(n),
    ensures
        fs_length(s, p) == n,
        fs_end(s, p) == p + n + 1,
        next_one(s, p) == Some(p + n),
    decreases n,
{
    assert(s.subrange(p, p + n + 1)[0] == s[p]);
    if n > 0 {
        assert(s.subrange(p + 1, p + n + 1) =~= fs_code((n - 1) as nat)) by {
            assert(s.subrange(p + 1, p + n + 1) =~= s.subrange(p, p + n + 1).drop_first());
            assert(fs_code(n).drop_first() =~= fs_code((n - 1) as nat));
        }
        lemma_read_fs(s, p + 1, (n - 1) as nat);
    }
}

/// An append-only bit stream.
pub struct BitWriter {
    buf: Vec<u8>,
    /// Unused low bits of the last byte.
    free: u8,
}

impl BitWriter {
    /// The bits written so far.
    pub closed spec fn bits(&self) -> Seq<bool> {
        stream_of(self.buf@).take(8 * self.buf@.len() - self.free)
    }

    /// The unused bits of the last byte are zero.
    pub closed spec fn wf(&self) -> bool {
        &&& self.free < 8
        &&& self.free > 0 ==> self.buf@.len() > 0
        &&& forall|j: int|
            8 - self.free <= j < 8 ==> self.buf@.len() > 0 ==> !#[trigger] byte_bit(
                self.buf@.last(),
                j,
            )
    }

    /// An empty stream.
    pub fn new() -> (w: Self)
        ensures
            w.wf(),
            w.bits() == Seq::<bool>::empty(),
    {
        let w = BitWriter { buf: Vec::new(), free: 0 };
        proof {
            assert(w.bits() =~= Seq::<bool>::empty());
        }
        w
    }

    /// Append one bit.
    pub fn push_bit(&mut self, bit: bool)
        requires
            old(self).wf(),
        ensures
            final(self).wf(),
            final(self).bits() == old(self).bits().push(bit),
    {
        if self.free == 0 {
            self.buf.push(0);
            self.free = 8;
            proof {
                assert forall|j: int| 0 <= j < 8 implies !#[trigger] byte_bit(0u8, j) by {
                    lemma_set_bit(0, 0, (7 - j) as u8);
                }
            }
        }
        let ghost mid = self.buf@;
        let ghost width = self.free;
        assert(mid.len() > 0);
        assert(8 * mid.len() - width == old(self).bits().len());
        assert forall|i: int| 0 <= i < old(self).bits().len() implies stream_of(mid)[i] == old(
            self,
        ).bits()[i] by {
            assert(i / 8 < mid.len());
        }
        assert(forall|j: int| 8 - width <= j < 8 ==> !#[trigger] byte_bit(mid.last(), j));
        self.free = self.free - 1;
        let last: usize = self.buf.len() - 1;
        if bit {
            let v: u8 = self.buf[last] | (1u8 << self.free);
            self.buf.set(last, v);
        }
        proof {
            let f = self.free;
            assert forall|j: int| 0 <= j < 8 implies #[trigger] byte_bit(self.buf@.last(), j) == (
            if j == 7 - f {
                bit
            } else {
                byte_bit(mid.last(), j)
            }) by {
                lemma_set_bit(mid.last(), f, (7 - j) as u8);
            }
            let n = old(self).bits().len() as int;
            assert(self.bits().len() == n + 1);
            assert forall|i: int| 0 <= i < n + 1 implies self.bits()[i] == old(self).bits().push(
                bit,
            )[i] by {
                assert(stream_of(self.buf@)[i] == byte_bit(self.buf@[i / 8], i % 8));
                if i / 8 < last {
                    assert(self.buf@[i / 8] == mid[i / 8]);
                    assert(stream_of(mid)[i] == byte_bit(mid[i / 8], i % 8));
                } else {
                    assert(i / 8 == last);
                    assert(stream_of(mid)[i] == byte_bit(mid[i / 8], i % 8));
                    assert(byte_bit(self.buf@.last(), i % 8) == if i % 8 == 7 - f {
                        bit
                    } else {
                        byte_bit(mid.last(), i % 8)
                    });
                }
            }
            assert(self.bits() =~= old(self).bits().push(bit));
        }
    }

    /// Append the low `nbits` bits of `data`.
    pub fn emit(&mut self, data: u32, nbits: u32)
        requires
            old(self).wf(),
            nbits <= 32,
        ensures
            final(self).wf(),
            final(self).bits() == old(self).bits() + bits_of(data as nat, nbits as nat),
    {
        let d: u64 = data as u64;
        let mut i: u32 = nbits;
        assert(self.bits() =~= old(self).bits() + bits_of((d >> (i as u64)) as nat, 0));
        while i > 0
            invariant
                self.wf(),
                i <= nbits <= 32,
                self.bits() == old(self).bits() + bits_of(
                    (d >> (i as u64)) as nat,
                    (nbits - i) as nat,
                ),
            decreases i,
        {
            i = i - 1;
            let bit: bool = (d >> (i as u64)) & 1 == 1;
            proof {
                lemma_shr_step(d, i as u64);
            }
            let ghost before = self.bits();
            self.push_bit(bit);
            proof {
                let x = (d >> (i as u64)) as nat;
                assert(bits_of(x, (nbits - i) as nat) == bits_of(
                    x / 2,
                    (nbits - i - 1) as nat,
                ).push(x % 2 == 1));
                assert(self.bits() =~= old(self).bits() + bits_of(x, (nbits - i) as nat));
            }
        }
        proof {
            lemma_shr_step(d, 0);
        }
    }

    /// Append `fs` zero bits and a one bit.
    pub fn emitfs(&mut self, fs: u32)
        requires
            old(self).wf(),
        ensures
            final(self).wf(),
            final(self).bits() == old(self).bits() + fs_code(fs as nat),
    {
        let mut i: u32 = 0;
        assert(self.bits() =~= old(self).bits() + Seq::new(0, |j: int| false));
        while i < fs
            invariant
                self.wf(),
                i <= fs,
                self.bits() == old(self).bits() + Seq::new(i as nat, |j: int| false),
            decreases fs - i,
        {
            self.push_bit(false);
            i = i + 1;
            assert(self.bits() =~= old(self).bits() + Seq::new(i as nat, |j: int| false));
        }
        self.push_bit(true);
        assert(self.bits() =~= old(self).bits() + fs_code(fs as nat));
    }

    /// Whether the bits are whole bytes.
    pub fn is_whole(&self) -> (r: bool)
        requires
            self.wf(),
        ensures
            r == (self.bits().len() % 8 == 0),
    {
        self.free == 0
    }

    /// Whether there are no bits.
    pub fn is_empty(&self) -> (r: bool)
        requires
            self.wf(),
        ensures
            r == (self.bits().len() == 0),
    {
        self.buf.len() == 0
    }

    /// The bytes of the stream, the last one filled up with zero bits. An
    /// empty stream is a single zero byte.
    pub fn finish(self) -> (bytes: Vec<u8>)
        requires
            self.wf(),
        ensures
            bytes@ == packed(self.bits()),
    {
        let mut buf = self.buf;
        if buf.len() == 0 {
            buf.push(0);
            proof {
                assert forall|i: int| 0 <= i < 8 implies !#[trigger] stream_of(buf@)[i] by {
                    lemma_set_bit(0, 0, (7 - i) as u8);
                    assert(stream_of(buf@)[i] == byte_bit(buf@[i / 8], i % 8));
                }
                lemma_packed(self.bits(), buf@);
            }
            buf
        } else {
            proof {
                let n = self.bits().len();
                assert forall|i: int| n <= i < 8 * buf@.len() implies !stream_of(buf@)[i] by {
                    assert(i / 8 == buf@.len() - 1);
                    assert(!byte_bit(buf@.last(), i % 8));
                }
                assert forall|i: int| 0 <= i < n implies stream_of(buf@)[i] == self.bits()[i] by {}
                lemma_packed(self.bits(), buf@);
            }
            buf
        }
    }
}

/// The byte whose bits are `s[8 * j ..]`.
pub open spec fn packed_byte(s: Seq<bool>, j: int) -> u8 {
    read_bits(s, 8 * j, 8) as u8
}

/// The bytes of a bit stream, the last one filled up with zero bits; at least
/// one byte.
pub open spec fn packed(s: Seq<bool>) -> Seq<u8> {
    Seq::new(
        if s.len() == 0 {
            1
        } else {
            (s.len() + 7) / 8
        },
        |j: int| packed_byte(s, j),
    )
}

/// A byte is the sum of its bits.
pub proof fn lemma_byte_value(b: u8)
    by (bit_vector)
    ensures
        b == 128 * ((b >> 7u8) & 1u8) + 64 * ((b >> 6u8) & 1u8) + 32 * ((b >> 5u8) & 1u8) + 16 * ((b
            >> 4u8) & 1u8) + 8 * ((b >> 3u8) & 1u8) + 4 * ((b >> 2u8) & 1u8) + 2 * ((b >> 1u8) & 1u8)
            + ((b >> 0u8) & 1u8),
        (b >> 7u8) & 1u8 <= 1,
        (b >> 6u8) & 1u8 <= 1,
        (b >> 5u8) & 1u8 <= 1,
        (b >> 4u8) & 1u8 <= 1,
        (b >> 3u8) & 1u8 <= 1,
        (b >> 2u8) & 1u8 <= 1,
        (b >> 1u8) & 1u8 <= 1,
        (b >> 0u8) & 1u8 <= 1,
{
}

/// Bytes whose stream is `s` followed by zero bits are the packed bytes of `s`.
proof fn lemma_packed(s: Seq<bool>, bytes: Seq<u8>)
    requires
        bytes.len() == packed(s).len(),
        s.len() <= 8 * bytes.len(),
        forall|i: int| 0 <= i < s.len() ==> stream_of(bytes)[i] == s[i],
        forall|i: int| s.len() <= i < 8 * bytes.len() ==> !stream_of(bytes)[i],
    ensures
        bytes == packed(s),
{
    assert forall|j: int| 0 <= j < bytes.len() implies bytes[j] == packed(s)[j] by {
        let b = bytes[j];
        lemma_byte_value(b);
        assert forall|i: int| 0 <= i < 8 implies #[trigger] bit_at(s, 8 * j + i) == byte_bit(
            b,
            i,
        ) by {
            assert(stream_of(bytes)[8 * j + i] == byte_bit(bytes[(8 * j + i) / 8], (8 * j + i) % 8));
        }
        reveal_with_fuel(read_bits, 9);
        assert(bit_at(s, 8 * j + 0) == byte_bit(b, 0));
        assert(bit_at(s, 8 * j + 1) == byte_bit(b, 1));
        assert(bit_at(s, 8 * j + 2) == byte_bit(b, 2));
        assert(bit_at(s, 8 * j + 3) == byte_bit(b, 3));
        assert(bit_at(s, 8 * j + 4) == byte_bit(b, 4));
        assert(bit_at(s, 8 * j + 5) == byte_bit(b, 5));
        assert(bit_at(s, 8 * j + 6) == byte_bit(b, 6));
        assert(bit_at(s, 8 * j + 7) == byte_bit(b, 7));
    }
    assert(bytes =~= packed(s));
}

/// The stream of packed bytes starts with the bits that were packed.
pub proof fn lemma_packed_stream(s: Seq<bool>)
    ensures
        s.len() <= stream_of(packed(s)).len(),
        stream_of(packed(s)).subrange(0, s.len() as int) == s,
{
    let st = stream_of(packed(s));
    assert forall|i: int| 0 <= i < s.len() implies st[i] == s[i] by {
        let j = i / 8;
        let b = packed(s)[j];
        reveal_with_fuel(read_bits, 9);
        let v0 = bit_at(s, 8 * j + 0);
        let v1 = bit_at(s, 8 * j + 1);
        let v2 = bit_at(s, 8 * j + 2);
        let v3 = bit_at(s, 8 * j + 3);
        let v4 = bit_at(s, 8 * j + 4);
        let v5 = bit_at(s, 8 * j + 5);
        let v6 = bit_at(s, 8 * j + 6);
        let v7 = bit_at(s, 8 * j + 7);
        lemma_byte_of_bits(v0, v1, v2, v3, v4, v5, v6, v7, b);
        assert(st[i] == byte_bit(packed(s)[i / 8], i % 8));
        assert(bit_at(s, 8 * j + i % 8) == s[i]);
    }
    assert(st.subrange(0, s.len() as int) =~= s);
}

pub proof fn lemma_byte_of_bits(
    v0: bool,
    v1: bool,
    v2: bool,
    v3: bool,
    v4: bool,
    v5: bool,
    v6: bool,
    v7: bool,
    b: u8,
)
    by (bit_vector)
    requires
        b == (if v0 { 128u8 } else { 0 }) + (if v1 { 64u8 } else { 0 }) + (if v2 { 32u8 } else { 0 })
            + (if v3 { 16u8 } else { 0 }) + (if v4 { 8u8 } else { 0 }) + (if v5 { 4u8 } else { 0 }) + (
        if v6 { 2u8 } else { 0 }) + (if v7 { 1u8 } else { 0 }),
    ensures
        ((b >> 7u8) & 1u8 == 1u8) == v0,
        ((b >> 6u8) & 1u8 == 1u8) == v1,
        ((b >> 5u8) & 1u8 == 1u8) == v2,
        ((b >> 4u8) & 1u8 == 1u8) == v3,
        ((b >> 3u8) & 1u8 == 1u8) == v4,
        ((b >> 2u8) & 1u8 == 1u8) == v5,
        ((b >> 1u8) & 1u8 == 1u8) == v6,
        ((b >> 0u8) & 1u8 == 1u8) == v7,
{
}

/// A cursor over the bits of a byte slice. Past the end it reads zero bits.
pub struct BitReader<'a> {
    data: &'a [u8],
    pos: u64,
}

impl<'a> BitReader<'a> {
    /// The stream that is read.
    pub closed spec fn stream(&self) -> Seq<bool> {
        stream_of(self.data@)
    }

    /// The position of the next bit.
    pub closed spec fn pos(&self) -> int {
        self.pos as int
    }

    /// The position never leaves the zero byte that follows the stream.
    pub closed spec fn wf(&self) -> bool {
        &&& 8 * self.data@.len() + 64 <= u64::MAX
        &&& self.pos < 8 * self.data@.len() + 8
    }

    /// A cursor at the first bit of `data`.
    pub fn new(data: &'a [u8]) -> (r: Self)
        requires
            8 * data@.len() + 64 <= u64::MAX,
        ensures
            r.wf(),
            r.stream() == stream_of(data@),
            r.pos() == 0,
    {
        BitReader { data, pos: 0 }
    }

    fn bit(&self, p: u64) -> (b: bool)
        requires
            self.wf(),
        ensures
            b == bit_at(self.stream(), p as int),
    {
        let byte: u64 = p / 8;
        if byte < self.data.len() as u64 {
            let shift: u8 = 7 - (p % 8) as u8;
            (self.data[byte as usize] >> shift) & 1 == 1
        } else {
            false
        }
    }

    /// Read the next `n` bits as a number.
    pub fn get_bits(&mut self, n: u32) -> (r: u32)
        requires
            old(self).wf(),
            n <= 32,
        ensures
            final(self).wf(),
            final(self).stream() == old(self).stream(),
            r == read_bits(old(self).stream(), old(self).pos(), n as nat),
            final(self).pos() == advance(old(self).stream(), old(self).pos(), n as nat),
    {
        let mut acc: u64 = 0;
        let mut i: u32 = 0;
        let start = self.pos;
        proof {
            lemma2_to64();
        }
        while i < n
            invariant
                self == old(self),
                self.wf(),
                start == self.pos,
                i <= n <= 32,
                acc == read_bits(self.stream(), start as int, i as nat),
                acc < pow2(i as nat),
            decreases n - i,
        {
            proof {
                lemma_pow2_unfold((i + 1) as nat);
                lemma_pow2_le32(i as nat);
                lemma_read_bits_bound(self.stream(), start as int, (i + 1) as nat);
            }
            let b = self.bit(start + i as u64);
            acc = 2 * acc + if b {
                1
            } else {
                0
            };
            i = i + 1;
        }
        proof {
            lemma_pow2_le32(n as nat);
        }
        let end: u64 = 8 * self.data.len() as u64;
        let next: u64 = start + n as u64;
        self.pos = if next <= end {
            next
        } else {
            end + (next - end) % 8
        };
        acc as u32
    }

    /// Read a fundamental sequence and return its length.
    pub fn get_fs(&mut self) -> (fs: u64)
        requires
            old(self).wf(),
        ensures
            final(self).wf(),
            final(self).stream() == old(self).stream(),
            fs == fs_length(old(self).stream(), old(self).pos()),
            final(self).pos() == fs_end(old(self).stream(), old(self).pos()),
    {
        let end: u64 = 8 * self.data.len() as u64;
        let start = self.pos;
        let mut q: u64 = start;
        while q < end && !self.bit(q)
            invariant
                self == old(self),
                self.wf(),
                start == self.pos,
                start <= q,
                q <= end || q == start,
                end == self.stream().len(),
                next_one(self.stream(), start as int) == next_one(self.stream(), q as int),
            decreases end - q,
        {
            q = q + 1;
        }
        if q < end {
            self.pos = q + 1;
            q - start
        } else {
            self.pos = end;
            if start <= end {
                end - start
            } else {
                end + 8 - start
            }
        }
    }
}

pub proof fn lemma_pow2_le32(n: nat)
    requires
        n <= 32,
    ensures
        0 < pow2(n) <= 0x1_0000_0000,
    decreases 32 - n,
{
    lemma2_to64();
    lemma_pow2_pos(n);
    if n < 32 {
        lemma_pow2_le32(n + 1);
        lemma_pow2_unfold(n + 1);
    }
}

} // verus!
