//! The significant bits of an element.
//!
//! An element is made of pieces: runs of bytes that hold a number of which only
//! some bits are significant. Packing writes the significant bits of all pieces
//! one after the other; unpacking puts them back and clears the other bits of
//! the bytes they lie in.

use crate::format::bitstream::{bit_at, byte_bit, read_bits, stream_of, BitWriter};
use vstd::prelude::*;

verus! {

/// A number of `size` bytes at byte `at`, with `precision` significant bits
/// from bit `shift` on.
#[verifier::ext_equal]
pub struct Piece {
    pub at: nat,
    pub size: nat,
    pub little: bool,
    pub precision: nat,
    pub shift: nat,
}

impl Piece {
    /// Whether the significant bits lie within the bytes, and these within
    /// `len` bytes.
    pub open spec fn fits(self, len: nat) -> bool {
        &&& self.at + self.size <= len
        &&& self.shift + self.precision <= 8 * self.size
    }

    /// The byte that holds bit `t` of the number.
    pub open spec fn byte_of(self, t: int) -> int {
        if self.little {
            t / 8
        } else {
            self.size - 1 - t / 8
        }
    }

    /// The significant bits, most significant first.
    pub open spec fn bits(self, data: Seq<u8>) -> Seq<bool> {
        Seq::new(
            self.precision,
            |i: int|
                {
                    let t = self.shift + self.precision - 1 - i;
                    byte_bit(data[self.at + self.byte_of(t)], 7 - t % 8)
                },
        )
    }

    /// How many bytes below byte `k` in significance there are.
    pub open spec fn rank(self, k: int) -> int {
        if self.little {
            k
        } else {
            self.size - 1 - k
        }
    }

    /// Whether byte `k` holds significant bits.
    pub open spec fn touches(self, k: int) -> bool {
        &&& 0 <= k < self.size
        &&& self.precision > 0
        &&& self.shift / 8 <= self.rank(k)
        &&& self.rank(k) <= (self.shift + self.precision - 1) / 8
    }

    /// Bit `x` of byte `k`, counted from the most significant, when the
    /// significant bits start at position `p` of the stream `s`.
    pub open spec fn stored_bit(self, s: Seq<bool>, p: int, k: int, x: int) -> bool {
        let t = 8 * self.rank(k) + 7 - x;
        &&& self.shift <= t < self.shift + self.precision
        &&& bit_at(s, p + self.shift + self.precision - 1 - t)
    }

    /// Byte `k` with nothing but significant bits in it.
    pub open spec fn stored_byte(self, s: Seq<bool>, p: int, k: int) -> u8 {
        read_bits(Seq::new(8, |x: int| self.stored_bit(s, p, k, x)), 0, 8) as u8
    }

    /// `out` with the significant bits from position `p` of `s` put in place.
    pub open spec fn stored(self, out: Seq<u8>, s: Seq<bool>, p: int) -> Seq<u8> {
        Seq::new(
            out.len(),
            |i: int|
                if self.touches(i - self.at) {
                    self.stored_byte(s, p, i - self.at)
                } else {
                    out[i]
                },
        )
    }

    /// The same piece, `off` bytes further on.
    pub open spec fn moved(self, off: nat) -> Piece {
        Piece {
            at: self.at + off,
            size: self.size,
            little: self.little,
            precision: self.precision,
            shift: self.shift,
        }
    }
}

/// All pieces, `off` bytes further on.
pub open spec fn moved(ps: Seq<Piece>, off: nat) -> Seq<Piece> {
    Seq::new(ps.len(), |i: int| ps[i].moved(off))
}

/// `n` copies of `ps`, each `step` bytes behind the one before.
pub open spec fn repeated(ps: Seq<Piece>, n: nat, step: nat) -> Seq<Piece>
    decreases n,
{
    if n == 0 {
        Seq::empty()
    } else {
        repeated(ps, (n - 1) as nat, step) + moved(ps, (n - 1) as nat * step)
    }
}

/// Whether all pieces fit in `len` bytes.
pub open spec fn all_fit(ps: Seq<Piece>, len: nat) -> bool {
    forall|i: int| 0 <= i < ps.len() ==> (#[trigger] ps[i]).fits(len)
}

/// The significant bits of all pieces.
pub open spec fn packed_bits(ps: Seq<Piece>, data: Seq<u8>) -> Seq<bool>
    decreases ps.len(),
{
    if ps.len() == 0 {
        Seq::empty()
    } else {
        packed_bits(ps.drop_last(), data) + ps.last().bits(data)
    }
}

/// Number of significant bits of all pieces.
pub open spec fn bit_count(ps: Seq<Piece>) -> nat
    decreases ps.len(),
{
    if ps.len() == 0 {
        0
    } else {
        bit_count(ps.drop_last()) + ps.last().precision
    }
}

/// Put the significant bits of all pieces, from position `p` of `s`, in place.
/// `None` when the stream ends before that.
pub open spec fn unpacked(ps: Seq<Piece>, out: Seq<u8>, s: Seq<bool>, p: int) -> Option<
    (Seq<u8>, int),
>
    decreases ps.len(),
{
    if ps.len() == 0 {
        Some((out, p))
    } else {
        match unpacked(ps.drop_last(), out, s, p) {
            None => None,
            Some((o, q)) => if q + ps.last().precision > s.len() {
                None
            } else {
                Some((ps.last().stored(o, s, q), q + ps.last().precision))
            },
        }
    }
}

pub proof fn lemma_packed_bits_len(ps: Seq<Piece>, data: Seq<u8>)
    ensures
        packed_bits(ps, data).len() == bit_count(ps),
    decreases ps.len(),
{
    if ps.len() > 0 {
        lemma_packed_bits_len(ps.drop_last(), data);
    }
}

pub proof fn lemma_packed_bits_concat(a: Seq<Piece>, b: Seq<Piece>, data: Seq<u8>)
    ensures
        packed_bits(a + b, data) == packed_bits(a, data) + packed_bits(b, data),
    decreases b.len(),
{
    if b.len() == 0 {
        assert(a + b =~= a);
        assert(packed_bits(a, data) + packed_bits(b, data) =~= packed_bits(a, data));
    } else {
        lemma_packed_bits_concat(a, b.drop_last(), data);
        assert((a + b).drop_last() =~= a + b.drop_last());
        assert(packed_bits(a + b, data) =~= packed_bits(a, data) + packed_bits(b, data));
    }
}

pub proof fn lemma_unpacked_concat(a: Seq<Piece>, b: Seq<Piece>, out: Seq<u8>, s: Seq<bool>, p: int)
    ensures
        unpacked(a + b, out, s, p) == match unpacked(a, out, s, p) {
            None => None,
            Some((o, q)) => unpacked(b, o, s, q),
        },
    decreases b.len(),
{
    if b.len() == 0 {
        assert(a + b =~= a);
    } else {
        lemma_unpacked_concat(a, b.drop_last(), out, s, p);
        assert((a + b).drop_last() =~= a + b.drop_last());
    }
}

pub proof fn lemma_unpacked_len(ps: Seq<Piece>, out: Seq<u8>, s: Seq<bool>, p: int)
    ensures
        unpacked(ps, out, s, p) matches Some((o, q)) ==> o.len() == out.len() && q == p
            + bit_count(ps) && (ps.len() > 0 ==> q <= s.len()),
    decreases ps.len(),
{
    if ps.len() > 0 {
        lemma_unpacked_len(ps.drop_last(), out, s, p);
    }
}

pub proof fn lemma_moved_moved(ps: Seq<Piece>, a: nat, b: nat)
    ensures
        moved(moved(ps, a), b) == moved(ps, a + b),
{
    assert(moved(moved(ps, a), b) =~= moved(ps, a + b));
}

pub proof fn lemma_moved_concat(a: Seq<Piece>, b: Seq<Piece>, off: nat)
    ensures
        moved(a + b, off) == moved(a, off) + moved(b, off),
{
    assert(moved(a + b, off) =~= moved(a, off) + moved(b, off));
}

/// Moving repeated pieces moves every copy.
pub proof fn lemma_moved_repeated(ps: Seq<Piece>, n: nat, step: nat, off: nat)
    ensures
        moved(repeated(ps, n, step), off) == repeated(moved(ps, off), n, step),
    decreases n,
{
    if n == 0 {
        assert(moved(repeated(ps, 0, step), off) =~= repeated(moved(ps, off), 0, step));
    } else {
        let m = (n - 1) as nat;
        lemma_moved_repeated(ps, m, step, off);
        lemma_moved_concat(repeated(ps, m, step), moved(ps, m * step), off);
        lemma_moved_moved(ps, m * step, off);
        lemma_moved_moved(ps, off, m * step);
    }
}

/// Append the significant bits of one piece.
pub(crate) fn emit_piece(
    data: &[u8],
    at: usize,
    size: u32,
    little: bool,
    precision: u32,
    shift: u32,
    writer: &mut BitWriter,
    Ghost(piece): Ghost<Piece>,
)
    requires
        old(writer).wf(),
        piece == (Piece {
            at: at as nat,
            size: size as nat,
            little,
            precision: precision as nat,
            shift: shift as nat,
        }),
        piece.fits(data@.len()),
    ensures
        final(writer).wf(),
        final(writer).bits() == old(writer).bits() + piece.bits(data@),
{
    let mut i: u32 = 0;
    proof {
        assert(writer.bits() =~= old(writer).bits() + piece.bits(data@).take(0));
    }
    while i < precision
        invariant
            writer.wf(),
            i <= precision,
            piece == (Piece {
                at: at as nat,
                size: size as nat,
                little,
                precision: precision as nat,
                shift: shift as nat,
            }),
            piece.fits(data@.len()),
            writer.bits() == old(writer).bits() + piece.bits(data@).take(i as int),
        decreases precision - i,
    {
        let t: u64 = shift as u64 + (precision - 1 - i) as u64;
        let rank: u32 = (t / 8) as u32;
        let k: u32 = if little {
            rank
        } else {
            size - 1 - rank
        };
        let len: usize = data.len();
        let byte: u8 = data[at + k as usize];
        let bit: bool = (byte >> ((t % 8) as u8)) & 1 == 1;
        assert(bit == piece.bits(data@)[i as int]);
        writer.push_bit(bit);
        i = i + 1;
        assert(writer.bits() =~= old(writer).bits() + piece.bits(data@).take(i as int));
    }
    assert(piece.bits(data@).take(i as int) =~= piece.bits(data@));
}

/// Bit `pos` of the stream in `data`.
pub fn stream_bit(data: &[u8], pos: u64) -> (b: bool)
    requires
        8 * data@.len() <= u64::MAX,
    ensures
        b == bit_at(stream_of(data@), pos as int),
{
    let byte: u64 = pos / 8;
    if byte < data.len() as u64 {
        let x: u8 = 7 - (pos % 8) as u8;
        (data[byte as usize] >> x) & 1 == 1
    } else {
        false
    }
}

/// Put the significant bits of one piece in place, from bit `pos` of the
/// stream in `data` on.
pub(crate) fn store_piece(
    out: &mut Vec<u8>,
    at: usize,
    size: u32,
    little: bool,
    precision: u32,
    shift: u32,
    data: &[u8],
    pos: u64,
    Ghost(piece): Ghost<Piece>,
)
    requires
        piece == (Piece {
            at: at as nat,
            size: size as nat,
            little,
            precision: precision as nat,
            shift: shift as nat,
        }),
        piece.fits(old(out)@.len()),
        8 * data@.len() <= u64::MAX,
        pos + precision <= 8 * data@.len(),
    ensures
        final(out)@ == piece.stored(old(out)@, stream_of(data@), pos as int),
{
    let ghost s = stream_of(data@);
    let ghost want = piece.stored(out@, s, pos as int);
    if precision == 0 {
        assert(out@ =~= want);
        return;
    }
    let top: u64 = shift as u64 + (precision - 1) as u64;
    let low: u32 = shift / 8;
    let high: u32 = (top / 8) as u32;
    let mut r: u32 = low;
    while r <= high
        invariant
            piece == (Piece {
                at: at as nat,
                size: size as nat,
                little,
                precision: precision as nat,
                shift: shift as nat,
            }),
            piece.fits(old(out)@.len()),
            s == stream_of(data@),
            8 * data@.len() <= u64::MAX,
            pos + precision <= 8 * data@.len(),
            want == piece.stored(old(out)@, s, pos as int),
            precision > 0,
            top == shift + precision - 1,
            low == shift / 8,
            high == top / 8,
            low <= r <= high + 1,
            high < size,
            out.len() == old(out)@.len(),
            forall|i: int|
                0 <= i < out@.len() ==> #[trigger] out@[i] == (if piece.touches(i - at)
                    && piece.rank(i - at) < r {
                    want[i]
                } else {
                    old(out)@[i]
                }),
        decreases high + 1 - r,
    {
        let mut v: u8 = 0;
        let mut x: u32 = 0;
        let ghost k: int = if little {
            r as int
        } else {
            size - 1 - r
        };
        let ghost bits = Seq::new(8, |x: int| piece.stored_bit(s, pos as int, k, x));
        while x < 8
            invariant
                x <= 8,
                piece == (Piece {
                    at: at as nat,
                    size: size as nat,
                    little,
                    precision: precision as nat,
                    shift: shift as nat,
                }),
                s == stream_of(data@),
                8 * data@.len() <= u64::MAX,
                pos + precision <= 8 * data@.len(),
                precision > 0,
                top == shift + precision - 1,
                r <= high < size,
                high == top / 8,
                piece.rank(k) == r,
                bits == Seq::new(8, |x: int| piece.stored_bit(s, pos as int, k, x)),
                v == read_bits(bits, 0, x as nat),
                x == 0 ==> v < 1,
                x == 1 ==> v < 2,
                x == 2 ==> v < 4,
                x == 3 ==> v < 8,
                x == 4 ==> v < 16,
                x == 5 ==> v < 32,
                x == 6 ==> v < 64,
                x == 7 ==> v < 128,
            decreases 8 - x,
        {
            let t: u64 = 8 * r as u64 + (7 - x) as u64;
            let bit: bool = if t >= shift as u64 && t <= top {
                stream_bit(data, pos + (top - t))
            } else {
                false
            };
            assert(bit == bits[x as int]);
            assert(bit_at(bits, 0 + (x + 1) - 1) == bits[x as int]);
            v = 2 * v + if bit {
                1
            } else {
                0
            };
            x = x + 1;
        }
        let kk: u32 = if little {
            r
        } else {
            size - 1 - r
        };
        out.set(at + kk as usize, v);
        assert(v == piece.stored_byte(s, pos as int, k));
        assert(piece.touches(k));
        r = r + 1;
    }
    assert(out@ =~= want);
}

/// Whether all pieces that are begun before a stream of `total` bits ends fit in `len`
/// bytes. The first bits are at position `p`.
pub open spec fn begun_fit(ps: Seq<Piece>, len: nat, total: int, p: int) -> bool {
    forall|i: int|
        0 <= i < ps.len() && (p + bit_count(ps.take(i)) < total || p + bit_count(ps.take(i + 1))
            <= total) ==> (#[trigger] ps[i]).fits(len)
}

pub proof fn lemma_bit_count_concat(a: Seq<Piece>, b: Seq<Piece>)
    ensures
        bit_count(a + b) == bit_count(a) + bit_count(b),
    decreases b.len(),
{
    if b.len() == 0 {
        assert(a + b =~= a);
    } else {
        lemma_bit_count_concat(a, b.drop_last());
        assert((a + b).drop_last() =~= a + b.drop_last());
    }
}

/// Pieces one behind the other: the second ones begin behind the bits of the first ones.
pub proof fn lemma_begun_split(a: Seq<Piece>, b: Seq<Piece>, len: nat, total: int, p: int)
    requires
        begun_fit(a + b, len, total, p),
    ensures
        begun_fit(a, len, total, p),
        begun_fit(b, len, total, p + bit_count(a)),
{
    let all = a + b;
    assert forall|i: int|
        0 <= i < a.len() && (p + bit_count(a.take(i)) < total || p + bit_count(a.take(i + 1))
            <= total) implies (#[trigger] a[i]).fits(len) by {
        assert(all.take(i) =~= a.take(i));
        assert(all.take(i + 1) =~= a.take(i + 1));
        assert(all[i] == a[i]);
    }
    let q = p + bit_count(a);
    assert forall|i: int|
        0 <= i < b.len() && (q + bit_count(b.take(i)) < total || q + bit_count(b.take(i + 1))
            <= total) implies (#[trigger] b[i]).fits(len) by {
        let j = a.len() + i;
        assert(all.take(j) =~= a + b.take(i));
        assert(all.take(j + 1) =~= a + b.take(i + 1));
        lemma_bit_count_concat(a, b.take(i));
        lemma_bit_count_concat(a, b.take(i + 1));
        assert(all[j] == b[i]);
    }
}

/// Copy `k` of repeated pieces begins behind the bits of the copies before it.
pub proof fn lemma_begun_copy(
    ps: Seq<Piece>,
    n: nat,
    step: nat,
    len: nat,
    total: int,
    p: int,
    k: nat,
)
    requires
        begun_fit(repeated(ps, n, step), len, total, p),
        k < n,
    ensures
        begun_fit(moved(ps, k * step), len, total, p + bit_count(repeated(ps, k, step))),
    decreases n,
{
    let head = repeated(ps, (n - 1) as nat, step);
    let tail = moved(ps, (n - 1) as nat * step);
    assert(repeated(ps, n, step) == head + tail);
    lemma_begun_split(head, tail, len, total, p);
    if k < n - 1 {
        lemma_begun_copy(ps, (n - 1) as nat, step, len, total, p, k);
    }
}

/// A single piece whose bits are all there fits.
pub proof fn lemma_begun_one(x: Piece, len: nat, total: int, p: int)
    requires
        begun_fit(seq![x], len, total, p),
    ensures
        p + x.precision <= total ==> x.fits(len),
{
    let ps = seq![x];
    assert(ps.take(1) =~= ps);
    assert(ps.drop_last() =~= Seq::<Piece>::empty());
    reveal_with_fuel(bit_count, 2);
    assert(ps[0] == x);
}

} // verus!
