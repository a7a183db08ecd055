//! The decoder.

use crate::format::bitstream::{lemma_pow2_le32, lemma_read_bits_bound, stream_of, BitReader};
use crate::format::szip::coding::{
    decode_highs, decode_lows, decode_pairs, has_total, join_parts, lemma_decode_block_len,
    lemma_decode_highs_len, lemma_small_mod_zero, pair_first, pair_second, pair_total, triangle,
    CodeParams, SE_TABLE_SIZE,
};
use crate::format::szip::params::{
    bits_to_bytes, code_params, compute_id_len, has_flag, identifier_len, largest_id,
    lemma_max_sample, max_sample, sample_bytes, sample_limit, AEC_DATA_MSB, AEC_DATA_PREPROCESS,
    AEC_DATA_SIGNED,
};
use crate::format::szip::predictor::{postprocess_signed, postprocess_unsigned};
use crate::format::szip::samples::{at_most, bytes_of_samples, write_samples};
use vstd::arithmetic::power2::pow2;
use vstd::bits::lemma_u32_shl_is_mul;
use vstd::prelude::*;

verus! {

proof fn lemma_shifted_sum(x: u32, low: u32, k: u32)
    by (bit_vector)
    requires
        k < 32,
        low < (1u32 << k),
    ensures
        (x << k) + low <= u32::MAX,
{
}

/// The low bits fit below the shifted high part.
proof fn lemma_join_fits(x: u32, low: u32, k: u32)
    requires
        k < 32,
        low < pow2(k as nat),
    ensures
        (x << k) + low <= u32::MAX,
{
    vstd::bits::lemma_u32_pow2_no_overflow(k as nat);
    lemma_u32_shl_is_mul(1, k);
    lemma_shifted_sum(x, low, k);
}

proof fn lemma_triangle_step(t: nat)
    ensures
        triangle(t + 1) == triangle(t) + t + 1,
{
    assert((t + 1) * (t + 2) == t * (t + 1) + 2 * (t + 1)) by (nonlinear_arith);
}

proof fn lemma_triangle_grows(a: nat, b: nat)
    requires
        a <= b,
    ensures
        triangle(a) <= triangle(b),
    decreases b - a,
{
    if a < b {
        lemma_triangle_grows(a, (b - 1) as nat);
        lemma_triangle_step((b - 1) as nat);
    }
}

/// A pair number has one total.
pub proof fn lemma_total_unique(m: nat, t: nat)
    requires
        has_total(m, t),
    ensures
        pair_total(m) == t,
{
    let u = pair_total(m);
    assert(has_total(m, u));
    if u < t {
        lemma_triangle_grows(u + 1, t);
    } else if t < u {
        lemma_triangle_grows(t + 1, u);
    }
}

/// The first and second sample of every pair number up to the largest.
pub fn create_se_table() -> (table: Vec<(u32, u32)>)
    ensures
        table@.len() == SE_TABLE_SIZE + 1,
        forall|m: int|
            0 <= m <= SE_TABLE_SIZE ==> (#[trigger] table@[m]).0 == pair_first(m as nat) && table@[m].1
                == pair_second(m as nat),
{
    let mut table: Vec<(u32, u32)> = Vec::with_capacity(SE_TABLE_SIZE as usize + 1);
    let mut total: u32 = 0;
    assert(triangle(0) == 0);
    while total < 13
        invariant
            total <= 13,
            table@.len() == triangle(total as nat),
            total == 13 ==> table@.len() == 91,
            triangle(total as nat) <= 7 * total,
            forall|m: int|
                0 <= m < table@.len() ==> (#[trigger] table@[m]).0 == pair_first(m as nat)
                    && table@[m].1 == pair_second(m as nat),
        decreases 13 - total,
    {
        proof {
            lemma_triangle_step(total as nat);
        }
        let mut second: u32 = 0;
        while second <= total
            invariant
                total < 13,
                second <= total + 1,
                table@.len() == triangle(total as nat) + second,
                triangle((total + 1) as nat) == triangle(total as nat) + total + 1,
                forall|m: int|
                    0 <= m < table@.len() ==> (#[trigger] table@[m]).0 == pair_first(m as nat)
                        && table@[m].1 == pair_second(m as nat),
            decreases total + 1 - second,
        {
            proof {
                lemma_total_unique(table@.len(), total as nat);
            }
            table.push((total - second, second));
            second = second + 1;
        }
        total = total + 1;
        proof {
            assert(triangle(13) == 91);
            assert(total * (total + 1) / 2 <= 7 * total) by (nonlinear_arith)
                requires
                    total <= 13,
            ;
        }
    }
    table
}

/// A decoder for one set of parameters.
pub struct Decoder {
    bits_per_sample: u32,
    block_size: u32,
    rsi: u32,
    flags: u32,
    id_len: u32,
    xmax: u32,
    bytes_per_sample: u32,
}

impl Decoder {
    /// The parameters of the code.
    pub closed spec fn params(&self) -> CodeParams {
        code_params(self.bits_per_sample, self.block_size, self.rsi, self.flags)
    }

    /// Bytes per sample.
    pub closed spec fn width(&self) -> nat {
        sample_bytes(self.bits_per_sample as int)
    }

    /// Whether samples are stored most significant byte first.
    pub closed spec fn msb(&self) -> bool {
        has_flag(self.flags, AEC_DATA_MSB)
    }

    /// The fields agree with each other.
    pub closed spec fn wf(&self) -> bool {
        &&& self.params().decodable()
        &&& identifier_len(self.bits_per_sample, self.flags) == Some(self.id_len)
        &&& self.xmax == max_sample(self.bits_per_sample, self.flags)
        &&& self.bytes_per_sample == self.width()
    }

    /// Make a decoder.
    pub fn new(bits_per_sample: u32, block_size: u32, rsi: u32, flags: u32) -> (r: Result<
        Self,
        String,
    >)
        requires
            code_params(bits_per_sample, block_size, rsi, flags).decodable() || identifier_len(
                bits_per_sample,
                flags,
            ) is None,
        ensures
            match identifier_len(bits_per_sample, flags) {
                Some(n) => r matches Ok(d) && d.wf() && d.params() == code_params(
                    bits_per_sample,
                    block_size,
                    rsi,
                    flags,
                ) && d.width() == sample_bytes(bits_per_sample as int) && d.msb() == has_flag(
                    flags,
                    AEC_DATA_MSB,
                ),
                None => r matches Err(e) && e@ == "restricted mode only supports <= 4 bits"@,
            },
    {
        let id_len: u32 = match compute_id_len(bits_per_sample, flags) {
            Ok(n) => n,
            Err(e) => return Err(e),
        };
        let xmax: u32 = sample_limit(bits_per_sample, flags);
        let bytes_per_sample: u32 = bits_to_bytes(bits_per_sample);
        Ok(Decoder { bits_per_sample, block_size, rsi, flags, id_len, xmax, bytes_per_sample })
    }

    /// Append `n` numbers of `k` bits.
    fn decode_numbers(reader: &mut BitReader, buf: &mut Vec<u32>, n: u32, k: u32)
        requires
            old(reader).wf(),
            k <= 32,
        ensures
            final(reader).wf(),
            final(reader).stream() == old(reader).stream(),
            ({
                let (v, q) = decode_lows(
                    old(reader).stream(),
                    old(reader).pos(),
                    n as nat,
                    k as nat,
                );
                final(buf)@ == old(buf)@ + v && final(reader).pos() == q
            }),
    {
        let mut i: u32 = 0;
        let ghost s = reader.stream();
        let ghost p = reader.pos();
        proof {
            assert(buf@ =~= old(buf)@ + decode_lows(s, p, 0, k as nat).0);
        }
        while i < n
            invariant
                reader.wf(),
                reader.stream() == s,
                k <= 32,
                i <= n,
                buf@ == old(buf)@ + decode_lows(s, p, i as nat, k as nat).0,
                reader.pos() == decode_lows(s, p, i as nat, k as nat).1,
            decreases n - i,
        {
            let v: u32 = reader.get_bits(k);
            buf.push(v);
            i = i + 1;
            assert(buf@ =~= old(buf)@ + decode_lows(s, p, i as nat, k as nat).0);
        }
    }

    /// Append `n` split samples.
    fn decode_split(reader: &mut BitReader, buf: &mut Vec<u32>, n: u32, k: u32)
        requires
            old(reader).wf(),
            k < 32,
        ensures
            final(reader).wf(),
            final(reader).stream() == old(reader).stream(),
            ({
                let (highs, q) = decode_highs(old(reader).stream(), old(reader).pos(), n as nat);
                let (lows, t) = decode_lows(old(reader).stream(), q, n as nat, k as nat);
                &&& final(buf)@ == old(buf)@ + Seq::new(
                    n as nat,
                    |i: int| join_parts(highs[i], lows[i], k as nat),
                )
                &&& final(reader).pos() == t
            }),
    {
        let ghost s = reader.stream();
        let ghost p = reader.pos();
        let ghost highs = decode_highs(s, p, n as nat).0;
        let base: usize = buf.len();
        let mut i: u32 = 0;
        while i < n
            invariant
                reader.wf(),
                reader.stream() == s,
                k < 32,
                i <= n,
                base == old(buf)@.len(),
                buf@.len() == base + i,
                buf@.take(base as int) == old(buf)@,
                decode_highs(s, p, i as nat).0.len() == i,
                forall|j: int|
                    0 <= j < i ==> #[trigger] buf@[base + j] == (decode_highs(
                        s,
                        p,
                        i as nat,
                    ).0[j] as u32) << k,
                reader.pos() == decode_highs(s, p, i as nat).1,
            decreases n - i,
        {
            let fs: u64 = reader.get_fs();
            buf.push((fs as u32) << k);
            i = i + 1;
            assert(buf@.take(base as int) =~= old(buf)@);
        }
        let ghost q = reader.pos();
        let mut j: u32 = 0;
        proof {
            lemma_decode_highs_len(s, p, n as nat);
        }
        while j < n
            invariant
                reader.wf(),
                reader.stream() == s,
                k < 32,
                j <= n,
                base == old(buf)@.len(),
                buf.len() == base + n,
                buf@.take(base as int) == old(buf)@,
                highs == decode_highs(s, p, n as nat).0,
                highs.len() == n,
                decode_lows(s, q, j as nat, k as nat).0.len() == j,
                forall|i: int|
                    j <= i < n ==> #[trigger] buf@[base + i] == (highs[i] as u32) << k,
                forall|i: int|
                    0 <= i < j ==> #[trigger] buf@[base + i] == join_parts(
                        highs[i],
                        decode_lows(s, q, j as nat, k as nat).0[i],
                        k as nat,
                    ),
                reader.pos() == decode_lows(s, q, j as nat, k as nat).1,
            decreases n - j,
        {
            proof {
                lemma_read_bits_bound(s, reader.pos(), k as nat);
                lemma_pow2_le32(k as nat);
            }
            let low: u32 = reader.get_bits(k);
            proof {
                assert(buf@[base + j] == (highs[j as int] as u32) << k);
                lemma_join_fits(highs[j as int] as u32, low, k);
            }
            let joined: u32 = buf[base + j as usize] + low;
            buf.set(base + j as usize, joined);
            j = j + 1;
            assert(buf@.take(base as int) =~= old(buf)@);
        }
        proof {
            let lows = decode_lows(s, q, n as nat, k as nat).0;
            let added = Seq::new(n as nat, |i: int| join_parts(highs[i], lows[i], k as nat));
            assert forall|i: int| 0 <= i < buf@.len() implies buf@[i] == (old(buf)@ + added)[i] by {
                if i < base {
                    assert(buf@.take(base as int)[i] == buf@[i]);
                } else {
                    let d = i - base;
                    assert(buf@[base + d] == join_parts(highs[d], lows[d], k as nat));
                }
            }
            assert(buf@ =~= old(buf)@ + added);
        }
    }

    /// Append the samples of `n` pairs, the very first one left out where the
    /// block has a reference sample. `false` for a pair number out of range.
    fn decode_pair_block(
        reader: &mut BitReader,
        table: &Vec<(u32, u32)>,
        buf: &mut Vec<u32>,
        n: u32,
        has_ref: bool,
    ) -> (ok: bool)
        requires
            old(reader).wf(),
            n > 0,
            table@.len() == SE_TABLE_SIZE + 1,
            forall|m: int|
                0 <= m <= SE_TABLE_SIZE ==> (#[trigger] table@[m]).0 == pair_first(m as nat)
                    && table@[m].1 == pair_second(m as nat),
        ensures
            final(reader).wf(),
            final(reader).stream() == old(reader).stream(),
            match decode_pairs(old(reader).stream(), old(reader).pos(), n as nat) {
                Some((v, q)) => {
                    &&& ok
                    &&& final(buf)@ == old(buf)@ + (if has_ref {
                        v.drop_first()
                    } else {
                        v
                    })
                    &&& final(reader).pos() == q
                },
                None => !ok,
            },
    {
        let ghost s = reader.stream();
        let ghost p = reader.pos();
        let mut i: u32 = 0;
        let ghost mut v: Seq<u32> = Seq::empty();
        proof {
            assert(buf@ =~= old(buf)@ + v);
        }
        while i < n
            invariant
                reader.wf(),
                s == old(reader).stream(),
                p == old(reader).pos(),
                reader.stream() == s,
                i <= n,
                table@.len() == SE_TABLE_SIZE + 1,
                forall|m: int|
                    0 <= m <= SE_TABLE_SIZE ==> (#[trigger] table@[m]).0 == pair_first(m as nat)
                        && table@[m].1 == pair_second(m as nat),
                decode_pairs(s, p, i as nat) == Some((v, reader.pos())),
                v.len() == 2 * i,
                buf@ == old(buf)@ + (if has_ref && i > 0 {
                    v.drop_first()
                } else {
                    v
                }),
            decreases n - i,
        {
            let m: u64 = reader.get_fs();
            if m > SE_TABLE_SIZE {
                proof {
                    assert(decode_pairs(s, p, (i + 1) as nat) is None);
                    lemma_pairs_fail(s, p, (i + 1) as nat, n as nat);
                }
                return false;
            }
            let ghost before = v;
            let (first, second) = table[m as usize];
            if !(has_ref && i == 0) {
                buf.push(first);
            }
            buf.push(second);
            proof {
                v = before.push(first).push(second);
                if has_ref {
                    assert(buf@ =~= old(buf)@ + v.drop_first());
                } else {
                    assert(buf@ =~= old(buf)@ + v);
                }
            }
            i = i + 1;
        }
        true
    }

    /// Decode one block behind the samples in `buf`.
    fn decode_block(
        &self,
        reader: &mut BitReader,
        table: &Vec<(u32, u32)>,
        buf: &mut Vec<u32>,
    ) -> (ok: bool)
        requires
            self.wf(),
            old(reader).wf(),
            self.params().aligned(old(buf)@.len()),
            old(buf)@.len() < self.params().interval(),
            table@.len() == SE_TABLE_SIZE + 1,
            forall|m: int|
                0 <= m <= SE_TABLE_SIZE ==> (#[trigger] table@[m]).0 == pair_first(m as nat)
                    && table@[m].1 == pair_second(m as nat),
        ensures
            final(reader).wf(),
            final(reader).stream() == old(reader).stream(),
            match self.params().decode_block(
                old(reader).stream(),
                old(reader).pos(),
                old(buf)@,
            ) {
                Some((v, q)) => ok && final(buf)@ == v && final(reader).pos() == q,
                None => !ok,
            },
    {
        let ghost c = self.params();
        let ghost s = reader.stream();
        let has_ref: bool = self.flags & AEC_DATA_PREPROCESS != 0 && buf.len() == 0;
        let id: u32 = reader.get_bits(self.id_len);
        let top: u32 = largest_id(self.id_len);
        proof {
            lemma_read_bits_bound(s, old(reader).pos(), c.id_len);
            vstd::arithmetic::power2::lemma2_to64();
        }
        if id == top {
            Self::decode_numbers(reader, buf, self.block_size, self.bits_per_sample);
            return true;
        }
        let pairs: bool = if id == 0 {
            reader.get_bits(1) == 1
        } else {
            false
        };
        if has_ref {
            let reference: u32 = reader.get_bits(self.bits_per_sample);
            buf.push(reference);
        }
        if id != 0 {
            let n: u32 = if has_ref {
                self.block_size - 1
            } else {
                self.block_size
            };
            Self::decode_split(reader, buf, n, id - 1);
            true
        } else if pairs {
            Self::decode_pair_block(reader, table, buf, self.block_size / 2, has_ref)
        } else {
            let fs: u64 = reader.get_fs();
            proof {
                assert(c.rsi * c.block >= 2) by (nonlinear_arith)
                    requires
                        c.rsi >= 1,
                        c.block >= 2,
                ;
            }
            let zeros: usize = self.zero_run_samples(fs, has_ref, buf.len());
            let ghost before = buf@;
            let mut i: usize = 0;
            while i < zeros
                invariant
                    i <= zeros,
                    buf@ == before + Seq::new(i as nat, |j: int| 0u32),
                decreases zeros - i,
            {
                buf.push(0);
                i = i + 1;
                assert(buf@ =~= before + Seq::new(i as nat, |j: int| 0u32));
            }
            true
        }
    }

    /// Number of zero samples that a run of all-zero blocks adds.
    fn zero_run_samples(&self, fs: u64, has_ref: bool, have: usize) -> (zeros: usize)
        requires
            self.wf(),
            have < self.params().interval(),
            has_ref ==> have == 1,
            !has_ref ==> have % self.params().block as usize == 0,
        ensures
            zeros == self.params().zero_samples(fs as nat, has_ref, have as nat),
    {
        let ghost c = self.params();
        let bs: u128 = self.block_size as u128;
        let b: u128 = have as u128 / bs;
        let rsi: u128 = self.rsi as u128;
        proof {
            let d = c.block as int;
            assert(have as int / d < c.rsi) by (nonlinear_arith)
                requires
                    0 <= have < c.rsi * d,
                    d > 0,
            ;
            assert(b == have as int / d);
        }
        let run: u128 = if fs == 4 {
            let remaining: u128 = rsi - b;
            let boundary: u128 = 64 - b % 64;
            if remaining <= boundary {
                remaining
            } else {
                boundary
            }
        } else if fs > 4 {
            fs as u128
        } else {
            fs as u128 + 1
        };
        proof {
            assert(run >= 1);
            assert(run * bs >= bs) by (nonlinear_arith)
                requires
                    run >= 1,
                    bs >= 0,
            ;
            assert(run * bs <= 0x1_0000_0000_0000_0000 * 0xffff_ffff) by (nonlinear_arith)
                requires
                    0 <= run <= 0x1_0000_0000_0000_0000,
                    0 <= bs <= 0xffff_ffff,
            ;
        }
        let wanted: u128 = run * bs - if has_ref {
            1
        } else {
            0
        };
        let room: u128 = (self.rsi * self.block_size) as u128 - have as u128;
        if wanted <= room {
            wanted as usize
        } else {
            room as usize
        }
    }

    /// Decode `output_samples` samples.
    pub fn decode(&self, compressed: &[u8], output_samples: usize) -> (r: Result<
        Vec<u32>,
        String,
    >)
        requires
            self.wf(),
            8 * compressed@.len() + 64 <= u64::MAX,
        ensures
            match self.params().decode(
                stream_of(compressed@),
                0,
                Seq::empty(),
                output_samples as nat,
            ) {
                Some(v) => r matches Ok(out) && out@ == v,
                None => r matches Err(e) && e@ == "SE table overflow"@,
            },
    {
        let ghost c = self.params();
        let ghost s = stream_of(compressed@);
        let mut reader = BitReader::new(compressed);
        let table = create_se_table();
        let n: usize = (self.rsi * self.block_size) as usize;
        let pp: bool = self.flags & AEC_DATA_PREPROCESS != 0;
        let mut all: Vec<u32> = Vec::new();
        let ghost result = c.decode(s, 0, Seq::empty(), output_samples as nat);
        proof {
            assert(c.interval() > 0) by (nonlinear_arith)
                requires
                    c.interval() == c.rsi * c.block,
                    c.rsi >= 1,
                    c.block >= 2,
            ;
            lemma_small_mod_zero(c.block);
            lemma_max_sample(self.bits_per_sample, self.flags);
        }
        while all.len() < output_samples
            invariant
                self.wf(),
                c == self.params(),
                c.decodable(),
                n == c.interval(),
                n > 0,
                s == stream_of(compressed@),
                result == c.decode(s, 0, Seq::empty(), output_samples as nat),
                c.aligned(0),
                pp == c.preprocess,
                self.xmax == c.xmax,
                reader.wf(),
                reader.stream() == s,
                table@.len() == SE_TABLE_SIZE + 1,
                forall|m: int|
                    0 <= m <= SE_TABLE_SIZE ==> (#[trigger] table@[m]).0 == pair_first(m as nat)
                        && table@[m].1 == pair_second(m as nat),
                result == c.decode(s, reader.pos(), all@, output_samples as nat),
            decreases
                    if all@.len() >= output_samples {
                        0
                    } else {
                        output_samples - all@.len()
                    },
        {
            let mut buf: Vec<u32> = Vec::new();
            let ghost p = reader.pos();
            let ghost whole = c.decode_interval(s, p, Seq::empty());
            while buf.len() < n
                invariant
                    self.wf(),
                    c == self.params(),
                    c.decodable(),
                    n == c.interval(),
                    s == stream_of(compressed@),
                    result == c.decode(s, 0, Seq::empty(), output_samples as nat),
                    reader.wf(),
                    reader.stream() == s,
                    c.aligned(buf@.len()),
                    table@.len() == SE_TABLE_SIZE + 1,
                    forall|m: int|
                        0 <= m <= SE_TABLE_SIZE ==> (#[trigger] table@[m]).0 == pair_first(m as nat)
                            && table@[m].1 == pair_second(m as nat),
                    whole == c.decode_interval(s, reader.pos(), buf@),
                    result == match whole {
                        None => None,
                        Some((v, q)) => c.decode(
                            s,
                            q,
                            all@ + c.restored(v),
                            output_samples as nat,
                        ),
                    },
                decreases n - buf@.len(),
            {
                proof {
                    lemma_decode_block_len(c, s, reader.pos(), buf@);
                }
                let ok: bool = self.decode_block(&mut reader, &table, &mut buf);
                if !ok {
                    return Err("SE table overflow".to_owned());
                }
            }
            let ghost before = all@;
            if pp {
                let processed = if self.flags & AEC_DATA_SIGNED != 0 {
                    postprocess_signed(buf.as_slice(), self.xmax)
                } else {
                    postprocess_unsigned(buf.as_slice(), self.xmax)
                };
                all.extend_from_slice(processed.as_slice());
            } else {
                all.extend_from_slice(buf.as_slice());
            }
            assert(all@ =~= before + c.restored(buf@));
        }
        all.truncate(output_samples);
        assert(all@ =~= result->0);
        Ok(all)
    }

    /// Write samples as at most `output_size` bytes.
    pub fn write_samples(&self, samples: &[u32], output_size: usize) -> (out: Vec<u8>)
        requires
            self.wf(),
        ensures
            out@ == at_most(
                bytes_of_samples(samples@, self.width(), self.msb()),
                output_size as nat,
            ),
    {
        let msb: bool = self.flags & AEC_DATA_MSB != 0;
        write_samples(samples, self.bytes_per_sample as usize, msb, output_size)
    }
}

/// A pair number out of range fails every longer run of pairs.
proof fn lemma_pairs_fail(s: Seq<bool>, p: int, i: nat, n: nat)
    requires
        i <= n,
        decode_pairs(s, p, i) is None,
    ensures
        decode_pairs(s, p, n) is None,
    decreases n - i,
{
    if i < n {
        lemma_pairs_fail(s, p, i, (n - 1) as nat);
    }
}

} // verus!
