//! The encoder.

use crate::format::bitstream::{packed, BitWriter};
use crate::format::szip::coding::{
    all_zero, coded_samples, high_codes, low_bits, pair_codes, BlockCode, CodeParams, CoderState,
};
use crate::format::szip::options::{
    assess_se, assess_splitting, best_split, pair_bits, pair_code, pair_cost, pair_number,
};
use crate::format::szip::params::{
    bits_to_bytes, code_params, compute_id_len, has_flag, identifier_len, largest_id,
    lemma_max_sample, max_sample, sample_bytes, sample_limit, AEC_DATA_MSB, AEC_DATA_PREPROCESS,
    AEC_DATA_SIGNED,
};
use crate::format::szip::predictor::{preprocess_signed, preprocess_unsigned};
use crate::format::szip::samples::{lemma_samples_bound, read_samples, samples_of};
use vstd::bits::lemma_u32_shr_is_div;
use vstd::prelude::*;
use vstd::slice::{slice_subrange, slice_to_vec};

verus! {

/// Append the fundamental sequences of the high parts of `s`.
fn emit_block_fs(writer: &mut BitWriter, s: &[u32], k: u32)
    requires
        old(writer).wf(),
        k < 32,
    ensures
        final(writer).wf(),
        final(writer).bits() == old(writer).bits() + high_codes(s@, k as nat),
{
    let mut i: usize = 0;
    proof {
        assert(s@.take(0) =~= Seq::<u32>::empty());
        assert(writer.bits() =~= old(writer).bits() + high_codes(s@.take(0), k as nat));
    }
    while i < s.len()
        invariant
            writer.wf(),
            k < 32,
            i <= s.len(),
            writer.bits() == old(writer).bits() + high_codes(s@.take(i as int), k as nat),
        decreases s.len() - i,
    {
        proof {
            lemma_u32_shr_is_div(s@[i as int], k);
            let t = s@.take(i + 1);
            assert(t.drop_last() =~= s@.take(i as int));
            assert(t.last() == s@[i as int]);
        }
        writer.emitfs(s[i] >> k);
        i = i + 1;
        assert(writer.bits() =~= old(writer).bits() + high_codes(s@.take(i as int), k as nat));
    }
    assert(s@.take(i as int) =~= s@);
}

/// Append the low `k` bits of each sample of `s`.
fn emit_block(writer: &mut BitWriter, s: &[u32], k: u32)
    requires
        old(writer).wf(),
        k <= 32,
    ensures
        final(writer).wf(),
        final(writer).bits() == old(writer).bits() + low_bits(s@, k as nat),
{
    let mut i: usize = 0;
    proof {
        assert(s@.take(0) =~= Seq::<u32>::empty());
        assert(writer.bits() =~= old(writer).bits() + low_bits(s@.take(0), k as nat));
    }
    while i < s.len()
        invariant
            writer.wf(),
            k <= 32,
            i <= s.len(),
            writer.bits() == old(writer).bits() + low_bits(s@.take(i as int), k as nat),
        decreases s.len() - i,
    {
        proof {
            let t = s@.take(i + 1);
            assert(t.drop_last() =~= s@.take(i as int));
            assert(t.last() == s@[i as int]);
        }
        writer.emit(s[i], k);
        i = i + 1;
        assert(writer.bits() =~= old(writer).bits() + low_bits(s@.take(i as int), k as nat));
    }
    assert(s@.take(i as int) =~= s@);
}

proof fn lemma_pair_code_within(block: Seq<u32>, i: nat)
    requires
        i < block.len() / 2,
    ensures
        pair_code(block[2 * i as int], block[2 * i as int + 1]) < pair_cost(block),
    decreases block.len() / 2 - i,
{
    lemma_pair_code_below(block, i, block.len() / 2);
}

proof fn lemma_pair_code_below(block: Seq<u32>, i: nat, n: nat)
    requires
        i < n <= block.len() / 2,
    ensures
        pair_code(block[2 * i as int], block[2 * i as int + 1]) < 1 + pair_bits(block, n),
    decreases n,
{
    if i + 1 < n {
        lemma_pair_code_below(block, i, (n - 1) as nat);
    }
}

/// Append the fundamental sequences of the pairs of `block`.
fn emit_pairs(writer: &mut BitWriter, block: &[u32])
    requires
        old(writer).wf(),
        block@.len() % 2 == 0,
        pair_cost(block@) <= u32::MAX,
    ensures
        final(writer).wf(),
        final(writer).bits() == old(writer).bits() + pair_codes(block@, block@.len() / 2),
{
    let mut i: usize = 0;
    proof {
        assert(writer.bits() =~= old(writer).bits() + pair_codes(block@, 0));
    }
    while i < block.len()
        invariant
            writer.wf(),
            block@.len() % 2 == 0,
            pair_cost(block@) <= u32::MAX,
            i % 2 == 0,
            i <= block.len(),
            writer.bits() == old(writer).bits() + pair_codes(block@, (i / 2) as nat),
        decreases block.len() - i,
    {
        proof {
            lemma_pair_code_within(block@, (i / 2) as nat);
            assert(2 * (i / 2) == i);
            assert((i + 2) / 2 == i / 2 + 1);
        }
        writer.emitfs(pair_number(block[i], block[i + 1]) as u32);
        i = i + 2;
        assert(writer.bits() =~= old(writer).bits() + pair_codes(block@, (i / 2) as nat));
    }
}

fn is_all_zero(block: &[u32]) -> (r: bool)
    ensures
        r == all_zero(block@),
{
    let mut i: usize = 0;
    while i < block.len()
        invariant
            i <= block.len(),
            forall|j: int| 0 <= j < i ==> block@[j] == 0,
        decreases block.len() - i,
    {
        if block[i] != 0 {
            return false;
        }
        i = i + 1;
    }
    true
}

/// An encoder for one set of parameters.
pub struct Encoder {
    bits_per_sample: u32,
    block_size: u32,
    rsi: u32,
    flags: u32,
    id_len: u32,
    kmax: u32,
    xmax: u32,
    bytes_per_sample: u32,
}

impl Encoder {
    /// The parameters of the code.
    pub closed spec fn params(&self) -> CodeParams {
        code_params(self.bits_per_sample, self.block_size, self.rsi, self.flags)
    }

    /// Bytes per sample.
    pub closed spec fn width(&self) -> nat {
        sample_bytes(self.bits_per_sample as int)
    }

    /// Whether samples are stored most significant byte first.
    pub closed spec fn msb(&self) -> bool {
        has_flag(self.flags, AEC_DATA_MSB)
    }

    /// The fields agree with each other.
    pub closed spec fn wf(&self) -> bool {
        &&& self.params().wf()
        &&& self.params().block * self.params().bits <= i32::MAX
        &&& identifier_len(self.bits_per_sample, self.flags) == Some(self.id_len)
        &&& self.kmax == self.params().kmax()
        &&& self.xmax == max_sample(self.bits_per_sample, self.flags)
        &&& self.bytes_per_sample == self.width()
    }

    /// Make an encoder.
    pub fn new(bits_per_sample: u32, block_size: u32, rsi: u32, flags: u32) -> (r: Result<
        Self,
        String,
    >)
        requires
            identifier_len(bits_per_sample, flags) != Some(1u32),
            (code_params(bits_per_sample, block_size, rsi, flags).wf() && block_size
                * bits_per_sample <= i32::MAX) || identifier_len(bits_per_sample, flags) is None,
        ensures
            match identifier_len(bits_per_sample, flags) {
                Some(n) => r matches Ok(e) && e.wf() && e.params() == code_params(
                    bits_per_sample,
                    block_size,
                    rsi,
                    flags,
                ) && e.width() == sample_bytes(bits_per_sample as int) && e.msb() == has_flag(
                    flags,
                    AEC_DATA_MSB,
                ),
                None => r matches Err(e) && e@ == "restricted mode only supports <= 4 bits"@,
            },
    {
        let id_len: u32 = match compute_id_len(bits_per_sample, flags) {
            Ok(n) => n,
            Err(e) => return Err(e),
        };
        let kmax: u32 = largest_id(id_len) - 2;
        let xmax: u32 = sample_limit(bits_per_sample, flags);
        let bytes_per_sample: u32 = bits_to_bytes(bits_per_sample);
        Ok(
            Encoder {
                bits_per_sample,
                block_size,
                rsi,
                flags,
                id_len,
                kmax,
                xmax,
                bytes_per_sample,
            },
        )
    }

    /// Append a reference sample where there is one.
    fn emit_ref(&self, writer: &mut BitWriter, has_ref: bool, reference: u32)
        requires
            self.wf(),
            old(writer).wf(),
        ensures
            final(writer).wf(),
            final(writer).bits() == old(writer).bits() + self.params().ref_bits(
                has_ref,
                reference,
            ),
    {
        if has_ref {
            writer.emit(reference, self.bits_per_sample);
        }
        assert(writer.bits() =~= old(writer).bits() + self.params().ref_bits(has_ref, reference));
    }

    /// Append the code of a run of all-zero blocks.
    fn emit_zero_run(&self, writer: &mut BitWriter, has_ref: bool, reference: u32, fs: u32)
        requires
            self.wf(),
            old(writer).wf(),
        ensures
            final(writer).wf(),
            final(writer).bits() == old(writer).bits() + self.params().zero_bits(
                has_ref,
                reference,
                fs as nat,
            ),
    {
        writer.emit(0, self.id_len + 1);
        self.emit_ref(writer, has_ref, reference);
        writer.emitfs(fs);
        assert(writer.bits() =~= old(writer).bits() + self.params().zero_bits(
            has_ref,
            reference,
            fs as nat,
        ));
    }

    /// Append the code of a block that is not all zero. Returns its best split
    /// position.
    fn encode_block(
        &self,
        writer: &mut BitWriter,
        block: &[u32],
        has_ref: bool,
        reference: u32,
        prev_k: u32,
    ) -> (k: u32)
        requires
            self.wf(),
            old(writer).wf(),
            block@.len() == self.params().block,
            prev_k <= self.params().kmax(),
        ensures
            final(writer).wf(),
            k <= self.params().kmax(),
            k == best_split(
                coded_samples(has_ref, block@),
                prev_k as nat,
                self.params().kmax(),
            ),
            final(writer).bits() == old(writer).bits() + self.params().block_bits(
                self.params().choice(has_ref, block@, prev_k as nat),
                has_ref,
                reference,
                block@,
            ),
    {
        let ghost c = self.params();
        let ghost start = writer.bits();
        let coded = if has_ref {
            slice_subrange(block, 1, block.len())
        } else {
            block
        };
        proof {
            assert(coded@ == coded_samples(has_ref, block@));
            assert(c.block <= i32::MAX && (c.block - 1) * c.bits <= c.block * c.bits)
                by (nonlinear_arith)
                requires
                    c.block * c.bits <= i32::MAX,
                    c.bits >= 1,
                    c.block >= 2,
            ;
            assert((c.block - 1) * c.bits >= 0) by (nonlinear_arith)
                requires
                    c.bits >= 1,
                    c.block >= 2,
            ;
        }
        let uncomp_len: u32 = if has_ref {
            (self.block_size - 1) * self.bits_per_sample
        } else {
            self.block_size * self.bits_per_sample
        };
        let (k, split_cost_bits) = assess_splitting(coded, prev_k, self.kmax);
        let split_len: u32 = (split_cost_bits % 0x1_0000_0000) as u32;
        let se_len: u32 = assess_se(block, uncomp_len);
        let ghost code = c.choice(has_ref, block@, prev_k as nat);
        if split_len < uncomp_len && split_len < se_len {
            assert(code == BlockCode::Split { k: k as nat });
            writer.emit(k + 1, self.id_len);
            self.emit_ref(writer, has_ref, reference);
            emit_block_fs(writer, coded, k);
            emit_block(writer, coded, k);
            assert(writer.bits() =~= start + c.block_bits(code, has_ref, reference, block@));
        } else if split_len >= uncomp_len && uncomp_len <= se_len {
            assert(code == BlockCode::Raw);
            writer.emit(largest_id(self.id_len), self.id_len);
            if has_ref {
                let mut ublock = slice_to_vec(block);
                ublock.set(0, reference);
                emit_block(writer, ublock.as_slice(), self.bits_per_sample);
            } else {
                emit_block(writer, block, self.bits_per_sample);
            }
            assert(writer.bits() =~= start + c.block_bits(code, has_ref, reference, block@));
        } else {
            assert(code == BlockCode::Pairs);
            writer.emit(1, self.id_len + 1);
            self.emit_ref(writer, has_ref, reference);
            emit_pairs(writer, block);
            assert(writer.bits() =~= start + c.block_bits(code, has_ref, reference, block@));
        }
        k
    }

    /// Compute what is coded for one interval.
    fn preprocess(&self, raw: &Vec<u32>) -> (pp: Vec<u32>)
        requires
            self.wf(),
            raw@.len() > 0,
            forall|i: int|
                0 <= i < raw@.len() ==> raw@[i] < vstd::arithmetic::power2::pow2(
                    self.params().bits,
                ),
        ensures
            pp@ == self.params().residuals(raw@),
    {
        proof {
            lemma_max_sample(self.bits_per_sample, self.flags);
        }
        if self.flags & AEC_DATA_PREPROCESS != 0 {
            if self.flags & AEC_DATA_SIGNED != 0 {
                preprocess_signed(raw.as_slice(), self.xmax)
            } else {
                preprocess_unsigned(raw.as_slice(), self.xmax)
            }
        } else {
            slice_to_vec(raw.as_slice())
        }
    }

    /// Append the code of the first `blocks` blocks of an interval. Returns the
    /// last split position.
    fn encode_interval(
        &self,
        writer: &mut BitWriter,
        raw: &Vec<u32>,
        blocks: usize,
        start_k: u32,
    ) -> (k: u32)
        requires
            self.wf(),
            old(writer).wf(),
            raw@.len() == self.params().interval(),
            blocks <= self.params().rsi,
            start_k <= self.params().kmax(),
            forall|i: int|
                0 <= i < raw@.len() ==> raw@[i] < vstd::arithmetic::power2::pow2(
                    self.params().bits,
                ),
        ensures
            final(writer).wf(),
            k <= self.params().kmax(),
            ({
                let st = self.params().interval_state(
                    raw@,
                    (CoderState {
                        bits: old(writer).bits(),
                        zero_run: 0,
                        zero_ref: false,
                        prev_k: start_k as nat,
                    }),
                    blocks as nat,
                    blocks as nat,
                );
                &&& final(writer).bits() == st.bits
                &&& k == st.prev_k
            }),
    {
        let ghost c = self.params();
        proof {
            assert(c.interval() > 0) by (nonlinear_arith)
                requires
                    c.interval() == c.rsi * c.block,
                    c.rsi >= 1,
                    c.block >= 2,
            ;
        }
        let pp = self.preprocess(raw);
        let reference: u32 = raw[0];
        let bs: usize = self.block_size as usize;
        let has_preprocess: bool = self.flags & AEC_DATA_PREPROCESS != 0;
        let mut zero_run: u32 = 0;
        let mut zero_ref: bool = false;
        let mut prev_k: u32 = start_k;
        let ghost start = CoderState {
            bits: writer.bits(),
            zero_run: 0,
            zero_ref: false,
            prev_k: start_k as nat,
        };
        let mut b: usize = 0;
        while b < blocks
            invariant
                self.wf(),
                writer.wf(),
                c == self.params(),
                c.wf(),
                bs == c.block,
                pp@ == c.residuals(raw@),
                pp@.len() == c.interval(),
                raw@.len() > 0,
                reference == raw@[0],
                has_preprocess == c.preprocess,
                b <= blocks <= c.rsi,
                prev_k <= c.kmax(),
                zero_run <= b,
                ({
                    let st = c.interval_state(raw@, start, b as nat, blocks as nat);
                    &&& writer.bits() == st.bits
                    &&& zero_run == st.zero_run
                    &&& zero_ref == st.zero_ref
                    &&& prev_k == st.prev_k
                }),
            decreases blocks - b,
        {
            proof {
                assert((b + 1) * c.block <= c.rsi * c.block) by (nonlinear_arith)
                    requires
                        b + 1 <= c.rsi,
                ;
                assert((b + 1) * c.block == b * c.block + c.block) by (nonlinear_arith);
                assert(c.rsi <= c.rsi * c.block) by (nonlinear_arith)
                    requires
                        c.block >= 1,
                ;
            }
            let from: usize = b * bs;
            let block = slice_subrange(pp.as_slice(), from, from + bs);
            let ghost st = c.interval_state(raw@, start, b as nat, blocks as nat);
            let ghost next = c.interval_state(raw@, start, (b + 1) as nat, blocks as nat);
            proof {
                assert(block@ == c.block_at(pp@, b as int));
                assert(next == c.step(st, pp@, reference, b as nat, blocks as nat));
            }
            let has_ref: bool = has_preprocess && b == 0;
            if is_all_zero(block) {
                if zero_run == 0 {
                    zero_ref = has_ref;
                }
                zero_run = zero_run + 1;
                if b + 1 >= blocks || (b + 1) % 64 == 0 {
                    let fs: u32 = if zero_run > 4 {
                        4
                    } else {
                        zero_run - 1
                    };
                    self.emit_zero_run(writer, zero_ref, reference, fs);
                    zero_run = 0;
                }
            } else {
                if zero_run > 0 {
                    let fs: u32 = if zero_run >= 5 {
                        zero_run
                    } else {
                        zero_run - 1
                    };
                    self.emit_zero_run(writer, zero_ref, reference, fs);
                    zero_run = 0;
                }
                assert(writer.bits() == c.flushed(st, reference));
                prev_k = self.encode_block(writer, block, has_ref, reference, prev_k);
            }
            b = b + 1;
        }
        prev_k
    }

    /// Interval `r` of `samples`.
    fn take_interval(&self, samples: &Vec<u32>, r: usize, offset: usize) -> (raw: Vec<u32>)
        requires
            self.wf(),
            offset == r * self.params().interval(),
            offset < samples@.len(),
        ensures
            raw@ == self.params().interval_at(samples@, r as int),
    {
        let n: usize = (self.rsi * self.block_size) as usize;
        let mut raw: Vec<u32> = Vec::with_capacity(n);
        let mut i: usize = 0;
        while i < n
            invariant
                n == self.params().interval(),
                offset == r * self.params().interval(),
                offset < samples@.len(),
                i <= n,
                raw@.len() == i,
                forall|j: int|
                    0 <= j < i ==> raw@[j] == self.params().interval_at(samples@, r as int)[j],
            decreases n - i,
        {
            if i < samples.len() - offset {
                raw.push(samples[offset + i]);
            } else {
                raw.push(samples[samples.len() - 1]);
            }
            i = i + 1;
        }
        assert(raw@ =~= self.params().interval_at(samples@, r as int));
        raw
    }

    /// Encode the samples in `input_data`.
    pub fn encode(&self, input_data: &[u8]) -> (out: Vec<u8>)
        requires
            self.wf(),
        ensures
            out@ == packed(
                self.params().encoded(
                    samples_of(input_data@, self.width(), self.msb(), self.params().bits),
                ),
            ),
    {
        let ghost c = self.params();
        let msb: bool = self.flags & AEC_DATA_MSB != 0;
        let samples = read_samples(
            input_data,
            self.bytes_per_sample as usize,
            msb,
            self.bits_per_sample,
        );
        proof {
            assert forall|i: int| 0 <= i < samples@.len() implies samples@[i]
                < vstd::arithmetic::power2::pow2(c.bits) by {
                lemma_samples_bound(input_data@, self.width(), msb, c.bits, i);
            }
            assert(c.interval() > 0) by (nonlinear_arith)
                requires
                    c.interval() == c.rsi * c.block,
                    c.rsi >= 1,
                    c.block >= 2,
            ;
        }
        let total: usize = samples.len();
        let n: usize = (self.rsi * self.block_size) as usize;
        let mut writer = BitWriter::new();
        let mut offset: usize = 0;
        let mut r: usize = 0;
        let mut prev_k: u32 = 0;
        proof {
            assert(0 * c.interval() == 0);
            if total == 0 {
                assert(c.intervals(samples@) == 0) by {
                    vstd::arithmetic::div_mod::lemma_basic_div(
                        c.interval() - 1,
                        c.interval() as int,
                    );
                }
            }
        }
        while offset < total
            invariant
                self.wf(),
                writer.wf(),
                c == self.params(),
                c.wf(),
                n == c.interval(),
                n > 0,
                total == samples@.len(),
                prev_k <= c.kmax(),
                r <= offset,
                forall|i: int|
                    0 <= i < samples@.len() ==> samples@[i] < vstd::arithmetic::power2::pow2(c.bits),
                writer.bits() == c.coded(samples@, r as nat).0,
                prev_k == c.coded(samples@, r as nat).1,
                offset < total ==> offset == r * c.interval(),
                offset >= total ==> offset == total && r == c.intervals(samples@),
                offset <= total,
            decreases total - offset,
        {
            let avail: usize = if total - offset < n {
                total - offset
            } else {
                n
            };
            let blocks: usize = if avail < n {
                (avail - 1) / self.block_size as usize + 1
            } else {
                self.rsi as usize
            };
            let raw = self.take_interval(&samples, r, offset);
            proof {
                lemma_block_count(c, avail as int, blocks as int);
                lemma_interval_count(c, samples@, r as int);
            }
            prev_k = self.encode_interval(&mut writer, &raw, blocks, prev_k);
            offset = offset + avail;
            r = r + 1;
            proof {
                assert((r - 1) * c.interval() + c.interval() == r * c.interval())
                    by (nonlinear_arith);
            }
        }
        writer.finish()
    }
}

/// The number of blocks that hold `avail` samples.
proof fn lemma_block_count(c: CodeParams, avail: int, blocks: int)
    requires
        c.wf(),
        0 < avail <= c.interval(),
        blocks == if avail < c.interval() {
            (avail - 1) / c.block as int + 1
        } else {
            c.rsi as int
        },
    ensures
        0 < blocks <= c.rsi,
        avail < c.interval() ==> blocks == (avail + c.block - 1) / c.block as int,
{
    let d = c.block as int;
    if avail < c.interval() {
        assert((avail - 1 + d) / d == (avail - 1) / d + 1) by (nonlinear_arith)
            requires
                d > 0,
        ;
        assert((avail - 1) / d < c.rsi) by (nonlinear_arith)
            requires
                0 <= avail - 1 < c.rsi * d,
                d > 0,
        ;
        assert((avail - 1) / d >= 0) by (nonlinear_arith)
            requires
                0 <= avail - 1,
                d > 0,
        ;
    }
}

/// Where interval `r` lies among the intervals.
proof fn lemma_interval_count(c: CodeParams, samples: Seq<u32>, r: int)
    requires
        c.wf(),
        0 <= r,
        c.interval() > 0,
        r * c.interval() < samples.len(),
    ensures
        samples.len() - r * c.interval() <= c.interval() ==> c.intervals(samples) == r + 1,
{
    let n = c.interval() as int;
    let total = samples.len() as int;
    if total - r * n <= n {
        assert((total + n - 1) / n == r + 1) by (nonlinear_arith)
            requires
                n > 0,
                r * n < total,
                total <= r * n + n,
        ;
    }
}

} // verus!
