//! The code itself: what bits stand for a sequence of samples.
//!
//! Samples are coded in reference sample intervals of `rsi` blocks. Runs of
//! all-zero blocks are coded together; every other block carries an identifier
//! that names how it is coded.

use crate::format::bitstream::{
    advance, bits_of, fs_code, fs_end, fs_length, read_bits,
};
use crate::format::szip::options::{
    best_split, high_part, pair_code, pair_cost, split_cost,
};
use crate::format::szip::predictor::{
    residuals, restored_samples, signed_residuals, signed_restored_samples,
};
use vstd::prelude::*;

verus! {

/// The parameters of a code.
pub struct CodeParams {
    /// Bits per sample.
    pub bits: nat,
    /// Samples per block.
    pub block: nat,
    /// Blocks per reference sample interval.
    pub rsi: nat,
    /// Bits of a block identifier.
    pub id_len: nat,
    /// The largest sample.
    pub xmax: u32,
    /// Whether residuals are coded in place of samples.
    pub preprocess: bool,
    /// Whether samples are signed.
    pub signed: bool,
}

/// The largest number of an `id_len`-bit identifier.
pub open spec fn top_id(id_len: nat) -> nat {
    if id_len == 1 {
        1
    } else if id_len == 2 {
        3
    } else if id_len == 3 {
        7
    } else if id_len == 4 {
        15
    } else {
        31
    }
}

/// How one block is coded.
pub enum BlockCode {
    /// Split at bit `k`.
    Split { k: nat },
    /// The second extension.
    Pairs,
    /// As it is.
    Raw,
}

/// The state of the coder between two blocks.
pub struct CoderState {
    /// Bits coded so far.
    pub bits: Seq<bool>,
    /// All-zero blocks that are not coded yet.
    pub zero_run: nat,
    /// Whether the run began with a reference sample.
    pub zero_ref: bool,
    /// The last split position.
    pub prev_k: nat,
}

impl CodeParams {
    /// The values with which samples can be coded.
    pub open spec fn wf(self) -> bool {
        self.decodable() && self.id_len >= 2
    }

    /// The values with which a code can be read. Identifiers of a single bit leave no
    /// room for a split.
    pub open spec fn decodable(self) -> bool {
        &&& 1 <= self.bits <= 32
        &&& self.block >= 2
        &&& self.block % 2 == 0
        &&& self.rsi >= 1
        &&& self.rsi * self.block <= u32::MAX
        &&& 1 <= self.id_len <= 5
        &&& self.signed ==> self.xmax < 0x8000_0000
    }

    /// The largest split position.
    pub open spec fn kmax(self) -> nat {
        (top_id(self.id_len) - 2) as nat
    }

    /// Samples per reference sample interval.
    pub open spec fn interval(self) -> nat {
        self.rsi * self.block
    }

    /// What is coded for the samples of one interval.
    pub open spec fn residuals(self, raw: Seq<u32>) -> Seq<u32> {
        if !self.preprocess {
            raw
        } else if self.signed {
            signed_residuals(raw, self.xmax)
        } else {
            residuals(raw, self.xmax)
        }
    }

    /// The samples that an interval's reference and residuals stand for.
    pub open spec fn restored(self, buf: Seq<u32>) -> Seq<u32> {
        if !self.preprocess {
            buf
        } else if self.signed {
            signed_restored_samples(buf, self.xmax)
        } else {
            restored_samples(buf, self.xmax)
        }
    }

    /// Bits of a block stored as it is, without its reference sample.
    pub open spec fn raw_cost(self, has_ref: bool) -> nat {
        if has_ref {
            ((self.block - 1) * self.bits) as nat
        } else {
            self.block * self.bits
        }
    }

    /// The way a block is coded: the cheapest, the second extension before a
    /// split, a split before storing the block as it is. Costs of splits are
    /// compared as 32-bit numbers.
    pub open spec fn choice(self, has_ref: bool, block: Seq<u32>, prev_k: nat) -> BlockCode {
        let s = coded_samples(has_ref, block);
        let k = best_split(s, prev_k, self.kmax());
        let split = split_cost(s, k) % 0x1_0000_0000;
        let raw = self.raw_cost(has_ref);
        let pairs = if pair_cost(block) <= raw {
            pair_cost(block)
        } else {
            u32::MAX as nat
        };
        if split < raw {
            if split < pairs {
                BlockCode::Split { k }
            } else {
                BlockCode::Pairs
            }
        } else if raw <= pairs {
            BlockCode::Raw
        } else {
            BlockCode::Pairs
        }
    }

    /// The bits of a reference sample where there is one.
    pub open spec fn ref_bits(self, has_ref: bool, reference: u32) -> Seq<bool> {
        if has_ref {
            bits_of(reference as nat, self.bits)
        } else {
            Seq::empty()
        }
    }

    /// The bits of one block.
    pub open spec fn block_bits(
        self,
        code: BlockCode,
        has_ref: bool,
        reference: u32,
        block: Seq<u32>,
    ) -> Seq<bool> {
        let s = coded_samples(has_ref, block);
        match code {
            BlockCode::Split { k } => bits_of(k + 1, self.id_len) + self.ref_bits(
                has_ref,
                reference,
            ) + high_codes(s, k) + low_bits(s, k),
            BlockCode::Pairs => bits_of(1, self.id_len + 1) + self.ref_bits(has_ref, reference)
                + pair_codes(block, block.len() / 2),
            BlockCode::Raw => bits_of(top_id(self.id_len), self.id_len) + low_bits(
                if has_ref {
                    block.update(0, reference)
                } else {
                    block
                },
                self.bits,
            ),
        }
    }

    /// The bits of a run of all-zero blocks, given the length of its
    /// fundamental sequence.
    pub open spec fn zero_bits(self, has_ref: bool, reference: u32, fs: nat) -> Seq<bool> {
        bits_of(0, self.id_len + 1) + self.ref_bits(has_ref, reference) + fs_code(fs)
    }

    /// Block `b` of an interval.
    pub open spec fn block_at(self, coded: Seq<u32>, b: int) -> Seq<u32> {
        coded.subrange(b * self.block, (b + 1) * self.block)
    }

    /// One block more: `b` is its number, `blocks` the number of blocks in all.
    pub open spec fn step(
        self,
        st: CoderState,
        coded: Seq<u32>,
        reference: u32,
        b: nat,
        blocks: nat,
    ) -> CoderState {
        let block = self.block_at(coded, b as int);
        let has_ref = self.preprocess && b == 0;
        if all_zero(block) {
            let run = st.zero_run + 1;
            let run_ref = if st.zero_run == 0 {
                has_ref
            } else {
                st.zero_ref
            };
            if b + 1 >= blocks || (b + 1) % 64 == 0 {
                CoderState {
                    bits: st.bits + self.zero_bits(
                        run_ref,
                        reference,
                        if run > 4 {
                            4
                        } else {
                            (run - 1) as nat
                        },
                    ),
                    zero_run: 0,
                    zero_ref: run_ref,
                    prev_k: st.prev_k,
                }
            } else {
                CoderState {
                    bits: st.bits,
                    zero_run: run,
                    zero_ref: run_ref,
                    prev_k: st.prev_k,
                }
            }
        } else {
            let before = self.flushed(st, reference);
            CoderState {
                bits: before + self.block_bits(
                    self.choice(has_ref, block, st.prev_k),
                    has_ref,
                    reference,
                    block,
                ),
                zero_run: 0,
                zero_ref: st.zero_ref,
                prev_k: best_split(coded_samples(has_ref, block), st.prev_k, self.kmax()),
            }
        }
    }

    /// The bits once a pending run of all-zero blocks is coded because another
    /// block follows it.
    pub open spec fn flushed(self, st: CoderState, reference: u32) -> Seq<bool> {
        if st.zero_run > 0 {
            st.bits + self.zero_bits(st.zero_ref, reference, run_fs(st.zero_run))
        } else {
            st.bits
        }
    }

    /// The state after the first `b` blocks of an interval.
    pub open spec fn interval_state(
        self,
        raw: Seq<u32>,
        start: CoderState,
        b: nat,
        blocks: nat,
    ) -> CoderState
        decreases b,
    {
        if b == 0 {
            start
        } else {
            self.step(
                self.interval_state(raw, start, (b - 1) as nat, blocks),
                self.residuals(raw),
                raw[0],
                (b - 1) as nat,
                blocks,
            )
        }
    }

    /// Interval `r` of a sample sequence. The last one is filled up with its
    /// last sample.
    pub open spec fn interval_at(self, samples: Seq<u32>, r: int) -> Seq<u32> {
        let n = self.interval() as int;
        Seq::new(
            n as nat,
            |i: int|
                if r * n + i < samples.len() {
                    samples[r * n + i]
                } else {
                    samples[samples.len() - 1]
                },
        )
    }

    /// Number of blocks of interval `r` that hold samples.
    pub open spec fn blocks_at(self, samples: Seq<u32>, r: int) -> nat {
        let left = samples.len() - r * self.interval();
        if left >= self.interval() {
            self.rsi
        } else {
            ((left + self.block - 1) / self.block as int) as nat
        }
    }

    /// Number of intervals that hold samples.
    pub open spec fn intervals(self, samples: Seq<u32>) -> nat {
        ((samples.len() + self.interval() - 1) / self.interval() as int) as nat
    }

    /// Bits and split position after the first `r` intervals.
    pub open spec fn coded(self, samples: Seq<u32>, r: nat) -> (Seq<bool>, nat)
        decreases r,
    {
        if r == 0 {
            (Seq::empty(), 0)
        } else {
            let (bits, prev_k) = self.coded(samples, (r - 1) as nat);
            let blocks = self.blocks_at(samples, r - 1);
            let st = self.interval_state(
                self.interval_at(samples, r - 1),
                (CoderState { bits, zero_run: 0, zero_ref: false, prev_k }),
                blocks,
                blocks,
            );
            (st.bits, st.prev_k)
        }
    }

    /// The bits of a sample sequence.
    pub open spec fn encoded(self, samples: Seq<u32>) -> Seq<bool> {
        self.coded(samples, self.intervals(samples)).0
    }

    /// Decode one block from position `p` of the stream `s` behind the
    /// samples `buf` of its interval. Returns the samples and the next
    /// position, or `None` for a pair whose number is out of range.
    pub open spec fn decode_block(self, s: Seq<bool>, p: int, buf: Seq<u32>) -> Option<
        (Seq<u32>, int),
    > {
        let has_ref = self.preprocess && buf.len() == 0;
        let id = read_bits(s, p, self.id_len);
        let p1 = advance(s, p, self.id_len);
        if id == top_id(self.id_len) {
            let (lows, q) = decode_lows(s, p1, self.block, self.bits);
            Some((buf + lows, q))
        } else {
            let low_entropy = id == 0;
            let pairs = read_bits(s, p1, 1) == 1;
            let p2 = if low_entropy {
                advance(s, p1, 1)
            } else {
                p1
            };
            let buf2 = if has_ref {
                buf.push(read_bits(s, p2, self.bits) as u32)
            } else {
                buf
            };
            let p3 = if has_ref {
                advance(s, p2, self.bits)
            } else {
                p2
            };
            if !low_entropy {
                let n = (if has_ref {
                    self.block - 1
                } else {
                    self.block as int
                }) as nat;
                let k = (id - 1) as nat;
                let (highs, q) = decode_highs(s, p3, n);
                let (lows, t) = decode_lows(s, q, n, k);
                Some((buf2 + Seq::new(n, |i: int| join_parts(highs[i], lows[i], k)), t))
            } else if pairs {
                match decode_pairs(s, p3, self.block / 2) {
                    Some((v, q)) => Some(
                        (
                            buf2 + (if has_ref {
                                v.drop_first()
                            } else {
                                v
                            }),
                            q,
                        ),
                    ),
                    None => None,
                }
            } else {
                let zeros = self.zero_samples(fs_length(s, p3), has_ref, buf2.len());
                Some((buf2 + Seq::new(zeros, |i: int| 0u32), fs_end(s, p3)))
            }
        }
    }

    /// Number of zero samples that a fundamental sequence of length `fs` asks
    /// for when `have` samples of the interval are known.
    pub open spec fn zero_samples(self, fs: nat, has_ref: bool, have: nat) -> nat {
        let b = have / self.block;
        let run: int = if fs == 4 {
            if self.rsi - b <= 64 - b % 64 {
                self.rsi - b
            } else {
                64 - b % 64
            }
        } else if fs > 4 {
            fs as int
        } else {
            fs as int + 1
        };
        let wanted = run * self.block - (if has_ref {
            1int
        } else {
            0int
        });
        let room = self.interval() - have;
        (if wanted <= room {
            wanted
        } else {
            room
        }) as nat
    }

    /// Decode the rest of an interval.
    pub open spec fn decode_interval(self, s: Seq<bool>, p: int, buf: Seq<u32>) -> Option<
        (Seq<u32>, int),
    >
        decreases self.interval() - buf.len(),
        when self.decodable() && self.aligned(buf.len())
    {
        if buf.len() >= self.interval() {
            Some((buf, p))
        } else {
            proof {
                lemma_decode_block_len(self, s, p, buf);
            }
            match self.decode_block(s, p, buf) {
                None => None,
                Some((buf2, q)) => self.decode_interval(s, q, buf2),
            }
        }
    }

    /// Whether `n` samples are whole blocks of an interval.
    pub open spec fn aligned(self, n: nat) -> bool {
        &&& n <= self.interval()
        &&& n % self.block == 0
    }

    /// Decode `need` samples, behind those in `out`.
    pub open spec fn decode(self, s: Seq<bool>, p: int, out: Seq<u32>, need: nat) -> Option<Seq<u32>>
        decreases
                if out.len() >= need {
                    0
                } else {
                    need - out.len()
                },
        when self.decodable()
    {
        if out.len() >= need {
            Some(out.take(need as int))
        } else {
            proof {
                assert(self.interval() > 0) by (nonlinear_arith)
                    requires
                        self.decodable(),
                        self.interval() == self.rsi * self.block,
                ;
                lemma_small_mod_zero(self.block);
                lemma_decode_interval_len(self, s, p, Seq::empty());
                match self.decode_interval(s, p, Seq::empty()) {
                    None => {},
                    Some((buf, q)) => {
                        assert(self.restored(buf).len() == self.interval());
                    },
                }
            }
            match self.decode_interval(s, p, Seq::empty()) {
                None => None,
                Some((buf, q)) => self.decode(s, q, out + self.restored(buf), need),
            }
        }
    }
}

/// The samples of a block that are coded next to its reference sample.
pub open spec fn coded_samples(has_ref: bool, block: Seq<u32>) -> Seq<u32> {
    if has_ref {
        block.subrange(1, block.len() as int)
    } else {
        block
    }
}

/// Whether every sample is zero.
pub open spec fn all_zero(block: Seq<u32>) -> bool {
    forall|i: int| 0 <= i < block.len() ==> block[i] == 0
}

/// Fundamental sequence length of a run that ends before another block.
pub open spec fn run_fs(run: nat) -> nat {
    if run >= 5 {
        run
    } else {
        (run - 1) as nat
    }
}

/// Fundamental sequences of the high parts of `s`.
pub open spec fn high_codes(s: Seq<u32>, k: nat) -> Seq<bool>
    decreases s.len(),
{
    if s.len() == 0 {
        Seq::empty()
    } else {
        high_codes(s.drop_last(), k) + fs_code(high_part(s.last(), k))
    }
}

/// The low `k` bits of each sample of `s`.
pub open spec fn low_bits(s: Seq<u32>, k: nat) -> Seq<bool>
    decreases s.len(),
{
    if s.len() == 0 {
        Seq::empty()
    } else {
        low_bits(s.drop_last(), k) + bits_of(s.last() as nat, k)
    }
}

/// Fundamental sequences of the first `n` pairs of `block`.
pub open spec fn pair_codes(block: Seq<u32>, n: nat) -> Seq<bool>
    decreases n,
{
    if n == 0 {
        Seq::empty()
    } else {
        pair_codes(block, (n - 1) as nat) + fs_code(
            pair_code(block[2 * n - 2], block[2 * n - 1]),
        )
    }
}

/// The lengths of `n` fundamental sequences from `p`, and the position behind.
pub open spec fn decode_highs(s: Seq<bool>, p: int, n: nat) -> (Seq<nat>, int)
    decreases n,
{
    if n == 0 {
        (Seq::empty(), p)
    } else {
        let (v, q) = decode_highs(s, p, (n - 1) as nat);
        (v.push(fs_length(s, q)), fs_end(s, q))
    }
}

/// `n` numbers of `k` bits from `p`, and the position behind.
pub open spec fn decode_lows(s: Seq<bool>, p: int, n: nat, k: nat) -> (Seq<u32>, int)
    decreases n,
{
    if n == 0 {
        (Seq::empty(), p)
    } else {
        let (v, q) = decode_lows(s, p, (n - 1) as nat, k);
        (v.push(read_bits(s, q, k) as u32), advance(s, q, k))
    }
}

/// A sample from its high part and its low `k` bits, modulo `2^32`.
pub open spec fn join_parts(high: nat, low: u32, k: nat) -> u32 {
    (((high as u32) << (k as u32)) + low) as u32
}

/// The `n`-th triangular number.
pub open spec fn triangle(n: nat) -> nat {
    n * (n + 1) / 2
}

/// Whether pair number `m` stands for two samples of total `t`.
pub open spec fn has_total(m: nat, t: nat) -> bool {
    triangle(t) <= m < triangle(t + 1)
}

/// The total of the two samples that pair number `m` stands for.
pub open spec fn pair_total(m: nat) -> nat {
    choose|t: nat| has_total(m, t)
}

/// The first sample that pair number `m` stands for.
pub open spec fn pair_first(m: nat) -> u32 {
    (pair_total(m) - (m - triangle(pair_total(m)))) as u32
}

/// The second sample that pair number `m` stands for.
pub open spec fn pair_second(m: nat) -> u32 {
    (m - triangle(pair_total(m))) as u32
}

/// The largest pair number a decoder knows.
pub const SE_TABLE_SIZE: u64 = 90;

/// The samples of `n` pairs from `p`, and the position behind. `None` for a
/// pair number above the table.
pub open spec fn decode_pairs(s: Seq<bool>, p: int, n: nat) -> Option<(Seq<u32>, int)>
    decreases n,
{
    if n == 0 {
        Some((Seq::empty(), p))
    } else {
        match decode_pairs(s, p, (n - 1) as nat) {
            None => None,
            Some((v, q)) => {
                let m = fs_length(s, q);
                if m > SE_TABLE_SIZE {
                    None
                } else {
                    Some((v.push(pair_first(m)).push(pair_second(m)), fs_end(s, q)))
                }
            },
        }
    }
}

pub proof fn lemma_decode_highs_len(s: Seq<bool>, p: int, n: nat)
    ensures
        decode_highs(s, p, n).0.len() == n,
    decreases n,
{
    if n > 0 {
        lemma_decode_highs_len(s, p, (n - 1) as nat);
    }
}

pub proof fn lemma_decode_lows_len(s: Seq<bool>, p: int, n: nat, k: nat)
    ensures
        decode_lows(s, p, n, k).0.len() == n,
    decreases n,
{
    if n > 0 {
        lemma_decode_lows_len(s, p, (n - 1) as nat, k);
    }
}

pub proof fn lemma_decode_pairs_len(s: Seq<bool>, p: int, n: nat)
    ensures
        decode_pairs(s, p, n) matches Some((v, q)) ==> v.len() == 2 * n,
    decreases n,
{
    if n > 0 {
        lemma_decode_pairs_len(s, p, (n - 1) as nat);
    }
}

pub proof fn lemma_small_mod_zero(d: nat)
    requires
        d > 0,
    ensures
        0nat % d == 0,
{
    assert(0nat % d == 0) by (nonlinear_arith)
        requires
            d > 0,
    ;
}

/// Whole blocks and another whole number of blocks are whole blocks.
pub proof fn lemma_blocks_add(n: nat, j: nat, d: nat)
    requires
        d > 0,
        n % d == 0,
    ensures
        (n + j * d) % d == 0,
        (n + j * d) / d == n / d + j,
{
    vstd::arithmetic::div_mod::lemma_mod_multiples_vanish(j as int, n as int, d as int);
    vstd::arithmetic::div_mod::lemma_hoist_over_denominator(n as int, j as int, d);
    assert(d * j == j * d) by (nonlinear_arith);
}

/// A decoded block adds whole blocks to the interval, at least one.
pub proof fn lemma_decode_block_len(c: CodeParams, s: Seq<bool>, p: int, buf: Seq<u32>)
    requires
        c.decodable(),
        c.aligned(buf.len()),
        buf.len() < c.interval(),
    ensures
        c.decode_block(s, p, buf) matches Some((buf2, q)) ==> {
            &&& c.aligned(buf2.len())
            &&& buf2.len() > buf.len()
        },
{
    let d = c.block;
    let n = buf.len();
    // The interval has room for a whole block.
    let have = n / d;
    assert(n == have * d) by {
        vstd::arithmetic::div_mod::lemma_fundamental_div_mod(n as int, d as int);
        assert(d * have == have * d) by (nonlinear_arith);
    }
    assert(have < c.rsi) by (nonlinear_arith)
        requires
            have * d < c.rsi * d,
            d > 0,
    ;
    assert((have + 1) * d <= c.rsi * d) by (nonlinear_arith)
        requires
            have + 1 <= c.rsi,
    ;
    assert((have + 1) * d == n + d) by (nonlinear_arith)
        requires
            n == have * d,
    ;
    lemma_blocks_add(n, 1, d);
    let id = read_bits(s, p, c.id_len);
    let p1 = advance(s, p, c.id_len);
    let has_ref = c.preprocess && n == 0;
    let p2 = if id == 0 {
        advance(s, p1, 1)
    } else {
        p1
    };
    let p3 = if has_ref {
        advance(s, p2, c.bits)
    } else {
        p2
    };
    lemma_decode_lows_len(s, p1, d, c.bits);
    lemma_decode_pairs_len(s, p3, d / 2);
    if id == 0 && read_bits(s, p1, 1) != 1 {
        let have2 = if has_ref {
            1nat
        } else {
            n
        };
        let fs = fs_length(s, p3);
        assert(have2 / d == have) by {
            if has_ref {
                assert(1nat / d == 0) by (nonlinear_arith)
                    requires
                        d >= 2,
                ;
                assert(0nat / d == 0) by (nonlinear_arith)
                    requires
                        d >= 2,
                ;
            }
        }
        let b = have;
        let run: int = if fs == 4 {
            if c.rsi - b <= 64 - b % 64 {
                c.rsi - b
            } else {
                64 - b % 64
            }
        } else if fs > 4 {
            fs as int
        } else {
            fs as int + 1
        };
        assert(run >= 1);
        let skip = if has_ref {
            1int
        } else {
            0int
        };
        assert(run * d >= d) by (nonlinear_arith)
            requires
                run >= 1,
                d > 0,
        ;
        if run * d - skip <= c.interval() - have2 {
            assert(have2 + c.zero_samples(fs, has_ref, have2) == n + run * d);
            lemma_blocks_add(n, run as nat, d);
        } else {
            assert(have2 + c.zero_samples(fs, has_ref, have2) == c.interval());
            lemma_small_mod_zero(d);
            lemma_blocks_add(0, c.rsi, d);
        }
    }
}

/// A decoded interval is complete.
pub proof fn lemma_decode_interval_len(c: CodeParams, s: Seq<bool>, p: int, buf: Seq<u32>)
    requires
        c.decodable(),
        c.aligned(buf.len()),
    ensures
        c.decode_interval(s, p, buf) matches Some((buf2, q)) ==> buf2.len() == c.interval(),
    decreases c.interval() - buf.len(),
{
    if buf.len() < c.interval() {
        lemma_decode_block_len(c, s, p, buf);
        match c.decode_block(s, p, buf) {
            None => {},
            Some((buf2, q)) => {
                lemma_decode_interval_len(c, s, q, buf2);
            },
        }
    }
}

} // verus!
