//! Samples as bytes.

use crate::format::bytes::{
    be_bytes, be_value, le_bytes, le_value, lemma_be_bytes_len, lemma_be_bytes_of_value,
    lemma_be_value_bound, lemma_le_bytes_len, lemma_le_bytes_of_value, lemma_le_value_bound,
    lemma_pow256_grows, lemma_pow256_values, push_be, push_le, read_be_at, read_le_at,
};
use vstd::arithmetic::power2::{lemma2_to64, lemma_pow2_pos, lemma_pow2_strictly_increases, pow2};
use vstd::bits::lemma_u64_shl_is_mul;
use vstd::prelude::*;

verus! {

/// The number in the bytes of one sample.
pub open spec fn sample_value(bytes: Seq<u8>, msb: bool) -> nat {
    if msb {
        be_value(bytes)
    } else {
        le_value(bytes)
    }
}

/// The bytes of sample `i`.
pub open spec fn sample_slice(data: Seq<u8>, width: nat, i: int) -> Seq<u8> {
    data.subrange(i * width, (i + 1) * width)
}

/// The samples in `data`, cut to their low `bits` bits.
pub open spec fn samples_of(data: Seq<u8>, width: nat, msb: bool, bits: nat) -> Seq<u32> {
    Seq::new(
        data.len() / width,
        |i: int| (sample_value(sample_slice(data, width, i), msb) % pow2(bits)) as u32,
    )
}

/// The bytes of one sample.
pub open spec fn bytes_of_sample(s: u32, width: nat, msb: bool) -> Seq<u8> {
    if msb {
        be_bytes(s as nat, width)
    } else {
        le_bytes(s as nat, width)
    }
}

/// The bytes of a sample sequence.
pub open spec fn bytes_of_samples(samples: Seq<u32>, width: nat, msb: bool) -> Seq<u8>
    decreases samples.len(),
{
    if samples.len() == 0 {
        Seq::empty()
    } else {
        bytes_of_samples(samples.drop_last(), width, msb) + bytes_of_sample(
            samples.last(),
            width,
            msb,
        )
    }
}

/// The first `n` elements, or all where there are fewer.
pub open spec fn at_most<T>(s: Seq<T>, n: nat) -> Seq<T> {
    if s.len() <= n {
        s
    } else {
        s.take(n as int)
    }
}

pub proof fn lemma_bytes_of_sample_len(s: u32, width: nat, msb: bool)
    ensures
        bytes_of_sample(s, width, msb).len() == width,
{
    lemma_be_bytes_len(s as nat, width);
    lemma_le_bytes_len(s as nat, width);
}

pub proof fn lemma_bytes_of_samples_len(samples: Seq<u32>, width: nat, msb: bool)
    ensures
        bytes_of_samples(samples, width, msb).len() == samples.len() * width,
    decreases samples.len(),
{
    if samples.len() > 0 {
        let n = samples.len();
        lemma_bytes_of_samples_len(samples.drop_last(), width, msb);
        lemma_bytes_of_sample_len(samples.last(), width, msb);
        assert(n * width == (n - 1) * width + width) by (nonlinear_arith);
    }
}

/// Whether every sample of `data` fits in `bits` bits.
pub open spec fn samples_fit(data: Seq<u8>, width: nat, msb: bool, bits: nat) -> bool {
    forall|i: int|
        0 <= i < data.len() / width ==> sample_value(#[trigger] sample_slice(data, width, i), msb)
            < pow2(bits)
}

proof fn lemma_value_bytes(bytes: Seq<u8>, msb: bool)
    requires
        bytes.len() <= 4,
    ensures
        sample_value(bytes, msb) <= u32::MAX,
        bytes_of_sample(sample_value(bytes, msb) as u32, bytes.len(), msb) == bytes,
{
    lemma_be_bytes_of_value(bytes);
    lemma_le_bytes_of_value(bytes);
    lemma_be_value_bound(bytes);
    lemma_le_value_bound(bytes);
    lemma_pow256_grows(bytes.len(), 4);
    lemma_pow256_values();
}

/// Samples that fit are written back as they were read.
pub proof fn lemma_samples_roundtrip(data: Seq<u8>, width: nat, msb: bool, bits: nat)
    requires
        1 <= width <= 4,
        data.len() % width == 0,
        samples_fit(data, width, msb, bits),
    ensures
        bytes_of_samples(samples_of(data, width, msb, bits), width, msb) == data,
{
    let n = data.len() / width;
    let samples = samples_of(data, width, msb, bits);
    lemma_samples_prefix(data, width, msb, bits, n);
    assert(samples.take(n as int) =~= samples);
    assert(n * width == data.len()) by {
        vstd::arithmetic::div_mod::lemma_fundamental_div_mod(data.len() as int, width as int);
        assert(width * n == n * width) by (nonlinear_arith);
    }
    assert(data.subrange(0, (n * width) as int) =~= data);
}

proof fn lemma_samples_prefix(data: Seq<u8>, width: nat, msb: bool, bits: nat, j: nat)
    requires
        1 <= width <= 4,
        j <= data.len() / width,
        samples_fit(data, width, msb, bits),
    ensures
        j * width <= data.len(),
        bytes_of_samples(samples_of(data, width, msb, bits).take(j as int), width, msb)
            == data.subrange(0, (j * width) as int),
    decreases j,
{
    let samples = samples_of(data, width, msb, bits);
    let n = data.len() / width;
    assert(j * width <= data.len()) by (nonlinear_arith)
        requires
            j <= n,
            n == data.len() / width,
            width > 0,
    ;
    if j == 0 {
        assert(samples.take(0) =~= Seq::<u32>::empty());
        assert(data.subrange(0, (0 * width) as int) =~= Seq::<u8>::empty());
    } else {
        let i = (j - 1) as nat;
        lemma_samples_prefix(data, width, msb, bits, i);
        let t = samples.take(j as int);
        assert(t.drop_last() =~= samples.take(i as int));
        assert(t.last() == samples[i as int]);
        assert((i + 1) * width == i * width + width) by (nonlinear_arith);
        let bytes = sample_slice(data, width, i as int);
        assert(bytes.len() == width);
        lemma_value_bytes(bytes, msb);
        lemma_pow2_pos(bits);
        vstd::arithmetic::div_mod::lemma_small_mod(sample_value(bytes, msb), pow2(bits));
        assert(samples[i as int] == sample_value(bytes, msb));
        assert(bytes_of_samples(t, width, msb) =~= data.subrange(0, (j * width) as int));
    }
}

/// Every sample is below `2^bits`.
pub proof fn lemma_samples_bound(data: Seq<u8>, width: nat, msb: bool, bits: nat, i: int)
    requires
        1 <= bits <= 32,
        0 <= i < data.len() / width,
    ensures
        samples_of(data, width, msb, bits)[i] < pow2(bits),
        samples_of(data, width, msb, bits)[i] == sample_value(sample_slice(data, width, i), msb)
            % pow2(bits),
{
    lemma2_to64();
    lemma_pow2_pos(bits);
    if bits < 32 {
        lemma_pow2_strictly_increases(bits, 32);
    }
    vstd::arithmetic::div_mod::lemma_mod_bound(
        sample_value(sample_slice(data, width, i), msb) as int,
        pow2(bits) as int,
    );
}

/// Read the samples in `data`.
pub fn read_samples(data: &[u8], width: usize, msb: bool, bits: u32) -> (samples: Vec<u32>)
    requires
        1 <= width <= 4,
        1 <= bits <= 32,
    ensures
        samples@ == samples_of(data@, width as nat, msb, bits as nat),
{
    let n: usize = data.len() / width;
    let modulus: u64 = 1u64 << (bits as u64);
    proof {
        lemma2_to64();
        if bits < 32 {
            lemma_pow2_strictly_increases(bits as nat, 32);
        }
        lemma_u64_shl_is_mul(1, bits as u64);
        lemma_pow2_pos(bits as nat);
    }
    let mut samples: Vec<u32> = Vec::with_capacity(n);
    let mut i: usize = 0;
    while i < n
        invariant
            1 <= width <= 4,
            1 <= bits <= 32,
            modulus == pow2(bits as nat),
            0 < modulus <= 0x1_0000_0000,
            n == data.len() / width,
            i <= n,
            samples@.len() == i,
            forall|j: int|
                0 <= j < i ==> samples@[j] == samples_of(data@, width as nat, msb, bits as nat)[j],
        decreases n - i,
    {
        proof {
            assert((i + 1) * width <= n * width) by (nonlinear_arith)
                requires
                    i + 1 <= n,
            ;
            assert(n * width <= data.len()) by (nonlinear_arith)
                requires
                    n == data.len() / width,
                    width > 0,
            ;
            assert((i + 1) * width == i * width + width) by (nonlinear_arith);
            lemma_samples_bound(data@, width as nat, msb, bits as nat, i as int);
        }
        let s: u64 = if msb {
            read_be_at(data, i * width, width)
        } else {
            read_le_at(data, i * width, width)
        };
        samples.push((s % modulus) as u32);
        i = i + 1;
    }
    assert(samples@ =~= samples_of(data@, width as nat, msb, bits as nat));
    samples
}

/// Write samples as at most `output_size` bytes.
pub fn write_samples(samples: &[u32], width: usize, msb: bool, output_size: usize) -> (out: Vec<u8>)
    requires
        1 <= width <= 4,
    ensures
        out@ == at_most(bytes_of_samples(samples@, width as nat, msb), output_size as nat),
{
    let mut out: Vec<u8> = Vec::with_capacity(output_size);
    let mut i: usize = 0;
    proof {
        assert(samples@.take(0) =~= Seq::<u32>::empty());
    }
    while i < samples.len() && out.len() < output_size
        invariant
            1 <= width <= 4,
            i <= samples.len(),
            out@ == bytes_of_samples(samples@.take(i as int), width as nat, msb),
        decreases samples.len() - i,
    {
        if msb {
            push_be(&mut out, samples[i] as u64, width);
        } else {
            push_le(&mut out, samples[i] as u64, width);
        }
        proof {
            let t = samples@.take(i + 1);
            assert(t.drop_last() =~= samples@.take(i as int));
            assert(t.last() == samples@[i as int]);
        }
        i = i + 1;
    }
    let ghost all = bytes_of_samples(samples@, width as nat, msb);
    proof {
        lemma_bytes_prefix(samples@, width as nat, msb, i as nat);
        lemma_bytes_of_samples_len(samples@, width as nat, msb);
        lemma_bytes_of_samples_len(samples@.take(i as int), width as nat, msb);
        if i == samples.len() {
            assert(samples@.take(i as int) =~= samples@);
        }
    }
    out.truncate(output_size);
    assert(out@ =~= at_most(all, output_size as nat));
    out
}

proof fn lemma_bytes_prefix(samples: Seq<u32>, width: nat, msb: bool, i: nat)
    requires
        i <= samples.len(),
    ensures
        bytes_of_samples(samples.take(i as int), width, msb).len() <= bytes_of_samples(
            samples,
            width,
            msb,
        ).len(),
        bytes_of_samples(samples.take(i as int), width, msb) == bytes_of_samples(
            samples,
            width,
            msb,
        ).take(bytes_of_samples(samples.take(i as int), width, msb).len() as int),
    decreases samples.len() - i,
{
    let part = bytes_of_samples(samples.take(i as int), width, msb);
    if i == samples.len() {
        assert(samples.take(i as int) =~= samples);
        assert(part.take(part.len() as int) =~= part);
    } else {
        lemma_bytes_prefix(samples, width, msb, i + 1);
        let t = samples.take(i as int + 1);
        assert(t.drop_last() =~= samples.take(i as int));
        let all = bytes_of_samples(samples, width, msb);
        assert(part =~= all.take(part.len() as int));
    }
}

} // verus!
