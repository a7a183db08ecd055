//! Option masks, flags and what follows from a sample width.

use crate::format::szip::coding::{top_id, CodeParams};
use crate::format::szip::predictor::is_mask;
use vstd::arithmetic::power2::{lemma2_to64, lemma_pow2_strictly_increases, lemma_pow2_unfold, pow2};
use vstd::bits::lemma_u64_shl_is_mul;
use vstd::prelude::*;

verus! {

/// Samples are stored most significant byte first.
pub const SZ_MSB_OPTION_MASK: u32 = 16;

/// Residuals of the nearest neighbour are coded.
pub const SZ_NN_OPTION_MASK: u32 = 32;

pub const AEC_DATA_SIGNED: u32 = 1;

pub const AEC_DATA_MSB: u32 = 4;

pub const AEC_DATA_PREPROCESS: u32 = 8;

pub const AEC_RESTRICTED: u32 = 16;

pub const AEC_NOT_ENFORCE: u32 = 64;

/// Whether all bits of `mask` are clear in `flags`, negated.
pub open spec fn has_flag(flags: u32, mask: u32) -> bool {
    flags & mask != 0
}

/// The flags that option mask `sz_opts` stands for.
pub open spec fn option_flags(sz_opts: u32) -> u32 {
    if has_flag(sz_opts, SZ_MSB_OPTION_MASK) {
        if has_flag(sz_opts, SZ_NN_OPTION_MASK) {
            12
        } else {
            4
        }
    } else if has_flag(sz_opts, SZ_NN_OPTION_MASK) {
        8
    } else {
        0
    }
}

proof fn lemma_flag_values(f: u32)
    by (bit_vector)
    requires
        f == 0 || f == 4 || f == 8 || f == 12,
    ensures
        f & 1 == 0,
        f & 16 == 0,
        (f & 4 != 0) == (f == 4 || f == 12),
        (f & 8 != 0) == (f == 8 || f == 12),
        (64 | f) & 1 == 0,
        (64 | f) & 16 == 0,
        ((64 | f) & 4 != 0) == (f == 4 || f == 12),
        ((64 | f) & 8 != 0) == (f == 8 || f == 12),
        0u32 | 4u32 == 4u32,
        0u32 | 8u32 == 8u32,
        4u32 | 8u32 == 12u32,
{
}

/// What the flags of an option mask say.
pub proof fn lemma_option_flags(sz_opts: u32)
    ensures
        !has_flag(option_flags(sz_opts), AEC_DATA_SIGNED),
        !has_flag(option_flags(sz_opts), AEC_RESTRICTED),
        has_flag(option_flags(sz_opts), AEC_DATA_MSB) == has_flag(sz_opts, SZ_MSB_OPTION_MASK),
        has_flag(option_flags(sz_opts), AEC_DATA_PREPROCESS) == has_flag(
            sz_opts,
            SZ_NN_OPTION_MASK,
        ),
        !has_flag(AEC_NOT_ENFORCE | option_flags(sz_opts), AEC_DATA_SIGNED),
        !has_flag(AEC_NOT_ENFORCE | option_flags(sz_opts), AEC_RESTRICTED),
        has_flag(AEC_NOT_ENFORCE | option_flags(sz_opts), AEC_DATA_MSB) == has_flag(
            sz_opts,
            SZ_MSB_OPTION_MASK,
        ),
        has_flag(AEC_NOT_ENFORCE | option_flags(sz_opts), AEC_DATA_PREPROCESS) == has_flag(
            sz_opts,
            SZ_NN_OPTION_MASK,
        ),
{
    lemma_flag_values(option_flags(sz_opts));
}

/// Convert an SZIP option mask to flags.
pub fn convert_options(sz_opts: u32) -> (flags: u32)
    ensures
        flags == option_flags(sz_opts),
{
    let mut flags: u32 = 0;
    proof {
        lemma_flag_values(0);
    }
    if sz_opts & SZ_MSB_OPTION_MASK != 0 {
        flags = flags | AEC_DATA_MSB;
    }
    if sz_opts & SZ_NN_OPTION_MASK != 0 {
        flags = flags | AEC_DATA_PREPROCESS;
    }
    flags
}

/// Bytes that hold one sample of `bits` bits.
pub open spec fn sample_bytes(bits: int) -> nat {
    if bits > 16 {
        4
    } else if bits > 8 {
        2
    } else {
        1
    }
}

/// Bytes that hold one sample of `bits` bits.
pub fn bits_to_bytes(bits: u32) -> (n: u32)
    ensures
        n == sample_bytes(bits as int),
{
    if bits > 16 {
        4
    } else if bits > 8 {
        2
    } else {
        1
    }
}

/// Length of a block identifier, where there is one for the sample width.
pub open spec fn identifier_len(bits_per_sample: u32, flags: u32) -> Option<u32> {
    if bits_per_sample > 16 {
        Some(5)
    } else if bits_per_sample > 8 {
        Some(4)
    } else if has_flag(flags, AEC_RESTRICTED) {
        if bits_per_sample <= 2 {
            Some(1)
        } else if bits_per_sample <= 4 {
            Some(2)
        } else {
            None
        }
    } else {
        Some(3)
    }
}

/// Determine the length of a block identifier.
pub fn compute_id_len(bits_per_sample: u32, flags: u32) -> (r: Result<u32, String>)
    ensures
        match identifier_len(bits_per_sample, flags) {
            Some(n) => r == Ok::<u32, String>(n),
            None => r matches Err(e) && e@ == "restricted mode only supports <= 4 bits"@,
        },
{
    if bits_per_sample > 16 {
        Ok(5)
    } else if bits_per_sample > 8 {
        Ok(4)
    } else if flags & AEC_RESTRICTED != 0 {
        if bits_per_sample <= 2 {
            Ok(1)
        } else if bits_per_sample <= 4 {
            Ok(2)
        } else {
            Err("restricted mode only supports <= 4 bits".to_owned())
        }
    } else {
        Ok(3)
    }
}

/// The largest sample of a width.
pub open spec fn max_sample(bits_per_sample: u32, flags: u32) -> u32 {
    if has_flag(flags, AEC_DATA_SIGNED) {
        (pow2((bits_per_sample - 1) as nat) - 1) as u32
    } else {
        (pow2(bits_per_sample as nat) - 1) as u32
    }
}

/// The parameters of a code.
pub open spec fn code_params(bits_per_sample: u32, block_size: u32, rsi: u32, flags: u32) -> CodeParams {
    CodeParams {
        bits: bits_per_sample as nat,
        block: block_size as nat,
        rsi: rsi as nat,
        id_len: identifier_len(bits_per_sample, flags)->0 as nat,
        xmax: max_sample(bits_per_sample, flags),
        preprocess: has_flag(flags, AEC_DATA_PREPROCESS),
        signed: has_flag(flags, AEC_DATA_SIGNED),
    }
}

proof fn lemma_low_ones(b: u64)
    by (bit_vector)
    requires
        b <= 32,
    ensures
        (((1u64 << b) - 1) as u32) & ((((1u64 << b) - 1) as u32) >> 1u32) == (((1u64 << b)
            - 1) as u32) >> 1u32,
        1 <= 1u64 << b <= 0x1_0000_0000,
{
}

/// What the largest sample of a width is like.
pub proof fn lemma_max_sample(bits_per_sample: u32, flags: u32)
    requires
        1 <= bits_per_sample <= 32,
    ensures
        is_mask(max_sample(bits_per_sample, flags)),
        has_flag(flags, AEC_DATA_SIGNED) ==> max_sample(bits_per_sample, flags) < 0x8000_0000,
        has_flag(flags, AEC_DATA_SIGNED) ==> 2 * max_sample(bits_per_sample, flags) + 2 == pow2(
            bits_per_sample as nat,
        ),
        !has_flag(flags, AEC_DATA_SIGNED) ==> max_sample(bits_per_sample, flags) + 1 == pow2(
            bits_per_sample as nat,
        ),
        !has_flag(flags, AEC_DATA_SIGNED) ==> max_sample(bits_per_sample, flags) > 0,
{
    let e: u32 = if has_flag(flags, AEC_DATA_SIGNED) {
        (bits_per_sample - 1) as u32
    } else {
        bits_per_sample
    };
    lemma2_to64();
    if e < 32 {
        lemma_pow2_strictly_increases(e as nat, 32);
    }
    if e > 0 {
        lemma_pow2_strictly_increases(0, e as nat);
    }
    if e > 1 {
        lemma_pow2_strictly_increases(1, e as nat);
    }
    lemma_u64_shl_is_mul(1, e as u64);
    lemma_low_ones(e as u64);
    lemma_pow2_unfold(bits_per_sample as nat);
    if e == 31 {
    } else if e < 31 {
        lemma_pow2_strictly_increases(e as nat, 31);
    }
}

/// Compute the largest sample of a width.
pub fn sample_limit(bits_per_sample: u32, flags: u32) -> (xmax: u32)
    requires
        1 <= bits_per_sample <= 32,
    ensures
        xmax == max_sample(bits_per_sample, flags),
{
    let e: u32 = if flags & AEC_DATA_SIGNED != 0 {
        bits_per_sample - 1
    } else {
        bits_per_sample
    };
    proof {
        lemma2_to64();
        if e < 32 {
            lemma_pow2_strictly_increases(e as nat, 32);
        }
        lemma_u64_shl_is_mul(1, e as u64);
        lemma_low_ones(e as u64);
    }
    ((1u64 << (e as u64)) - 1) as u32
}

proof fn lemma_id_values()
    by (bit_vector)
    ensures
        1u32 << 1u32 == 2u32,
        1u32 << 2u32 == 4u32,
        1u32 << 3u32 == 8u32,
        1u32 << 4u32 == 16u32,
        1u32 << 5u32 == 32u32,
{
}

/// The largest number of an identifier.
pub fn largest_id(id_len: u32) -> (n: u32)
    requires
        1 <= id_len <= 5,
    ensures
        n == top_id(id_len as nat),
{
    proof {
        lemma_id_values();
    }
    (1u32 << id_len) - 1
}

} // verus!
