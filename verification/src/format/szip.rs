//! SZIP (adaptive entropy coding) compression.
//!
//! Pixels are coded as samples in blocks; see [`coding`] for the code. Pixels
//! of 32 and 64 bits are coded byte by byte, with their bytes regrouped.
//! Scanlines are padded to whole blocks before they are coded.

use crate::format::bitstream::{
    lemma_packed_stream, packed, stream_of,
};
use crate::format::szip::coding::{coded_samples, CodeParams};
use crate::format::szip::decoder::Decoder;
use crate::format::szip::encoder::Encoder;
use crate::format::szip::layout::{
    add_padding, deinterleave_buffer, deinterleaved, interleave_buffer, interleaved,
    lemma_interleave_roundtrip, lemma_padding_roundtrip, line_count, line_end, padded_byte,
    padded_lines, remove_padding, unpadded_lines,
};
use crate::format::szip::options::{
    best_split, high_sum, lemma_best_split, pair_bits, pair_code, pair_cost, split_cost,
};
use crate::format::szip::params::{
    bits_to_bytes, code_params, convert_options, has_flag, lemma_max_sample, lemma_option_flags,
    option_flags, sample_bytes, AEC_DATA_PREPROCESS, AEC_NOT_ENFORCE, SZ_MSB_OPTION_MASK,
    SZ_NN_OPTION_MASK,
};
use crate::format::szip::roundtrip::{
    block_decodable, codes_in_table, holds, interval_decodable, interval_start, lemma_code_roundtrip,
    pairs_in_table,
};
use crate::format::szip::samples::{
    at_most, bytes_of_samples, lemma_bytes_of_samples_len, lemma_samples_bound,
    lemma_samples_roundtrip, samples_fit, samples_of,
};
use crate::text::{append_decimal, decimal};
use vstd::arithmetic::power2::{lemma2_to64, pow2};
use vstd::prelude::*;
use vstd::slice::slice_to_vec;
use vstd::string::StringExecFns;

pub mod coding;
pub mod decoder;
pub mod encoder;
pub mod layout;
pub mod options;
pub mod params;
pub mod predictor;
pub mod roundtrip;
pub mod samples;

verus! {

/// Whether the parameters are ones that SZIP knows.
pub open spec fn szip_valid(bits_per_pixel: u32, pixels_per_block: u32, pixels_per_scanline: u32) -> bool {
    &&& pixels_per_scanline != 0
    &&& pixels_per_block != 0
    &&& pixels_per_block % 2 == 0
    &&& bits_per_pixel != 0
    &&& bits_per_pixel <= 32 || bits_per_pixel == 64
}

/// Whether pixels are coded byte by byte.
pub open spec fn is_interleaved(bits_per_pixel: u32) -> bool {
    bits_per_pixel == 32 || bits_per_pixel == 64
}

/// Bits of one sample.
pub open spec fn sample_bits(bits_per_pixel: u32) -> u32 {
    if is_interleaved(bits_per_pixel) {
        8
    } else {
        bits_per_pixel
    }
}

/// Bytes of one pixel.
pub open spec fn pixel_bytes(bits_per_pixel: u32) -> nat {
    ((bits_per_pixel + 7) / 8) as nat
}

/// Bytes of one sample.
pub open spec fn sample_width(bits_per_pixel: u32) -> nat {
    sample_bytes(sample_bits(bits_per_pixel) as int)
}

/// Blocks of one scanline.
pub open spec fn scanline_blocks(pixels_per_block: u32, pixels_per_scanline: u32) -> u32 {
    ((pixels_per_scanline + pixels_per_block - 1) / pixels_per_block as int) as u32
}

/// The code for a set of parameters.
pub open spec fn szip_code(
    bits_per_pixel: u32,
    pixels_per_block: u32,
    pixels_per_scanline: u32,
    options_mask: u32,
) -> CodeParams {
    code_params(
        sample_bits(bits_per_pixel),
        pixels_per_block,
        scanline_blocks(pixels_per_block, pixels_per_scanline),
        option_flags(options_mask),
    )
}

/// Samples of one padded scanline.
pub open spec fn padded_samples(pixels_per_block: u32, pixels_per_scanline: u32) -> nat {
    (scanline_blocks(pixels_per_block, pixels_per_scanline) * pixels_per_block) as nat
}

/// Bytes of one scanline.
pub open spec fn scanline_bytes(bits_per_pixel: u32, pixels_per_scanline: u32) -> nat {
    pixels_per_scanline as nat * sample_width(bits_per_pixel)
}

/// Bytes of one padded scanline.
pub open spec fn padded_bytes(bits_per_pixel: u32, pixels_per_block: u32, pixels_per_scanline: u32) -> nat {
    padded_samples(pixels_per_block, pixels_per_scanline) * sample_width(bits_per_pixel)
}

/// The sizes that fit in machine integers: the samples and the bytes of a padded
/// scanline.
pub open spec fn lines_fit(bits_per_pixel: u32, pixels_per_block: u32, pixels_per_scanline: u32) -> bool {
    &&& (pixels_per_scanline + pixels_per_block - 1) / pixels_per_block as int * pixels_per_block
        <= u32::MAX
    &&& padded_bytes(bits_per_pixel, pixels_per_block, pixels_per_scanline) <= usize::MAX
}

/// The sizes that fit in machine integers when data is coded: those of a padded
/// scanline, and the bits of a block.
pub open spec fn szip_fits(bits_per_pixel: u32, pixels_per_block: u32, pixels_per_scanline: u32) -> bool {
    &&& lines_fit(bits_per_pixel, pixels_per_block, pixels_per_scanline)
    &&& pixels_per_block * sample_bits(bits_per_pixel) <= i32::MAX
}

/// The bytes that are coded for `data`, before padding.
pub open spec fn szip_input(data: Seq<u8>, bits_per_pixel: u32) -> Seq<u8> {
    if is_interleaved(bits_per_pixel) {
        interleaved(data, (bits_per_pixel / 8) as nat)
    } else {
        data
    }
}

/// The samples that are coded for `data`.
pub open spec fn szip_samples(
    data: Seq<u8>,
    bits_per_pixel: u32,
    pixels_per_block: u32,
    pixels_per_scanline: u32,
    options_mask: u32,
) -> Seq<u32> {
    samples_of(
        padded_lines(
            szip_input(data, bits_per_pixel),
            scanline_bytes(bits_per_pixel, pixels_per_scanline),
            padded_bytes(bits_per_pixel, pixels_per_block, pixels_per_scanline),
            sample_width(bits_per_pixel),
            has_flag(options_mask, SZ_NN_OPTION_MASK),
        ),
        sample_width(bits_per_pixel),
        has_flag(options_mask, SZ_MSB_OPTION_MASK),
        sample_bits(bits_per_pixel) as nat,
    )
}

/// The compressed form of `data`.
pub open spec fn szip_compressed(
    data: Seq<u8>,
    bits_per_pixel: u32,
    pixels_per_block: u32,
    pixels_per_scanline: u32,
    options_mask: u32,
) -> Seq<u8> {
    packed(
        szip_code(bits_per_pixel, pixels_per_block, pixels_per_scanline, options_mask).encoded(
            szip_samples(
                data,
                bits_per_pixel,
                pixels_per_block,
                pixels_per_scanline,
                options_mask,
            ),
        ),
    )
}

/// Whether scanlines are not whole blocks.
pub open spec fn pads_scanlines(pixels_per_block: u32, pixels_per_scanline: u32) -> bool {
    pixels_per_scanline % pixels_per_block != 0
}

/// Bytes that have to be decoded for `output_size` bytes.
pub open spec fn decoded_size(
    output_size: nat,
    bits_per_pixel: u32,
    pixels_per_block: u32,
    pixels_per_scanline: u32,
) -> nat {
    if pads_scanlines(pixels_per_block, pixels_per_scanline) {
        line_count(output_size / sample_width(bits_per_pixel), pixels_per_scanline as nat)
            * padded_bytes(bits_per_pixel, pixels_per_block, pixels_per_scanline)
    } else {
        output_size
    }
}

/// The bytes that decoded samples stand for.
pub open spec fn szip_output(
    samples: Seq<u32>,
    output_size: nat,
    bits_per_pixel: u32,
    pixels_per_block: u32,
    pixels_per_scanline: u32,
    options_mask: u32,
) -> Seq<u8> {
    let raw = at_most(
        bytes_of_samples(
            samples,
            sample_width(bits_per_pixel),
            has_flag(options_mask, SZ_MSB_OPTION_MASK),
        ),
        decoded_size(output_size, bits_per_pixel, pixels_per_block, pixels_per_scanline),
    );
    let lines = if pads_scanlines(pixels_per_block, pixels_per_scanline) {
        unpadded_lines(
            raw,
            scanline_bytes(bits_per_pixel, pixels_per_scanline),
            padded_bytes(bits_per_pixel, pixels_per_block, pixels_per_scanline),
        )
    } else {
        raw
    };
    if is_interleaved(bits_per_pixel) {
        deinterleaved(at_most(lines, output_size), (bits_per_pixel / 8) as nat)
    } else {
        at_most(lines, output_size)
    }
}

/// What compressed `data` is decompressed to. `None` for a code that is out of
/// the decoder's range.
pub open spec fn szip_decompressed(
    data: Seq<u8>,
    output_size: nat,
    bits_per_pixel: u32,
    pixels_per_block: u32,
    pixels_per_scanline: u32,
    options_mask: u32,
) -> Option<Seq<u8>> {
    let need = decoded_size(output_size, bits_per_pixel, pixels_per_block, pixels_per_scanline)
        / sample_width(bits_per_pixel);
    match szip_code(bits_per_pixel, pixels_per_block, pixels_per_scanline, options_mask).decode(
        stream_of(data),
        0,
        Seq::empty(),
        need,
    ) {
        Some(samples) => Some(
            szip_output(
                samples,
                output_size,
                bits_per_pixel,
                pixels_per_block,
                pixels_per_scanline,
                options_mask,
            ),
        ),
        None => None,
    }
}

/// The message about a size that is not whole pixels.
pub open spec fn misaligned_message(what: Seq<char>, size: nat, bits_per_pixel: u32) -> Seq<char> {
    what + " size "@ + decimal(size) + " is not a multiple of pixel size "@ + decimal(
        pixel_bytes(bits_per_pixel),
    ) + " (bits_per_pixel="@ + decimal(bits_per_pixel as nat) + ")"@
}

fn misaligned(what: &str, size: usize, pixel_size: usize, bits_per_pixel: u32) -> (e: String)
    requires
        pixel_size == pixel_bytes(bits_per_pixel),
    ensures
        e@ == misaligned_message(what@, size as nat, bits_per_pixel),
{
    let mut e: String = what.to_owned();
    e.append(" size ");
    append_decimal(&mut e, size as u64);
    e.append(" is not a multiple of pixel size ");
    append_decimal(&mut e, pixel_size as u64);
    e.append(" (bits_per_pixel=");
    append_decimal(&mut e, bits_per_pixel as u64);
    e.append(")");
    e
}

/// What the sizes of a set of parameters are like.
proof fn lemma_sizes(
    bits_per_pixel: u32,
    pixels_per_block: u32,
    pixels_per_scanline: u32,
    options_mask: u32,
)
    requires
        szip_valid(bits_per_pixel, pixels_per_block, pixels_per_scanline),
        lines_fit(bits_per_pixel, pixels_per_block, pixels_per_scanline),
    ensures
        szip_code(bits_per_pixel, pixels_per_block, pixels_per_scanline, options_mask).wf(),
        szip_code(bits_per_pixel, pixels_per_block, pixels_per_scanline, options_mask)
            == code_params(
            sample_bits(bits_per_pixel),
            pixels_per_block,
            scanline_blocks(pixels_per_block, pixels_per_scanline),
            AEC_NOT_ENFORCE | option_flags(options_mask),
        ),
        scanline_blocks(pixels_per_block, pixels_per_scanline) == (pixels_per_scanline - 1)
            / pixels_per_block as int + 1,
        pixels_per_scanline <= padded_samples(pixels_per_block, pixels_per_scanline) <= u32::MAX,
        !pads_scanlines(pixels_per_block, pixels_per_scanline) ==> padded_samples(
            pixels_per_block,
            pixels_per_scanline,
        ) == pixels_per_scanline,
        scanline_bytes(bits_per_pixel, pixels_per_scanline) <= padded_bytes(
            bits_per_pixel,
            pixels_per_block,
            pixels_per_scanline,
        ) <= usize::MAX,
        scanline_bytes(bits_per_pixel, pixels_per_scanline) > 0,
        1 <= sample_bits(bits_per_pixel) <= 31,
        1 <= sample_width(bits_per_pixel) <= 4,
        1 <= pixel_bytes(bits_per_pixel) <= 8,
{
    let s = pixels_per_scanline as int;
    let b = pixels_per_block as int;
    let q = (s + b - 1) / b;
    assert((s - 1 + b) / b == (s - 1) / b + 1) by (nonlinear_arith)
        requires
            b > 0,
    ;
    assert(s <= q * b && q >= 1) by (nonlinear_arith)
        requires
            q == (s + b - 1) / b,
            b > 0,
            s > 0,
    ;
    assert(q <= q * b) by (nonlinear_arith)
        requires
            q >= 0,
            b >= 1,
    ;
    if !pads_scanlines(pixels_per_block, pixels_per_scanline) {
        assert(q * b == s) by (nonlinear_arith)
            requires
                q == (s + b - 1) / b,
                s % b == 0,
                b > 0,
                s > 0,
        ;
    }
    let w = sample_width(bits_per_pixel) as int;
    assert(s * w <= (q * b) * w) by (nonlinear_arith)
        requires
            s <= q * b,
            w > 0,
    ;
    assert(s * w > 0) by (nonlinear_arith)
        requires
            s > 0,
            w > 0,
    ;
    lemma_option_flags(options_mask);
    lemma_max_sample(sample_bits(bits_per_pixel), option_flags(options_mask));
}

/// Compress data using the SZIP (AEC) algorithm.
///
/// Parameters match the HDF5 SZIP filter interface:
/// - `data`: raw uncompressed bytes
/// - `bits_per_pixel`: sample width (1-32, or 64 for double interleaving)
/// - `pixels_per_block`: block size (must be even, typically 8/16/32)
/// - `pixels_per_scanline`: scanline width in pixels
/// - `options_mask`: SZIP option flags
pub fn compress(
    data: &[u8],
    bits_per_pixel: u32,
    pixels_per_block: u32,
    pixels_per_scanline: u32,
    options_mask: u32,
) -> (r: Result<Vec<u8>, String>)
    requires
        szip_valid(bits_per_pixel, pixels_per_block, pixels_per_scanline) ==> szip_fits(
            bits_per_pixel,
            pixels_per_block,
            pixels_per_scanline,
        ) && line_count(data@.len(), scanline_bytes(bits_per_pixel, pixels_per_scanline))
            * padded_bytes(bits_per_pixel, pixels_per_block, pixels_per_scanline) <= usize::MAX,
    ensures
        !szip_valid(bits_per_pixel, pixels_per_block, pixels_per_scanline) ==> (r matches Err(e)
            && e@ == "invalid SZIP parameters"@),
        szip_valid(bits_per_pixel, pixels_per_block, pixels_per_scanline) && data@.len()
            % pixel_bytes(bits_per_pixel) != 0 ==> (r matches Err(e) && e@ == misaligned_message(
            "input"@,
            data@.len(),
            bits_per_pixel,
        )),
        szip_valid(bits_per_pixel, pixels_per_block, pixels_per_scanline) && data@.len()
            % pixel_bytes(bits_per_pixel) == 0 ==> (r matches Ok(out) && out@ == szip_compressed(
            data@,
            bits_per_pixel,
            pixels_per_block,
            pixels_per_scanline,
            options_mask,
        )),
{
    if pixels_per_scanline == 0 || pixels_per_block == 0 || pixels_per_block % 2 != 0
        || bits_per_pixel == 0 || (bits_per_pixel > 32 && bits_per_pixel != 64) {
        return Err("invalid SZIP parameters".to_owned());
    }
    proof {
        lemma_sizes(bits_per_pixel, pixels_per_block, pixels_per_scanline, options_mask);
        lemma_option_flags(options_mask);
    }
    let flags: u32 = AEC_NOT_ENFORCE | convert_options(options_mask);
    let rsi: u32 = (pixels_per_scanline - 1) / pixels_per_block + 1;
    let interleave: bool = bits_per_pixel == 32 || bits_per_pixel == 64;
    let input_pixel_size: usize = ((bits_per_pixel + 7) / 8) as usize;
    if data.len() % input_pixel_size != 0 {
        return Err(misaligned("input", data.len(), input_pixel_size, bits_per_pixel));
    }
    let bits_per_sample: u32 = if interleave {
        8
    } else {
        bits_per_pixel
    };
    let input_buf: Vec<u8> = if interleave {
        interleave_buffer(data, (bits_per_pixel / 8) as usize)
    } else {
        slice_to_vec(data)
    };
    let pixel_size: usize = bits_to_bytes(bits_per_sample) as usize;
    let line_size: usize = pixels_per_scanline as usize * pixel_size;
    let padded_pixels: usize = (rsi * pixels_per_block) as usize;
    let padding_size: usize = padded_pixels * pixel_size - line_size;
    let padded_input = add_padding(
        input_buf.as_slice(),
        line_size,
        padding_size,
        pixel_size,
        flags & AEC_DATA_PREPROCESS != 0,
    );
    let encoder = match Encoder::new(bits_per_sample, pixels_per_block, rsi, flags) {
        Ok(e) => e,
        Err(e) => return Err(e),
    };
    Ok(encoder.encode(padded_input.as_slice()))
}

/// Decompress SZIP (AEC) compressed data.
///
/// Parameters match the HDF5 SZIP filter interface:
/// - `data`: compressed bytes
/// - `output_size`: expected size of decompressed data in bytes
/// - `bits_per_pixel`: sample width (1-32, or 64 for double interleaving)
/// - `pixels_per_block`: block size (must be even)
/// - `pixels_per_scanline`: scanline width in pixels
/// - `options_mask`: SZIP option flags
pub fn decompress(
    data: &[u8],
    output_size: usize,
    bits_per_pixel: u32,
    pixels_per_block: u32,
    pixels_per_scanline: u32,
    options_mask: u32,
) -> (r: Result<Vec<u8>, String>)
    requires
        8 * data@.len() + 64 <= u64::MAX,
        szip_valid(bits_per_pixel, pixels_per_block, pixels_per_scanline) ==> lines_fit(
            bits_per_pixel,
            pixels_per_block,
            pixels_per_scanline,
        ) && decoded_size(
            output_size as nat,
            bits_per_pixel,
            pixels_per_block,
            pixels_per_scanline,
        ) <= usize::MAX,
    ensures
        !szip_valid(bits_per_pixel, pixels_per_block, pixels_per_scanline) ==> (r matches Err(e)
            && e@ == "invalid SZIP parameters"@),
        szip_valid(bits_per_pixel, pixels_per_block, pixels_per_scanline) && output_size
            % pixel_bytes(bits_per_pixel) as usize != 0 ==> (r matches Err(e) && e@
            == misaligned_message("output"@, output_size as nat, bits_per_pixel)),
        szip_valid(bits_per_pixel, pixels_per_block, pixels_per_scanline) && output_size
            % pixel_bytes(bits_per_pixel) as usize == 0 ==> match szip_decompressed(
            data@,
            output_size as nat,
            bits_per_pixel,
            pixels_per_block,
            pixels_per_scanline,
            options_mask,
        ) {
            Some(out) => r matches Ok(v) && v@ == out,
            None => r matches Err(e) && e@ == "SE table overflow"@,
        },
{
    if pixels_per_scanline == 0 || pixels_per_block == 0 || pixels_per_block % 2 != 0
        || bits_per_pixel == 0 || (bits_per_pixel > 32 && bits_per_pixel != 64) {
        return Err("invalid SZIP parameters".to_owned());
    }
    proof {
        lemma_sizes(bits_per_pixel, pixels_per_block, pixels_per_scanline, options_mask);
        lemma_option_flags(options_mask);
    }
    let flags: u32 = convert_options(options_mask);
    let rsi: u32 = (pixels_per_scanline - 1) / pixels_per_block + 1;
    let output_pixel_size: usize = ((bits_per_pixel + 7) / 8) as usize;
    if output_size % output_pixel_size != 0 {
        return Err(misaligned("output", output_size, output_pixel_size, bits_per_pixel));
    }
    let deinterleave: bool = bits_per_pixel == 32 || bits_per_pixel == 64;
    let bits_per_sample: u32 = if deinterleave {
        8
    } else {
        bits_per_pixel
    };
    let pixel_size: usize = bits_to_bytes(bits_per_sample) as usize;
    let line_size: usize = pixels_per_scanline as usize * pixel_size;
    let padded_line: usize = (rsi * pixels_per_block) as usize * pixel_size;
    let pad_scanline: bool = pixels_per_scanline % pixels_per_block != 0;
    let decode_output_size: usize = if pad_scanline {
        let pixels: usize = output_size / pixel_size;
        let scanline: usize = pixels_per_scanline as usize;
        let scanlines: usize = if pixels == 0 {
            0
        } else {
            (pixels - 1) / scanline + 1
        };
        proof {
            let p = pixels as int;
            let l = scanline as int;
            if pixels == 0 {
                vstd::arithmetic::div_mod::lemma_basic_div(l - 1, l);
            } else {
                assert((p - 1 + l) / l == (p - 1) / l + 1) by (nonlinear_arith)
                    requires
                        l > 0,
                ;
            }
            assert(scanlines == line_count(pixels as nat, scanline as nat));
        }
        scanlines * padded_line
    } else {
        output_size
    };
    let decoder = match Decoder::new(bits_per_sample, pixels_per_block, rsi, flags) {
        Ok(d) => d,
        Err(e) => return Err(e),
    };
    let output_samples: usize = decode_output_size / pixel_size;
    let samples = match decoder.decode(data, output_samples) {
        Ok(v) => v,
        Err(e) => return Err(e),
    };
    let mut raw_bytes = decoder.write_samples(samples.as_slice(), decode_output_size);
    if pad_scanline {
        remove_padding(&mut raw_bytes, line_size, padded_line - line_size);
    }
    let ghost lines = raw_bytes@;
    raw_bytes.truncate(output_size);
    assert(raw_bytes@ =~= at_most(lines, output_size as nat));
    if deinterleave {
        Ok(deinterleave_buffer(raw_bytes.as_slice(), (bits_per_pixel / 8) as usize))
    } else {
        Ok(raw_bytes)
    }
}

/// Total of the first `n` samples of `block`.
spec fn prefix_sum(block: Seq<u32>, n: nat) -> nat
    decreases n,
{
    if n == 0 {
        0
    } else {
        prefix_sum(block, (n - 1) as nat) + block[n - 1] as nat
    }
}

/// A pair number is at least the pair's total, and far above it once it
/// leaves the table.
proof fn lemma_pair_code_excess(a: u32, b: u32)
    ensures
        pair_code(a, b) >= a + b,
        pair_code(a, b) > 90 ==> pair_code(a, b) >= a + b + 78,
{
    let t = a + b;
    assert(t * (t + 1) >= 0) by (nonlinear_arith)
        requires
            t >= 0,
    ;
    if t <= 12 {
        assert(t * (t + 1) <= 12 * 13 && t * (t + 1) >= 2 * t - 0 && t * (t + 1) >= 0)
            by (nonlinear_arith)
            requires
                0 <= t <= 12,
        ;
    } else {
        assert(t * (t + 1) >= 2 * (t + 78)) by (nonlinear_arith)
            requires
                t >= 13,
        ;
    }
}

proof fn lemma_pair_bits_lower(block: Seq<u32>, n: nat, i: nat)
    requires
        2 * n <= block.len(),
    ensures
        pair_bits(block, n) >= prefix_sum(block, 2 * n) + n,
        i < n && pair_code(block[2 * i as int], block[2 * i as int + 1]) > 90 ==> pair_bits(
            block,
            n,
        ) >= prefix_sum(block, 2 * n) + n + 78,
    decreases n,
{
    if n > 0 {
        let m = (n - 1) as nat;
        lemma_pair_bits_lower(block, m, i);
        lemma_pair_code_excess(block[2 * n - 2], block[2 * n - 1]);
        reveal_with_fuel(prefix_sum, 3);
        assert(2 * n - 1 - 1 == 2 * m);
        assert(2 * m as int == 2 * n - 2);
    }
}

proof fn lemma_high_sum_prefix(block: Seq<u32>, n: nat)
    requires
        n <= block.len(),
    ensures
        high_sum(block.take(n as int), 0) == prefix_sum(block, n),
    decreases n,
{
    lemma2_to64();
    if n > 0 {
        lemma_high_sum_prefix(block, (n - 1) as nat);
        assert(block.take(n as int).drop_last() =~= block.take(n - 1));
    } else {
        assert(block.take(0) =~= Seq::<u32>::empty());
    }
}

proof fn lemma_high_sum_tail(block: Seq<u32>)
    requires
        block.len() > 0,
    ensures
        high_sum(block.subrange(1, block.len() as int), 0) <= high_sum(block, 0),
    decreases block.len(),
{
    let tail = block.subrange(1, block.len() as int);
    if block.len() > 1 {
        lemma_high_sum_tail(block.drop_last());
        assert(tail.drop_last() =~= block.drop_last().subrange(1, block.len() - 1));
    } else {
        assert(tail =~= Seq::<u32>::empty());
    }
}

/// In a block of fewer than 158 samples a pair whose number is out of the
/// decoder's range is never worth coding as a pair.
proof fn lemma_short_block(c: CodeParams, has_ref: bool, block: Seq<u32>, prev_k: nat)
    requires
        c.wf(),
        c.block < 158,
        block.len() == c.block,
        c.choice(has_ref, block, prev_k) is Pairs,
    ensures
        pairs_in_table(block),
{
    let s = coded_samples(has_ref, block);
    let n = block.len() / 2;
    lemma_best_split(s, prev_k, c.kmax());
    let k = best_split(s, prev_k, c.kmax());
    assert(split_cost(s, k) <= split_cost(s, 0));
    lemma_high_sum_prefix(block, block.len());
    assert(block.take(block.len() as int) =~= block);
    if has_ref {
        lemma_high_sum_tail(block);
    }
    assert(high_sum(s, 0) <= prefix_sum(block, block.len()));
    assert((c.block - 1) * c.bits <= c.block * c.bits <= 158 * 32) by (nonlinear_arith)
        requires
            2 <= c.block < 158,
            1 <= c.bits <= 32,
    ;
    assert(pair_cost(block) <= split_cost(s, k));
    assert forall|i: int| 0 <= i < n implies #[trigger] pair_code(block[2 * i], block[2 * i + 1])
        <= 90 by {
        lemma_pair_bits_lower(block, n, i as nat);
        assert(2 * n == block.len());
        assert(s.len() * (0nat + 1) == s.len()) by (nonlinear_arith);
        assert(split_cost(s, 0) == high_sum(s, 0) + s.len());
        assert(pair_cost(block) == 1 + pair_bits(block, n));
        assert(pair_bits(block, n) < prefix_sum(block, 2 * n) + n + 78);
    }
}

/// With fewer than 158 pixels per block every code is in the decoder's range.
pub proof fn lemma_short_blocks_in_table(c: CodeParams, samples: Seq<u32>)
    requires
        c.wf(),
        c.block < 158,
    ensures
        codes_in_table(c, samples),
{
    assert forall|r: nat| r < c.intervals(samples) implies #[trigger] interval_decodable(
        c,
        c.interval_at(samples, r as int),
        interval_start(c, samples, r),
    ) by {
        let raw = c.interval_at(samples, r as int);
        let start = interval_start(c, samples, r);
        assert forall|b: nat| b < c.rsi implies #[trigger] block_decodable(
            c,
            c.interval_state(raw, start, b, c.rsi),
            c.block_at(c.residuals(raw), b as int),
            b,
        ) by {
            let st = c.interval_state(raw, start, b, c.rsi);
            let block = c.block_at(c.residuals(raw), b as int);
            assert((b + 1) * c.block == b * c.block + c.block) by (nonlinear_arith);
            assert((b + 1) * c.block <= c.rsi * c.block) by (nonlinear_arith)
                requires
                    b + 1 <= c.rsi,
            ;
            assert(c.residuals(raw).len() == c.interval());
            if c.choice(c.preprocess && b == 0, block, st.prev_k) is Pairs {
                lemma_short_block(c, c.preprocess && b == 0, block, st.prev_k);
            }
        }
    }
}

/// The samples that were coded are decoded again.
proof fn lemma_szip_decode(
    data: Seq<u8>,
    bits_per_pixel: u32,
    pixels_per_block: u32,
    pixels_per_scanline: u32,
    options_mask: u32,
)
    requires
        szip_valid(bits_per_pixel, pixels_per_block, pixels_per_scanline),
        szip_fits(bits_per_pixel, pixels_per_block, pixels_per_scanline),
        data.len() % sample_width(bits_per_pixel) == 0,
        codes_in_table(
            szip_code(bits_per_pixel, pixels_per_block, pixels_per_scanline, options_mask),
            szip_samples(
                data,
                bits_per_pixel,
                pixels_per_block,
                pixels_per_scanline,
                options_mask,
            ),
        ),
    ensures
        ({
            let c = szip_code(bits_per_pixel, pixels_per_block, pixels_per_scanline, options_mask);
            let samples = szip_samples(
                data,
                bits_per_pixel,
                pixels_per_block,
                pixels_per_scanline,
                options_mask,
            );
            let w = sample_width(bits_per_pixel);
            let size = decoded_size(
                data.len(),
                bits_per_pixel,
                pixels_per_block,
                pixels_per_scanline,
            );
            let pad = padded_lines(
                szip_input(data, bits_per_pixel),
                scanline_bytes(bits_per_pixel, pixels_per_scanline),
                padded_bytes(bits_per_pixel, pixels_per_block, pixels_per_scanline),
                w,
                has_flag(options_mask, SZ_NN_OPTION_MASK),
            );
            &&& (size / w) * w == size
            &&& size / w <= samples.len()
            &&& pad.len() % w == 0
            &&& size <= pad.len()
            &&& data.len() <= size
            &&& pads_scanlines(pixels_per_block, pixels_per_scanline) ==> size == pad.len()
            &&& c.decode(
                stream_of(packed(c.encoded(samples))),
                0,
                Seq::empty(),
                size / w,
            ) == Some(samples.take((size / w) as int))
        }),
{
    lemma_sizes(bits_per_pixel, pixels_per_block, pixels_per_scanline, options_mask);
    lemma_option_flags(options_mask);
    lemma_max_sample(sample_bits(bits_per_pixel), option_flags(options_mask));
    let c = szip_code(bits_per_pixel, pixels_per_block, pixels_per_scanline, options_mask);
    let w = sample_width(bits_per_pixel);
    let msb = has_flag(options_mask, SZ_MSB_OPTION_MASK);
    let pre = has_flag(options_mask, SZ_NN_OPTION_MASK);
    let bits = sample_bits(bits_per_pixel) as nat;
    let line = scanline_bytes(bits_per_pixel, pixels_per_scanline);
    let padded = padded_bytes(bits_per_pixel, pixels_per_block, pixels_per_scanline);
    let input = szip_input(data, bits_per_pixel);
    let lines = line_count(input.len(), line);
    let pad = padded_lines(input, line, padded, w, pre);
    let samples = szip_samples(
        data,
        bits_per_pixel,
        pixels_per_block,
        pixels_per_scanline,
        options_mask,
    );
    let n = c.interval();
    let pixels = input.len() / w;
    // Sizes in samples.
    assert(input.len() == pixels * w) by {
        vstd::arithmetic::div_mod::lemma_fundamental_div_mod(input.len() as int, w as int);
        assert(w * pixels == pixels * w) by (nonlinear_arith);
    }
    assert(n == padded_samples(pixels_per_block, pixels_per_scanline));
    assert(lines == line_count(pixels, pixels_per_scanline as nat)) by {
        let s = pixels_per_scanline as int;
        lemma_line_count_scaled(pixels as int, s, w as int);
    }
    assert(pad.len() == (lines * n) * w) by (nonlinear_arith)
        requires
            pad.len() == lines * padded,
            padded == n * w,
    ;
    assert(pad.len() / w == lines * n && pad.len() % w == 0) by (nonlinear_arith)
        requires
            pad.len() == (lines * n) * w,
            w > 0,
    ;
    assert(samples.len() == lines * n);
    assert forall|i: int| 0 <= i < samples.len() implies samples[i] < pow2(c.bits) by {
        lemma_samples_bound(pad, w, msb, bits, i);
    }
    // Decoding gives the samples back.
    let size = decoded_size(data.len(), bits_per_pixel, pixels_per_block, pixels_per_scanline);
    let need = size / w;
    lemma_lines_needed(pixels as int, pixels_per_scanline as int, n as int, lines as int);
    if pads_scanlines(pixels_per_block, pixels_per_scanline) {
        assert(size == pad.len());
        assert(pixels * w <= (lines * n) * w) by (nonlinear_arith)
            requires
                pixels <= lines * n,
        ;
    } else {
        assert(size == input.len());
        assert(need == pixels);
        assert(pixels * w <= (lines * n) * w) by (nonlinear_arith)
            requires
                pixels <= lines * n,
        ;
    }
    let bitstream = c.encoded(samples);
    lemma_packed_stream(bitstream);
    assert(holds(stream_of(packed(bitstream)), 0, bitstream));
    lemma_code_roundtrip(c, stream_of(packed(bitstream)), samples, lines, need);
}

/// Decompressing what was compressed gives the data back: whole samples, none
/// with a bit set above the pixel width, and no code out of the decoder's
/// range. Pixels of 8, 16, 32 and 64 bits have no bits above their width, and
/// blocks of fewer than 158 pixels no such code
/// (see [`lemma_szip_roundtrip_whole_bytes`]).
#[verifier::spinoff_prover]
#[verifier::rlimit(40)]
pub proof fn lemma_szip_roundtrip(
    data: Seq<u8>,
    bits_per_pixel: u32,
    pixels_per_block: u32,
    pixels_per_scanline: u32,
    options_mask: u32,
)
    requires
        szip_valid(bits_per_pixel, pixels_per_block, pixels_per_scanline),
        szip_fits(bits_per_pixel, pixels_per_block, pixels_per_scanline),
        data.len() % pixel_bytes(bits_per_pixel) == 0,
        data.len() % sample_width(bits_per_pixel) == 0,
        samples_fit(
            szip_input(data, bits_per_pixel),
            sample_width(bits_per_pixel),
            has_flag(options_mask, SZ_MSB_OPTION_MASK),
            sample_bits(bits_per_pixel) as nat,
        ),
        codes_in_table(
            szip_code(bits_per_pixel, pixels_per_block, pixels_per_scanline, options_mask),
            szip_samples(
                data,
                bits_per_pixel,
                pixels_per_block,
                pixels_per_scanline,
                options_mask,
            ),
        ),
    ensures
        szip_decompressed(
            szip_compressed(
                data,
                bits_per_pixel,
                pixels_per_block,
                pixels_per_scanline,
                options_mask,
            ),
            data.len(),
            bits_per_pixel,
            pixels_per_block,
            pixels_per_scanline,
            options_mask,
        ) == Some(data),
{
    lemma_sizes(bits_per_pixel, pixels_per_block, pixels_per_scanline, options_mask);
    lemma_option_flags(options_mask);
    lemma_max_sample(sample_bits(bits_per_pixel), option_flags(options_mask));
    let c = szip_code(bits_per_pixel, pixels_per_block, pixels_per_scanline, options_mask);
    let w = sample_width(bits_per_pixel);
    let msb = has_flag(options_mask, SZ_MSB_OPTION_MASK);
    let pre = has_flag(options_mask, SZ_NN_OPTION_MASK);
    let bits = sample_bits(bits_per_pixel) as nat;
    let line = scanline_bytes(bits_per_pixel, pixels_per_scanline);
    let padded = padded_bytes(bits_per_pixel, pixels_per_block, pixels_per_scanline);
    let input = szip_input(data, bits_per_pixel);
    let pad = padded_lines(input, line, padded, w, pre);
    let samples = szip_samples(
        data,
        bits_per_pixel,
        pixels_per_block,
        pixels_per_scanline,
        options_mask,
    );
    let n = c.interval();
    let size = decoded_size(data.len(), bits_per_pixel, pixels_per_block, pixels_per_scanline);
    let need = size / w;
    lemma_szip_decode(data, bits_per_pixel, pixels_per_block, pixels_per_scanline, options_mask);
    let decoded = samples.take(need as int);
    // The bytes of the samples are the padded lines.
    lemma_padded_fit(input, line, padded, w, pre, msb, bits, pixels_per_scanline as nat, n);
    lemma_samples_roundtrip(pad, w, msb, bits);
    lemma_bytes_take(samples, w, msb, need);
    lemma_bytes_of_samples_len(decoded, w, msb);
    let raw = bytes_of_samples(decoded, w, msb);
    assert(raw =~= pad.take(size as int));
    lemma_padding_roundtrip(input, line, padded, w, pre);
    let cut = if pads_scanlines(pixels_per_block, pixels_per_scanline) {
        unpadded_lines(raw, line, padded)
    } else {
        raw
    };
    if pads_scanlines(pixels_per_block, pixels_per_scanline) {
        assert(raw =~= pad);
    } else {
        assert(line == padded);
        assert(unpadded_lines(pad, line, padded) == pad);
    }
    assert(at_most(cut, data.len()) =~= input);
    if is_interleaved(bits_per_pixel) {
        lemma_interleave_roundtrip(data, (bits_per_pixel / 8) as nat);
    }
}

/// Pixels of whole bytes survive compression for every block of fewer than 158
/// pixels.
pub proof fn lemma_szip_roundtrip_whole_bytes(
    data: Seq<u8>,
    bits_per_pixel: u32,
    pixels_per_block: u32,
    pixels_per_scanline: u32,
    options_mask: u32,
)
    requires
        bits_per_pixel == 8 || bits_per_pixel == 16 || bits_per_pixel == 32 || bits_per_pixel == 64,
        pixels_per_block < 158,
        szip_valid(bits_per_pixel, pixels_per_block, pixels_per_scanline),
        szip_fits(bits_per_pixel, pixels_per_block, pixels_per_scanline),
        data.len() % pixel_bytes(bits_per_pixel) == 0,
    ensures
        szip_decompressed(
            szip_compressed(
                data,
                bits_per_pixel,
                pixels_per_block,
                pixels_per_scanline,
                options_mask,
            ),
            data.len(),
            bits_per_pixel,
            pixels_per_block,
            pixels_per_scanline,
            options_mask,
        ) == Some(data),
{
    lemma_sizes(bits_per_pixel, pixels_per_block, pixels_per_scanline, options_mask);
    let c = szip_code(bits_per_pixel, pixels_per_block, pixels_per_scanline, options_mask);
    lemma_short_blocks_in_table(
        c,
        szip_samples(data, bits_per_pixel, pixels_per_block, pixels_per_scanline, options_mask),
    );
    let w = sample_width(bits_per_pixel);
    let msb = has_flag(options_mask, SZ_MSB_OPTION_MASK);
    let input = szip_input(data, bits_per_pixel);
    assert forall|i: int| 0 <= i < input.len() / w implies samples::sample_value(
        #[trigger] samples::sample_slice(input, w, i),
        msb,
    ) < pow2(sample_bits(bits_per_pixel) as nat) by {
        let bytes = samples::sample_slice(input, w, i);
        assert((i + 1) * w == i * w + w) by (nonlinear_arith);
        assert(i * w >= 0 && (i + 1) * w <= input.len()) by (nonlinear_arith)
            requires
                0 <= i < input.len() / w,
                w > 0,
        ;
        assert(bytes.len() == w);
        crate::format::bytes::lemma_be_value_bound(bytes);
        crate::format::bytes::lemma_le_value_bound(bytes);
        crate::format::bytes::lemma_pow256_is_pow2(w);
    }
    lemma_szip_roundtrip(
        data,
        bits_per_pixel,
        pixels_per_block,
        pixels_per_scanline,
        options_mask,
    );
}

/// Lines counted in bytes and in samples of `w` bytes.
proof fn lemma_line_count_scaled(pixels: int, s: int, w: int)
    requires
        pixels >= 0,
        s > 0,
        w > 0,
    ensures
        (pixels * w + s * w - 1) / (s * w) == (pixels + s - 1) / s,
{
    let q = (pixels + s - 1) / s;
    assert(q * s >= pixels && (q - 1) * s < pixels) by (nonlinear_arith)
        requires
            q == (pixels + s - 1) / s,
            s > 0,
            pixels >= 0,
    ;
    assert(s * w > 0) by (nonlinear_arith)
        requires
            s > 0,
            w > 0,
    ;
    assert(q * (s * w) >= pixels * w) by (nonlinear_arith)
        requires
            q * s >= pixels,
            w > 0,
    ;
    assert((q - 1) * (s * w) < pixels * w) by (nonlinear_arith)
        requires
            (q - 1) * s < pixels,
            w > 0,
    ;
    let x = pixels * w + s * w - 1;
    let d = s * w;
    assert((q - 1) * d == q * d - d) by (nonlinear_arith);
    let r = x - q * d;
    assert(d * q == q * d) by (nonlinear_arith);
    vstd::arithmetic::div_mod::lemma_fundamental_div_mod_converse(x, d, q, r);
}

/// The padded lines of `pixels` samples hold at least those, and fewer than
/// a line more.
proof fn lemma_lines_needed(pixels: int, s: int, n: int, lines: int)
    requires
        pixels >= 0,
        0 < s <= n,
        lines == (pixels + s - 1) / s,
    ensures
        lines >= 0,
        pixels <= lines * n,
        lines > 0 ==> (lines - 1) * n < lines * n,
        lines > 0 && s == n ==> (lines - 1) * n < pixels,
{
    assert(lines * s >= pixels && (lines - 1) * s < pixels && lines >= 0) by (nonlinear_arith)
        requires
            lines == (pixels + s - 1) / s,
            s > 0,
            pixels >= 0,
    ;
    assert(lines * s <= lines * n) by (nonlinear_arith)
        requires
            lines >= 0,
            s <= n,
    ;
    assert((lines - 1) * n == lines * n - n) by (nonlinear_arith);
}

/// The bytes of the first samples are the first bytes.
proof fn lemma_bytes_take(samples: Seq<u32>, w: nat, msb: bool, n: nat)
    requires
        n <= samples.len(),
    ensures
        n * w <= bytes_of_samples(samples, w, msb).len(),
        bytes_of_samples(samples.take(n as int), w, msb) == bytes_of_samples(samples, w, msb).take(
            (n * w) as int,
        ),
    decreases samples.len() - n,
{
    lemma_bytes_of_samples_len(samples, w, msb);
    lemma_bytes_of_samples_len(samples.take(n as int), w, msb);
    assert(n * w <= samples.len() * w) by (nonlinear_arith)
        requires
            n <= samples.len(),
    ;
    if n == samples.len() {
        assert(samples.take(n as int) =~= samples);
        let all = bytes_of_samples(samples, w, msb);
        assert(all.take(all.len() as int) =~= all);
    } else {
        lemma_bytes_take(samples, w, msb, n + 1);
        let t = samples.take(n as int + 1);
        assert(t.drop_last() =~= samples.take(n as int));
        lemma_bytes_of_samples_len(t, w, msb);
        assert((n + 1) * w == n * w + w) by (nonlinear_arith);
        let part = bytes_of_samples(samples.take(n as int), w, msb);
        assert(part =~= bytes_of_samples(t, w, msb).take((n * w) as int));
        assert(bytes_of_samples(samples, w, msb).take((n * w) as int) =~= bytes_of_samples(
            samples,
            w,
            msb,
        ).take(((n + 1) * w) as int).take((n * w) as int));
    }
}

/// Padding adds only samples that occur already, or zero.
proof fn lemma_padded_fit(
    src: Seq<u8>,
    line: nat,
    padded: nat,
    w: nat,
    repeat: bool,
    msb: bool,
    bits: nat,
    per_line: nat,
    per_padded: nat,
)
    requires
        1 <= w <= 4,
        line == per_line * w,
        padded == per_padded * w,
        0 < per_line <= per_padded,
        src.len() % w == 0,
        samples_fit(src, w, msb, bits),
    ensures
        samples_fit(padded_lines(src, line, padded, w, repeat), w, msb, bits),
{
    let pad = padded_lines(src, line, padded, w, repeat);
    let lines = line_count(src.len(), line);
    assert(line > 0) by (nonlinear_arith)
        requires
            line == per_line * w,
            per_line > 0,
            w > 0,
    ;
    assert forall|i: int| 0 <= i < pad.len() / w implies samples::sample_value(
        #[trigger] samples::sample_slice(pad, w, i),
        msb,
    ) < pow2(bits) by {
        lemma_padded_sample(src, line, padded, w, repeat, per_line, per_padded, i);
        let bytes = samples::sample_slice(pad, w, i);
        if exists|j: int|
            0 <= j < src.len() / w && bytes == #[trigger] samples::sample_slice(src, w, j) {
        } else {
            assert(bytes =~= Seq::new(w, |x: int| 0u8));
            lemma_zero_value(w);
            vstd::arithmetic::power2::lemma_pow2_pos(bits);
        }
    }
}

proof fn lemma_zero_value(w: nat)
    ensures
        crate::format::bytes::be_value(Seq::new(w, |x: int| 0u8)) == 0,
        crate::format::bytes::le_value(Seq::new(w, |x: int| 0u8)) == 0,
    decreases w,
{
    if w > 0 {
        lemma_zero_value((w - 1) as nat);
        let z = Seq::new(w, |x: int| 0u8);
        assert(z.drop_last() =~= Seq::new((w - 1) as nat, |x: int| 0u8));
        assert(z.drop_first() =~= Seq::new((w - 1) as nat, |x: int| 0u8));
    }
}

/// A sample of the padded lines is a sample of the lines, or zero.
proof fn lemma_padded_sample(
    src: Seq<u8>,
    line: nat,
    padded: nat,
    w: nat,
    repeat: bool,
    per_line: nat,
    per_padded: nat,
    i: int,
)
    requires
        1 <= w <= 4,
        line == per_line * w,
        padded == per_padded * w,
        0 < per_line <= per_padded,
        src.len() % w == 0,
        line > 0,
        0 <= i < padded_lines(src, line, padded, w, repeat).len() / w,
    ensures
        ({
            let bytes = samples::sample_slice(
                padded_lines(src, line, padded, w, repeat),
                w,
                i,
            );
            (exists|j: int|
                0 <= j < src.len() / w && bytes == #[trigger] samples::sample_slice(src, w, j))
                || bytes == Seq::new(w, |x: int| 0u8)
        }),
{
    let pad = padded_lines(src, line, padded, w, repeat);
    let lines = line_count(src.len(), line) as int;
    let l = i / per_padded as int;
    let c = i % per_padded as int;
    let wi = w as int;
    let n = src.len() as int;
    let total = n / wi;
    vstd::arithmetic::div_mod::lemma_fundamental_div_mod(n, wi);
    vstd::arithmetic::div_mod::lemma_fundamental_div_mod(i, per_padded as int);
    assert(pad.len() == (lines * per_padded) * w) by (nonlinear_arith)
        requires
            pad.len() == lines * padded,
            padded == per_padded * w,
    ;
    assert(i < lines * per_padded) by (nonlinear_arith)
        requires
            i < pad.len() / w,
            pad.len() == (lines * per_padded) * w,
            w > 0,
    ;
    assert(0 <= l < lines) by (nonlinear_arith)
        requires
            0 <= i < lines * per_padded,
            l == i / per_padded as int,
            per_padded > 0,
    ;
    assert(i * w + w <= pad.len() && 0 <= i * w) by (nonlinear_arith)
        requires
            pad.len() == (lines * per_padded) * w,
            0 <= i < lines * per_padded,
            w > 0,
    ;
    assert((i + 1) * w == i * w + w) by (nonlinear_arith);
    // The bytes of the sample lie in one line, from column c * w.
    assert(i * w == l * padded + c * w) by (nonlinear_arith)
        requires
            i == per_padded * l + c,
            padded == per_padded * w,
    ;
    assert(c * w + w <= padded && 0 <= c * w) by (nonlinear_arith)
        requires
            0 <= c < per_padded,
            padded == per_padded * w,
            w > 0,
    ;
    let end = line_end(src.len(), line, l);
    let first = l * per_line;
    assert(l * line == first * w) by (nonlinear_arith)
        requires
            line == per_line * w,
            first == l * per_line,
    ;
    assert((l + 1) * line == (first + per_line) * w) by (nonlinear_arith)
        requires
            line == per_line * w,
            first == l * per_line,
    ;
    assert(l * line < n) by (nonlinear_arith)
        requires
            l < lines,
            lines == (n + line - 1) / line as int,
            line > 0,
            l >= 0,
    ;
    assert(0 <= l * line) by (nonlinear_arith)
        requires
            0 <= l,
    ;
    // The line's own samples end at sample `last`.
    let last = if first + per_line <= total {
        first + per_line
    } else {
        total
    };
    assert(wi * total == total * wi) by (nonlinear_arith);
    assert(end == last * w) by (nonlinear_arith)
        requires
            n == total * w,
            (l + 1) * line == (first + per_line) * w,
            end == (if (l + 1) * line <= n {
                (l + 1) * line
            } else {
                n
            }),
            last == (if first + per_line <= total {
                first + per_line
            } else {
                total
            }),
            w > 0,
    ;
    assert(first < last && last <= total) by (nonlinear_arith)
        requires
            first * w < total * w,
            w > 0,
            per_line > 0,
            last == (if first + per_line <= total {
                first + per_line
            } else {
                total
            }),
    ;
    let own = end - l * line;
    assert(own == (last - first) * w) by (nonlinear_arith)
        requires
            own == last * w - first * w,
    ;
    let bytes = samples::sample_slice(pad, w, i);
    assert forall|x: int| 0 <= x < w implies #[trigger] bytes[x] == padded_byte(
        src,
        line,
        w,
        repeat,
        l,
        c * w + x,
    ) by {
        let p = i * w + x;
        assert(padded as int * l == l * padded) by (nonlinear_arith);
        vstd::arithmetic::div_mod::lemma_fundamental_div_mod_converse(
            p,
            padded as int,
            l,
            c * w + x,
        );
    }
    if c < last - first {
        let j = first + c;
        assert(0 <= first) by (nonlinear_arith)
            requires
                first == l * per_line,
                l >= 0,
        ;
        assert(j * w == l * line + c * w && c * w + w <= own && (j + 1) * w == j * w + w && j * w + w
            <= n) by (nonlinear_arith)
            requires
                j == first + c,
                l * line == first * w,
                c + 1 <= last - first,
                own == (last - first) * w,
                last <= total,
                n == total * w,
                w > 0,
        ;
        assert(bytes =~= samples::sample_slice(src, w, j));
    } else {
        assert(c * w >= own) by (nonlinear_arith)
            requires
                c >= last - first,
                own == (last - first) * w,
                w > 0,
        ;
        let k = c - (last - first);
        assert(c * w - own == k * w) by (nonlinear_arith)
            requires
                own == (last - first) * w,
                k == c - (last - first),
        ;
        assert forall|x: int| 0 <= x < w implies #[trigger] ((c * w + x - own) % wi) == x by {
            assert(wi * k == k * w) by (nonlinear_arith)
                requires
                    wi == w,
            ;
            vstd::arithmetic::div_mod::lemma_fundamental_div_mod_converse(k * w + x, wi, k, x);
        }
        if repeat && end >= w {
            let j = last - 1;
            assert(j * w == end - w && (j + 1) * w == end) by (nonlinear_arith)
                requires
                    end == last * w,
                    j == last - 1,
            ;
            assert(0 <= first) by (nonlinear_arith)
                requires
                    first == l * per_line,
                    l >= 0,
            ;
            assert forall|x: int| 0 <= x < w implies bytes[x] == #[trigger] samples::sample_slice(
                src,
                w,
                j,
            )[x] by {
                assert((c * w + x - own) % wi == x);
            }
            assert(bytes =~= samples::sample_slice(src, w, j));
        } else {
            assert(bytes =~= Seq::new(w, |x: int| 0u8));
        }
    }
}

} // verus!
