//! The szip filter.

use rust_hdf5::format::szip::decoder::Decoder;
use rust_hdf5::format::szip::params::{AEC_RESTRICTED, SZ_MSB_OPTION_MASK, SZ_NN_OPTION_MASK};
use rust_hdf5::format::szip::{compress, decompress};

fn roundtrip(
    data: &[u8],
    bits_per_pixel: u32,
    pixels_per_block: u32,
    pixels_per_scanline: u32,
    options_mask: u32,
) {
    let compressed = compress(
        data,
        bits_per_pixel,
        pixels_per_block,
        pixels_per_scanline,
        options_mask,
    )
    .expect("compress failed");
    let decompressed = decompress(
        &compressed,
        data.len(),
        bits_per_pixel,
        pixels_per_block,
        pixels_per_scanline,
        options_mask,
    )
    .expect("decompress failed");
    assert_eq!(
        data,
        &decompressed[..],
        "roundtrip mismatch for bpp={bits_per_pixel}"
    );
}

#[test]
fn test_roundtrip_u8() {
    let data: Vec<u8> = (0..256u16).map(|i| (i & 0xFF) as u8).collect();
    // NN (preprocess) + MSB
    roundtrip(&data, 8, 16, 256, SZ_NN_OPTION_MASK | SZ_MSB_OPTION_MASK);
}

#[test]
fn test_roundtrip_u8_no_preprocess() {
    let data: Vec<u8> = (0..128).collect();
    roundtrip(&data, 8, 16, 128, SZ_MSB_OPTION_MASK);
}

#[test]
fn test_roundtrip_u16() {
    let mut data = Vec::new();
    for i in 0..128u16 {
        data.push((i >> 8) as u8);
        data.push((i & 0xFF) as u8);
    }
    roundtrip(&data, 16, 16, 128, SZ_NN_OPTION_MASK | SZ_MSB_OPTION_MASK);
}

#[test]
fn test_roundtrip_u16_lsb() {
    let mut data = Vec::new();
    for i in 0..128u16 {
        data.push((i & 0xFF) as u8);
        data.push((i >> 8) as u8);
    }
    roundtrip(&data, 16, 16, 128, SZ_NN_OPTION_MASK);
}

#[test]
fn test_roundtrip_u32_interleaved() {
    let values: Vec<u32> = (0..64).collect();
    let mut data = Vec::new();
    for &v in &values {
        data.extend_from_slice(&v.to_be_bytes());
    }
    roundtrip(&data, 32, 16, 64, SZ_NN_OPTION_MASK | SZ_MSB_OPTION_MASK);
}

#[test]
fn test_roundtrip_f32() {
    let values: Vec<f32> = (0..64).map(|i| i as f32 * 1.5).collect();
    let mut data = Vec::new();
    for &v in &values {
        data.extend_from_slice(&v.to_be_bytes());
    }
    roundtrip(&data, 32, 16, 64, SZ_NN_OPTION_MASK | SZ_MSB_OPTION_MASK);
}

#[test]
fn test_roundtrip_f64() {
    let values: Vec<f64> = (0..32).map(|i| i as f64 * 2.5).collect();
    let mut data = Vec::new();
    for &v in &values {
        data.extend_from_slice(&v.to_be_bytes());
    }
    roundtrip(&data, 64, 16, 32, SZ_NN_OPTION_MASK | SZ_MSB_OPTION_MASK);
}

#[test]
fn test_roundtrip_zeros() {
    let data = vec![0u8; 256];
    roundtrip(&data, 8, 16, 256, SZ_NN_OPTION_MASK | SZ_MSB_OPTION_MASK);
}

#[test]
fn test_roundtrip_constant() {
    let data = vec![42u8; 128];
    roundtrip(&data, 8, 16, 128, SZ_NN_OPTION_MASK | SZ_MSB_OPTION_MASK);
}

#[test]
fn test_roundtrip_scanline_padding() {
    // pixels_per_scanline not a multiple of pixels_per_block
    // 100 pixels, block=16 => rsi=7, padded=112
    let data: Vec<u8> = (0..100).collect();
    roundtrip(&data, 8, 16, 100, SZ_NN_OPTION_MASK | SZ_MSB_OPTION_MASK);
}

#[test]
fn test_roundtrip_small_block() {
    let data: Vec<u8> = (0..32).collect();
    roundtrip(&data, 8, 8, 32, SZ_NN_OPTION_MASK | SZ_MSB_OPTION_MASK);
}

#[test]
fn test_roundtrip_u8_random_like() {
    // Data with varying patterns to exercise different code paths
    let data: Vec<u8> = (0..256).map(|i| ((i * 7 + 13) % 256) as u8).collect();
    roundtrip(&data, 8, 16, 256, SZ_NN_OPTION_MASK | SZ_MSB_OPTION_MASK);
}

#[test]
fn test_compress_rejects_misaligned_32bit_input() {
    // 32-bit pixels: input must be a multiple of 4 bytes. A 254-byte
    // buffer is 2 bytes short of 64 pixels; without the alignment check
    // interleave_buffer would silently drop the trailing 2 bytes.
    let data = vec![1u8; 254];
    let err = compress(&data, 32, 16, 64, SZ_NN_OPTION_MASK | SZ_MSB_OPTION_MASK)
        .expect_err("misaligned 32-bit input must be rejected");
    assert!(
        err.contains("not a multiple of pixel size"),
        "unexpected error message: {err}"
    );
}

#[test]
fn test_compress_rejects_misaligned_64bit_input() {
    // 64-bit pixels: input must be a multiple of 8 bytes. bits_to_bytes
    // caps at 4, so the true pixel width (8) must be derived directly.
    let data = vec![1u8; 36]; // 4 full 8-byte pixels + 4 stray bytes
    let err = compress(&data, 64, 16, 32, SZ_NN_OPTION_MASK | SZ_MSB_OPTION_MASK)
        .expect_err("misaligned 64-bit input must be rejected");
    assert!(
        err.contains("not a multiple of pixel size"),
        "unexpected error message: {err}"
    );
}

#[test]
fn test_compress_rejects_misaligned_16bit_input() {
    // 16-bit non-interleaved path: input must be a multiple of 2 bytes.
    let data = vec![1u8; 15];
    let err = compress(&data, 16, 16, 128, SZ_NN_OPTION_MASK)
        .expect_err("misaligned 16-bit input must be rejected");
    assert!(
        err.contains("not a multiple of pixel size"),
        "unexpected error message: {err}"
    );
}

#[test]
fn test_compress_accepts_aligned_8bit_odd_length() {
    // 8-bit pixels have width 1: any length is aligned and must compress.
    let data: Vec<u8> = (0..101u32).map(|i| i as u8).collect();
    compress(&data, 8, 16, 101, SZ_NN_OPTION_MASK | SZ_MSB_OPTION_MASK)
        .expect("8-bit input of any length must be accepted");
}

#[test]
fn test_decompress_rejects_misaligned_output_size() {
    // Symmetric guard: a 32-bit output_size not a multiple of 4 would be
    // truncated by deinterleave_buffer; it must be rejected instead.
    let err = decompress(
        &[0u8; 8],
        254,
        32,
        16,
        64,
        SZ_NN_OPTION_MASK | SZ_MSB_OPTION_MASK,
    )
    .expect_err("misaligned 32-bit output size must be rejected");
    assert!(
        err.contains("not a multiple of pixel size"),
        "unexpected error message: {err}"
    );
}

#[test]
fn test_compress_reduces_size() {
    // Highly compressible data
    let data = vec![0u8; 1024];
    let compressed = compress(&data, 8, 16, 1024, SZ_NN_OPTION_MASK | SZ_MSB_OPTION_MASK)
        .expect("compress failed");
    assert!(
        compressed.len() < data.len(),
        "compression should reduce size for zeros"
    );
}

#[test]
fn identifiers_of_one_bit_are_read() {
    // One block as it is: the identifier 1, then eight samples of two bits.
    let d = match Decoder::new(2, 8, 1, AEC_RESTRICTED) {
        Ok(d) => d,
        Err(e) => panic!("{}", e),
    };
    let samples = d.decode(&[0x8d, 0x8d, 0x80], 8).unwrap();
    assert_eq!(samples, vec![0, 1, 2, 3, 0, 1, 2, 3]);
}
