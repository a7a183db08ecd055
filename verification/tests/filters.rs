//! Values and refusals of the filters, and the arithmetic below them.

use rust_hdf5::format::bitstream::{BitReader, BitWriter};
use rust_hdf5::format::bytes::{push_be, push_le, read_be_at, read_le_at, read_number_at};
use rust_hdf5::format::checksum::checksum_metadata;
use rust_hdf5::format::chunk_index::extensible_array::{EaGeometry, EaLoc, EarrayParams};
use rust_hdf5::format::chunk_index::fixed_array::{
    decode_filtered_page, decode_unfiltered_page, encode_filtered_page, encode_unfiltered_page,
    FixedArrayFilteredChunkElement, FixedArrayPagedPrefix,
};
use rust_hdf5::format::global_heap::{
    collection_size, decode_vlen_reference, encode_vlen_reference, find_object, HeapObject,
};
use rust_hdf5::format::messages::datatype::{ByteOrder, DatatypeMessage};
use rust_hdf5::format::messages::fill_value::tiled_fill;
use rust_hdf5::format::nbit_scaleoffset::conversion::apply_datatype_conversion;
use rust_hdf5::format::nbit_scaleoffset::nbit::apply_nbit;
use rust_hdf5::format::nbit_scaleoffset::scaleoffset::{reverse_scaleoffset, Scaled, Unscaled};
use rust_hdf5::format::szip::layout::{
    add_padding, deinterleave_buffer, interleave_buffer, remove_padding,
};
use rust_hdf5::format::szip::predictor::{
    postprocess_signed, postprocess_unsigned, preprocess_signed, preprocess_unsigned,
};
use rust_hdf5::format::szip::samples::{read_samples, write_samples};
use rust_hdf5::format::szip::{compress, decompress};
use rust_hdf5::format::{FormatContext, FormatError};

const CTX: FormatContext = FormatContext { sizeof_addr: 8, sizeof_size: 8 };

fn text(e: FormatError) -> String {
    match e {
        FormatError::InvalidData(m) => m,
        e => format!("{:?}", e),
    }
}

#[test]
fn scaleoffset_restores_integers() {
    let mut cd = vec![2, 0, 3, 0, 2, 0, 0, 0];
    let mut data = vec![4, 0, 0, 0, 8, 100, 0, 0, 0, 0, 0, 0, 0];
    data.resize(21, 0);
    data.extend([0x05, 0xf0]);
    assert!(matches!(
        reverse_scaleoffset(&data, &cd).unwrap(),
        Unscaled::Bytes(b) if b == vec![100, 0, 105, 0, 115, 0]
    ));
    cd[7] = 1;
    assert_eq!(
        text(reverse_scaleoffset(&data, &cd).err().unwrap()),
        "scaleoffset: cd_values missing fill value"
    );
    cd.push(0xffff_0203);
    assert!(matches!(
        reverse_scaleoffset(&data, &cd).unwrap(),
        Unscaled::Bytes(b) if b == vec![100, 0, 105, 0, 3, 2]
    ));
    cd[6] = 1;
    assert!(matches!(
        reverse_scaleoffset(&data, &cd).unwrap(),
        Unscaled::Bytes(b) if b == vec![0, 100, 0, 105, 2, 3]
    ));
}

#[test]
fn scaleoffset_restores_constants_and_copies() {
    let cd = vec![2, 0, 2, 0, 2, 0, 0, 0];
    let mut data = vec![0, 0, 0, 0, 8, 44, 1, 0, 0, 0, 0, 0, 0];
    data.resize(21, 0);
    assert!(matches!(
        reverse_scaleoffset(&data, &cd).unwrap(),
        Unscaled::Bytes(b) if b == vec![44, 1, 44, 1]
    ));
    data[0] = 16;
    assert_eq!(
        text(reverse_scaleoffset(&data, &cd).err().unwrap()),
        "scaleoffset: buffer too short"
    );
    data.extend([1, 2, 3, 4]);
    assert!(matches!(
        reverse_scaleoffset(&data, &cd).unwrap(),
        Unscaled::Bytes(b) if b == vec![1, 2, 3, 4]
    ));
    let cd = vec![2, 16, 2, 0, 2, 0, 0, 0];
    assert!(matches!(
        reverse_scaleoffset(&data, &cd).unwrap(),
        Unscaled::Bytes(b) if b == vec![1, 2, 3, 4]
    ));
}

#[test]
fn scaleoffset_gives_decimal_differences() {
    let cd = vec![0, 2, 2, 1, 4, 0, 0, 1, 7];
    let mut data = vec![8, 0, 0, 0, 8];
    data.extend(1.5f32.to_bits().to_le_bytes());
    data.resize(21, 0);
    data.extend([25, 255]);
    match reverse_scaleoffset(&data, &cd).unwrap() {
        Unscaled::Decimal(d) => {
            assert_eq!((d.size, d.little, d.scale_factor), (4, true, 2));
            assert_eq!(d.minimum as u32, 1.5f32.to_bits());
            assert!(matches!(d.elements[0], Scaled::Difference(25)));
            assert!(matches!(d.elements[1], Scaled::Fill(7)));
            assert_eq!(d.encode(&[1, 2]), vec![1, 0, 0, 0, 7, 0, 0, 0]);
        }
        Unscaled::Bytes(b) => panic!("{:?}", b),
    }
}

#[test]
fn scaleoffset_refuses_bad_parameters() {
    let data = vec![0u8; 21];
    let refused = |cd: &[u32]| text(reverse_scaleoffset(&data, cd).err().unwrap());
    assert_eq!(refused(&[2, 0, 1]), "scaleoffset: cd_values too short");
    assert_eq!(
        refused(&[2, 0, 1, 0, 9, 0, 0, 0]),
        "scaleoffset: unsupported datatype size 9"
    );
    assert_eq!(
        refused(&[1, 0, 1, 1, 4, 0, 0, 0]),
        "UnsupportedFeature(\"scaleoffset E-scaling method is not supported\")"
    );
    let cd = [2, 0, 1, 0, 2, 0, 0, 0];
    assert_eq!(
        text(reverse_scaleoffset(&data[..20], &cd).err().unwrap()),
        "scaleoffset: buffer too short for header"
    );
    let mut long = data.clone();
    long[0] = 17;
    assert_eq!(
        text(reverse_scaleoffset(&long, &cd).err().unwrap()),
        "scaleoffset: minbits exceeds datatype size"
    );
    long[0] = 4;
    assert_eq!(
        text(reverse_scaleoffset(&long, &cd).err().unwrap()),
        "scaleoffset: buffer too short"
    );
}

#[test]
fn nbit_packs_arrays_and_structures() {
    let cd = vec![10, 0, 1, 2, 4, 1, 2, 0, 12, 0];
    let data = vec![0x21, 0x03, 0x54, 0x06];
    let packed = apply_nbit(&data, &cd, true).unwrap();
    assert_eq!(packed[..3], [0x32, 0x16, 0x54]);
    assert_eq!(apply_nbit(&packed, &cd, false).unwrap(), data);
    let cd = vec![15, 0, 1, 3, 4, 2, 0, 1, 2, 0, 12, 0, 2, 4, 2];
    let packed = apply_nbit(&data, &cd, true).unwrap();
    assert_eq!(apply_nbit(&packed, &cd, false).unwrap(), data);
}

#[test]
fn nbit_refuses_bad_parameters() {
    let refused = |cd: &[u32]| text(apply_nbit(&[1, 2], cd, false).unwrap_err());
    assert_eq!(refused(&[8, 0, 1]), "nbit: cd_values too short");
    assert_eq!(refused(&[8, 0, 1, 1, 0, 0, 12, 0]), "nbit: zero datatype size");
    assert_eq!(refused(&[8, 0, 1, 9, 2, 0, 12, 0]), "nbit: unsupported top class 9");
    assert_eq!(
        refused(&[8, 0, 1, 1, 2, 0, 17, 0]),
        "nbit: invalid atomic datatype (size=2, precision=17, offset=0)"
    );
    assert_eq!(refused(&[8, 0, 1, 2, 4, 9]), "nbit: bad base class 9");
    assert_eq!(refused(&[8, 0, 1, 3, 4, 1, 0, 9]), "nbit: bad member class 9");
    assert_eq!(refused(&[8, 0, 2, 1, 2, 0, 12, 0]), "nbit: buffer too short");
    assert_eq!(
        text(apply_nbit(&[1, 2, 3], &[8, 0, 1, 1, 2, 0, 12, 0], true).unwrap_err()),
        "nbit: input size 3 != expected 2"
    );
}

#[test]
fn conversion_refuses_bad_layouts() {
    let layout = |size, bit_offset, bit_precision| DatatypeMessage::FixedPoint {
        size,
        byte_order: ByteOrder::LittleEndian,
        signed: false,
        bit_offset,
        bit_precision,
    };
    let mut b = vec![0u8; 9];
    assert_eq!(
        text(apply_datatype_conversion(&mut b, &layout(9, 0, 8)).unwrap_err()),
        "datatype conversion: unsupported FixedPoint size 9"
    );
    assert_eq!(
        text(apply_datatype_conversion(&mut b, &layout(2, 8, 12)).unwrap_err()),
        "datatype conversion: invalid bit layout (offset 8, precision 12, size 2)"
    );
}

#[test]
fn szip_refuses_bad_parameters() {
    assert_eq!(compress(&[1, 2], 8, 0, 16, 0).unwrap_err(), "invalid SZIP parameters");
    assert_eq!(decompress(&[1, 2], 2, 0, 8, 16, 0).unwrap_err(), "invalid SZIP parameters");
    assert_eq!(
        compress(&[1, 2, 3], 16, 8, 16, 0).unwrap_err(),
        "input size 3 is not a multiple of pixel size 2 (bits_per_pixel=16)"
    );
}

#[test]
fn szip_stages_undo_each_other() {
    let data: Vec<u8> = (0..12).collect();
    let apart = interleave_buffer(&data, 4);
    assert_eq!(apart, vec![0, 4, 8, 1, 5, 9, 2, 6, 10, 3, 7, 11]);
    assert_eq!(deinterleave_buffer(&apart, 4), data);
    let mut padded = add_padding(&data, 3, 2, 1, true);
    assert_eq!(&padded[..5], &[0, 1, 2, 2, 2]);
    remove_padding(&mut padded, 3, 2);
    assert_eq!(padded, data);
    let raw = vec![5, 6, 4, 250, 0];
    let mut d = preprocess_unsigned(&raw, 255);
    assert_eq!(d[..3], [0, 2, 3]);
    d[0] = raw[0];
    assert_eq!(postprocess_unsigned(&d, 255), raw);
    let mut d = preprocess_signed(&[5, 6, 4, 0xff], 127);
    assert_eq!(d, vec![0, 2, 3, 9]);
    d[0] = 5;
    assert_eq!(postprocess_signed(&d, 127), vec![5, 6, 4, 0xffff_ffff]);
    let samples = read_samples(&[1, 2, 3, 4], 2, true, 16);
    assert_eq!(samples, vec![0x102, 0x304]);
    assert_eq!(write_samples(&samples, 2, true, 4), vec![1, 2, 3, 4]);
    assert_eq!(read_samples(&[1, 2, 3, 4], 2, false, 16), vec![0x201, 0x403]);
}

#[test]
fn bits_are_read_as_they_were_written() {
    let mut w = BitWriter::new();
    w.emit(5, 3);
    w.emitfs(2);
    w.emit(0x1ff, 10);
    let bytes = w.finish();
    assert_eq!(bytes, vec![0xa5, 0xff]);
    let mut r = BitReader::new(&bytes);
    assert_eq!(r.get_bits(3), 5);
    assert_eq!(r.get_fs(), 2);
    assert_eq!(r.get_bits(10), 0x1ff);
}

#[test]
fn numbers_have_two_byte_orders() {
    let mut b = Vec::new();
    push_le(&mut b, 0x010203, 3);
    push_be(&mut b, 0x010203, 3);
    assert_eq!(b, vec![3, 2, 1, 1, 2, 3]);
    assert_eq!(read_le_at(&b, 0, 3), 0x010203);
    assert_eq!(read_be_at(&b, 3, 3), 0x010203);
    assert_eq!(read_number_at(&b, 1, 2, true), 0x0102);
    assert_eq!(tiled_fill(5, Some(&[1, 2])), vec![1, 2, 1, 2, 1]);
    assert_eq!(tiled_fill(2, None), vec![0, 0]);
}

#[test]
fn checksums_are_those_of_the_format() {
    assert_eq!(checksum_metadata(b""), 0xdead_beef);
    assert_eq!(checksum_metadata(b"Four score and seven years ago"), 0x1777_0551);
}

#[test]
fn references_and_heaps() {
    let b = encode_vlen_reference(3, 0x1122, 7, &CTX);
    assert_eq!(b.len(), 16);
    assert_eq!(decode_vlen_reference(&b, &CTX).unwrap(), (3, 0x1122, 7));
    assert!(matches!(
        decode_vlen_reference(&b[..15], &CTX),
        Err(FormatError::BufferTooShort { .. })
    ));
    let objects = vec![
        HeapObject { index: 1, data: vec![1] },
        HeapObject { index: 4, data: vec![4, 4] },
    ];
    assert_eq!(find_object(&objects, 4), vec![4, 4]);
    assert_eq!(find_object(&objects, 3), Vec::<u8>::new());
    let mut head = b"GCOL".to_vec();
    head.extend([1, 0, 0, 0]);
    head.extend(4096u64.to_le_bytes());
    assert_eq!(collection_size(&head, &CTX), Some(4096));
    assert_eq!(collection_size(b"GCOX", &CTX), None);
}

#[test]
fn fixed_array_pages_are_read_as_they_were_written() {
    let page = encode_unfiltered_page(&[8, 16, 24], &CTX);
    assert_eq!(page.len(), 28);
    assert_eq!(decode_unfiltered_page(&page, &CTX, 3).unwrap(), vec![8, 16, 24]);
    let mut bad = page.clone();
    bad[0] = 9;
    assert!(matches!(
        decode_unfiltered_page(&bad, &CTX, 3),
        Err(FormatError::ChecksumMismatch { .. })
    ));
    let e = FixedArrayFilteredChunkElement { address: 64, chunk_size: 300, filter_mask: 1 };
    let page = encode_filtered_page(&[e], &CTX, 2);
    assert_eq!(decode_filtered_page(&page, &CTX, 1, 2).unwrap(), vec![e]);
    let prefix = FixedArrayPagedPrefix {
        client_id: 0,
        header_addr: 77,
        page_init_bitmap: vec![0xa0],
        prefix_size: 0,
    };
    let b = prefix.encode(&CTX);
    let p = FixedArrayPagedPrefix::decode(&b, &CTX, 3).unwrap();
    assert_eq!((p.header_addr, p.prefix_size), (77, b.len()));
    assert!(p.page_initialized(0) && !p.page_initialized(1) && p.page_initialized(2));
}

#[test]
fn elements_of_an_extensible_array_have_one_place() {
    let g = EaGeometry::new(&EarrayParams::default_params()).unwrap();
    let k = g.idx_blk_elmts;
    assert!(matches!(g.locate(k - 1).unwrap(), EaLoc::Index { elem } if elem as u64 == k - 1));
    match g.locate(k).unwrap() {
        EaLoc::Dblk(l) => {
            assert_eq!((l.sblk, l.local_dblk, l.offset_in_dblk), (0, 0, 0));
            assert_eq!(l.dblk_nelmts, g.sblk[0].dblk_nelmts);
        }
        l => panic!("{:?}", l),
    }
}
