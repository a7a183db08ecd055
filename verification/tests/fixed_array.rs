//! Fixed arrays: the data blocks of chunk indexes.

use rust_hdf5::format::chunk_index::fixed_array::{
    decode_filtered_page, decode_unfiltered_page, FixedArrayDataBlock, FixedArrayHeader,
    FixedArrayPagedPrefix,
};
use rust_hdf5::format::FormatContext;
use rust_hdf5::io::writer::blocks::{encode_fixed_array_dblk, fixed_array_dblk_disk_size};

#[test]
fn fixed_array_paged_dblk_disk_size() {
    let ctx = FormatContext {
        sizeof_addr: 8,
        sizeof_size: 8,
    };
    // 1024 elements per page (bits=10). 3000 chunks => 3 pages.
    let hdr = FixedArrayHeader::new_for_chunks(&ctx, 3000);
    assert!(hdr.is_paged());
    assert_eq!(hdr.npages(), 3);
    // prefix: 4+1+1+8 + bitmap(1) + cksum(4) = 19
    // elements: 3000 * 8 = 24000 ; per-page cksum: 3 * 4 = 12
    assert_eq!(fixed_array_dblk_disk_size(&ctx, &hdr), 19 + 24000 + 12);

    // Non-paged: 1000 elements. prefix(14) + 1000*8 + cksum(4).
    let small = FixedArrayHeader::new_for_chunks(&ctx, 1000);
    assert!(!small.is_paged());
    assert_eq!(fixed_array_dblk_disk_size(&ctx, &small), 14 + 8000 + 4);
}

#[test]
fn fixed_array_paged_encode_matches_reader_layout() {
    let ctx = FormatContext {
        sizeof_addr: 8,
        sizeof_size: 8,
    };
    let mut hdr = FixedArrayHeader::new_for_chunks(&ctx, 2500);
    hdr.data_blk_addr = 0x9000;
    let npages = hdr.npages() as usize; // ceil(2500/1024) = 3

    let mut dblk = FixedArrayDataBlock::new_unfiltered(0x1000, 2500);
    for (i, e) in dblk.elements.iter_mut().enumerate() {
        *e = 0x10000 + (i as u64) * 0x100;
    }

    let encoded = encode_fixed_array_dblk(&ctx, &hdr, &dblk);
    assert_eq!(encoded.len() as u64, fixed_array_dblk_disk_size(&ctx, &hdr));

    // Decode the prefix and pages exactly as the reader does.
    let prefix = FixedArrayPagedPrefix::decode(&encoded, &ctx, npages as u64).unwrap();
    assert_eq!(prefix.header_addr, 0x1000);
    for p in 0..npages {
        assert!(prefix.page_initialized(p), "page {p} should be initialized");
    }

    let dblk_page_nelmts = hdr.dblk_page_nelmts() as usize;
    let page_stride = dblk_page_nelmts * 8 + 4;
    let mut recovered = Vec::new();
    for p in 0..npages {
        let page_nelmts = if p + 1 == npages {
            2500 - p * dblk_page_nelmts
        } else {
            dblk_page_nelmts
        };
        let off = prefix.prefix_size + p * page_stride;
        let page_buf = &encoded[off..];
        let addrs = decode_unfiltered_page(
            page_buf,
            &ctx,
            page_nelmts,
        )
        .unwrap();
        recovered.extend(addrs);
    }
    assert_eq!(recovered, dblk.elements);
}

#[test]
fn filtered_fixed_array_dblk_disk_size_and_encode() {
    // Cross-check filtered FA data-block sizing against the encoded length,
    // for both flat and paged layouts.
    let ctx = FormatContext {
        sizeof_addr: 8,
        sizeof_size: 8,
    };
    let csl = 3u8; // chunk_size_len
    let elem_size = 8 + csl as usize + 4; // addr + size + filter_mask

    // Flat: 100 chunks. prefix(14) + 100*elem_size + cksum(4).
    let mut flat = FixedArrayHeader::new_for_filtered_chunks(&ctx, 100, csl);
    flat.data_blk_addr = 0x4000;
    assert!(!flat.is_paged());
    assert_eq!(
        fixed_array_dblk_disk_size(&ctx, &flat),
        (14 + 100 * elem_size + 4) as u64
    );
    let flat_dblk = FixedArrayDataBlock::new_filtered(0x1000, 100);
    assert_eq!(
        encode_fixed_array_dblk(&ctx, &flat, &flat_dblk).len() as u64,
        fixed_array_dblk_disk_size(&ctx, &flat)
    );

    // Paged: 2500 chunks => 3 pages. prefix(4+1+1+8+1+4=19)
    // + 2500*elem_size + 3*cksum(4).
    let mut paged = FixedArrayHeader::new_for_filtered_chunks(&ctx, 2500, csl);
    paged.data_blk_addr = 0x9000;
    assert!(paged.is_paged());
    assert_eq!(paged.npages(), 3);
    assert_eq!(
        fixed_array_dblk_disk_size(&ctx, &paged),
        (19 + 2500 * elem_size + 12) as u64
    );
    let mut paged_dblk = FixedArrayDataBlock::new_filtered(0x1000, 2500);
    for (i, e) in paged_dblk.filtered_elements.iter_mut().enumerate() {
        e.address = 0x10000 + (i as u64) * 0x100;
        e.chunk_size = (i % 200) as u32;
    }
    let encoded = encode_fixed_array_dblk(&ctx, &paged, &paged_dblk);
    assert_eq!(
        encoded.len() as u64,
        fixed_array_dblk_disk_size(&ctx, &paged)
    );

    // Decode the paged prefix + pages as the reader does.
    let npages = paged.npages() as usize;
    let prefix = FixedArrayPagedPrefix::decode(&encoded, &ctx, npages as u64).unwrap();
    for p in 0..npages {
        assert!(prefix.page_initialized(p), "page {p}");
    }
    let dblk_page_nelmts = paged.dblk_page_nelmts() as usize;
    let page_stride = dblk_page_nelmts * elem_size + 4;
    let mut recovered = Vec::new();
    for p in 0..npages {
        let page_nelmts = if p + 1 == npages {
            2500 - p * dblk_page_nelmts
        } else {
            dblk_page_nelmts
        };
        let off = prefix.prefix_size + p * page_stride;
        let elems = decode_filtered_page(
            &encoded[off..],
            &ctx,
            page_nelmts,
            csl as usize,
        )
        .unwrap();
        recovered.extend(elems);
    }
    assert_eq!(recovered, paged_dblk.filtered_elements);
}
