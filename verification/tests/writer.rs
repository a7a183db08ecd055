//! What a writer refuses, and what it places where.

use rust_hdf5::format::global_heap::decode_vlen_reference;
use rust_hdf5::format::messages::attribute::AttributeMessage;
use rust_hdf5::format::messages::datatype::DatatypeMessage;
use rust_hdf5::format::messages::filter::FilterPipeline;
use rust_hdf5::io::allocator::FileAllocator;
use rust_hdf5::io::array::{element_count, linear_of, place_of};
use rust_hdf5::io::chunks::copy_chunk_to_output;
use rust_hdf5::io::slices::extract_slice;
use rust_hdf5::io::tiles::{chunk_grid, cut_chunk, split_frame_into_tiles};
use rust_hdf5::io::writer::append::{append_steps, AppendStep};
use rust_hdf5::io::writer::content::RowWrite;
use rust_hdf5::io::writer::datasets::compute_chunk_size_len;
use rust_hdf5::io::writer::finish::FinalStep;
use rust_hdf5::io::writer::fixed::count_chunks;
use rust_hdf5::io::writer::headers::{encode_refcount, MessageBody};
use rust_hdf5::io::writer::regroup::rebuild_groups;
use rust_hdf5::io::writer::reopen::check_appendable;
use rust_hdf5::io::writer::state::HardLinkTarget;
use rust_hdf5::io::writer::storage::ChunkStep;
use rust_hdf5::io::writer::vlen::{cut_into_chunks, HeapImage};
use rust_hdf5::io::writer::Hdf5Writer;
use rust_hdf5::io::IoError;

fn text(e: IoError) -> String {
    match e {
        IoError::Io(m) => format!("io: {}", m),
        IoError::Format(f) => format!("format: {:?}", f),
        IoError::NotFound(m) => format!("not found: {}", m),
        IoError::InvalidState(m) => format!("invalid state: {}", m),
    }
}

fn u8s() -> DatatypeMessage {
    DatatypeMessage::u8_type()
}

#[test]
fn allocations_are_aligned_and_apart() {
    let mut a = FileAllocator::new(50);
    let first = a.allocate(3);
    let second = a.allocate(5);
    let third = a.allocate(0);
    assert_eq!((first, second, third), (56, 64, 72));
    assert_eq!(a.eof(), 72);
    a.set_eof(100);
    assert_eq!(a.allocate(1), 104);
}

#[test]
fn dataset_names_are_unique() {
    let mut w = Hdf5Writer::new();
    w.create_dataset("a", u8s(), &[2]).unwrap();
    assert_eq!(
        text(w.create_dataset("a", u8s(), &[2]).unwrap_err()),
        "invalid state: a dataset named 'a' already exists"
    );
    w.create_hard_link("/", "b", "a").unwrap();
    assert_eq!(
        text(w.create_dataset("b", u8s(), &[2]).unwrap_err()),
        "invalid state: a hard link named 'b' already exists"
    );
    w.delete_dataset("a").unwrap();
    w.create_dataset("a", u8s(), &[2]).unwrap();
    assert_eq!(text(w.delete_dataset("c").unwrap_err()), "not found: c");
    assert_eq!(w.dataset_names(), vec!["a"]);
}

#[test]
fn groups_have_parents() {
    let mut w = Hdf5Writer::new();
    assert_eq!(w.create_group("/", "g").unwrap(), 0);
    assert_eq!(w.create_group("/g", "h").unwrap(), 1);
    assert_eq!(
        text(w.create_group("/", "g").unwrap_err()),
        "invalid state: group '/g' already exists"
    );
    assert_eq!(
        text(w.create_group("/x", "h").unwrap_err()),
        "not found: parent group '/x' not found"
    );
    let d = w.create_dataset("g/h/d", u8s(), &[1]).unwrap();
    w.assign_dataset_to_group("/g/h", d).unwrap();
    assert_eq!(
        text(w.assign_dataset_to_group("/x", d).unwrap_err()),
        "not found: group '/x' not found"
    );
    w.create_hard_link("/g", "again", "g/h/d").unwrap();
    assert_eq!(
        text(w.create_group("/g", "again").unwrap_err()),
        "invalid state: a hard link named '/g/again' already exists"
    );
    w.delete_group("g").unwrap();
    assert!(w.find_group("/g").is_none());
    assert!(w.find_group("/g/h").is_none());
    assert!(w.dataset_names().is_empty());
    assert_eq!(text(w.delete_group("g").unwrap_err()), "not found: /g");
}

#[test]
fn hard_links_name_what_is_there() {
    let mut w = Hdf5Writer::new();
    let d = w.create_dataset("d", u8s(), &[1]).unwrap();
    w.create_group("/", "g").unwrap();
    assert_eq!(
        text(w.create_hard_link("/", "a/b", "d").unwrap_err()),
        "invalid state: hard link name 'a/b' must be a non-empty leaf name"
    );
    assert_eq!(
        text(w.create_hard_link("/", "", "d").unwrap_err()),
        "invalid state: hard link name '' must be a non-empty leaf name"
    );
    assert_eq!(
        text(w.create_hard_link("/x", "a", "d").unwrap_err()),
        "not found: parent group '/x' not found"
    );
    assert_eq!(
        text(w.create_hard_link("/g", "a", "/").unwrap_err()),
        "invalid state: cannot hard-link the root group"
    );
    assert_eq!(
        text(w.create_hard_link("/g", "a", "e").unwrap_err()),
        "not found: hard link target 'e' not found"
    );
    assert_eq!(
        text(w.create_hard_link("/", "g", "d").unwrap_err()),
        "invalid state: 'g' already exists in the file"
    );
    w.create_hard_link("/g", "a", "d").unwrap();
    assert_eq!(w.object_link_count(HardLinkTarget::Dataset(d)), 2);
    assert_eq!(w.object_link_count(HardLinkTarget::Group(0)), 1);
    assert_eq!(encode_refcount(2), vec![0, 2, 0, 0, 0]);
    let items = w.build_dataset_header(d);
    assert!(items.iter().any(|i| matches!(&i.body, MessageBody::RefCount(b) if b[1] == 2)));
}

#[test]
fn attributes_are_set_or_added() {
    let mut w = Hdf5Writer::new();
    let d = w.create_dataset("d", u8s(), &[1]).unwrap();
    w.put_dataset_attribute(d, AttributeMessage::scalar_string("u", "m")).unwrap();
    w.put_dataset_attribute(d, AttributeMessage::scalar_string("v", "n")).unwrap();
    w.put_dataset_attribute(d, AttributeMessage::scalar_string("u", "km")).unwrap();
    let names: Vec<&str> = w.datasets[d].attributes.iter().map(|a| a.name.as_str()).collect();
    assert_eq!(names, vec!["u", "v"]);
    assert_eq!(&w.datasets[d].attributes[0].data[..2], b"km");
    assert_eq!(
        text(w.add_dataset_attribute(7, AttributeMessage::scalar_string("u", "m")).unwrap_err()),
        "invalid state: dataset index 7 out of range (have 1)"
    );
    assert_eq!(
        text(w.put_dataset_attribute(7, AttributeMessage::scalar_string("u", "m")).unwrap_err()),
        "invalid state: dataset index 7 out of range (have 1)"
    );
    assert_eq!(
        text(w.add_group_attribute("/g", AttributeMessage::scalar_string("u", "m")).unwrap_err()),
        "not found: group '/g' not found"
    );
    w.add_root_attribute(AttributeMessage::scalar_numeric("n", u8s(), vec![5]));
    assert_eq!(w.root_attributes.len(), 1);
    assert_eq!(w.root_attributes[0].data, vec![5]);
}

#[test]
fn fill_values_are_one_element() {
    let mut w = Hdf5Writer::new();
    let d = w.create_dataset("d", DatatypeMessage::u16_type(), &[3]).unwrap();
    let write = w.set_dataset_fill_value(d, vec![1, 2]).unwrap().unwrap();
    assert_eq!(write.bytes, vec![1, 2, 1, 2, 1, 2]);
    assert_eq!(write.at, w.datasets[d].data_addr);
    assert_eq!(
        text(w.set_dataset_fill_value(d, vec![1]).unwrap_err()),
        "invalid state: fill value is 1 bytes but dataset element size is 2"
    );
    assert_eq!(
        text(w.set_dataset_fill_value(9, vec![1, 2]).unwrap_err()),
        "invalid state: dataset index 9 out of range"
    );
    assert_eq!(w.new_chunk_buffer(d, 5), vec![1, 2, 1, 2, 1]);
}

#[test]
fn slices_are_written_row_by_row() {
    let mut w = Hdf5Writer::new();
    let d = w.create_dataset("d", u8s(), &[3, 4]).unwrap();
    let at = w.datasets[d].data_addr;
    let data = [1, 2, 3, 4];
    let rows = w.write_slice(d, &[1, 2], &[2, 2], &data).unwrap();
    assert_eq!(
        rows,
        vec![
            RowWrite { at: at + 6, from: 0, len: 2 },
            RowWrite { at: at + 10, from: 2, len: 2 },
        ]
    );
    let mut image = vec![0u8; 12];
    for r in &rows {
        let to = (r.at - at) as usize;
        image[to..to + r.len].copy_from_slice(&data[r.from..r.from + r.len]);
    }
    assert_eq!(image, vec![0, 0, 0, 0, 0, 0, 1, 2, 0, 0, 3, 4]);
    assert_eq!(extract_slice(&image, &[3, 4], &[1, 2], &[2, 2], 1), data);
    assert_eq!(
        text(w.write_slice(d, &[1], &[2], &data).unwrap_err()),
        "invalid state: starts/counts length must match dataset rank"
    );
    assert_eq!(
        text(w.write_slice(d, &[2, 2], &[2, 2], &data).unwrap_err()),
        "invalid state: slice out of bounds in dimension 0: start 2 + count 2 exceeds extent 3"
    );
    assert_eq!(
        text(w.write_slice(d, &[u64::MAX, 2], &[2, 2], &data).unwrap_err()),
        "invalid state: slice extent overflow"
    );
    assert_eq!(
        text(w.write_slice(d, &[1, 2], &[2, 2], &data[..3]).unwrap_err()),
        "invalid state: data size mismatch: expected 4 bytes, got 3"
    );
    let e = w.create_dataset("e", u8s(), &[4, 4, 4]).unwrap();
    assert_eq!(
        text(w.write_slice(e, &[0, 0, 0], &[1 << 40, 1 << 40, 1], &data).unwrap_err()),
        "invalid state: slice out of bounds in dimension 0: start 0 + count 1099511627776 exceeds extent 4"
    );
    let s = w.create_dataset("s", u8s(), &[]).unwrap();
    assert_eq!(
        text(w.write_slice(s, &[], &[], &[1]).unwrap_err()),
        "invalid state: write_slice does not support scalar datasets; use write_dataset_raw"
    );
    let c = w.create_chunked_dataset("c", u8s(), &[4], &[9], &[2]).unwrap();
    assert_eq!(
        text(w.write_slice(c, &[0], &[1], &[1]).unwrap_err()),
        "invalid state: write_slice is only for contiguous datasets"
    );
    assert_eq!(
        text(w.write_dataset_raw(c, &[1, 2, 3, 4]).unwrap_err()),
        "invalid state: use write_chunk for chunked datasets"
    );
}

#[test]
fn extents_stay_within_the_maximum() {
    let mut w = Hdf5Writer::new();
    let c = w.create_chunked_dataset("c", u8s(), &[4, 2], &[9, 2], &[2, 2]).unwrap();
    w.extend_dataset(c, &[6, 2]).unwrap();
    assert_eq!(w.dataset_dims(c), &[6, 2]);
    assert_eq!(
        text(w.extend_dataset(c, &[5, 2]).unwrap_err()),
        "invalid state: extend_dataset cannot shrink dimension 0 from 6 to 5"
    );
    assert_eq!(
        text(w.extend_dataset(c, &[10, 2]).unwrap_err()),
        "invalid state: extend_dataset dimension 0 (10) exceeds the maximum 9"
    );
    assert_eq!(
        text(w.extend_dataset(c, &[7]).unwrap_err()),
        "invalid state: extend_dataset rank mismatch: dataset has 2 dimensions, got 1"
    );
    w.set_dataset_extent(c, &[3, 2]).unwrap();
    assert_eq!(w.dataset_dims(c), &[3, 2]);
    assert_eq!(
        text(w.set_dataset_extent(c, &[3]).unwrap_err()),
        "invalid state: set_extent rank mismatch: dataset has 2 dimensions, got 1"
    );
    assert_eq!(
        text(w.set_dataset_extent(c, &[3, 3]).unwrap_err()),
        "invalid state: set_extent dimension 1 (3) exceeds the maximum 2"
    );
    let d = w.create_dataset("d", u8s(), &[3]).unwrap();
    assert_eq!(
        text(w.extend_dataset(d, &[4]).unwrap_err()),
        "invalid state: can only extend chunked datasets"
    );
    assert_eq!(
        text(w.set_dataset_extent(d, &[4]).unwrap_err()),
        "invalid state: can only set the extent of chunked datasets"
    );
}

#[test]
fn chunks_have_their_size() {
    let mut w = Hdf5Writer::new();
    let c = w.create_chunked_dataset("c", u8s(), &[4], &[9], &[2]).unwrap();
    let eof = w.eof();
    match w.write_chunk(c, 1, &[1, 2], &[1, 2]).unwrap() {
        ChunkStep::Written { addr, .. } => assert_eq!(addr, (eof + 7) / 8 * 8),
        ChunkStep::Need(q) => panic!("{:?}", q),
    }
    assert_eq!(
        text(w.write_chunk(c, 1, &[1], &[1]).unwrap_err()),
        "invalid state: chunk data size mismatch: expected 2 bytes, got 1"
    );
    let d = w.create_dataset("d", u8s(), &[3]).unwrap();
    assert_eq!(
        text(w.write_chunk(d, 0, &[1], &[1]).unwrap_err()),
        "invalid state: not a chunked dataset"
    );
    match w.write_compressed_chunk(c, 0, &[1]).unwrap() {
        ChunkStep::Written { addr, .. } => assert_eq!(addr % 8, 0),
        ChunkStep::Need(q) => panic!("{:?}", q),
    }
    assert_eq!(compute_chunk_size_len(255), 2);
    assert_eq!(compute_chunk_size_len(65536), 4);
}

#[test]
fn fixed_chunks_lie_within_the_grid() {
    let mut w = Hdf5Writer::new();
    let f = w.create_fixed_array_dataset("f", u8s(), &[4, 4], &[2, 3]).unwrap();
    let data = [7u8; 6];
    let at = w.write_chunk_fixed_array(f, &[1, 1], &data, &data).unwrap();
    assert_eq!(w.datasets[f].fixed_array.as_ref().unwrap().fa_dblk.elements[3], at);
    assert_eq!(
        text(w.write_chunk_fixed_array(f, &[0, 2], &data, &data).unwrap_err()),
        "invalid state: chunk coordinate 2 in dimension 1 is outside the chunk grid (0..2)"
    );
    assert_eq!(
        text(w.write_chunk_fixed_array(f, &[0], &data, &data).unwrap_err()),
        "invalid state: chunk_coords has 1 entries but the dataset has 2 dimensions"
    );
    assert_eq!(
        text(w.write_chunk_fixed_array(f, &[0, 0], &data[..5], &data[..5]).unwrap_err()),
        "invalid state: chunk data size mismatch: expected 6 bytes, got 5"
    );
    let d = w.create_dataset("d", u8s(), &[3]).unwrap();
    assert_eq!(
        text(w.write_chunk_fixed_array(d, &[0], &data, &data).unwrap_err()),
        "invalid state: not a fixed-array dataset"
    );
    assert_eq!(
        text(w.write_chunk_btree_v2(d, &[0], &data).unwrap_err()),
        "invalid state: not a B-tree v2 dataset"
    );
    assert_eq!(
        text(count_chunks(&[4], &[2, 2]).unwrap_err()),
        "invalid state: chunk shape has 2 dimensions but the dataspace has 1"
    );
    assert_eq!(
        text(count_chunks(&[4, 4], &[2, 0]).unwrap_err()),
        "invalid state: chunk dimension 1 is zero"
    );
    assert_eq!(
        text(count_chunks(&[u64::MAX, u64::MAX], &[1, 1]).unwrap_err()),
        "invalid state: chunk count overflows u64"
    );
    assert_eq!(count_chunks(&[4, 5], &[2, 2]).unwrap(), 6);
}

#[test]
fn filtered_chunks_fit_their_size_field() {
    let mut w = Hdf5Writer::new();
    let p = FilterPipeline::deflate(6);
    let f = w
        .create_fixed_array_dataset_with_pipeline("f", u8s(), &[4], &[4], p)
        .unwrap();
    let stored = [9u8; 3];
    let at = w.write_chunk_fixed_array(f, &[0], &[1, 2, 3, 4], &stored).unwrap();
    let info = w.datasets[f].fixed_array.as_ref().unwrap();
    assert_eq!(info.fa_dblk.filtered_elements[0].address, at);
    assert_eq!(info.fa_dblk.filtered_elements[0].chunk_size, 3);
    let long = vec![9u8; 70000];
    assert_eq!(
        text(w.write_chunk_fixed_array(f, &[0], &[1, 2, 3, 4], &long).unwrap_err()),
        "invalid state: compressed chunk size 70000 does not fit in the 2-byte fixed-array \
         chunk-size field"
    );
}

#[test]
fn strings_are_written_as_references() {
    let mut w = Hdf5Writer::new();
    let heap = HeapImage { indices: vec![1, 2], size: 100 };
    let plan = w.create_vlen_string_dataset("s", &["hi", "you"], &heap).unwrap();
    assert_eq!(plan.heap_addr % 8, 0);
    assert_eq!(plan.data_addr, (plan.heap_addr + 100 + 7) / 8 * 8);
    assert_eq!(plan.raw.len(), 32);
    assert_eq!(
        decode_vlen_reference(&plan.raw[16..], w.ctx()).unwrap(),
        (3, plan.heap_addr, 2)
    );
    assert_eq!(
        cut_into_chunks(&[1, 2, 3, 4, 5], 2, None),
        vec![vec![1, 2], vec![3, 4], vec![5, 0]]
    );
}

#[test]
fn appended_strings_fill_chunks() {
    let mut w = Hdf5Writer::new();
    let i = w.create_appendable_vlen_string_dataset("s", 2, None).unwrap();
    let heap = HeapImage { indices: vec![1, 2, 3], size: 64 };
    let plan = w.append_vlen_strings(i, &["a", "b", "c"], &heap).unwrap().unwrap();
    assert_eq!(plan.new_dims, vec![3]);
    assert_eq!(plan.steps, vec![AppendStep { chunk_idx: 0, offset: 0, from: 0, to: 32 }]);
    let first = plan.steps[0].chunk_bytes(&plan.combined, None).unwrap();
    assert_eq!(first, &plan.combined[..32]);
    w.extend_dataset(i, &plan.new_dims).unwrap();
    let heap = HeapImage { indices: vec![1], size: 64 };
    let plan = w.append_vlen_strings(i, &["d"], &heap).unwrap().unwrap();
    assert_eq!(plan.new_dims, vec![4]);
    assert_eq!(plan.steps, vec![AppendStep { chunk_idx: 1, offset: 0, from: 0, to: 32 }]);
    assert!(w.flush_append_buffer(i, None).is_none());
    w.extend_dataset(i, &plan.new_dims).unwrap();
    let plan = w.append_vlen_strings(i, &["e"], &heap).unwrap().unwrap();
    assert!(plan.steps.is_empty());
    assert_eq!(
        text(w.set_dataset_extent(i, &[1]).unwrap_err()),
        "invalid state: set_extent cannot run while the dataset has buffered appends; flush \
         them first"
    );
    w.extend_dataset(i, &plan.new_dims).unwrap();
    let (chunk, bytes) = w.flush_append_buffer(i, None).unwrap();
    assert_eq!(chunk, 2);
    assert_eq!(bytes.len(), 32);
    assert_eq!(bytes[16..], [0; 16]);
    assert!(w.append_vlen_strings(i, &[], &HeapImage { indices: vec![], size: 0 }).unwrap().is_none());
}

#[test]
fn appended_frames_keep_earlier_ones() {
    let steps = append_steps(1, 4, 2, 1);
    assert_eq!(
        steps,
        vec![
            AppendStep { chunk_idx: 0, offset: 1, from: 0, to: 1 },
            AppendStep { chunk_idx: 1, offset: 0, from: 1, to: 3 },
        ]
    );
    let data = [11, 12, 13, 14];
    assert_eq!(steps[0].chunk_bytes(&data, Some(vec![5, 0])).unwrap(), vec![5, 11]);
    assert_eq!(steps[1].chunk_bytes(&data, None).unwrap(), vec![12, 13]);
    assert_eq!(
        text(steps[0].chunk_bytes(&data, None).unwrap_err()),
        "invalid state: cannot append into partially-written chunk 0: its existing content was \
         not found in the chunk index (the file may be inconsistent)"
    );
}

#[test]
fn headers_are_rewritten_in_place() {
    let mut w = Hdf5Writer::new();
    let d = w.create_dataset("d", u8s(), &[3]).unwrap();
    assert_eq!(
        text(w.write_superblock(0).unwrap_err()),
        "invalid state: root group not yet written"
    );
    assert_eq!(
        text(w.write_dataset_header_inplace(d, vec![1]).unwrap_err()),
        "invalid state: dataset header not yet written"
    );
    let at = w.place_dataset_header(d, 4, true);
    let write = w.write_dataset_header_inplace(d, vec![1, 2]).unwrap();
    assert_eq!((write.at, write.bytes), (at, vec![1, 2, 0, 0]));
    assert_eq!(
        text(w.write_dataset_header_inplace(d, vec![1; 5]).unwrap_err()),
        "invalid state: dataset header grew from 4 to 5 bytes; cannot rewrite in place"
    );
    let steps = w.finalize();
    assert_eq!(steps.last(), Some(&FinalStep::SyncAll));
    assert!(matches!(steps[steps.len() - 2], FinalStep::Superblock(_)));
}

#[test]
fn only_newer_files_are_appended_to() {
    let mut old = b"\x89HDF\r\n\x1a\n".to_vec();
    old.extend([0; 100]);
    assert_eq!(
        text(check_appendable(&old).unwrap_err()),
        "invalid state: cannot open this file for appending: it uses the classic (version-0/1 \
         superblock) HDF5 format; re-create it with a newer library-version bound to append to it"
    );
    assert_eq!(text(check_appendable(&[0; 64]).unwrap_err()), "format: InvalidSignature");
}

#[test]
fn groups_are_rebuilt_from_paths() {
    let names = vec!["top".to_string(), "g/h/d".to_string(), "g/e".to_string()];
    let groups = rebuild_groups(&names);
    let found: Vec<&str> = groups.iter().map(|g| g.name.as_str()).collect();
    assert_eq!(found, vec!["/g", "/g/h"]);
    assert_eq!(groups[0].parent, None);
    assert_eq!(groups[1].parent, Some(0));
    assert_eq!(groups[0].child_groups, vec![1]);
    assert_eq!(groups[0].child_datasets, vec![2]);
    assert_eq!(groups[1].child_datasets, vec![1]);
}

#[test]
fn frames_are_cut_into_tiles_and_put_back() {
    let frame: Vec<u8> = (0..12).collect();
    let tiles = split_frame_into_tiles(&frame, &[3, 4], &[2, 3], 1);
    assert_eq!(tiles.len(), 4);
    assert_eq!(tiles[0], vec![0, 1, 2, 4, 5, 6]);
    assert_eq!(tiles[3], vec![11, 0, 0, 0, 0, 0]);
    let pad = [10, 20, 30, 40, 50, 60];
    assert_eq!(
        cut_chunk(&frame, &[3, 4], &[2, 3], &[0, 1], 1, &pad),
        vec![3, 20, 30, 7, 50, 60]
    );
    let mut out = vec![0u8; 12];
    for (i, tile) in tiles.iter().enumerate() {
        let coords = place_of(i as u64, &chunk_grid(&[3, 4], &[2, 3]));
        copy_chunk_to_output(tile, &mut out, &[3, 4], &[2, 3], &coords, 1);
    }
    assert_eq!(out, frame);
    assert_eq!(place_of(7, &[3, 4]), vec![1, 3]);
    assert_eq!(linear_of(&[1, 3], &[3, 4]), 7);
    assert_eq!(element_count(&[3, 4]), Some(12));
    assert_eq!(element_count(&[u64::MAX, 2]), None);
}
