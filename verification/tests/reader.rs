//! What has to be read, and what is wrong with a request or a file.

use rust_hdf5::format::chunk_index::extensible_array::EarrayParams;
use rust_hdf5::format::chunk_index::fixed_array::FixedArrayHeader;
use rust_hdf5::format::global_heap::{encode_vlen_reference, HeapObject};
use rust_hdf5::format::messages::attribute::AttributeMessage;
use rust_hdf5::format::messages::data_layout::{ChunkIndexType, DataLayoutMessage};
use rust_hdf5::format::messages::dataspace::DataspaceMessage;
use rust_hdf5::format::messages::datatype::{ByteOrder, DatatypeMessage};
use rust_hdf5::format::messages::filter::FilterPipeline;
use rust_hdf5::format::object_header::{ObjectHeader, ObjectHeaderMessage};
use rust_hdf5::format::superblock::{SuperblockV0V1, SymbolTableEntry};
use rust_hdf5::format::{FormatContext, FormatError, UNDEF_ADDR};
use rust_hdf5::io::ea::{sized_entries, ChunkEntry, ExtensibleArrayHeader};
use rust_hdf5::io::file_handle::{
    mapped_read_at, mapped_read_at_most, FilePiece, FileSpan,
};
use rust_hdf5::io::reader::catalog::{heap_string, StringValue};
use rust_hdf5::io::reader::chunked::{LocatedChunk, ReadRange};
use rust_hdf5::io::reader::data::{apply_post_filter_conversion, ReadPlan};
use rust_hdf5::io::reader::dense::{first_link, next_link, LinkStep};
use rust_hdf5::io::reader::fixed::{check_chunk_extent, check_fixed_array};
use rust_hdf5::io::reader::headers::{
    find_superblock, probe_header, HeaderProbe, HeaderWalk,
};
use rust_hdf5::io::reader::messages::{DatasetReadInfo, DecodedMessage};
use rust_hdf5::io::reader::open::Opened;
use rust_hdf5::io::reader::pages::{elements_of, page_elements};
use rust_hdf5::io::reader::selection::{check_selection, SelectionPlan};
use rust_hdf5::io::reader::strings::read_vlen_strings;
use rust_hdf5::io::reader::trees::{
    check_chunk_sizes, collect_bt2_records, collect_btree_v1_chunks, collect_snod_addresses,
    record_count, scaled_offsets, tree_reads, ChildRef, ChunkNode, ChunksFound, NameNode, NodeRef,
    RecordNode, TreeChunk,
};
use rust_hdf5::io::reader::walk::{ObjectNode, Objects, ReadRequest, SymbolEntry, SymbolTable};
use rust_hdf5::io::reader::Hdf5Reader;
use rust_hdf5::io::writer::headers::MessageBody;
use rust_hdf5::io::IoError;
use std::collections::HashMap;

const CTX: FormatContext = FormatContext { sizeof_addr: 8, sizeof_size: 8 };

fn text(e: IoError) -> String {
    match e {
        IoError::Io(m) => format!("io: {}", m),
        IoError::Format(f) => format!("format: {:?}", f),
        IoError::NotFound(m) => format!("not found: {}", m),
        IoError::InvalidState(m) => format!("invalid state: {}", m),
    }
}

fn dataset(dims: &[u64], layout: DataLayoutMessage) -> DatasetReadInfo {
    DatasetReadInfo {
        name: "d".to_string(),
        datatype: DatatypeMessage::u16_type(),
        dataspace: DataspaceMessage::simple(dims),
        layout,
        filter_pipeline: None,
        attributes: Vec::new(),
        fill_value: None,
    }
}

fn indexed(dims: &[u64], chunk: &[u64], kind: ChunkIndexType, at: u64) -> DatasetReadInfo {
    let mut chunk_dims = chunk.to_vec();
    chunk_dims.push(2);
    dataset(
        dims,
        DataLayoutMessage::ChunkedV4 {
            chunk_dims,
            index_address: at,
            index_type: kind,
            earray_params: None,
            farray_params: None,
        },
    )
}

fn range(addr: u64, len: u64) -> ReadRange {
    ReadRange { addr, len, exact: true }
}

#[test]
fn a_contiguous_dataset_is_one_piece() {
    let d = dataset(&[3], DataLayoutMessage::Contiguous { address: 96, size: 6 });
    match d.read_plan().unwrap() {
        ReadPlan::Piece { range: r, filtered } => {
            assert_eq!(r, range(96, 6));
            assert!(!filtered);
        }
        p => panic!("{:?}", p),
    }
    let d = dataset(&[3], DataLayoutMessage::Contiguous { address: UNDEF_ADDR, size: 6 });
    assert!(matches!(d.read_plan().unwrap(), ReadPlan::Bytes(b) if b.is_empty()));
}

#[test]
fn compact_data_are_in_the_layout() {
    let d = dataset(&[2], DataLayoutMessage::Compact { data: vec![1, 2, 3, 4] });
    assert!(matches!(d.read_plan().unwrap(), ReadPlan::Bytes(b) if b == vec![1, 2, 3, 4]));
    match d.read_selection(&[1], &[1]).unwrap() {
        SelectionPlan::Bytes(b) => assert_eq!(b, vec![3, 4]),
        p => panic!("{:?}", p),
    }
}

#[test]
fn short_compact_data_give_the_rows_that_they_hold() {
    let d = dataset(&[2, 2], DataLayoutMessage::Compact { data: vec![1, 2, 3, 4] });
    match d.read_selection(&[0, 0], &[1, 2]).unwrap() {
        SelectionPlan::Bytes(b) => assert_eq!(b, vec![1, 2, 3, 4]),
        p => panic!("{:?}", p),
    }
    assert!(d.read_selection(&[0, 0], &[3, 2]).is_err());
}

#[test]
fn packed_links_end_at_the_first_other_byte() {
    let payload = [1, 7, 7, 1, 8, 0, 1, 1];
    assert_eq!(first_link(&payload), Some(0));
    assert_eq!(next_link(&payload, 0, Some(3)), LinkStep { keep: true, next: Some(3) });
    assert_eq!(next_link(&payload, 3, Some(2)), LinkStep { keep: true, next: None });
    assert_eq!(next_link(&payload, 3, Some(5)), LinkStep { keep: true, next: None });
    assert_eq!(next_link(&payload, 3, Some(usize::MAX)), LinkStep { keep: true, next: None });
    assert_eq!(next_link(&payload, 3, Some(0)), LinkStep { keep: false, next: None });
    assert_eq!(next_link(&payload, 3, None), LinkStep { keep: false, next: None });
    assert_eq!(first_link(&payload[1..]), None);
    assert_eq!(first_link(&[]), None);
}

fn array_header(class_id: u8, raw_elmt_size: u8) -> ExtensibleArrayHeader {
    ExtensibleArrayHeader {
        class_id,
        raw_elmt_size,
        params: EarrayParams::default_params(),
        num_sblks_created: 0,
        size_sblks_created: 0,
        num_dblks_created: 0,
        size_dblks_created: 0,
        max_idx_set: 0,
        num_elmts_realized: 0,
        idx_blk_addr: UNDEF_ADDR,
    }
}

#[test]
fn pages_hold_addresses_or_filtered_chunks() {
    let plain = elements_of(&array_header(0, 8), &CTX).unwrap();
    let mut page = 4096u64.to_le_bytes().to_vec();
    page.extend(UNDEF_ADDR.to_le_bytes());
    page.extend([0; 4]);
    let es = page_elements(&page, 2, &plain, &CTX, 24);
    assert_eq!(es[0], ChunkEntry { addr: 4096, nbytes: 24, filter_mask: 0 });
    assert_eq!(es[1].addr, UNDEF_ADDR);
    let filtered = elements_of(&array_header(1, 14), &CTX).unwrap();
    assert_eq!(filtered.chunk_size_len, 2);
    let mut page = 512u64.to_le_bytes().to_vec();
    page.extend([0x34, 0x12, 5, 0, 0, 0]);
    assert_eq!(
        page_elements(&page, 1, &filtered, &CTX, 24),
        vec![ChunkEntry { addr: 512, nbytes: 0x1234, filter_mask: 5 }]
    );
    assert!(elements_of(&array_header(1, 11), &CTX).is_none());
}

#[test]
fn chunks_without_filters_have_the_size_of_their_shape() {
    let stored = vec![
        ChunkEntry { addr: 4096, nbytes: 0, filter_mask: 0 },
        ChunkEntry { addr: UNDEF_ADDR, nbytes: 0, filter_mask: 0 },
    ];
    let es = sized_entries(&stored, false, 24);
    assert_eq!(es[0], ChunkEntry { addr: 4096, nbytes: 24, filter_mask: 0 });
    assert_eq!(es[1], stored[1]);
    assert_eq!(sized_entries(&stored, true, 24), stored);
}

#[test]
fn a_single_chunk_is_read_whole() {
    let mut d = indexed(&[4], &[4], ChunkIndexType::SingleChunk, 512);
    assert!(matches!(
        d.read_plan().unwrap(),
        ReadPlan::Piece { range: r, filtered: false } if r == range(512, 8)
    ));
    d.filter_pipeline = Some(FilterPipeline::deflate(4));
    assert!(matches!(
        d.read_plan().unwrap(),
        ReadPlan::Piece { range: r, filtered: true }
            if r == (ReadRange { addr: 512, len: 16, exact: false })
    ));
    let mut d = indexed(&[4], &[4], ChunkIndexType::SingleChunk, UNDEF_ADDR);
    assert!(matches!(d.read_plan().unwrap(), ReadPlan::Bytes(b) if b.is_empty()));
    d.fill_value = Some(vec![7, 0]);
    assert!(matches!(d.read_plan().unwrap(), ReadPlan::Fill(8)));
}

#[test]
fn chunked_plans_name_the_index() {
    let d = indexed(&[4, 6], &[2, 3], ChunkIndexType::FixedArray, 700);
    assert!(matches!(
        d.read_plan().unwrap(),
        ReadPlan::FixedArray { chunk_dims, index: 700 } if chunk_dims == vec![2, 3]
    ));
    let d = indexed(&[4, 6], &[2, 3], ChunkIndexType::BTreeV2, 701);
    assert!(matches!(
        d.read_plan().unwrap(),
        ReadPlan::BTreeV2 { chunk_dims, index: 701 } if chunk_dims == vec![2, 3]
    ));
    let d = indexed(&[4, 6], &[2, 3], ChunkIndexType::BTreeV2, UNDEF_ADDR);
    assert!(matches!(d.read_plan().unwrap(), ReadPlan::Bytes(b) if b.is_empty()));
    let mut d = indexed(&[4, 6], &[2, 3], ChunkIndexType::ExtensibleArray, 702);
    assert_eq!(text(d.read_plan().unwrap_err()), "invalid state: missing earray params");
    let p = EarrayParams {
        max_nelmts_bits: 32,
        idx_blk_elmts: 4,
        sup_blk_min_data_ptrs: 4,
        data_blk_min_elmts: 16,
        max_dblk_page_nelmts_bits: 10,
    };
    if let DataLayoutMessage::ChunkedV4 { earray_params, .. } = &mut d.layout {
        *earray_params = Some(p);
    }
    assert!(matches!(
        d.read_plan().unwrap(),
        ReadPlan::ExtensibleArray { index: 702, params, .. } if params == p
    ));
    let d = indexed(&[4, 6], &[2, 3], ChunkIndexType::Implicit, 703);
    assert_eq!(
        text(d.read_plan().unwrap_err()),
        "invalid state: unsupported chunk index type: Implicit"
    );
}

#[test]
fn old_chunked_datasets_use_their_tree() {
    let layout = DataLayoutMessage::ChunkedV3 { chunk_dims: vec![2, 2, 2], b_tree_address: 40 };
    let d = dataset(&[4, 4], layout);
    assert!(matches!(
        d.read_plan().unwrap(),
        ReadPlan::BTreeV1 { chunk_dims, index: 40 } if chunk_dims == vec![2, 2]
    ));
    let layout = DataLayoutMessage::ChunkedV3 { chunk_dims: vec![2, 2, 2], b_tree_address: 40 };
    assert_eq!(
        text(dataset(&[4], layout).read_plan().unwrap_err()),
        "invalid state: B-tree-v1 dataset rank 1 does not match chunk rank 2"
    );
    let layout =
        DataLayoutMessage::ChunkedV3 { chunk_dims: vec![2, 2], b_tree_address: UNDEF_ADDR };
    assert!(matches!(dataset(&[4], layout).read_plan().unwrap(), ReadPlan::Fill(8)));
}

#[test]
fn selections_are_checked() {
    assert!(check_selection(&[4, 6], &[1, 2], &[3, 4]).is_ok());
    assert_eq!(
        text(check_selection(&[4, 6], &[1], &[3]).unwrap_err()),
        "invalid state: starts/counts length must match dataset rank"
    );
    assert_eq!(
        text(check_selection(&[], &[], &[]).unwrap_err()),
        "invalid state: read_slice does not support scalar datasets; use read_dataset_raw"
    );
    assert_eq!(
        text(check_selection(&[4, 6], &[1, 3], &[3, 4]).unwrap_err()),
        "invalid state: slice out of bounds: dim 1 start 3 + count 4 > 6"
    );
    assert_eq!(
        text(check_selection(&[4], &[u64::MAX], &[2]).unwrap_err()),
        "invalid state: slice out of bounds: dim 0 start 18446744073709551615 + count 2 > 4"
    );
}

#[test]
fn a_selection_of_a_contiguous_dataset_is_read_by_rows() {
    let d = dataset(&[4, 6], DataLayoutMessage::Contiguous { address: 1000, size: 48 });
    match d.read_selection(&[1, 2], &[2, 3]).unwrap() {
        SelectionPlan::Rows(rows) => assert_eq!(rows, vec![range(1016, 6), range(1028, 6)]),
        p => panic!("{:?}", p),
    }
    let d = dataset(&[4, 6], DataLayoutMessage::Contiguous { address: UNDEF_ADDR, size: 48 });
    assert!(matches!(d.read_selection(&[0, 0], &[2, 3]).unwrap(), SelectionPlan::Fill(12)));
}

#[test]
fn only_whole_frames_are_read_one_by_one() {
    let d = indexed(&[9, 4, 6], &[1, 4, 6], ChunkIndexType::ExtensibleArray, 64);
    assert!(matches!(
        d.read_selection(&[2, 0, 0], &[3, 4, 6]).unwrap(),
        SelectionPlan::Frames
    ));
    let d = indexed(&[9, 4, 6], &[1, 2, 6], ChunkIndexType::ExtensibleArray, 64);
    assert!(matches!(
        d.read_selection(&[2, 0, 0], &[3, 4, 6]).unwrap(),
        SelectionPlan::Chunks
    ));
    let d = indexed(&[9, 4, 6], &[1, 4, 6], ChunkIndexType::FixedArray, 64);
    assert!(matches!(
        d.read_selection(&[2, 0, 0], &[3, 4, 6]).unwrap(),
        SelectionPlan::Whole
    ));
}

#[test]
fn missing_chunks_leave_the_fill_value() {
    let mut d = indexed(&[3, 3], &[2, 2], ChunkIndexType::FixedArray, 64);
    d.datatype = DatatypeMessage::u8_type();
    d.fill_value = Some(vec![9]);
    let chunks = vec![Some(vec![1, 2, 4, 5]), None, Some(vec![7, 8, 0, 0])];
    assert_eq!(d.assemble_numbered(&[2, 2], &chunks), vec![1, 2, 9, 4, 5, 9, 7, 8, 9]);
    let located = vec![LocatedChunk { coords: vec![1, 1], data: vec![6, 0, 0, 0] }];
    assert_eq!(d.assemble_located(&[2, 2], &located), vec![9, 9, 9, 9, 9, 9, 9, 9, 6]);
    d.fill_value = None;
    assert_eq!(d.assemble_located(&[2, 2], &Vec::new()), vec![0; 9]);
}

#[test]
fn reduced_precision_is_converted() {
    let dt = DatatypeMessage::FixedPoint {
        size: 2,
        byte_order: ByteOrder::LittleEndian,
        signed: true,
        bit_offset: 4,
        bit_precision: 8,
    };
    let stored = vec![0xf0, 0x0f, 0x50, 0x00];
    assert_eq!(apply_post_filter_conversion(stored, &dt).unwrap(), vec![0xff, 0xff, 5, 0]);
    let whole = vec![1, 2, 3, 4];
    let same = apply_post_filter_conversion(whole.clone(), &DatatypeMessage::i16_type());
    assert_eq!(same.unwrap(), whole);
}

fn fixed(client_id: u8, element_size: u8) -> FixedArrayHeader {
    FixedArrayHeader {
        client_id,
        element_size,
        max_dblk_page_nelmts_bits: 10,
        num_elmts: 4,
        data_blk_addr: 100,
    }
}

#[test]
fn fixed_array_headers_are_checked() {
    let s = check_fixed_array(&fixed(0, 8), &CTX, 2, 2).unwrap();
    assert_eq!((s.filtered, s.chunk_size_len, s.elem_size), (false, 0, 8));
    let s = check_fixed_array(&fixed(1, 14), &CTX, 2, 2).unwrap();
    assert_eq!((s.filtered, s.chunk_size_len, s.elem_size), (true, 2, 14));
    assert_eq!(
        text(check_fixed_array(&fixed(0, 8), &CTX, 3, 2).unwrap_err()),
        "invalid state: fixed-array dataset rank 3 does not match chunk rank 2"
    );
    assert_eq!(
        text(check_fixed_array(&fixed(1, 11), &CTX, 2, 2).unwrap_err()),
        "invalid state: fixed array filtered element_size too small"
    );
    assert_eq!(
        text(check_fixed_array(&fixed(1, 21), &CTX, 2, 2).unwrap_err()),
        "invalid state: fixed array filtered chunk-size width 9 exceeds 8 bytes"
    );
    assert!(check_chunk_extent(&[1, 2]).is_ok());
    assert_eq!(
        text(check_chunk_extent(&[1, 0]).unwrap_err()),
        "invalid state: fixed-array layout has a zero chunk dimension"
    );
}

#[test]
fn symbol_nodes_come_from_left_to_right() {
    let mut nodes = HashMap::new();
    nodes.insert(10, NameNode { level: 1, children: vec![20, 30] });
    let found = collect_snod_addresses(&nodes, 10);
    assert_eq!(found.need, Some(20));
    nodes.insert(20, NameNode { level: 0, children: vec![21, 22] });
    nodes.insert(30, NameNode { level: 0, children: vec![31] });
    let found = collect_snod_addresses(&nodes, 10);
    assert_eq!(found.need, None);
    assert_eq!(found.addrs, vec![21, 22, 31]);
    nodes.insert(30, NameNode { level: 1, children: vec![10] });
    assert_eq!(collect_snod_addresses(&nodes, 10).addrs, vec![21, 22]);
}

fn entry(offsets: &[u64], addr: u64, size: u64) -> TreeChunk {
    TreeChunk { offsets: offsets.to_vec(), addr, size, filter_mask: 0 }
}

#[test]
fn chunks_of_an_old_tree_are_found() {
    let mut nodes = HashMap::new();
    nodes.insert(
        10,
        ChunkNode { level: 1, entries: vec![entry(&[0, 0], 20, 0), entry(&[9, 0], 5000, 0)] },
    );
    assert!(matches!(
        collect_btree_v1_chunks(&nodes, 10, 1000).unwrap(),
        ChunksFound::Need(20)
    ));
    nodes.insert(
        20,
        ChunkNode { level: 0, entries: vec![entry(&[0, 0], 100, 8), entry(&[4, 0], 200, 8)] },
    );
    let found = match collect_btree_v1_chunks(&nodes, 10, 1000).unwrap() {
        ChunksFound::All(v) => v,
        ChunksFound::Need(a) => panic!("{}", a),
    };
    let at: Vec<u64> = found.iter().map(|c| c.addr).collect();
    assert_eq!(at, vec![100, 200]);
    let reads = tree_reads(&found, &[4], 1000);
    assert_eq!(reads.len(), 2);
    assert_eq!(reads[1].coords, vec![1]);
    assert_eq!(reads[1].range, range(200, 8));
    nodes.insert(20, ChunkNode { level: 1, entries: vec![entry(&[0, 0], 10, 0)] });
    assert_eq!(
        text(collect_btree_v1_chunks(&nodes, 10, 1000).err().unwrap()),
        "invalid state: chunk B-tree v1 exceeds maximum depth"
    );
}

#[test]
fn chunk_sizes_are_checked() {
    assert!(check_chunk_sizes(&vec![entry(&[0], 1, 8), entry(&[4], UNDEF_ADDR, 3)], 8).is_ok());
    assert_eq!(
        text(check_chunk_sizes(&vec![entry(&[0], 1, 8), entry(&[4], 2, 6)], 8).unwrap_err()),
        "invalid state: chunk B-tree v1: unfiltered chunk size 6 != expected 8"
    );
    assert_eq!(scaled_offsets(&[6, 5, 2], &[3, 0]), vec![2, 0]);
}

#[test]
fn records_of_a_node_come_before_those_below() {
    let root = NodeRef { addr: 1, depth: 1, nrec: 1 };
    let mut nodes = vec![RecordNode {
        node: root,
        records: vec![5],
        children: vec![ChildRef { addr: 2, nrec: 2 }, ChildRef { addr: 3, nrec: 1 }],
    }];
    let left = NodeRef { addr: 2, depth: 0, nrec: 2 };
    assert_eq!(collect_bt2_records(&nodes, root).need, Some(left));
    nodes.push(RecordNode { node: left, records: vec![1, 2], children: Vec::new() });
    nodes.push(RecordNode {
        node: NodeRef { addr: 3, depth: 0, nrec: 1 },
        records: vec![8],
        children: Vec::new(),
    });
    let all = collect_bt2_records(&nodes, root);
    assert_eq!(all.need, None);
    assert_eq!(all.bytes, vec![5, 1, 2, 8]);
    assert_eq!(record_count(17, 5), 3);
    assert_eq!(record_count(17, 0), 0);
}

fn object(index: u16, data: &[u8]) -> HeapObject {
    HeapObject { index, data: data.to_vec() }
}

#[test]
fn strings_are_taken_from_their_heaps() {
    let mut raw = encode_vlen_reference(2, 4096, 1, &CTX);
    raw.extend(encode_vlen_reference(0, UNDEF_ADDR, 0, &CTX));
    raw.extend(encode_vlen_reference(3, 8192, 2, &CTX));
    raw.extend(encode_vlen_reference(1, 300, 1, &CTX));
    let mut heaps = HashMap::new();
    assert_eq!(read_vlen_strings(&raw, &[4], &CTX, &heaps).need, Some(4096));
    heaps.insert(4096, Some(vec![object(1, b"hi")]));
    heaps.insert(8192, Some(vec![object(1, b"no"), object(2, &[0x66, 0xff, 0x67])]));
    heaps.insert(300, None);
    let found = read_vlen_strings(&raw, &[4], &CTX, &heaps);
    assert_eq!(found.need, None);
    assert_eq!(found.strings, vec!["hi", "", "f\u{fffd}g", ""]);
    assert_eq!(read_vlen_strings(&raw, &[2], &CTX, &heaps).strings, vec!["hi", ""]);
    assert_eq!(heap_string(Some(&vec![object(7, "gr\u{fc}n".as_bytes())]), 7), "gr\u{fc}n");
}

#[test]
fn string_attributes_are_here_or_in_a_heap() {
    let r = Hdf5Reader {
        ctx: CTX,
        datasets: Vec::new(),
        root_attributes: vec![AttributeMessage::scalar_string("note", "a text")],
        group_attributes: Vec::new(),
        group_paths: Vec::new(),
    };
    let a = r.root_attr("note").unwrap();
    assert!(matches!(r.attr_string_value(a), StringValue::Here(s) if s == "a text"));
    assert!(r.root_attr("other").is_none());
    let v = AttributeMessage {
        name: "v".to_string(),
        datatype: DatatypeMessage::vlen_string_utf8(),
        dataspace: DataspaceMessage::scalar(),
        data: encode_vlen_reference(5, 77, 3, &CTX),
    };
    assert!(matches!(
        r.attr_string_value(&v),
        StringValue::InHeap { addr: 77, index: 3 }
    ));
}

#[test]
fn what_is_not_there_is_not_found() {
    let mut r = Hdf5Reader {
        ctx: CTX,
        datasets: vec![dataset(&[3], DataLayoutMessage::Compact { data: vec![0; 6] })],
        root_attributes: Vec::new(),
        group_attributes: Vec::new(),
        group_paths: vec!["g".to_string()],
    };
    r.datasets[0].attributes.push(AttributeMessage::scalar_string("a", "x"));
    assert_eq!(text(r.dataset_shape("e").unwrap_err()), "not found: e");
    assert_eq!(text(r.read_dataset_raw("e").unwrap_err()), "not found: e");
    assert_eq!(text(r.dataset_attr("d", "b").unwrap_err()), "not found: d:b");
    assert_eq!(r.dataset_attr_names("d").unwrap(), vec!["a"]);
    assert_eq!(r.dataset_element_size("d").unwrap(), 2);
    assert!(r.has_group("g"));
    assert!(!r.has_group("h"));
}

#[test]
fn pieces_lie_within_the_file() {
    let s = FileSpan { base_offset: 0, file_len: 100 }.with_base_offset(10);
    assert_eq!(s.read_at(20, 30).unwrap(), FilePiece { offset: 30, len: 30 });
    assert_eq!(s.read_at(20, 70).unwrap(), FilePiece { offset: 30, len: 70 });
    assert_eq!(
        text(s.read_at(20, 71).unwrap_err()),
        "io: read past end: offset=20 physical_offset=30 len=71 file_size=100"
    );
    assert_eq!(s.read_at_most(80, 64).unwrap().len, 10);
    assert_eq!(
        text(s.physical_offset(u64::MAX).unwrap_err()),
        "io: file offset overflow: base=10 offset=18446744073709551615"
    );
    assert_eq!(s.physical_offset(5).unwrap(), 15);
}

#[test]
fn mapped_files_are_read_in_place() {
    let map = [1, 2, 3, 4, 5];
    assert_eq!(mapped_read_at(&map, 1, 3).unwrap(), &[2, 3, 4]);
    assert_eq!(
        text(mapped_read_at(&map, 3, 3).unwrap_err()),
        "io: mmap read past end: offset=3 len=3 file_size=5"
    );
    assert_eq!(mapped_read_at_most(&map, 3, 9), &[4, 5]);
    assert_eq!(mapped_read_at_most(&map, 5, 9), &[] as &[u8]);
}

#[test]
fn continued_headers_are_joined() {
    let mut h = ObjectHeader::new();
    let mut place = 500u64.to_le_bytes().to_vec();
    place.extend(30u64.to_le_bytes());
    h.add_message(0x10, 0, place);
    let mut walk = HeaderWalk::start(h, true, &CTX);
    let next = walk.next().unwrap();
    assert_eq!((next.addr, next.len), (500, 30));
    let mut block = b"OCHK".to_vec();
    block.extend([0x0c, 3, 0, 0, 7, 8, 9]);
    block.extend([0, 0, 0, 0]);
    walk.supply(&block);
    assert!(walk.next().is_none());
    assert_eq!(
        walk.header.messages.last().unwrap(),
        &ObjectHeaderMessage { msg_type: 0x0c, flags: 0, data: vec![7, 8, 9] }
    );
}

#[test]
fn short_headers_ask_for_more() {
    let mut h = ObjectHeader::new();
    h.add_message(1, 0, vec![1; 300]);
    let all = h.encode();
    assert!(matches!(
        probe_header(&all[..100], true).unwrap(),
        HeaderProbe::ReadMore(n) if n >= all.len()
    ));
    assert!(matches!(
        probe_header(&all, true).unwrap(),
        HeaderProbe::Found(found, true) if found == h
    ));
    assert!(matches!(
        probe_header(&[0x7f; 64], true),
        Err(FormatError::InvalidVersion(0x7f))
    ));
}

#[test]
fn a_superblock_may_stand_behind_a_user_block() {
    let mut file = vec![0u8; 2048];
    file[1024..1032].copy_from_slice(b"\x89HDF\r\n\x1a\n");
    assert_eq!(find_superblock(&file), 1024);
    file[512..520].copy_from_slice(b"\x89HDF\r\n\x1a\n");
    assert_eq!(find_superblock(&file), 512);
    assert_eq!(find_superblock(&[0u8; 2048]), 0);
}

fn message(msg_type: u8, body: MessageBody) -> DecodedMessage {
    DecodedMessage { msg_type, body: Some(body) }
}

fn dataset_node() -> ObjectNode {
    ObjectNode {
        messages: vec![
            message(0x01, MessageBody::Dataspace(DataspaceMessage::simple(&[2]))),
            message(0x03, MessageBody::Datatype(DatatypeMessage::u8_type())),
            message(
                0x08,
                MessageBody::DataLayout(DataLayoutMessage::Contiguous { address: 900, size: 2 }),
            ),
        ],
        btree: UNDEF_ADDR,
        heap: UNDEF_ADDR,
    }
}

fn symbol(name: &str, addr: u64) -> SymbolEntry {
    SymbolEntry { name: name.to_string(), addr, cached: false, btree: 0, heap: 0 }
}

#[test]
fn old_files_are_opened_by_their_symbol_tables() {
    let sb = SuperblockV0V1 {
        version: 0,
        sizeof_offsets: 8,
        sizeof_lengths: 8,
        file_consistency_flags: 0,
        sym_leaf_k: 4,
        btree_internal_k: 16,
        indexed_storage_k: None,
        base_address: 0,
        superblock_extension_address: UNDEF_ADDR,
        end_of_file_address: 4096,
        driver_info_address: UNDEF_ADDR,
        root_symbol_table_entry: SymbolTableEntry {
            name_offset: 0,
            obj_header_addr: 96,
            cache_type: 1,
            btree_addr: 136,
            heap_addr: 680,
        },
    };
    let root = ObjectNode { messages: Vec::new(), btree: 136, heap: 680 };
    let mut o = Objects { nodes: HashMap::new(), tables: Vec::new() };
    assert!(matches!(
        Hdf5Reader::open_v0v1(&sb, Some(&root), &o),
        Opened::Need(ReadRequest::Table { btree: 136, heap: 680 })
    ));
    o.tables.push(SymbolTable {
        btree: 136,
        heap: 680,
        entries: vec![symbol("top", 800), symbol("g", 1400)],
    });
    assert!(matches!(
        Hdf5Reader::open_v0v1(&sb, Some(&root), &o),
        Opened::Need(ReadRequest::Object(800))
    ));
    o.nodes.insert(800, Some(dataset_node()));
    o.nodes.insert(
        1400,
        Some(ObjectNode {
            messages: vec![message(
                0x0c,
                MessageBody::Attribute(AttributeMessage::scalar_string("why", "so")),
            )],
            btree: 1500,
            heap: 1600,
        }),
    );
    o.tables.push(SymbolTable {
        btree: 1500,
        heap: 1600,
        entries: vec![symbol("inner", 2000), symbol("lost", 2400)],
    });
    o.nodes.insert(2000, Some(dataset_node()));
    o.nodes.insert(2400, None);
    let r = match Hdf5Reader::open_v0v1(&sb, Some(&root), &o) {
        Opened::Reader(r) => r,
        Opened::Need(q) => panic!("{:?}", q),
    };
    assert_eq!(r.dataset_names(), vec!["top", "g/inner"]);
    assert_eq!(r.dataset_shape("g/inner").unwrap(), vec![2]);
    assert_eq!(r.group_paths(), &vec!["g".to_string()]);
    assert_eq!(r.group_attr_names("g"), vec!["why"]);
}
