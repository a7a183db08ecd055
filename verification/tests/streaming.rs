//! Streams of frames, and what their writer and reader refuse.

use rust_hdf5::format::messages::attribute::AttributeMessage;
use rust_hdf5::format::messages::data_layout::DataLayoutMessage;
use rust_hdf5::format::messages::dataspace::DataspaceMessage;
use rust_hdf5::format::messages::datatype::DatatypeMessage;
use rust_hdf5::format::messages::filter::FilterPipeline;
use rust_hdf5::format::FormatContext;
use rust_hdf5::io::locking::FileLocking;
use rust_hdf5::io::reader::catalog::{GroupAttributes, StringValue};
use rust_hdf5::io::reader::data::ReadPlan;
use rust_hdf5::io::reader::messages::DatasetReadInfo;
use rust_hdf5::io::reader::selection::SelectionPlan;
use rust_hdf5::io::reader::Hdf5Reader;
use rust_hdf5::io::stream::assemble_band;
use rust_hdf5::io::swmr::{
    validate_frame_chunk, validate_streaming_chunk, FlushStep, SwmrWriter,
};
use rust_hdf5::io::writer::vlen::HeapImage;
use rust_hdf5::io::writer::Hdf5Writer;
use rust_hdf5::io::IoError;
use rust_hdf5::swmr::reader::SwmrFileReader;
use rust_hdf5::swmr::{bytes_to_typed, slice_to_bytes, SwmrFileWriter};

fn text(e: IoError) -> String {
    match e {
        IoError::Io(m) => format!("io: {}", m),
        IoError::Format(f) => format!("format: {:?}", f),
        IoError::NotFound(m) => format!("not found: {}", m),
        IoError::InvalidState(m) => format!("invalid state: {}", m),
    }
}

#[test]
fn typed_values_are_bytes() {
    let b = slice_to_bytes(&[1u16, 0x203]);
    assert_eq!(b, vec![1, 0, 3, 2]);
    assert_eq!(bytes_to_typed::<u16>(&b).unwrap(), vec![1, 0x203]);
    assert_eq!(
        text(bytes_to_typed::<u16>(&[1, 2, 3]).unwrap_err()),
        "invalid state: raw data size 3 is not a multiple of element size 2"
    );
}

#[test]
fn tile_shapes_are_checked() {
    assert!(validate_frame_chunk(&[4, 6], &[2, 3]).is_ok());
    assert_eq!(
        text(validate_frame_chunk(&[4, 6], &[2]).unwrap_err()),
        "invalid state: frame_chunk rank 1 does not match frame_dims rank 2"
    );
    assert_eq!(
        text(validate_frame_chunk(&[4, 6], &[2, 0]).unwrap_err()),
        "invalid state: frame_chunk dimensions must be non-zero"
    );
    assert_eq!(
        text(validate_frame_chunk(&[4, 0], &[2, 3]).unwrap_err()),
        "invalid state: frame_dims dimensions must be non-zero"
    );
    assert!(validate_streaming_chunk(&[4, 6], &[2, 2, 3]).is_ok());
    assert_eq!(
        text(validate_streaming_chunk(&[4, 6], &[2, 3]).unwrap_err()),
        "invalid state: chunk rank 2 must be the frame rank + 1 (3)"
    );
    assert_eq!(
        text(validate_streaming_chunk(&[4, 6], &[0, 2, 3]).unwrap_err()),
        "invalid state: chunk dimensions must be non-zero"
    );
    assert_eq!(
        text(validate_streaming_chunk(&[0, 6], &[1, 2, 3]).unwrap_err()),
        "invalid state: frame_dims dimensions must be non-zero"
    );
}

#[test]
fn frames_have_their_size() {
    let mut s = SwmrWriter::create();
    let i = s.create_streaming_dataset("f", DatatypeMessage::u8_type(), &[2, 2]).unwrap();
    assert_eq!(
        text(s.append_frame(i, &[1, 2, 3]).unwrap_err()),
        "invalid state: append_frame: data is 3 bytes, expected 4 for one frame"
    );
    let writes = s.append_frame(i, &[1, 2, 3, 4]).unwrap();
    assert_eq!(writes.len(), 1);
    assert_eq!((writes[0].chunk_idx, &writes[0].data[..]), (0, &[1u8, 2, 3, 4][..]));
    assert_eq!(s.append_frame(i, &[5, 6, 7, 8]).unwrap()[0].chunk_idx, 1);
    assert_eq!(s.writer.dataset_dims(i), &[2, 2, 2]);
    let c = s.writer.create_dataset("c", DatatypeMessage::u8_type(), &[3, 1]).unwrap();
    assert_eq!(
        text(s.append_frame(c, &[1]).unwrap_err()),
        "invalid state: append_frame requires a chunked dataset"
    );
}

#[test]
fn bands_wait_until_they_are_full() {
    let mut s = SwmrWriter::create();
    let t = DatatypeMessage::u8_type();
    let i = s.create_streaming_dataset_chunked("f", t, &[3], &[2, 2]).unwrap();
    assert!(s.append_frame(i, &[1, 2, 3]).unwrap().is_empty());
    let writes = s.append_frame(i, &[4, 5, 6]).unwrap();
    assert_eq!(writes.len(), 2);
    assert_eq!((writes[0].chunk_idx, &writes[0].data[..]), (0, &[1u8, 2, 4, 5][..]));
    assert_eq!((writes[1].chunk_idx, &writes[1].data[..]), (1, &[3u8, 0, 6, 0][..]));
    assert!(s.append_frame(i, &[7, 8, 9]).unwrap().is_empty());
    let last = s.close_bands();
    assert_eq!(last.len(), 1);
    assert_eq!(last[0].ds_index, i);
    assert_eq!(last[0].writes[0].chunk_idx, 2);
    assert_eq!(last[0].writes[0].data, vec![7, 8, 0, 0]);
    let band = assemble_band(&vec![vec![1, 2, 3], vec![4, 5, 6]], 2, &[3], &[2], 1, None, 4);
    assert_eq!(band[1].chunk_idx, 9);
    assert_eq!(band[1].data, vec![3, 0, 6, 0]);
}

#[test]
fn unfinished_bands_hold_the_fill_value() {
    let mut w = SwmrFileWriter::create_with_locking(FileLocking::Enabled);
    let i = w.create_streaming_dataset_chunked::<u8>("f", &[2], &[2, 2]).unwrap();
    assert!(w.set_dataset_fill_value(i, &9u8).unwrap().is_none());
    assert!(w.append_frame(i, &[1, 2]).unwrap().is_empty());
    let last = w.close();
    assert_eq!(last.len(), 1);
    assert_eq!(last[0].writes[0].chunk_idx, 0);
    assert_eq!(last[0].writes[0].data, vec![1, 2, 9, 9]);
    let frames = vec![vec![1, 0, 2, 0, 3, 0]];
    let band = assemble_band(&frames, 2, &[3], &[2], 2, Some(&[7, 8]), 0);
    assert_eq!(band[0].data, vec![1, 0, 2, 0, 7, 8, 7, 8]);
    assert_eq!(band[1].data, vec![3, 0, 7, 8, 7, 8, 7, 8]);
}

#[test]
fn reopened_bands_cannot_go_on() {
    let mut s = SwmrWriter::create();
    let t = DatatypeMessage::u8_type();
    s.create_streaming_dataset_chunked("f", t, &[3], &[2, 3]).unwrap();
    let mut again = SwmrWriter::open_append(s.writer);
    assert_eq!(
        text(again.append_frame(0, &[1, 2, 3]).unwrap_err()),
        "invalid state: dataset 0 uses multi-frame chunks (chunk[0] = 2); appending to it after \
         open_append is not supported"
    );
}

#[test]
fn indexes_are_flushed_before_headers() {
    let mut s = SwmrWriter::create();
    let t = DatatypeMessage::u8_type();
    let i = s.create_streaming_dataset("f", t, &[2]).unwrap();
    for step in s.start_swmr() {
        if let rust_hdf5::io::writer::finish::FinalStep::DatasetHeader(k) = step {
            s.writer.place_dataset_header(k, 512, true);
        }
    }
    let steps = s.flush();
    let index = steps.iter().position(|x| *x == FlushStep::Index(i)).unwrap();
    let header = steps.iter().position(|x| *x == FlushStep::Header(i)).unwrap();
    assert!(index < header);
    assert_eq!(steps.last(), Some(&FlushStep::Sync));
}

#[test]
fn the_writer_creates_typed_streams() {
    let mut w = SwmrFileWriter::create(Some("FALSE"));
    assert_eq!(w.locking, FileLocking::Disabled);
    let a = w.create_streaming_dataset::<u16>("a", &[2]).unwrap();
    let b = w.create_streaming_dataset_tiled::<u8>("b", &[4, 4], &[2, 2]).unwrap();
    let c = w.create_streaming_dataset_chunked::<u8>("c", &[4], &[3, 2]).unwrap();
    let p = FilterPipeline::deflate(1);
    let d = w.create_streaming_dataset_compressed::<u8>("d", &[4], p).unwrap();
    assert_eq!((a, b, c, d), (0, 1, 2, 3));
    assert_eq!(w.dataset_index("c"), Some(2));
    assert_eq!(w.dataset_index("e"), None);
    assert_eq!(
        text(w.create_streaming_dataset::<u8>("a", &[2]).unwrap_err()),
        "invalid state: a dataset named 'a' already exists"
    );
    assert_eq!(w.inner.writer.dataset_chunk_dims(b).unwrap(), &[1, 2, 2]);
    assert_eq!(w.inner.writer.dataset_chunk_dims(c).unwrap(), &[3, 2]);
    assert!(w.inner.writer.datasets[d].filter_pipeline.is_some());
    assert_eq!(w.append_frame(a, &[1, 0, 2, 0]).unwrap()[0].data, vec![1, 0, 2, 0]);
    assert_eq!(w.append_frame(b, &[0; 16]).unwrap().len(), 4);
}

#[test]
fn the_writer_writes_whole_datasets() {
    let mut w = SwmrFileWriter::create_with_locking(FileLocking::Enabled);
    let whole = w.write_dataset("d", &[2, 2], &[1u16, 2, 3, 4]).unwrap();
    let write = whole.write.unwrap();
    assert_eq!(write.bytes, vec![1, 0, 2, 0, 3, 0, 4, 0]);
    assert_eq!(write.at, w.inner.writer.datasets[whole.index].data_addr);
    let empty = w.write_dataset::<u16>("none", &[0, 2], &[]).unwrap();
    assert!(empty.write.is_none());
    assert_eq!(w.dataset_index("none"), Some(empty.index));
    assert_eq!(
        text(w.write_dataset("e", &[2, 2], &[1u16, 2, 3]).err().unwrap()),
        "invalid state: write_dataset: data has 3 elements but shape [2, 2] needs 4"
    );
    let heap = HeapImage { indices: vec![1], size: 40 };
    let plan = w.write_string_dataset("s", &["x"], &heap).unwrap();
    assert_eq!(plan.raw.len(), 16);
    w.create_group("/", "g").unwrap();
    w.assign_dataset_to_group("/g", whole.index).unwrap();
    w.create_hard_link("/g", "again", "d").unwrap();
    w.set_group_attr_string("/g", "unit", "mm").unwrap();
    w.set_group_attr_numeric("/g", "n", &5u8).unwrap();
    w.set_dataset_attr_string(whole.index, "unit", "m").unwrap();
    w.set_dataset_attr_numeric(whole.index, "k", &7i32).unwrap();
    assert_eq!(w.inner.writer.datasets[whole.index].attributes[1].data, vec![7, 0, 0, 0]);
    assert_eq!(w.inner.writer.groups[0].attributes.len(), 2);
    let fill = w.set_dataset_fill_value(whole.index, &9u16).unwrap().unwrap();
    assert_eq!(fill.bytes, vec![9, 0, 9, 0, 9, 0, 9, 0]);
}

#[test]
fn the_writer_goes_on_with_a_file() {
    let mut first = Hdf5Writer::new();
    first.create_dataset("d", DatatypeMessage::u8_type(), &[1]).unwrap();
    let w = SwmrFileWriter::open_append(first, Some("BEST_EFFORT"));
    assert_eq!(w.locking, FileLocking::BestEffort);
    assert_eq!(w.dataset_index("d"), Some(0));
    assert!(!w.inner.swmr_active);
}

fn reader() -> SwmrFileReader {
    let d = DatasetReadInfo {
        name: "g/d".to_string(),
        datatype: DatatypeMessage::u16_type(),
        dataspace: DataspaceMessage::simple(&[3]),
        layout: DataLayoutMessage::Compact { data: vec![1, 0, 2, 0, 3, 0] },
        filter_pipeline: None,
        attributes: vec![AttributeMessage::scalar_string("unit", "mm")],
        fill_value: None,
    };
    let r = Hdf5Reader {
        ctx: FormatContext { sizeof_addr: 8, sizeof_size: 8 },
        datasets: vec![d],
        root_attributes: vec![AttributeMessage::scalar_string("title", "t")],
        group_attributes: vec![GroupAttributes {
            path: "g".to_string(),
            attributes: vec![AttributeMessage::scalar_string("note", "n")],
        }],
        group_paths: vec!["h".to_string(), "g".to_string()],
    };
    SwmrFileReader::open(r, None)
}

#[test]
fn the_reader_reads_typed_values() {
    let r = reader();
    assert_eq!(r.dataset_names(), vec!["g/d"]);
    assert_eq!(r.dataset_shape("g/d").unwrap(), vec![3]);
    assert_eq!(r.dataset_element_size("g/d").unwrap(), 2);
    let raw = match r.read_dataset_raw("g/d").unwrap() {
        ReadPlan::Bytes(b) => b,
        p => panic!("{:?}", p),
    };
    assert_eq!(r.read_dataset::<u16>(&raw).unwrap(), vec![1, 2, 3]);
    let part = match r.read_slice_raw("g/d", &[1], &[2]).unwrap() {
        SelectionPlan::Bytes(b) => b,
        p => panic!("{:?}", p),
    };
    assert_eq!(r.read_slice::<u16>(&part).unwrap(), vec![2, 3]);
    assert_eq!(text(r.read_dataset_raw("x").unwrap_err()), "not found: x");
}

#[test]
fn the_reader_lists_groups_and_attributes() {
    let r = reader();
    assert_eq!(r.locking, FileLocking::Enabled);
    assert_eq!(r.group_paths(), vec!["g", "h"]);
    assert!(r.has_group("g"));
    assert!(!r.has_group("i"));
    assert_eq!(r.dataset_attr_names("g/d").unwrap(), vec!["unit"]);
    assert!(matches!(
        r.dataset_attr_string("g/d", "unit").unwrap(),
        StringValue::Here(s) if s == "mm"
    ));
    assert_eq!(r.group_attr_names("g"), vec!["note"]);
    assert!(matches!(
        r.group_attr_string("g", "note").unwrap(),
        StringValue::Here(s) if s == "n"
    ));
    assert!(matches!(
        r.group_attr_string("/", "title").unwrap(),
        StringValue::Here(s) if s == "t"
    ));
    assert_eq!(text(r.group_attr_string("g", "x").unwrap_err()), "not found: x");
}
