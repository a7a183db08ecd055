//! Groups of an open file.

use rust_hdf5::format::messages::attribute::AttributeMessage;
use rust_hdf5::format::messages::data_layout::DataLayoutMessage;
use rust_hdf5::format::messages::dataspace::DataspaceMessage;
use rust_hdf5::format::messages::datatype::DatatypeMessage;
use rust_hdf5::format::FormatContext;
use rust_hdf5::group::{FileState, H5Group};
use rust_hdf5::io::reader::catalog::{GroupAttributes, StringValue};
use rust_hdf5::io::reader::messages::DatasetReadInfo;
use rust_hdf5::io::reader::Hdf5Reader;
use rust_hdf5::io::writer::vlen::HeapImage;
use rust_hdf5::io::writer::Hdf5Writer;
use rust_hdf5::io::IoError;

fn text(e: IoError) -> String {
    match e {
        IoError::Io(m) => format!("io: {}", m),
        IoError::Format(f) => format!("format: {:?}", f),
        IoError::NotFound(m) => format!("not found: {}", m),
        IoError::InvalidState(m) => format!("invalid state: {}", m),
    }
}

fn written() -> FileState {
    FileState::Writer(Hdf5Writer::new())
}

fn dataset(name: &str) -> DatasetReadInfo {
    DatasetReadInfo {
        name: name.to_string(),
        datatype: DatatypeMessage::u8_type(),
        dataspace: DataspaceMessage::simple(&[1]),
        layout: DataLayoutMessage::Compact { data: vec![1] },
        filter_pipeline: None,
        attributes: Vec::new(),
        fill_value: None,
    }
}

fn read() -> FileState {
    FileState::Reader(Hdf5Reader {
        ctx: FormatContext { sizeof_addr: 8, sizeof_size: 8 },
        datasets: vec![dataset("top"), dataset("g/d"), dataset("g/h/e")],
        root_attributes: vec![AttributeMessage::scalar_string("title", "t")],
        group_attributes: vec![GroupAttributes {
            path: "g".to_string(),
            attributes: vec![AttributeMessage::scalar_string("note", "n")],
        }],
        group_paths: vec!["z".to_string(), "g".to_string(), "g/h".to_string()],
    })
}

#[test]
fn groups_are_created_below_groups() {
    let mut f = written();
    let root = H5Group::root();
    assert_eq!(root.name(), "/");
    let g = root.create_group(&mut f, "g").unwrap();
    assert_eq!(g.name(), "/g");
    let h = g.create_group(&mut f, "h").unwrap();
    assert_eq!(h.name(), "/g/h");
    assert_eq!(
        text(root.create_group(&mut f, "g").unwrap_err()),
        "invalid state: group '/g' already exists"
    );
    let b = h.new_dataset::<u16>();
    assert_eq!(b.group, "/g/h");
    assert_eq!(b.datatype, DatatypeMessage::u16_type());
    assert_eq!(root.group(&f, "g").unwrap().name(), "/g");
}

#[test]
fn a_written_group_lists_what_is_in_it() {
    let mut f = written();
    let root = H5Group::root();
    let g = root.create_group(&mut f, "g").unwrap();
    let heap = HeapImage { indices: vec![1], size: 40 };
    let plan = g.write_vlen_strings(&mut f, "s", &["x"], &heap).unwrap();
    assert_eq!(plan.raw.len(), 16);
    g.create_appendable_vlen_dataset(&mut f, "t", 2, None).unwrap();
    let more = g.append_vlen_strings(&mut f, "t", &["y"], &heap).unwrap().unwrap();
    assert_eq!(more.new_dims, vec![1]);
    assert_eq!(
        text(g.append_vlen_strings(&mut f, "u", &["y"], &heap).unwrap_err()),
        "not found: g/u"
    );
    assert_eq!(g.dataset_names(&f), vec!["s", "t"]);
    assert_eq!(root.dataset_names(&f), Vec::<String>::new());
    assert_eq!(root.group_names(&f), vec!["g"]);
    g.link(&mut f, "again", "g/s").unwrap();
    g.set_attr_string(&mut f, "unit", "mm").unwrap();
    g.set_attr_numeric(&mut f, "n", &3u8).unwrap();
    root.set_attr_string(&mut f, "title", "t").unwrap();
    if let FileState::Writer(w) = &f {
        assert_eq!(w.groups[0].attributes.len(), 2);
        assert_eq!(w.root_attributes.len(), 1);
        assert_eq!(w.hard_links.len(), 1);
    }
    assert_eq!(
        text(g.attr_names(&f).unwrap_err()),
        "invalid state: attr_names is only available in read mode"
    );
    assert_eq!(
        text(g.attr_string(&f, "unit").unwrap_err()),
        "invalid state: attr_string is only available in read mode"
    );
}

#[test]
fn groups_without_datasets_are_listed() {
    let mut f = written();
    let root = H5Group::root();
    let a = root.create_group(&mut f, "b").unwrap();
    root.create_group(&mut f, "a").unwrap();
    a.create_group(&mut f, "c").unwrap();
    assert_eq!(root.group_names(&f), vec!["a", "b"]);
    assert_eq!(a.group_names(&f), vec!["c"]);
    if let FileState::Writer(w) = &mut f {
        w.delete_group("a").unwrap();
    }
    assert_eq!(root.group_names(&f), vec!["b"]);
}

#[test]
fn names_of_string_datasets_are_taken_once() {
    let mut f = written();
    let g = H5Group::root().create_group(&mut f, "g").unwrap();
    let heap = HeapImage { indices: vec![1], size: 40 };
    g.write_vlen_strings(&mut f, "s", &["x"], &heap).unwrap();
    assert_eq!(
        text(g.write_vlen_strings(&mut f, "s", &["x"], &heap).unwrap_err()),
        "invalid state: a dataset named 'g/s' already exists"
    );
}

#[test]
fn a_read_group_lists_what_is_in_it() {
    let f = read();
    let root = H5Group::root();
    let g = root.group(&f, "g").unwrap();
    assert_eq!(root.dataset_names(&f), vec!["top"]);
    assert_eq!(g.dataset_names(&f), vec!["d"]);
    assert_eq!(root.group_names(&f), vec!["g", "z"]);
    assert_eq!(g.group_names(&f), vec!["h"]);
    assert_eq!(g.attr_names(&f).unwrap(), vec!["note"]);
    assert!(matches!(g.attr_string(&f, "note").unwrap(), StringValue::Here(s) if s == "n"));
    assert!(matches!(root.attr_string(&f, "title").unwrap(), StringValue::Here(s) if s == "t"));
    assert_eq!(text(g.attr_string(&f, "x").unwrap_err()), "not found: x");
    assert_eq!(text(root.group(&f, "q").unwrap_err()), "not found: /q");
}

#[test]
fn a_read_group_is_not_written() {
    let mut f = read();
    let root = H5Group::root();
    let heap = HeapImage { indices: vec![1], size: 40 };
    assert_eq!(
        text(root.create_group(&mut f, "n").unwrap_err()),
        "invalid state: cannot create groups in read mode"
    );
    assert_eq!(
        text(root.link(&mut f, "l", "top").unwrap_err()),
        "invalid state: cannot create hard links in read mode"
    );
    assert_eq!(
        text(root.write_vlen_strings(&mut f, "s", &["x"], &heap).unwrap_err()),
        "invalid state: cannot write in read mode"
    );
    assert_eq!(
        text(root.append_vlen_strings(&mut f, "s", &["x"], &heap).unwrap_err()),
        "invalid state: cannot write in read mode"
    );
    assert_eq!(
        text(root.set_attr_string(&mut f, "a", "b").unwrap_err()),
        "invalid state: cannot write attributes in read mode"
    );
}

#[test]
fn a_closed_file_holds_nothing() {
    let mut f = FileState::Closed;
    let root = H5Group::root();
    assert!(root.dataset_names(&f).is_empty());
    assert!(root.group_names(&f).is_empty());
    assert_eq!(
        text(root.create_group(&mut f, "n").unwrap_err()),
        "invalid state: file is closed"
    );
    assert_eq!(
        text(root.set_attr_numeric(&mut f, "n", &1u8).unwrap_err()),
        "invalid state: file is closed"
    );
}
