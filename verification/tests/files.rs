//! Whole files, written and read back in memory.

use rust_hdf5::format::chunk_index::extensible_array::EaGeometry;
use rust_hdf5::format::chunk_index::fixed_array::FixedArrayHeader;
use rust_hdf5::format::global_heap::HeapObject;
use rust_hdf5::format::messages::attribute::AttributeMessage;
use rust_hdf5::format::messages::datatype::DatatypeMessage;
use rust_hdf5::format::messages::fill_value::tiled_fill;
use rust_hdf5::format::UNDEF_ADDR;
use rust_hdf5::io::ea::{
    collect_entries, ChunkEntry, EaBlocks, EaFound, EaIndexBlock, EaSuperBlock, EaWalk, EaWidths,
    ExtensibleArrayHeader,
};
use rust_hdf5::io::reader::chunked::{
    array_ranges, saturating_byte_len, saturating_count, LocatedChunk, ReadRange,
};
use rust_hdf5::io::reader::data::ReadPlan;
use rust_hdf5::io::reader::fixed::{
    check_array_fits, check_chunk_extent, check_fixed_array, fixed_ranges, read_fixed_array,
    FixedStep,
};
use rust_hdf5::io::reader::headers::{read_superblock, Superblock};
use rust_hdf5::io::reader::messages::DecodedMessage;
use rust_hdf5::io::reader::open::Opened;
use rust_hdf5::io::reader::strings::read_vlen_strings;
use rust_hdf5::io::reader::selection::{copy_frames, frame_ranges, touched_ranges, SelectionPlan};
use rust_hdf5::io::reader::trees::{record_reads, TreeChunk};
use rust_hdf5::io::reader::walk::{ObjectNode, Objects};
use rust_hdf5::io::reader::Hdf5Reader;
use rust_hdf5::io::slices::extract_slice;
use rust_hdf5::io::stream::ChunkWrite;
use rust_hdf5::io::swmr::{FlushStep, SwmrWriter};
use rust_hdf5::io::tiles::chunk_grid;
use rust_hdf5::io::writer::finish::{FinalStep, IndexWrite};
use rust_hdf5::io::writer::headers::HeaderItem;
use rust_hdf5::io::writer::reopen::{check_appendable, IndexImage, Reopened};
use rust_hdf5::io::writer::storage::ChunkStep;
use rust_hdf5::io::writer::vlen::HeapImage;
use rust_hdf5::io::writer::Hdf5Writer;
use std::collections::HashMap;

/// Entries as they are in a file: without filters, addresses only.
fn addresses(es: &[ChunkEntry]) -> Vec<ChunkEntry> {
    es.iter().map(|e| ChunkEntry { addr: e.addr, nbytes: 0, filter_mask: 0 }).collect()
}

/// The index of a dataset as it was flushed.
struct Index {
    header: ExtensibleArrayHeader,
    block: EaIndexBlock,
    supers: Vec<(u64, Vec<u64>, Vec<u8>)>,
    data: Vec<(u64, Vec<ChunkEntry>)>,
}

/// A file in memory. Object headers are kept as their messages.
struct Disk {
    image: Vec<u8>,
    objects: Objects,
    arrays: HashMap<u64, Index>,
    fixed: HashMap<u64, FixedArrayHeader>,
    trees: HashMap<u64, Vec<(Vec<u64>, u64)>>,
    superblock: Vec<u8>,
}

const HEADER_SIZE: usize = 512;

fn node(items: Vec<HeaderItem>) -> Option<ObjectNode> {
    let mut messages = Vec::new();
    for i in items {
        messages.push(DecodedMessage { msg_type: i.msg_type, body: Some(i.body) });
    }
    Some(ObjectNode { messages, btree: UNDEF_ADDR, heap: UNDEF_ADDR })
}

impl Disk {
    fn new() -> Disk {
        Disk {
            image: Vec::new(),
            objects: Objects { nodes: HashMap::new(), tables: Vec::new() },
            arrays: HashMap::new(),
            fixed: HashMap::new(),
            trees: HashMap::new(),
            superblock: Vec::new(),
        }
    }

    fn put(&mut self, at: u64, bytes: &[u8]) {
        let end = at as usize + bytes.len();
        if self.image.len() < end {
            self.image.resize(end, 0);
        }
        self.image[at as usize..end].copy_from_slice(bytes);
    }

    fn get(&self, r: &ReadRange) -> Vec<u8> {
        let from = r.addr as usize;
        let mut to = from + r.len as usize;
        if !r.exact && to > self.image.len() {
            to = self.image.len();
        }
        self.image[from..to].to_vec()
    }

    fn flush_index(&mut self, w: &mut Hdf5Writer, i: usize) {
        match w.flush_dataset(i) {
            IndexWrite::Array { block, header, filtered } => {
                let c = w.datasets[i].chunked.as_ref().unwrap();
                assert_eq!(block, c.ea_iblk_addr);
                assert!(!filtered);
                let index = Index {
                    header: c.ea_header,
                    block: EaIndexBlock {
                        elements: addresses(&c.ea_iblk.elements),
                        dblk_addrs: c.ea_iblk.dblk_addrs.clone(),
                        sblk_addrs: c.ea_iblk.sblk_addrs.clone(),
                    },
                    supers: c
                        .blocks
                        .supers
                        .iter()
                        .map(|(a, s)| (*a, s.dblk_addrs.clone(), s.page_init.clone()))
                        .collect(),
                    data: c.blocks.data.iter().map(|(a, d)| (*a, addresses(d))).collect(),
                };
                self.arrays.insert(header, index);
            }
            IndexWrite::Fixed { block, header } => {
                let h = w.datasets[i].fixed_array.as_ref().unwrap().fa_header;
                self.put(block.at, &block.bytes);
                self.fixed.insert(header, h);
            }
            IndexWrite::Tree { header } => {
                let records: Vec<(Vec<u64>, u64)> = w.datasets[i]
                    .btree_v2
                    .as_ref()
                    .unwrap()
                    .index
                    .iter()
                    .map(|r| (r.coords.clone(), r.addr))
                    .collect();
                w.place_bt2_leaf(i, 64 * records.len() as u64);
                self.trees.insert(header, records);
            }
            IndexWrite::Nothing => {}
        }
    }

    fn run(&mut self, w: &mut Hdf5Writer, steps: &[FinalStep], live: bool) {
        for step in steps {
            match *step {
                FinalStep::FlushIndex(i) => self.flush_index(w, i),
                FinalStep::DatasetHeader(i) => {
                    let items = w.build_dataset_header(i);
                    let at = w.place_dataset_header(i, HEADER_SIZE, live);
                    self.objects.nodes.insert(at, node(items));
                }
                FinalStep::KeepHeader(i) => w.keep_dataset_header(i),
                FinalStep::GroupAddress(g) => {
                    w.place_group_header(g, HEADER_SIZE);
                }
                FinalStep::GroupHeader(g) => {
                    let items = w.build_group_header(g);
                    self.objects.nodes.insert(w.groups[g].obj_header_addr, node(items));
                }
                FinalStep::RootHeader => {
                    let items = w.build_root_group_header();
                    let at = w.place_root_header(HEADER_SIZE, live);
                    self.objects.nodes.insert(at, node(items));
                }
                FinalStep::Superblock(flags) => {
                    self.superblock = w.write_superblock(flags).unwrap();
                }
                FinalStep::SyncAll => {}
            }
        }
    }

    fn flush(&mut self, w: &mut Hdf5Writer, steps: &[FlushStep]) {
        for step in steps {
            match *step {
                FlushStep::Index(i) => self.flush_index(w, i),
                FlushStep::Header(i) => {
                    let items = w.build_dataset_header(i);
                    let write = w.write_dataset_header_inplace(i, vec![1; 100]).unwrap();
                    assert_eq!(write.bytes.len(), HEADER_SIZE);
                    self.objects.nodes.insert(write.at, node(items));
                }
                FlushStep::Superblock(flags) => {
                    self.superblock = w.write_superblock(flags).unwrap();
                }
                FlushStep::Sync => {}
            }
        }
    }

    fn close(&mut self, w: &mut Hdf5Writer) {
        let steps = w.finalize();
        self.run(w, &steps, false);
    }

    fn open(&self) -> Hdf5Reader {
        let sb = match read_superblock(&self.superblock).unwrap() {
            Superblock::V2V3(s) => s,
            Superblock::V0V1(_) => panic!("a new file has a new superblock"),
        };
        let root = self.objects.nodes[&sb.root_group_object_header_address].as_ref().unwrap();
        match Hdf5Reader::open_v2v3(&sb, &root.messages, &self.objects) {
            Opened::Reader(r) => r,
            Opened::Need(q) => panic!("not written: {:?}", q),
        }
    }

    fn reopen(&self, size: u64) -> Hdf5Writer {
        let sb = check_appendable(&self.superblock).unwrap();
        let root = sb.root_group_object_header_address;
        let messages = &self.objects.nodes[&root].as_ref().unwrap().messages;
        let mut indexes: HashMap<u64, IndexImage> = HashMap::new();
        loop {
            match Hdf5Writer::open_append(&sb, size, messages, &self.objects, &indexes).unwrap() {
                Reopened::Writer(w) => return w,
                Reopened::NeedIndex(a) => {
                    let i = &self.arrays[&a];
                    let block = Some(EaIndexBlock {
                        elements: i.block.elements.clone(),
                        dblk_addrs: i.block.dblk_addrs.clone(),
                        sblk_addrs: i.block.sblk_addrs.clone(),
                    });
                    indexes.insert(a, IndexImage { header: i.header, block });
                }
                Reopened::NeedObject(a) => panic!("not written: {}", a),
            }
        }
    }

    fn refresh(&self, r: &mut Hdf5Reader) {
        let sb = match read_superblock(&self.superblock).unwrap() {
            Superblock::V2V3(s) => s,
            Superblock::V0V1(_) => panic!("a new file has a new superblock"),
        };
        let root = self.objects.nodes[&sb.root_group_object_header_address].as_ref().unwrap();
        assert!(r.refresh(&sb, &root.messages, &self.objects).is_none());
    }

    fn array_entries(
        &self,
        index: u64,
        geo: &EaGeometry,
        dims: &[u64],
        cd: &[u64],
        es: u64,
    ) -> Vec<ChunkEntry> {
        let i = &self.arrays[&index];
        let mut blocks = EaBlocks::new();
        let chunk_bytes = saturating_byte_len(cd, es);
        for (a, dblk_addrs, page_init) in &i.supers {
            blocks.supers.insert(
                *a,
                EaSuperBlock { dblk_addrs: dblk_addrs.clone(), page_init: page_init.clone() },
            );
        }
        for (a, d) in &i.data {
            blocks.keep_data(*a, d, false, chunk_bytes);
        }
        let widths = EaWidths { sizeof_addr: 8, raw_elmt_size: i.header.raw_elmt_size };
        let wanted = saturating_count(&chunk_grid(dims, cd));
        match collect_entries(geo, &widths, &i.block, &blocks, wanted, false, chunk_bytes) {
            EaWalk::Entries(e) => e,
            EaWalk::Need(q) => panic!("not written: {:?}", q),
        }
    }

    fn fetch(&self, ranges: &[Option<ReadRange>]) -> Vec<Option<Vec<u8>>> {
        ranges.iter().map(|r| r.as_ref().map(|r| self.get(r))).collect()
    }

    fn fixed_entries(&self, index: u64, r: &Hdf5Reader, ndims: usize, cd: &[u64], chunk_bytes: u64) -> Vec<ChunkEntry> {
        let h = self.fixed[&index];
        let shape = check_fixed_array(&h, &r.ctx, ndims, cd.len()).unwrap();
        assert!(check_array_fits(&h, &shape, &r.ctx));
        let mut block: Option<Vec<u8>> = None;
        let mut pages = HashMap::new();
        loop {
            let b = block.as_ref().map(|v| v.as_slice());
            match read_fixed_array(&h, &shape, &r.ctx, b, &pages, chunk_bytes).unwrap() {
                FixedStep::Block { addr, size } => {
                    let from = addr as usize;
                    block = Some(self.image[from..from + size as usize].to_vec());
                }
                FixedStep::Page { number, range } => {
                    let from = range.addr as usize;
                    pages.insert(number, self.image[from..from + range.size as usize].to_vec());
                }
                FixedStep::Done(entries) => return entries,
            }
        }
    }

    fn read(&self, r: &Hdf5Reader, name: &str) -> Vec<u8> {
        let info = r.dataset_info(name).unwrap();
        let dims = info.dataspace.dims.clone();
        let es = info.datatype.element_size() as u64;
        let fill = info.fill_value.as_ref().map(|v| v.as_slice());
        let data = match r.read_dataset_raw(name).unwrap() {
            ReadPlan::Bytes(b) => b,
            ReadPlan::Fill(n) => tiled_fill(n as usize, fill),
            ReadPlan::Piece { range, filtered } => {
                assert!(!filtered);
                self.get(&range)
            }
            ReadPlan::ExtensibleArray { chunk_dims, index, params } => {
                let geo = EaGeometry::new(&params).unwrap();
                let entries = self.array_entries(index, &geo, &dims, &chunk_dims, es);
                let ranges =
                    array_ranges(&entries, &dims, &chunk_dims, false, self.image.len() as u64);
                info.assemble_numbered(&chunk_dims, &self.fetch(&ranges))
            }
            ReadPlan::FixedArray { chunk_dims, index } => {
                let chunk_bytes = saturating_byte_len(&chunk_dims, es);
                let entries = self.fixed_entries(index, r, dims.len(), &chunk_dims, chunk_bytes);
                check_chunk_extent(&chunk_dims).unwrap();
                let ranges = fixed_ranges(&entries, false, chunk_bytes);
                info.assemble_numbered(&chunk_dims, &self.fetch(&ranges))
            }
            ReadPlan::BTreeV2 { chunk_dims, index } => {
                let size = saturating_byte_len(&chunk_dims, es);
                let entries: Vec<TreeChunk> = self.trees[&index]
                    .iter()
                    .map(|(c, a)| TreeChunk {
                        offsets: c.clone(),
                        addr: *a,
                        size,
                        filter_mask: 0,
                    })
                    .collect();
                let chunks: Vec<LocatedChunk> = record_reads(&entries)
                    .iter()
                    .map(|c| LocatedChunk { coords: c.coords.clone(), data: self.get(&c.range) })
                    .collect();
                info.assemble_located(&chunk_dims, &chunks)
            }
            ReadPlan::BTreeV1 { .. } => panic!("no new file has one"),
        };
        r.converted_data(name, data).unwrap()
    }

    fn read_slice(&self, r: &Hdf5Reader, name: &str, starts: &[u64], counts: &[u64]) -> Vec<u8> {
        let info = r.dataset_info(name).unwrap();
        let dims = info.dataspace.dims.clone();
        let es = info.datatype.element_size() as u64;
        let fill = info.fill_value.as_ref().map(|v| v.as_slice());
        match r.read_slice(name, starts, counts).unwrap() {
            SelectionPlan::Bytes(b) => b,
            SelectionPlan::Fill(n) => tiled_fill(n as usize, fill),
            SelectionPlan::Rows(rows) => rows.iter().flat_map(|x| self.get(x)).collect(),
            SelectionPlan::Whole => {
                extract_slice(&self.read(r, name), &dims, starts, counts, es)
            }
            SelectionPlan::Chunks => {
                let (cd, index, params) = match r.read_dataset_raw(name).unwrap() {
                    ReadPlan::ExtensibleArray { chunk_dims, index, params } => {
                        (chunk_dims, index, params)
                    }
                    p => panic!("{:?}", p),
                };
                let geo = EaGeometry::new(&params).unwrap();
                let entries = self.array_entries(index, &geo, &dims, &cd, es);
                let all = array_ranges(&entries, &dims, &cd, false, self.image.len() as u64);
                let some = touched_ranges(&all, &dims, &cd, starts, counts);
                let data = info.assemble_numbered(&cd, &self.fetch(&some));
                extract_slice(&data, &dims, starts, counts, es)
            }
            SelectionPlan::Frames => {
                let (cd, index, params) = match r.read_dataset_raw(name).unwrap() {
                    ReadPlan::ExtensibleArray { chunk_dims, index, params } => {
                        (chunk_dims, index, params)
                    }
                    p => panic!("{:?}", p),
                };
                let geo = EaGeometry::new(&params).unwrap();
                let entries = self.array_entries(index, &geo, &dims, &cd, es);
                let frame = saturating_byte_len(&counts[1..], es) as usize;
                let mut out = tiled_fill(frame * counts[0] as usize, fill);
                let chunks = self.fetch(&frame_ranges(&entries, starts[0], counts[0]));
                copy_frames(&mut out, &chunks, &cd[1..], &starts[1..], &counts[1..], es);
                out
            }
        }
    }

    fn write_chunk(&mut self, w: &mut Hdf5Writer, i: usize, n: u64, data: &[u8]) {
        match w.write_chunk(i, n, data, data).unwrap() {
            ChunkStep::Written { addr, .. } => self.put(addr, data),
            ChunkStep::Need(q) => panic!("not written: {:?}", q),
        }
    }

    fn write_all(&mut self, w: &mut Hdf5Writer, i: usize, writes: Vec<ChunkWrite>) {
        for c in writes {
            self.write_chunk(w, i, c.chunk_idx, &c.data);
        }
    }

    fn chunk(&self, w: &Hdf5Writer, i: usize, n: u64) -> Option<Vec<u8>> {
        let c = w.datasets[i].chunked.as_ref().unwrap();
        let es = w.datasets[i].datatype.element_size() as u64;
        match c.find_chunk(w.ctx(), es, n).unwrap() {
            EaFound::At { addr, nbytes } => {
                Some(self.get(&ReadRange { addr, len: nbytes, exact: true }))
            }
            EaFound::Absent => None,
            f => panic!("not written: {:?}", f),
        }
    }

    fn append_strings(&mut self, w: &mut Hdf5Writer, i: usize, strings: &[&str]) -> u64 {
        let indices = (1..=strings.len() as u16).collect();
        let heap = HeapImage { indices, size: 64 };
        let plan = w.append_vlen_strings(i, strings, &heap).unwrap().unwrap();
        for step in &plan.steps {
            let existing = if step.offset > 0 { self.chunk(w, i, step.chunk_idx) } else { None };
            let chunk = step.chunk_bytes(&plan.combined, existing).unwrap();
            self.write_chunk(w, i, step.chunk_idx, &chunk);
        }
        w.extend_dataset(i, &plan.new_dims).unwrap();
        plan.heap_addr
    }

    fn flush_strings(&mut self, w: &mut Hdf5Writer, i: usize) {
        let d = &w.datasets[i];
        let per_chunk = w.dataset_chunk_dims(i).unwrap()[0];
        let n = (d.dataspace.dims[0] - d.append_buffered_frames) / per_chunk;
        let existing = self.chunk(w, i, n);
        if let Some((n, chunk)) = w.flush_append_buffer(i, existing.as_deref()) {
            self.write_chunk(w, i, n, &chunk);
        }
    }

    fn append(&mut self, s: &mut SwmrWriter, i: usize, frame: &[u8]) {
        let writes = s.append_frame(i, frame).unwrap();
        self.write_all(&mut s.writer, i, writes);
    }

    fn start_swmr(&mut self, s: &mut SwmrWriter) {
        let steps = s.start_swmr();
        self.run(&mut s.writer, &steps, true);
    }

    fn flush_stream(&mut self, s: &mut SwmrWriter) {
        let steps = s.flush();
        self.flush(&mut s.writer, &steps);
    }

    fn close_stream(&mut self, s: &mut SwmrWriter) {
        for band in s.close_bands() {
            self.write_all(&mut s.writer, band.ds_index, band.writes);
        }
        self.close(&mut s.writer);
    }
}

fn le16(v: &[u16]) -> Vec<u8> {
    v.iter().flat_map(|x| x.to_le_bytes()).collect()
}

fn le32(v: &[i32]) -> Vec<u8> {
    v.iter().flat_map(|x| x.to_le_bytes()).collect()
}

fn f64s(v: &[f64]) -> Vec<u8> {
    v.iter().flat_map(|x| x.to_le_bytes()).collect()
}

fn values32(raw: &[u8]) -> Vec<i32> {
    raw.chunks(4).map(|c| i32::from_le_bytes(c.try_into().unwrap())).collect()
}

fn values16(raw: &[u8]) -> Vec<u16> {
    raw.chunks(2).map(|c| u16::from_le_bytes(c.try_into().unwrap())).collect()
}

fn has_name(names: &[String], name: &str) -> bool {
    names.iter().any(|n| n == name)
}

#[test]
fn create_empty_file() {
    let mut disk = Disk::new();
    let mut w = Hdf5Writer::new();
    disk.close(&mut w);
    let r = disk.open();
    assert!(r.dataset_names().is_empty());
}

#[test]
fn create_single_dataset() {
    let mut disk = Disk::new();
    let mut w = Hdf5Writer::new();
    let idx = w.create_dataset("data", DatatypeMessage::f64_type(), &[4]).unwrap();
    let raw = f64s(&[1.0, 2.0, 3.0, 4.0]);
    let at = w.write_dataset_raw(idx, &raw).unwrap();
    disk.put(at, &raw);
    disk.close(&mut w);
    let r = disk.open();
    assert_eq!(r.dataset_names(), vec!["data".to_string()]);
    assert_eq!(r.dataset_shape("data").unwrap(), vec![4]);
    assert_eq!(disk.read(&r, "data"), raw);
}

#[test]
fn create_multiple_datasets() {
    let mut disk = Disk::new();
    let mut w = Hdf5Writer::new();
    let a = w.create_dataset("ints", DatatypeMessage::i32_type(), &[3]).unwrap();
    let ints = le32(&[10, 20, 30]);
    let at = w.write_dataset_raw(a, &ints).unwrap();
    disk.put(at, &ints);
    let b = w.create_dataset("floats", DatatypeMessage::f32_type(), &[2, 2]).unwrap();
    let floats: Vec<u8> =
        [1.0f32, 2.0, 3.0, 4.0].iter().flat_map(|v| v.to_le_bytes()).collect();
    let at = w.write_dataset_raw(b, &floats).unwrap();
    disk.put(at, &floats);
    disk.close(&mut w);
    let r = disk.open();
    let names = r.dataset_names();
    assert!(has_name(&names, "ints"));
    assert!(has_name(&names, "floats"));
    assert_eq!(r.dataset_shape("ints").unwrap(), vec![3]);
    assert_eq!(r.dataset_shape("floats").unwrap(), vec![2, 2]);
    assert_eq!(disk.read(&r, "ints"), ints);
    assert_eq!(disk.read(&r, "floats"), floats);
    assert_eq!(disk.read_slice(&r, "floats", &[1, 0], &[1, 2]), floats[8..16].to_vec());
    assert_eq!(disk.read_slice(&r, "ints", &[1], &[2]), le32(&[20, 30]));
}

#[test]
fn data_size_mismatch() {
    let mut w = Hdf5Writer::new();
    let idx = w.create_dataset("x", DatatypeMessage::u8_type(), &[4]).unwrap();
    let err = w.write_dataset_raw(idx, &[1, 2, 3]);
    assert!(err.is_err());
}

#[test]
fn create_chunked_dataset_simple() {
    let mut disk = Disk::new();
    let mut w = Hdf5Writer::new();
    let idx = w
        .create_chunked_dataset(
            "data",
            DatatypeMessage::f64_type(),
            &[0, 4],
            &[u64::MAX, 4],
            &[1, 4],
        )
        .unwrap();
    for frame in 0..3u64 {
        let values: Vec<f64> = (0..4).map(|i| (frame * 4 + i) as f64).collect();
        disk.write_chunk(&mut w, idx, frame, &f64s(&values));
    }
    w.extend_dataset(idx, &[3, 4]).unwrap();
    disk.close(&mut w);
    let r = disk.open();
    assert_eq!(r.dataset_names(), vec!["data".to_string()]);
    assert_eq!(r.dataset_shape("data").unwrap(), vec![3, 4]);
    let raw = disk.read(&r, "data");
    let want: Vec<f64> = (0..12).map(|i| i as f64).collect();
    assert_eq!(raw, f64s(&want));
}

#[test]
fn chunked_dataset_many_frames() {
    let mut disk = Disk::new();
    let mut w = Hdf5Writer::new();
    let idx = w
        .create_chunked_dataset(
            "frames",
            DatatypeMessage::i32_type(),
            &[0, 2],
            &[u64::MAX, 2],
            &[1, 2],
        )
        .unwrap();
    for frame in 0..10u64 {
        disk.write_chunk(
            &mut w,
            idx,
            frame,
            &le32(&[(frame * 2) as i32, (frame * 2 + 1) as i32]),
        );
    }
    w.extend_dataset(idx, &[10, 2]).unwrap();
    disk.close(&mut w);
    let r = disk.open();
    assert_eq!(r.dataset_shape("frames").unwrap(), vec![10, 2]);
    let values = values32(&disk.read(&r, "frames"));
    assert_eq!(values, (0..20).collect::<Vec<i32>>());
}

#[test]
fn chunks_beyond_the_index_block_are_found() {
    let mut disk = Disk::new();
    let mut w = Hdf5Writer::new();
    let idx = w
        .create_chunked_dataset(
            "long",
            DatatypeMessage::i32_type(),
            &[0],
            &[u64::MAX],
            &[1],
        )
        .unwrap();
    for n in 0..700u64 {
        disk.write_chunk(&mut w, idx, n, &le32(&[n as i32 * 3]));
    }
    w.extend_dataset(idx, &[700]).unwrap();
    disk.close(&mut w);
    let r = disk.open();
    let values = values32(&disk.read(&r, "long"));
    assert_eq!(values, (0..700).map(|n| n * 3).collect::<Vec<i32>>());
    let part = values32(&disk.read_slice(&r, "long", &[690], &[5]));
    assert_eq!(part, vec![2070, 2073, 2076, 2079, 2082]);
}

#[test]
fn missing_chunks_hold_the_fill_value() {
    let mut disk = Disk::new();
    let mut w = Hdf5Writer::new();
    let idx = w
        .create_chunked_dataset(
            "sparse",
            DatatypeMessage::i32_type(),
            &[0],
            &[u64::MAX],
            &[2],
        )
        .unwrap();
    w.datasets[idx].fill_value = Some(le32(&[7]));
    disk.write_chunk(&mut w, idx, 1, &le32(&[1, 2]));
    w.extend_dataset(idx, &[6]).unwrap();
    disk.close(&mut w);
    let r = disk.open();
    assert_eq!(values32(&disk.read(&r, "sparse")), vec![7, 7, 1, 2, 7, 7]);
}

fn grid_chunks() -> Vec<([u64; 2], Vec<i32>)> {
    vec![
        ([0, 0], vec![0, 1, 2, 6, 7, 8]),
        ([0, 1], vec![3, 4, 5, 9, 10, 11]),
        ([1, 0], vec![12, 13, 14, 18, 19, 20]),
        ([1, 1], vec![15, 16, 17, 21, 22, 23]),
    ]
}

#[test]
fn create_fixed_array_dataset_roundtrip() {
    let mut disk = Disk::new();
    let mut w = Hdf5Writer::new();
    let idx = w
        .create_fixed_array_dataset("grid", DatatypeMessage::i32_type(), &[4, 6], &[2, 3])
        .unwrap();
    for (at, values) in grid_chunks() {
        let raw = le32(&values);
        let addr = w.write_chunk_fixed_array(idx, &at, &raw, &raw).unwrap();
        disk.put(addr, &raw);
    }
    disk.close(&mut w);
    let r = disk.open();
    assert_eq!(r.dataset_names(), vec!["grid".to_string()]);
    assert_eq!(r.dataset_shape("grid").unwrap(), vec![4, 6]);
    assert_eq!(values32(&disk.read(&r, "grid")), (0..24).collect::<Vec<i32>>());
    assert_eq!(
        values32(&disk.read_slice(&r, "grid", &[1, 2], &[2, 2])),
        vec![8, 9, 14, 15]
    );
}

#[test]
fn create_fixed_array_paged_dataset_roundtrip() {
    let n: usize = 3000;
    let mut disk = Disk::new();
    let mut w = Hdf5Writer::new();
    let idx = w
        .create_fixed_array_dataset("paged", DatatypeMessage::i32_type(), &[n as u64], &[1])
        .unwrap();
    for i in 0..n {
        let v = (i as i32).to_le_bytes();
        let addr = w.write_chunk_fixed_array(idx, &[i as u64], &v, &v).unwrap();
        disk.put(addr, &v);
    }
    disk.close(&mut w);
    let r = disk.open();
    assert_eq!(r.dataset_shape("paged").unwrap(), vec![n as u64]);
    let values = values32(&disk.read(&r, "paged"));
    assert_eq!(values.len(), n);
    for (i, v) in values.iter().enumerate() {
        assert_eq!(*v, i as i32, "element {i}");
    }
}

#[test]
fn create_btree_v2_dataset_roundtrip() {
    let mut disk = Disk::new();
    let mut w = Hdf5Writer::new();
    let idx = w
        .create_btree_v2_dataset(
            "data",
            DatatypeMessage::f64_type(),
            &[0, 0],
            &[u64::MAX, u64::MAX],
            &[2, 3],
            38,
            64,
        )
        .unwrap();
    for (at, values) in grid_chunks() {
        let raw = f64s(&values.iter().map(|v| *v as f64).collect::<Vec<f64>>());
        let addr = w.write_chunk_btree_v2(idx, &at, &raw).unwrap();
        disk.put(addr, &raw);
    }
    w.extend_dataset(idx, &[4, 6]).unwrap();
    disk.close(&mut w);
    let r = disk.open();
    assert_eq!(r.dataset_names(), vec!["data".to_string()]);
    assert_eq!(r.dataset_shape("data").unwrap(), vec![4, 6]);
    let want: Vec<f64> = (0..24).map(|i| i as f64).collect();
    assert_eq!(disk.read(&r, "data"), f64s(&want));
}

#[test]
fn swmr_writer_append_frames() {
    let mut disk = Disk::new();
    let mut s = SwmrWriter::create();
    let idx =
        s.create_streaming_dataset("detector", DatatypeMessage::u16_type(), &[4, 4]).unwrap();
    disk.start_swmr(&mut s);
    for frame in 0..5u16 {
        let data: Vec<u16> = (0..16).map(|i| frame * 16 + i).collect();
        disk.append(&mut s, idx, &le16(&data));
    }
    disk.flush_stream(&mut s);
    disk.close_stream(&mut s);
    let r = disk.open();
    assert_eq!(r.dataset_shape("detector").unwrap(), vec![5, 4, 4]);
    let values = values16(&disk.read(&r, "detector"));
    assert_eq!(values.len(), 80);
    for (i, val) in values.iter().enumerate().take(16) {
        assert_eq!(*val, i as u16);
    }
    for (i, val) in values[64..80].iter().enumerate() {
        assert_eq!(*val, 4 * 16 + i as u16);
    }
    let part = values16(&disk.read_slice(&r, "detector", &[3, 1, 1], &[2, 2, 2]));
    assert_eq!(part, vec![53, 54, 57, 58, 69, 70, 73, 74]);
}

#[test]
fn swmr_writer_tiled_frames() {
    let mut disk = Disk::new();
    let mut s = SwmrWriter::create();
    let idx = s
        .create_streaming_dataset_tiled("det", DatatypeMessage::u16_type(), &[4, 4], &[2, 2])
        .unwrap();
    disk.start_swmr(&mut s);
    for frame in 0..3u16 {
        let data: Vec<u16> = (0..16).map(|i| frame * 100 + i).collect();
        disk.append(&mut s, idx, &le16(&data));
    }
    disk.flush_stream(&mut s);
    disk.close_stream(&mut s);
    let r = disk.open();
    assert_eq!(r.dataset_shape("det").unwrap(), vec![3, 4, 4]);
    let values = values16(&disk.read(&r, "det"));
    assert_eq!(values.len(), 48);
    for frame in 0..3u16 {
        for i in 0..16usize {
            assert_eq!(values[frame as usize * 16 + i], frame * 100 + i as u16);
        }
    }
    let part = values16(&disk.read_slice(&r, "det", &[1, 1, 1], &[1, 2, 2]));
    assert_eq!(part, vec![105, 106, 109, 110]);
}

#[test]
fn swmr_writer_tiled_chunk_larger_than_frame() {
    let mut disk = Disk::new();
    let mut s = SwmrWriter::create();
    let idx = s
        .create_streaming_dataset_tiled("det", DatatypeMessage::u16_type(), &[3, 3], &[8, 8])
        .unwrap();
    disk.start_swmr(&mut s);
    for frame in 0..2u16 {
        let data: Vec<u16> = (0..9).map(|i| frame * 10 + i).collect();
        disk.append(&mut s, idx, &le16(&data));
    }
    disk.flush_stream(&mut s);
    disk.close_stream(&mut s);
    let r = disk.open();
    assert_eq!(r.dataset_shape("det").unwrap(), vec![2, 3, 3]);
    let values = values16(&disk.read(&r, "det"));
    assert_eq!(values.len(), 18);
    for frame in 0..2u16 {
        for i in 0..9usize {
            assert_eq!(values[frame as usize * 9 + i], frame * 10 + i as u16);
        }
    }
    let part = values16(&disk.read_slice(&r, "det", &[1, 1, 0], &[1, 2, 2]));
    assert_eq!(part, vec![13, 14, 16, 17]);
}

#[test]
fn swmr_writer_multi_frame_chunks() {
    let mut disk = Disk::new();
    let mut s = SwmrWriter::create();
    let idx = s
        .create_streaming_dataset_chunked(
            "det",
            DatatypeMessage::u16_type(),
            &[3, 3],
            &[4, 3, 3],
        )
        .unwrap();
    disk.start_swmr(&mut s);
    for frame in 0..10u16 {
        let data: Vec<u16> = (0..9).map(|i| frame * 100 + i).collect();
        disk.append(&mut s, idx, &le16(&data));
    }
    disk.flush_stream(&mut s);
    disk.close_stream(&mut s);
    let r = disk.open();
    assert_eq!(r.dataset_shape("det").unwrap(), vec![10, 3, 3]);
    let values = values16(&disk.read(&r, "det"));
    assert_eq!(values.len(), 90);
    for frame in 0..10u16 {
        for i in 0..9usize {
            assert_eq!(values[frame as usize * 9 + i], frame * 100 + i as u16);
        }
    }
}

#[test]
fn swmr_writer_multi_frame_tiled_chunks() {
    let mut disk = Disk::new();
    let mut s = SwmrWriter::create();
    let idx = s
        .create_streaming_dataset_chunked(
            "det",
            DatatypeMessage::u16_type(),
            &[4, 4],
            &[2, 2, 2],
        )
        .unwrap();
    disk.start_swmr(&mut s);
    for frame in 0..5u16 {
        let data: Vec<u16> = (0..16).map(|i| frame * 100 + i).collect();
        disk.append(&mut s, idx, &le16(&data));
    }
    disk.flush_stream(&mut s);
    disk.close_stream(&mut s);
    let r = disk.open();
    assert_eq!(r.dataset_shape("det").unwrap(), vec![5, 4, 4]);
    let values = values16(&disk.read(&r, "det"));
    assert_eq!(values.len(), 80);
    for frame in 0..5u16 {
        for i in 0..16usize {
            assert_eq!(values[frame as usize * 16 + i], frame * 100 + i as u16);
        }
    }
}

#[test]
fn group_hierarchy_writer_reader() {
    let mut disk = Disk::new();
    let mut w = Hdf5Writer::new();
    let g0 = w.create_group("/", "group1").unwrap();
    let g1 = w.create_group("/group1", "sub").unwrap();
    assert_eq!(g0, 0);
    assert_eq!(g1, 1);
    let a = w.create_dataset("root_data", DatatypeMessage::f64_type(), &[2]).unwrap();
    let raw_a = f64s(&[1.0, 2.0]);
    let at = w.write_dataset_raw(a, &raw_a).unwrap();
    disk.put(at, &raw_a);
    let b = w.create_dataset("group1/data", DatatypeMessage::i32_type(), &[3]).unwrap();
    w.assign_dataset_to_group("/group1", b).unwrap();
    let raw_b = le32(&[10, 20, 30]);
    let at = w.write_dataset_raw(b, &raw_b).unwrap();
    disk.put(at, &raw_b);
    let c = w.create_dataset("group1/sub/values", DatatypeMessage::u8_type(), &[4]).unwrap();
    w.assign_dataset_to_group("/group1/sub", c).unwrap();
    let at = w.write_dataset_raw(c, &[1, 2, 3, 4]).unwrap();
    disk.put(at, &[1, 2, 3, 4]);
    disk.close(&mut w);

    let r = disk.open();
    let names = r.dataset_names();
    assert!(has_name(&names, "root_data"), "names: {:?}", names);
    assert!(has_name(&names, "group1/data"), "names: {:?}", names);
    assert!(has_name(&names, "group1/sub/values"), "names: {:?}", names);
    assert_eq!(disk.read(&r, "root_data"), raw_a);
    assert_eq!(values32(&disk.read(&r, "group1/data")), vec![10, 20, 30]);
    assert_eq!(disk.read(&r, "group1/sub/values"), vec![1, 2, 3, 4]);
    assert!(r.has_group("group1"));
    assert!(r.has_group("group1/sub"));
    assert!(!r.has_group("sub"));
}

#[test]
fn hardlink_before_start_swmr_visible() {
    let mut disk = Disk::new();
    let mut s = SwmrWriter::create();
    let idx = s.create_streaming_dataset("frames", DatatypeMessage::u8_type(), &[2, 2]).unwrap();
    s.writer.create_hard_link("/", "alias", "frames").unwrap();
    disk.start_swmr(&mut s);
    disk.append(&mut s, idx, &[1, 2, 3, 4]);
    disk.close_stream(&mut s);
    let r = disk.open();
    let names = r.dataset_names();
    assert!(
        has_name(&names, "alias"),
        "hard link 'alias' missing from final file: {names:?}"
    );
    assert_eq!(disk.read(&r, "frames"), vec![1u8, 2, 3, 4]);
    assert_eq!(disk.read(&r, "alias"), vec![1u8, 2, 3, 4]);
}

#[test]
fn hardlink_after_start_swmr_committed_at_close() {
    let mut disk = Disk::new();
    let mut s = SwmrWriter::create();
    let idx = s.create_streaming_dataset("frames", DatatypeMessage::u8_type(), &[2, 2]).unwrap();
    disk.start_swmr(&mut s);
    disk.append(&mut s, idx, &[1, 2, 3, 4]);
    disk.append(&mut s, idx, &[5, 6, 7, 8]);
    s.writer.create_hard_link("/", "alias", "frames").unwrap();
    disk.close_stream(&mut s);
    let r = disk.open();
    let names = r.dataset_names();
    assert!(
        has_name(&names, "alias"),
        "hard link created after start_swmr missing from final file: {names:?}"
    );
    let expect = vec![1u8, 2, 3, 4, 5, 6, 7, 8];
    assert_eq!(disk.read(&r, "frames"), expect);
    assert_eq!(disk.read(&r, "alias"), expect);
    assert_eq!(r.dataset_shape("frames").unwrap(), vec![2, 2, 2]);
}

#[test]
fn reader_refresh_after_close_follows_relocated_headers() {
    let mut disk = Disk::new();
    let mut s = SwmrWriter::create();
    let idx = s.create_streaming_dataset("frames", DatatypeMessage::u8_type(), &[2, 2]).unwrap();
    disk.start_swmr(&mut s);
    disk.append(&mut s, idx, &[1, 2, 3, 4]);
    disk.flush_stream(&mut s);

    let mut r = disk.open();
    assert_eq!(r.dataset_shape("frames").unwrap(), vec![1, 2, 2]);

    disk.append(&mut s, idx, &[5, 6, 7, 8]);
    s.writer.create_hard_link("/", "alias", "frames").unwrap();
    disk.close_stream(&mut s);

    disk.refresh(&mut r);
    assert_eq!(r.dataset_shape("frames").unwrap(), vec![2, 2, 2]);
    assert_eq!(disk.read(&r, "frames"), vec![1u8, 2, 3, 4, 5, 6, 7, 8]);
    let names = r.dataset_names();
    assert!(
        has_name(&names, "alias"),
        "refreshed reader missing hard link: {names:?}"
    );
}

#[test]
fn group_created_after_start_swmr_committed_at_close() {
    let mut disk = Disk::new();
    let mut s = SwmrWriter::create();
    let idx = s.create_streaming_dataset("frames", DatatypeMessage::u8_type(), &[2, 2]).unwrap();
    disk.start_swmr(&mut s);
    disk.append(&mut s, idx, &[1, 2, 3, 4]);
    s.writer.create_group("/", "entry").unwrap();
    disk.close_stream(&mut s);
    let r = disk.open();
    assert!(
        r.has_group("entry"),
        "group created after start_swmr missing: {:?}",
        r.group_paths()
    );
}

#[test]
fn reopened_file_goes_on() {
    let mut disk = Disk::new();
    let mut w = Hdf5Writer::new();
    w.create_group("/", "run").unwrap();
    let a = w
        .create_chunked_dataset(
            "run/frames",
            DatatypeMessage::i32_type(),
            &[0, 2],
            &[u64::MAX, 2],
            &[1, 2],
        )
        .unwrap();
    w.assign_dataset_to_group("/run", a).unwrap();
    for n in 0..3i32 {
        disk.write_chunk(&mut w, a, n as u64, &le32(&[n, n + 10]));
    }
    w.extend_dataset(a, &[3, 2]).unwrap();
    let b = w.create_dataset("plain", DatatypeMessage::u8_type(), &[2]).unwrap();
    let at = w.write_dataset_raw(b, &[8, 9]).unwrap();
    disk.put(at, &[8, 9]);
    disk.close(&mut w);

    let size = w.eof();
    let mut w2 = disk.reopen(size);
    assert_eq!(w2.eof(), size);
    assert_eq!(w2.groups.len(), 1);
    assert_eq!(w2.groups[0].name, "/run");
    let a2 = w2.dataset_index("run/frames").unwrap();
    assert_eq!(w2.groups[0].child_datasets, vec![a2]);
    assert_eq!(w2.dataset_dims(a2), &[3, 2]);
    disk.write_chunk(&mut w2, a2, 3, &le32(&[3, 13]));
    w2.extend_dataset(a2, &[4, 2]).unwrap();
    disk.close(&mut w2);

    let r = disk.open();
    assert_eq!(r.dataset_shape("run/frames").unwrap(), vec![4, 2]);
    assert_eq!(
        values32(&disk.read(&r, "run/frames")),
        vec![0, 10, 1, 11, 2, 12, 3, 13]
    );
    assert_eq!(disk.read(&r, "plain"), vec![8, 9]);
}

#[test]
fn groups_are_found_again() {
    let mut disk = Disk::new();
    let mut w = Hdf5Writer::new();
    w.create_group("/", "empty").unwrap();
    w.create_group("/", "a").unwrap();
    w.create_group("/a", "b").unwrap();
    w.add_group_attribute("/a/b", AttributeMessage::scalar_string("unit", "m")).unwrap();
    w.add_group_attribute("/a/b", AttributeMessage::scalar_string("unit", "mm")).unwrap();
    let d = w.create_dataset("a/b/d", DatatypeMessage::u8_type(), &[3]).unwrap();
    w.assign_dataset_to_group("/a/b", d).unwrap();
    let at = w.write_dataset_raw(d, &[1, 2, 3]).unwrap();
    disk.put(at, &[1, 2, 3]);
    w.create_hard_link("/empty", "again", "a/b/d").unwrap();
    w.create_hard_link("/", "other", "empty").unwrap();
    disk.close(&mut w);
    let r = disk.open();
    let mut paths = r.group_paths.clone();
    paths.sort();
    assert_eq!(paths, vec!["a", "a/b", "empty", "other"]);
    assert_eq!(r.group_attributes.len(), 1);
    assert_eq!(r.group_attributes[0].path, "a/b");
    assert_eq!(r.group_attributes[0].attributes.len(), 1);
    let unit = &r.group_attributes[0].attributes[0];
    assert_eq!((unit.name.as_str(), &unit.data[..2]), ("unit", &b"mm"[..]));
    let mut names = r.dataset_names();
    names.sort();
    assert_eq!(names, vec!["a/b/d", "empty/again"]);
    assert_eq!(r.dataset_shape("empty/again").unwrap(), vec![3]);
    assert_eq!(disk.read(&r, "empty/again"), vec![1, 2, 3]);
    w.delete_group("/a").unwrap();
    disk.close(&mut w);
    let r = disk.open();
    let mut paths = r.group_paths.clone();
    paths.sort();
    assert_eq!(paths, vec!["empty", "other"]);
}

#[test]
fn unfinished_bands_read_as_their_frames() {
    let mut disk = Disk::new();
    let mut s = SwmrWriter::create();
    let t = DatatypeMessage::u8_type();
    let i = s.create_streaming_dataset_chunked("f", t, &[3], &[2, 2]).unwrap();
    s.writer.set_dataset_fill_value(i, vec![9]).unwrap();
    for n in 0..3u8 {
        disk.append(&mut s, i, &[n, n + 10, n + 20]);
    }
    disk.close_stream(&mut s);
    let r = disk.open();
    assert_eq!(r.dataset_shape("f").unwrap(), vec![3, 3]);
    assert_eq!(disk.read(&r, "f"), vec![0, 10, 20, 1, 11, 21, 2, 12, 22]);
    assert_eq!(disk.read_slice(&r, "f", &[1, 1], &[2, 2]), vec![11, 21, 12, 22]);
}

#[test]
fn selected_frames_are_part_of_the_whole() {
    let mut disk = Disk::new();
    let mut s = SwmrWriter::create();
    let i = s.create_streaming_dataset("f", DatatypeMessage::u16_type(), &[2, 3]).unwrap();
    for n in 0..4u16 {
        disk.append(&mut s, i, &le16(&[n, n + 10, n + 20, n + 30, n + 40, n + 50]));
    }
    disk.close_stream(&mut s);
    let r = disk.open();
    let part = disk.read_slice(&r, "f", &[1, 0, 1], &[2, 2, 2]);
    assert_eq!(values16(&part), vec![11, 21, 41, 51, 12, 22, 42, 52]);
    let whole = disk.read(&r, "f");
    assert_eq!(part, extract_slice(&whole, &[4, 2, 3], &[1, 0, 1], &[2, 2, 2], 2));
}

#[test]
fn reopened_datasets_of_fixed_shape_are_kept() {
    let mut disk = Disk::new();
    let mut w = Hdf5Writer::new();
    let t = DatatypeMessage::u8_type();
    let i = w.create_fixed_array_dataset("f", t, &[4], &[2]).unwrap();
    for n in 0..2u8 {
        let data = [2 * n, 2 * n + 1];
        let at = w.write_chunk_fixed_array(i, &[n as u64], &data, &data).unwrap();
        disk.put(at, &data);
    }
    disk.close(&mut w);
    let size = w.eof();
    let mut again = disk.reopen(size);
    disk.close(&mut again);
    let r = disk.open();
    assert_eq!(disk.read(&r, "f"), vec![0, 1, 2, 3]);
    let mut s = SwmrWriter::open_append(disk.reopen(size + 4096));
    let g = s.create_streaming_dataset("g", DatatypeMessage::u8_type(), &[1]).unwrap();
    disk.start_swmr(&mut s);
    disk.append(&mut s, g, &[7]);
    disk.flush_stream(&mut s);
    let r = disk.open();
    assert_eq!(r.dataset_shape("f").unwrap(), vec![4]);
    assert_eq!(disk.read(&r, "f"), vec![0, 1, 2, 3]);
    assert_eq!(disk.read(&r, "g"), vec![7]);
}

#[test]
fn only_the_chunks_of_a_selection_are_read() {
    let at = |n: u64| Some(ReadRange { addr: 100 + n, len: 1, exact: true });
    let all: Vec<Option<ReadRange>> = (0..6).map(at).collect();
    let some = touched_ranges(&all, &[4, 5], &[2, 2], &[2, 1], &[1, 2]);
    assert_eq!(some, vec![None, None, None, at(3), at(4), None]);
}

#[test]
fn strings_in_a_partly_filled_chunk_survive_reopening() {
    let mut disk = Disk::new();
    let mut heaps = HashMap::new();
    let mut w = Hdf5Writer::new();
    let i = w.create_appendable_vlen_string_dataset("s", 4, None).unwrap();
    let at = disk.append_strings(&mut w, i, &["a"]);
    heaps.insert(at, Some(vec![HeapObject { index: 1, data: b"a".to_vec() }]));
    disk.flush_strings(&mut w, i);
    disk.close(&mut w);
    let mut again = disk.reopen(w.eof());
    let c = again.datasets[0].chunked.as_ref().unwrap();
    assert_eq!(c.ea_iblk.elements[0].nbytes, 64);
    assert_eq!(c.ea_iblk.elements[1].addr, UNDEF_ADDR);
    let at = disk.append_strings(&mut again, 0, &["b"]);
    heaps.insert(at, Some(vec![HeapObject { index: 1, data: b"b".to_vec() }]));
    disk.flush_strings(&mut again, 0);
    disk.close(&mut again);
    let r = disk.open();
    let raw = disk.read(&r, "s");
    let found = read_vlen_strings(&raw, &r.dataset_shape("s").unwrap(), &r.ctx, &heaps);
    assert_eq!(found.strings, vec!["a", "b"]);
}

#[test]
fn changes_of_reopened_datasets_are_written() {
    let mut disk = Disk::new();
    let mut w = Hdf5Writer::new();
    let t = DatatypeMessage::u8_type();
    let f = w.create_fixed_array_dataset("f", t, &[2], &[2]).unwrap();
    let at = w.write_chunk_fixed_array(f, &[0], &[5, 6], &[5, 6]).unwrap();
    disk.put(at, &[5, 6]);
    let t = DatatypeMessage::u8_type();
    let g = w.create_chunked_dataset("g", t, &[0], &[u64::MAX], &[2]).unwrap();
    disk.write_chunk(&mut w, g, 0, &[1, 2]);
    w.extend_dataset(g, &[2]).unwrap();
    disk.close(&mut w);
    let mut again = disk.reopen(w.eof());
    again.put_dataset_attribute(0, AttributeMessage::scalar_string("unit", "mm")).unwrap();
    assert!(again.set_dataset_fill_value(1, vec![9]).unwrap().is_none());
    again.set_dataset_extent(1, &[3]).unwrap();
    disk.close(&mut again);
    let r = disk.open();
    assert_eq!(r.dataset_attr_names("f").unwrap(), vec!["unit"]);
    assert_eq!(disk.read(&r, "f"), vec![5, 6]);
    assert_eq!(disk.read(&r, "g"), vec![1, 2, 9]);
}

#[test]
fn datasets_go_to_live_groups() {
    let mut disk = Disk::new();
    let mut w = Hdf5Writer::new();
    w.create_group("/", "g").unwrap();
    w.delete_group("g").unwrap();
    let d = w.create_dataset("d", DatatypeMessage::u8_type(), &[1]).unwrap();
    let at = w.write_dataset_raw(d, &[3]).unwrap();
    disk.put(at, &[3]);
    assert!(w.assign_dataset_to_group("/g", d).is_err());
    w.create_group("/", "g").unwrap();
    w.create_group("/g", "h").unwrap();
    w.assign_dataset_to_group("/g", d).unwrap();
    disk.close(&mut w);
    let r = disk.open();
    assert_eq!(r.dataset_names(), vec!["g/d".to_string()]);
    assert_eq!(disk.read(&r, "g/d"), vec![3]);
    assert!(r.has_group("g/h"));
}

#[test]
fn attributes_of_the_root_group_are_replaced() {
    let mut disk = Disk::new();
    let mut w = Hdf5Writer::new();
    w.add_root_attribute(AttributeMessage::scalar_string("a", "one"));
    w.add_root_attribute(AttributeMessage::scalar_string("b", "other"));
    w.add_root_attribute(AttributeMessage::scalar_string("a", "two"));
    disk.close(&mut w);
    let r = disk.open();
    assert_eq!(r.root_attr_names(), vec!["a", "b"]);
    assert_eq!(r.root_attr("a").unwrap().data, b"two".to_vec());
}

#[test]
fn targets_of_links_may_begin_with_a_slash() {
    let mut disk = Disk::new();
    let mut w = Hdf5Writer::new();
    let d = w.create_dataset("d", DatatypeMessage::u8_type(), &[1]).unwrap();
    let at = w.write_dataset_raw(d, &[4]).unwrap();
    disk.put(at, &[4]);
    w.create_hard_link("/", "x", "d").unwrap();
    w.create_hard_link("/", "y", "/d").unwrap();
    assert!(w.create_hard_link("/", "z", "e").is_err());
    disk.close(&mut w);
    let r = disk.open();
    for name in ["d", "x", "y"] {
        assert_eq!(disk.read(&r, name), vec![4]);
    }
}
