//! Reading a file that another process writes.

use crate::format::global_heap::HeapObject;
use crate::format::superblock::SuperblockV2V3;
use crate::group::{in_order, put_name};
use crate::io::locking::{policy_of, FileLocking};
use crate::io::names::{is_root, trim_start, trimmed_start};
use crate::io::reader::catalog::{
    attribute_of, names_of, string_value, Hdf5Reader, StringValue,
};
use crate::io::reader::data::{layout_ok, ReadPlan};
use crate::io::reader::messages::{infos, DecodedMessage};
use crate::io::reader::open::knows;
use crate::io::reader::selection::{selectable, selection_error, selection_plan, SelectionPlan};
use crate::io::reader::strings::{string_count, strings_upto, StringsFound};
use crate::io::reader::walk::{linked, Objects, ReadRequest};
use crate::io::writer::catalog::texts;
use crate::io::{not_found, IoErrorView, IoResult};
use crate::swmr::{bytes_to_typed, elements};
use crate::text::{decimal, Text};
use crate::types::H5Type;
use std::collections::HashMap;
use vstd::prelude::*;

verus! {

/// A reader of a file that is being written.
pub struct SwmrFileReader {
    /// What is known of the file.
    pub reader: Hdf5Reader,
    /// How the file is locked.
    pub locking: FileLocking,
}

/// The attributes of a group, or those of the root group for `/`.
pub open spec fn group_attributes(r: Hdf5Reader, path: Seq<char>) -> Seq<
    crate::format::messages::attribute::AttributeMessage,
> {
    if path == seq!['/'] {
        r.root_attributes@
    } else {
        r.attributes_in(trimmed_start(path))
    }
}

/// Whether a list holds the values that elements stand for.
pub open spec fn is_typed<T: H5Type>(r: IoResult<Vec<T>>, raw: Seq<u8>) -> bool {
    match r {
        Ok(v) => T::size() > 0 && raw.len() == v@.len() * T::size() && elements(v@) == raw,
        Err(e) => (T::size() == 0 || raw.len() as int % T::size() as int != 0) && e@
            == IoErrorView::InvalidState(
            "raw data size "@ + decimal(raw.len()) + " is not a multiple of element size "@
                + decimal(T::size()),
        ),
    }
}

impl SwmrFileReader {
    /// A reader of a file, as it was found. `setting` is the value of
    /// `HDF5_USE_FILE_LOCKING`.
    pub fn open(reader: Hdf5Reader, setting: Option<&str>) -> (r: Self)
        ensures
            r.reader == reader,
            r.locking == policy_of(
                match setting {
                    Some(v) => Some(v@),
                    None => None,
                },
            ),
    {
        SwmrFileReader { reader, locking: FileLocking::parse_env_value(setting) }
    }

    /// A reader of a file, with an explicit locking policy.
    pub fn open_with_locking(reader: Hdf5Reader, locking: FileLocking) -> (r: Self)
        ensures
            r.reader == reader,
            r.locking == locking,
    {
        SwmrFileReader { reader, locking }
    }

    /// Look at the file again.
    pub fn refresh(&mut self, sb: &SuperblockV2V3, root: &Vec<DecodedMessage>, o: &Objects) -> (need:
        Option<ReadRequest>)
        ensures
            final(self).locking == old(self).locking,
            ({
                let f = linked(*o, infos(root@), sb.root_group_object_header_address);
                &&& need == f.need
                &&& match f.need {
                    Some(_) => *final(self) == *old(self),
                    None => {
                        &&& knows(final(self).reader, f)
                        &&& final(self).reader.ctx.sizeof_addr == sb.sizeof_offsets
                        &&& final(self).reader.ctx.sizeof_size == sb.sizeof_lengths
                        &&& final(self).reader.root_attributes == old(self).reader.root_attributes
                    },
                }
            }),
    {
        self.reader.refresh(sb, root, o)
    }

    /// The names of all datasets.
    pub fn dataset_names(&self) -> (names: Vec<String>)
        ensures
            texts(names@) == Seq::new(
                self.reader.datasets@.len(),
                |i: int| self.reader.datasets@[i].name@,
            ),
    {
        self.reader.dataset_names()
    }

    /// The shape of a dataset.
    pub fn dataset_shape(&self, name: &str) -> (r: IoResult<Vec<u64>>)
        ensures
            match self.reader.dataset_at(name@) {
                Some(i) => r matches Ok(v) && v@ == self.reader.datasets@[i].dataspace.dims@,
                None => r matches Err(e) && e@ == IoErrorView::NotFound(name@),
            },
    {
        self.reader.dataset_shape(name)
    }

    /// What has to be read for a dataset.
    pub fn read_dataset_raw(&self, name: &str) -> (r: IoResult<ReadPlan>)
        requires
            self.reader.dataset_at(name@) matches Some(i) ==> layout_ok(
                self.reader.datasets@[i].layout@,
            ),
        ensures
            match self.reader.dataset_at(name@) {
                Some(i) => match self.reader.datasets@[i].plan() {
                    Ok(p) => r matches Ok(x) && x@ == p,
                    Err(v) => r matches Err(e) && e@ == v,
                },
                None => r matches Err(e) && e@ == IoErrorView::NotFound(name@),
            },
    {
        self.reader.read_dataset_raw(name)
    }

    /// The values of a dataset. `raw` are its data.
    pub fn read_dataset<T: H5Type>(&self, raw: &[u8]) -> (r: IoResult<Vec<T>>)
        ensures
            is_typed(r, raw@),
    {
        bytes_to_typed(raw)
    }

    /// What has to be read for a selection of a dataset.
    pub fn read_slice_raw(&self, name: &str, starts: &[u64], counts: &[u64]) -> (r: IoResult<
        SelectionPlan,
    >)
        requires
            self.reader.dataset_at(name@) matches Some(i) ==> selectable(
                self.reader.datasets@[i].layout@,
                self.reader.datasets@[i].dataspace.dims@,
                self.reader.datasets@[i].datatype.spec_element_size() as nat,
                starts@,
                counts@,
            ),
        ensures
            match self.reader.dataset_at(name@) {
                Some(i) => {
                    let d = self.reader.datasets@[i];
                    match selection_error(d.dataspace.dims@, starts@, counts@) {
                        Some(v) => r matches Err(e) && e@ == v,
                        None => r matches Ok(p) && p@ == selection_plan(
                            d.layout@,
                            d.dataspace.dims@,
                            d.datatype.spec_element_size() as nat,
                            starts@,
                            counts@,
                        ),
                    }
                },
                None => r matches Err(e) && e@ == IoErrorView::NotFound(name@),
            },
    {
        self.reader.read_slice(name, starts, counts)
    }

    /// The values of a selection of a dataset. `raw` are its data.
    pub fn read_slice<T: H5Type>(&self, raw: &[u8]) -> (r: IoResult<Vec<T>>)
        ensures
            is_typed(r, raw@),
    {
        bytes_to_typed(raw)
    }

    /// The strings of a dataset. `raw` are the data that were read for it.
    pub fn read_vlen_strings(
        &self,
        name: &str,
        raw: &[u8],
        heaps: &HashMap<u64, Option<Vec<HeapObject>>>,
    ) -> (r: IoResult<StringsFound>)
        requires
            self.reader.ctx.sizeof_addr <= 8,
        ensures
            match self.reader.dataset_at(name@) {
                Some(i) => r matches Ok(x) && x@ == strings_upto(
                    raw@,
                    self.reader.ctx,
                    heaps@,
                    string_count(
                        raw@,
                        self.reader.datasets@[i].dataspace.dims@,
                        self.reader.ctx,
                    ),
                ),
                None => r matches Err(e) && e@ == IoErrorView::NotFound(name@),
            },
    {
        self.reader.read_vlen_strings(name, raw, heaps)
    }

    /// Bytes of an element of a dataset.
    pub fn dataset_element_size(&self, name: &str) -> (r: IoResult<usize>)
        ensures
            match self.reader.dataset_at(name@) {
                Some(i) => r matches Ok(n) && n
                    == self.reader.datasets@[i].datatype.spec_element_size(),
                None => r matches Err(e) && e@ == IoErrorView::NotFound(name@),
            },
    {
        self.reader.dataset_element_size(name)
    }

    /// The paths of all groups, in alphabetical order.
    pub fn group_paths(&self) -> (names: Vec<String>)
        ensures
            in_order(texts(names@)),
            forall|x: Seq<char>|
                #[trigger] texts(names@).contains(x) <==> texts(
                    self.reader.group_paths@,
                ).contains(x),
    {
        let all = &self.reader.group_paths;
        let mut names: Vec<String> = Vec::new();
        let ghost paths = texts(all@);
        let mut i: usize = 0;
        while i < all.len()
            invariant
                i <= all.len(),
                paths == texts(all@),
                in_order(texts(names@)),
                forall|x: Seq<char>|
                    #[trigger] texts(names@).contains(x) <==> paths.take(i as int).contains(x),
            decreases all.len() - i,
        {
            let ghost was = texts(names@);
            let one = all[i].as_str().to_owned();
            put_name(&mut names, one);
            proof {
                let now = texts(names@);
                let p = paths.take(i as int);
                let q = paths.take(i + 1);
                assert(paths[i as int] == one@);
                assert(q =~= p.push(one@));
                assert forall|x: Seq<char>| #[trigger] now.contains(x) <==> q.contains(x) by {
                    if p.contains(x) {
                        let k = choose|k: int| 0 <= k < p.len() && p[k] == x;
                        assert(q[k] == x);
                    }
                    if x == one@ {
                        assert(q[i as int] == x);
                    }
                    if q.contains(x) {
                        let k = choose|k: int| 0 <= k < q.len() && q[k] == x;
                        if k < i {
                            assert(p[k] == x);
                        }
                    }
                    assert(was.contains(x) <==> p.contains(x));
                }
            }
            i = i + 1;
        }
        assert(paths.take(i as int) =~= paths);
        names
    }

    /// Whether there is a group at this path. Slashes at its start do not count.
    pub fn has_group(&self, group_path: &str) -> (r: bool)
        ensures
            r == (trimmed_start(group_path@).len() == 0 || texts(
                self.reader.group_paths@,
            ).contains(trimmed_start(group_path@))),
    {
        self.reader.has_group(trim_start(group_path))
    }

    /// The names of a dataset's attributes.
    pub fn dataset_attr_names(&self, name: &str) -> (r: IoResult<Vec<String>>)
        ensures
            match self.reader.dataset_at(name@) {
                Some(i) => r matches Ok(v) && texts(v@) == names_of(
                    self.reader.datasets@[i].attributes@,
                ),
                None => r matches Err(e) && e@ == IoErrorView::NotFound(name@),
            },
    {
        self.reader.dataset_attr_names(name)
    }

    /// The value of a dataset's string attribute.
    pub fn dataset_attr_string(&self, dataset: &str, attr: &str) -> (r: IoResult<StringValue>)
        requires
            self.reader.ctx.sizeof_addr <= 8,
        ensures
            match self.reader.dataset_at(dataset@) {
                Some(i) => match attribute_of(self.reader.datasets@[i].attributes@, attr@) {
                    Some(a) => r matches Ok(v) && v@ == string_value(a@, self.reader.ctx),
                    None => r matches Err(e) && e@ == IoErrorView::NotFound(
                        dataset@ + ":"@ + attr@,
                    ),
                },
                None => r matches Err(e) && e@ == IoErrorView::NotFound(dataset@),
            },
    {
        match self.reader.dataset_attr(dataset, attr) {
            Ok(a) => Ok(self.reader.attr_string_value(a)),
            Err(e) => Err(e),
        }
    }

    /// The names of a group's attributes, or of those of the root group for `/`. Slashes
    /// at the start of the path do not count.
    pub fn group_attr_names(&self, group_path: &str) -> (names: Vec<String>)
        ensures
            texts(names@) == names_of(group_attributes(self.reader, group_path@)),
    {
        if is_root(group_path) {
            self.reader.root_attr_names()
        } else {
            self.reader.group_attr_names(trim_start(group_path))
        }
    }

    /// The value of a group's string attribute, or of one of the root group for `/`.
    /// Slashes at the start of the path do not count.
    pub fn group_attr_string(&self, group_path: &str, attr: &str) -> (r: IoResult<StringValue>)
        requires
            self.reader.ctx.sizeof_addr <= 8,
        ensures
            match attribute_of(group_attributes(self.reader, group_path@), attr@) {
                Some(a) => r matches Ok(v) && v@ == string_value(a@, self.reader.ctx),
                None => r matches Err(e) && e@ == IoErrorView::NotFound(attr@),
            },
    {
        let found = if is_root(group_path) {
            self.reader.root_attr(attr)
        } else {
            self.reader.group_attr(trim_start(group_path), attr)
        };
        match found {
            Some(a) => Ok(self.reader.attr_string_value(a)),
            None => Err(not_found(Text::new(attr))),
        }
    }
}

} // verus!
