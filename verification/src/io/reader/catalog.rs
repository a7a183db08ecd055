//! What a reader has found in a file: datasets, groups and attributes.

use crate::format::global_heap::{
    decode_vlen_reference, find_object, object_value, reference_at, reference_size,
    vlen_reference_size, HeapObject,
};
use crate::format::messages::attribute::{text_attribute, AttributeMessage, AttributeView};
use crate::format::messages::dataspace::copy_dims;
use crate::format::messages::datatype::DatatypeMessage;
use crate::format::{FormatContext, UNDEF_ADDR};
use crate::io::reader::data::{
    apply_post_filter_conversion, is_converted, layout_ok, ReadPlan,
};
use crate::io::reader::messages::DatasetReadInfo;
use crate::io::reader::selection::{selectable, selection_error, selection_plan, SelectionPlan};
use crate::io::reader::strings::{
    read_vlen_strings, string_count, strings_upto, StringsFound,
};
use crate::io::search::{is_at, lemma_no_position, lemma_position, lemma_position_is, position};
use crate::io::writer::attributes::{attribute_at, attribute_named, find_attribute};
use crate::io::writer::catalog::texts;
use crate::io::{not_found, IoErrorView, IoResult};
use crate::text::{lossy, text_of, Text};
use std::collections::HashMap;
use vstd::prelude::*;
use vstd::slice::slice_subrange;
use vstd::utf8::encode_utf8;

verus! {

/// The attributes of a group.
pub struct GroupAttributes {
    /// Path of the group, without a slash at its start.
    pub path: String,
    /// Its attributes.
    pub attributes: Vec<AttributeMessage>,
}

/// What a reader knows of a file.
pub struct Hdf5Reader {
    /// Widths of addresses and lengths.
    pub ctx: FormatContext,
    /// The datasets.
    pub datasets: Vec<DatasetReadInfo>,
    /// Attributes of the root group.
    pub root_attributes: Vec<AttributeMessage>,
    /// Attributes of the other groups that have any.
    pub group_attributes: Vec<GroupAttributes>,
    /// Paths of the groups, without a slash at their start, each once.
    pub group_paths: Vec<String>,
}

/// Whether dataset `i` has this name.
pub open spec fn dataset_named(ds: Seq<DatasetReadInfo>, name: Seq<char>) -> spec_fn(int) -> bool {
    |i: int| ds[i].name@ == name
}

/// Whether the attributes `i` are those of the group at `path`.
pub open spec fn group_of(gs: Seq<GroupAttributes>, path: Seq<char>) -> spec_fn(int) -> bool {
    |i: int| gs[i].path@ == path
}

/// The names of attributes.
pub open spec fn names_of(attrs: Seq<AttributeMessage>) -> Seq<Seq<char>> {
    Seq::new(attrs.len(), |i: int| attrs[i].name@)
}

/// The names of attributes.
pub fn attribute_names(attrs: &Vec<AttributeMessage>) -> (names: Vec<String>)
    ensures
        texts(names@) == names_of(attrs@),
{
    let mut names: Vec<String> = Vec::new();
    let mut i: usize = 0;
    while i < attrs.len()
        invariant
            i <= attrs.len(),
            names@.len() == i,
            forall|j: int| 0 <= j < i ==> #[trigger] names@[j]@ == attrs@[j].name@,
        decreases attrs.len() - i,
    {
        names.push(attrs[i].name.clone());
        i = i + 1;
    }
    assert(texts(names@) =~= names_of(attrs@));
    names
}

/// The attribute of this name.
pub open spec fn attribute_of(attrs: Seq<AttributeMessage>, name: Seq<char>) -> Option<
    AttributeMessage,
> {
    match attribute_at(attrs, name) {
        Some(i) => Some(attrs[i]),
        None => None,
    }
}

/// The attribute of this name.
pub fn attribute<'a>(attrs: &'a Vec<AttributeMessage>, name: &str) -> (r: Option<
    &'a AttributeMessage,
>)
    ensures
        match r {
            Some(a) => attribute_of(attrs@, name@) == Some(*a),
            None => attribute_of(attrs@, name@) is None,
        },
{
    proof {
        lemma_position_is(attrs@.len(), attribute_named(attrs@, name@));
    }
    match find_attribute(attrs, name) {
        Some(i) => Some(&attrs[i]),
        None => None,
    }
}

/// Bytes up to the first zero.
pub open spec fn up_to_zero(b: Seq<u8>) -> Seq<u8>
    decreases b.len(),
{
    if b.len() == 0 || b[0] == 0 {
        Seq::empty()
    } else {
        seq![b[0]] + up_to_zero(b.skip(1))
    }
}

proof fn lemma_up_to_zero(b: Seq<u8>, n: int)
    requires
        0 <= n <= b.len(),
        forall|i: int| 0 <= i < n ==> b[i] != 0,
        n == b.len() || b[n] == 0,
    ensures
        up_to_zero(b) == b.take(n),
    decreases n,
{
    if n > 0 {
        let t = b.skip(1);
        assert(b[0] != 0);
        assert forall|i: int| 0 <= i < n - 1 implies t[i] != 0 by {
            assert(t[i] == b[i + 1]);
        }
        assert(n == b.len() || t[n - 1] == b[n]);
        lemma_up_to_zero(t, n - 1);
        assert(seq![b[0]] + t.take(n - 1) =~= b.take(n));
    } else {
        assert(b.take(0) =~= Seq::<u8>::empty());
    }
}

/// Where the value of a string attribute stands.
#[derive(Debug)]
pub enum StringValue {
    /// The value itself.
    Here(String),
    /// Object `index` of the heap at `addr`.
    InHeap { addr: u64, index: u16 },
}

/// What is known of the value of a string attribute.
#[verifier::ext_equal]
pub enum StringValueView {
    Here(Seq<char>),
    InHeap { addr: u64, index: u16 },
}

impl View for StringValue {
    type V = StringValueView;

    open spec fn view(&self) -> StringValueView {
        match *self {
            StringValue::Here(s) => StringValueView::Here(s@),
            StringValue::InHeap { addr, index } => StringValueView::InHeap { addr, index },
        }
    }
}

/// Where the value of a string attribute stands. A string of fixed length ends at the
/// first zero; one of any length is a reference to a heap.
pub open spec fn string_value(a: AttributeView, ctx: FormatContext) -> StringValueView {
    if !variable(a) {
        StringValueView::Here(text_of(up_to_zero(a.data)))
    } else if a.data.len() < reference_size(ctx) {
        StringValueView::Here(""@)
    } else {
        let (len, addr, index) = reference_at(a.data, ctx);
        if addr == UNDEF_ADDR || addr == 0 {
            StringValueView::Here(""@)
        } else {
            StringValueView::InHeap { addr, index: index as u16 }
        }
    }
}

/// Whether an attribute is a string of any length.
pub open spec fn variable(a: AttributeView) -> bool {
    a.datatype matches crate::format::messages::datatype::DatatypeView::Simple(
        DatatypeMessage::VarLenString { .. },
    )
}

/// Object `index` of a heap as text; nothing if the bytes are no heap.
pub open spec fn heap_text(heap: Option<Seq<HeapObject>>, index: u16) -> Seq<char> {
    match heap {
        Some(objects) => text_of(object_value(objects, index, objects.len())),
        None => ""@,
    }
}

/// Object `index` of a heap as text. `heap` is the decoded heap, if there is one.
pub fn heap_string(heap: Option<&Vec<HeapObject>>, index: u16) -> (s: String)
    ensures
        s@ == heap_text(
            match heap {
                Some(h) => Some(h@),
                None => None,
            },
            index,
        ),
{
    match heap {
        Some(h) => {
            let v = find_object(h, index);
            lossy(v.as_slice())
        },
        None => "".to_owned(),
    }
}

/// A text attribute reads back as its text, if the text has no zero byte.
pub proof fn lemma_text_attribute(name: Seq<char>, value: Seq<char>, ctx: FormatContext)
    requires
        !encode_utf8(value).contains(0u8),
    ensures
        string_value(text_attribute(name, value), ctx) == StringValueView::Here(value),
{
    broadcast use vstd::utf8::encode_utf8_valid_utf8, vstd::utf8::encode_utf8_decode_utf8;

    let b = encode_utf8(value);
    assert forall|i: int| 0 <= i < b.len() implies b[i] != 0 by {
        if b[i] == 0 {
            assert(b.contains(0u8));
        }
    }
    lemma_up_to_zero(b, b.len() as int);
    assert(b.take(b.len() as int) =~= b);
}

impl Hdf5Reader {
    /// The dataset of this name.
    pub open spec fn dataset_at(self, name: Seq<char>) -> Option<int> {
        position(self.datasets@.len(), dataset_named(self.datasets@, name))
    }

    /// The entry of a group that has attributes.
    pub open spec fn group_entry(self, path: Seq<char>) -> Option<int> {
        position(self.group_attributes@.len(), group_of(self.group_attributes@, path))
    }

    /// The attributes of a group.
    pub open spec fn attributes_in(self, path: Seq<char>) -> Seq<AttributeMessage> {
        match self.group_entry(path) {
            Some(i) => self.group_attributes@[i].attributes@,
            None => Seq::empty(),
        }
    }

    /// The names of all datasets.
    pub fn dataset_names(&self) -> (names: Vec<String>)
        ensures
            names@.len() == self.datasets@.len(),
            forall|i: int| 0 <= i < names@.len() ==> #[trigger] names@[i]@ == self.datasets@[i].name@,
    {
        let mut names: Vec<String> = Vec::new();
        let mut i: usize = 0;
        while i < self.datasets.len()
            invariant
                i <= self.datasets.len(),
                names@.len() == i,
                forall|j: int| 0 <= j < i ==> #[trigger] names@[j]@ == self.datasets@[j].name@,
            decreases self.datasets.len() - i,
        {
            names.push(self.datasets[i].name.clone());
            i = i + 1;
        }
        names
    }

    /// The index of a dataset by name.
    pub fn find_dataset(&self, name: &str) -> (r: Option<usize>)
        ensures
            is_at(r, self.dataset_at(name@)),
    {
        let ghost f = dataset_named(self.datasets@, name@);
        let wanted: String = name.to_owned();
        let mut i: usize = 0;
        while i < self.datasets.len()
            invariant
                i <= self.datasets.len(),
                wanted@ == name@,
                f == dataset_named(self.datasets@, name@),
                forall|j: int| 0 <= j < i ==> !#[trigger] f(j),
            decreases self.datasets.len() - i,
        {
            let hit: bool = self.datasets[i].name == wanted;
            assert(hit == f(i as int));
            if hit {
                proof {
                    lemma_position(self.datasets@.len(), f, i as int);
                }
                return Some(i);
            }
            i = i + 1;
        }
        proof {
            lemma_no_position(self.datasets@.len(), f);
        }
        None
    }

    /// What is known of a dataset.
    pub fn dataset_info(&self, name: &str) -> (r: Option<&DatasetReadInfo>)
        ensures
            match self.dataset_at(name@) {
                Some(i) => r == Some(&self.datasets@[i]),
                None => r is None,
            },
    {
        proof {
            lemma_position_is(self.datasets@.len(), dataset_named(self.datasets@, name@));
        }
        match self.find_dataset(name) {
            Some(i) => Some(&self.datasets[i]),
            None => None,
        }
    }

    /// The names of a dataset's attributes.
    pub fn dataset_attr_names(&self, name: &str) -> (r: IoResult<Vec<String>>)
        ensures
            match self.dataset_at(name@) {
                Some(i) => r matches Ok(v) && texts(v@) == names_of(self.datasets@[i].attributes@),
                None => r matches Err(e) && e@ == IoErrorView::NotFound(name@),
            },
    {
        match self.dataset_info(name) {
            Some(d) => Ok(attribute_names(&d.attributes)),
            None => Err(not_found(Text::new(name))),
        }
    }

    /// An attribute of a dataset.
    pub fn dataset_attr(&self, ds_name: &str, attr_name: &str) -> (r: IoResult<&AttributeMessage>)
        ensures
            match self.dataset_at(ds_name@) {
                Some(i) => match attribute_of(self.datasets@[i].attributes@, attr_name@) {
                    Some(a) => r matches Ok(x) && *x == a,
                    None => r matches Err(e) && e@ == IoErrorView::NotFound(
                        ds_name@ + ":"@ + attr_name@,
                    ),
                },
                None => r matches Err(e) && e@ == IoErrorView::NotFound(ds_name@),
            },
    {
        match self.dataset_info(ds_name) {
            Some(d) => match attribute(&d.attributes, attr_name) {
                Some(a) => Ok(a),
                None => Err(not_found(Text::new(ds_name).text(":").text(attr_name))),
            },
            None => Err(not_found(Text::new(ds_name))),
        }
    }

    /// The names of the root group's attributes.
    pub fn root_attr_names(&self) -> (names: Vec<String>)
        ensures
            texts(names@) == names_of(self.root_attributes@),
    {
        attribute_names(&self.root_attributes)
    }

    /// An attribute of the root group.
    pub fn root_attr(&self, name: &str) -> (r: Option<&AttributeMessage>)
        ensures
            match r {
                Some(a) => attribute_of(self.root_attributes@, name@) == Some(*a),
                None => attribute_of(self.root_attributes@, name@) is None,
            },
    {
        attribute(&self.root_attributes, name)
    }

    /// The entry of a group that has attributes.
    fn find_group_entry(&self, path: &str) -> (r: Option<usize>)
        ensures
            is_at(r, self.group_entry(path@)),
    {
        let ghost f = group_of(self.group_attributes@, path@);
        let wanted: String = path.to_owned();
        let mut i: usize = 0;
        while i < self.group_attributes.len()
            invariant
                i <= self.group_attributes.len(),
                wanted@ == path@,
                f == group_of(self.group_attributes@, path@),
                forall|j: int| 0 <= j < i ==> !#[trigger] f(j),
            decreases self.group_attributes.len() - i,
        {
            let hit: bool = self.group_attributes[i].path == wanted;
            assert(hit == f(i as int));
            if hit {
                proof {
                    lemma_position(self.group_attributes@.len(), f, i as int);
                }
                return Some(i);
            }
            i = i + 1;
        }
        proof {
            lemma_no_position(self.group_attributes@.len(), f);
        }
        None
    }

    /// The names of a group's attributes. The path has no slash at its start.
    pub fn group_attr_names(&self, group_path: &str) -> (names: Vec<String>)
        ensures
            texts(names@) == names_of(self.attributes_in(group_path@)),
    {
        proof {
            lemma_position_is(
                self.group_attributes@.len(),
                group_of(self.group_attributes@, group_path@),
            );
        }
        match self.find_group_entry(group_path) {
            Some(i) => attribute_names(&self.group_attributes[i].attributes),
            None => {
                let names: Vec<String> = Vec::new();
                assert(texts(names@) =~= names_of(self.attributes_in(group_path@)));
                names
            },
        }
    }

    /// An attribute of a group. The path has no slash at its start.
    pub fn group_attr(&self, group_path: &str, name: &str) -> (r: Option<&AttributeMessage>)
        ensures
            match r {
                Some(a) => attribute_of(self.attributes_in(group_path@), name@) == Some(*a),
                None => attribute_of(self.attributes_in(group_path@), name@) is None,
            },
    {
        proof {
            lemma_position_is(
                self.group_attributes@.len(),
                group_of(self.group_attributes@, group_path@),
            );
        }
        match self.find_group_entry(group_path) {
            Some(i) => attribute(&self.group_attributes[i].attributes, name),
            None => None,
        }
    }

    /// The paths of all groups but the root group, without a slash at their start.
    pub fn group_paths(&self) -> (p: &Vec<String>)
        ensures
            *p == self.group_paths,
    {
        &self.group_paths
    }

    /// Whether there is a group at this path, which has no slash at its start. The
    /// root group has an empty path.
    pub fn has_group(&self, group_path: &str) -> (r: bool)
        ensures
            r == (group_path@.len() == 0 || texts(self.group_paths@).contains(group_path@)),
    {
        let wanted: String = group_path.to_owned();
        let empty: String = "".to_owned();
        proof {
            reveal_strlit("");
        }
        if wanted == empty {
            return true;
        }
        assert(group_path@.len() != 0) by {
            if group_path@.len() == 0 {
                assert(group_path@ =~= ""@);
            }
        }
        contains_text(&self.group_paths, group_path)
    }

    /// Where the value of a string attribute stands.
    pub fn attr_string_value(&self, attr: &AttributeMessage) -> (v: StringValue)
        requires
            self.ctx.sizeof_addr <= 8,
        ensures
            v@ == string_value(attr@, self.ctx),
    {
        match &attr.datatype {
            DatatypeMessage::VarLenString { .. } => {},
            _ => {
                let n: usize = attr.data.len();
                let mut end: usize = 0;
                while end < n && attr.data[end] != 0
                    invariant
                        end <= n,
                        n == attr.data@.len(),
                        forall|i: int| 0 <= i < end ==> attr.data@[i] != 0,
                    decreases n - end,
                {
                    end = end + 1;
                }
                let part = slice_subrange(attr.data.as_slice(), 0, end);
                proof {
                    lemma_up_to_zero(attr.data@, end as int);
                    assert(part@ =~= attr.data@.take(end as int));
                }
                return StringValue::Here(lossy(part));
            },
        }
        if attr.data.len() < vlen_reference_size(&self.ctx) {
            return StringValue::Here("".to_owned());
        }
        match decode_vlen_reference(attr.data.as_slice(), &self.ctx) {
            Ok((_, addr, index)) => {
                if addr == UNDEF_ADDR || addr == 0 {
                    StringValue::Here("".to_owned())
                } else {
                    StringValue::InHeap { addr, index: index as u16 }
                }
            },
            Err(_) => {
                assert(false);
                StringValue::Here("".to_owned())
            },
        }
    }

    /// The shape of a dataset.
    pub fn dataset_shape(&self, name: &str) -> (r: IoResult<Vec<u64>>)
        ensures
            match self.dataset_at(name@) {
                Some(i) => r matches Ok(v) && v@ == self.datasets@[i].dataspace.dims@,
                None => r matches Err(e) && e@ == IoErrorView::NotFound(name@),
            },
    {
        match self.dataset_info(name) {
            Some(d) => Ok(copy_dims(d.dataspace.dims.as_slice())),
            None => Err(not_found(Text::new(name))),
        }
    }

    /// What has to be read for a dataset.
    pub fn read_dataset_raw(&self, name: &str) -> (r: IoResult<ReadPlan>)
        requires
            self.dataset_at(name@) matches Some(i) ==> layout_ok(self.datasets@[i].layout@),
        ensures
            match self.dataset_at(name@) {
                Some(i) => match self.datasets@[i].plan() {
                    Ok(p) => r matches Ok(x) && x@ == p,
                    Err(v) => r matches Err(e) && e@ == v,
                },
                None => r matches Err(e) && e@ == IoErrorView::NotFound(name@),
            },
    {
        match self.dataset_info(name) {
            Some(d) => d.read_plan(),
            None => Err(not_found(Text::new(name))),
        }
    }

    /// What has to be read for a selection of a dataset.
    pub fn read_slice(&self, name: &str, starts: &[u64], counts: &[u64]) -> (r: IoResult<
        SelectionPlan,
    >)
        requires
            self.dataset_at(name@) matches Some(i) ==> selectable(
                self.datasets@[i].layout@,
                self.datasets@[i].dataspace.dims@,
                self.datasets@[i].datatype.spec_element_size() as nat,
                starts@,
                counts@,
            ),
        ensures
            match self.dataset_at(name@) {
                Some(i) => {
                    let d = self.datasets@[i];
                    match selection_error(d.dataspace.dims@, starts@, counts@) {
                        Some(v) => r matches Err(e) && e@ == v,
                        None => r matches Ok(p) && p@ == selection_plan(
                            d.layout@,
                            d.dataspace.dims@,
                            d.datatype.spec_element_size() as nat,
                            starts@,
                            counts@,
                        ),
                    }
                },
                None => r matches Err(e) && e@ == IoErrorView::NotFound(name@),
            },
    {
        match self.dataset_info(name) {
            Some(d) => d.read_selection(starts, counts),
            None => Err(not_found(Text::new(name))),
        }
    }

    /// What data that were read of a dataset stand for.
    pub fn converted_data(&self, name: &str, data: Vec<u8>) -> (r: IoResult<Vec<u8>>)
        requires
            self.dataset_at(name@) matches Some(i) ==> 8
                * self.datasets@[i].datatype.spec_element_size() <= u32::MAX,
        ensures
            match self.dataset_at(name@) {
                Some(i) => is_converted(r, self.datasets@[i].datatype, data@),
                None => r matches Err(e) && e@ == IoErrorView::NotFound(name@),
            },
    {
        match self.dataset_info(name) {
            Some(d) => apply_post_filter_conversion(data, &d.datatype),
            None => Err(not_found(Text::new(name))),
        }
    }

    /// The strings of a dataset. `raw` are the data that were read for it.
    pub fn read_vlen_strings(
        &self,
        name: &str,
        raw: &[u8],
        heaps: &HashMap<u64, Option<Vec<HeapObject>>>,
    ) -> (r: IoResult<StringsFound>)
        requires
            self.ctx.sizeof_addr <= 8,
        ensures
            match self.dataset_at(name@) {
                Some(i) => r matches Ok(x) && x@ == strings_upto(
                    raw@,
                    self.ctx,
                    heaps@,
                    string_count(raw@, self.datasets@[i].dataspace.dims@, self.ctx),
                ),
                None => r matches Err(e) && e@ == IoErrorView::NotFound(name@),
            },
    {
        match self.dataset_info(name) {
            Some(d) => Ok(
                read_vlen_strings(raw, d.dataspace.dims.as_slice(), &self.ctx, heaps),
            ),
            None => Err(not_found(Text::new(name))),
        }
    }

    /// Bytes of an element of a dataset.
    pub fn dataset_element_size(&self, name: &str) -> (r: IoResult<usize>)
        ensures
            match self.dataset_at(name@) {
                Some(i) => r matches Ok(n) && n == self.datasets@[i].datatype.spec_element_size(),
                None => r matches Err(e) && e@ == IoErrorView::NotFound(name@),
            },
    {
        match self.dataset_info(name) {
            Some(d) => Ok(d.datatype.element_size() as usize),
            None => Err(not_found(Text::new(name))),
        }
    }
}

/// Whether a text is in a list.
pub fn contains_text(v: &Vec<String>, s: &str) -> (r: bool)
    ensures
        r == texts(v@).contains(s@),
{
    let wanted: String = s.to_owned();
    let mut i: usize = 0;
    while i < v.len()
        invariant
            i <= v.len(),
            wanted@ == s@,
            forall|j: int| 0 <= j < i ==> #[trigger] v@[j]@ != s@,
        decreases v.len() - i,
    {
        if v[i] == wanted {
            assert(texts(v@)[i as int] == s@);
            return true;
        }
        i = i + 1;
    }
    proof {
        assert forall|j: int| 0 <= j < texts(v@).len() implies texts(v@)[j] != s@ by {
            assert(v@[j]@ != s@);
        }
    }
    false
}

} // verus!
