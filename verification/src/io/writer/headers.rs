//! Object headers of datasets and groups.

use crate::format::bytes::{le_bytes, push_le};
use crate::format::chunk_index::fixed_array::FA_PAGE_BITS;
use crate::format::messages::attribute::{AttributeMessage, AttributeView};
use crate::format::messages::data_layout::{
    ChunkIndexType, DataLayoutMessage, FixedArrayParams, LayoutView,
};
use crate::format::messages::dataspace::{copy_dims, DataspaceMessage, SpaceView};
use crate::format::messages::datatype::{DatatypeMessage, DatatypeView};
use crate::format::messages::fill_value::{FillValueMessage, FillView};
use crate::format::messages::filter::{FilterPipeline, FilterView};
use crate::format::messages::{
    MSG_ATTRIBUTE, MSG_DATASPACE, MSG_DATATYPE, MSG_DATA_LAYOUT, MSG_FILL_VALUE,
    MSG_FILTER_PIPELINE, MSG_GROUP_INFO, MSG_LINK, MSG_LINK_INFO, MSG_OBJ_REF_COUNT,
};
use crate::io::names::{leaf, leaf_name};
use crate::io::writer::attributes::fill_of;
use crate::io::writer::catalog::emitted;
use crate::io::writer::content::{has_chunks, is_chunked};
use crate::io::writer::state::{
    group_placed, link_placed, DatasetInfo, GroupInfo, HardLinkTarget, Hdf5Writer,
};
use vstd::prelude::*;

verus! {

/// What a header message holds.
#[derive(Debug)]
pub enum MessageBody {
    Dataspace(DataspaceMessage),
    Datatype(DatatypeMessage),
    FillValue(FillValueMessage),
    DataLayout(DataLayoutMessage),
    FilterPipeline(FilterPipeline),
    Attribute(AttributeMessage),
    /// Links are stored in the header.
    LinkInfo,
    /// The usual properties of a group.
    GroupInfo,
    /// A name for the object whose header stands at `addr`.
    Link { name: String, addr: u64 },
    /// Encoded count of links.
    RefCount(Vec<u8>),
}

/// A message of an object header.
#[derive(Debug)]
pub struct HeaderItem {
    /// Type of the message.
    pub msg_type: u8,
    /// Flags of the message.
    pub flags: u8,
    /// What it holds.
    pub body: MessageBody,
}

/// What the body of a header message says.
#[verifier::ext_equal]
pub enum BodyView {
    Dataspace(SpaceView),
    Datatype(DatatypeView),
    FillValue(FillView),
    DataLayout(LayoutView),
    FilterPipeline(Seq<FilterView>),
    Attribute(AttributeView),
    LinkInfo,
    GroupInfo,
    Link { name: Seq<char>, addr: u64 },
    RefCount(Seq<u8>),
}

/// What a header message says.
#[verifier::ext_equal]
pub struct ItemView {
    pub msg_type: u8,
    pub flags: u8,
    pub body: BodyView,
}

impl View for MessageBody {
    type V = BodyView;

    open spec fn view(&self) -> BodyView {
        match *self {
            MessageBody::Dataspace(m) => BodyView::Dataspace(m@),
            MessageBody::Datatype(m) => BodyView::Datatype(m.message_view()),
            MessageBody::FillValue(m) => BodyView::FillValue(m@),
            MessageBody::DataLayout(m) => BodyView::DataLayout(m@),
            MessageBody::FilterPipeline(m) => BodyView::FilterPipeline(m@),
            MessageBody::Attribute(m) => BodyView::Attribute(m@),
            MessageBody::LinkInfo => BodyView::LinkInfo,
            MessageBody::GroupInfo => BodyView::GroupInfo,
            MessageBody::Link { name, addr } => BodyView::Link { name: name@, addr },
            MessageBody::RefCount(b) => BodyView::RefCount(b@),
        }
    }
}

impl View for HeaderItem {
    type V = ItemView;

    open spec fn view(&self) -> ItemView {
        ItemView { msg_type: self.msg_type, flags: self.flags, body: self.body@ }
    }
}

/// What header messages say.
pub open spec fn items(v: Seq<HeaderItem>) -> Seq<ItemView> {
    Seq::new(v.len(), |i: int| v[i]@)
}

/// A message without flags.
pub open spec fn item(msg_type: u8, body: BodyView) -> ItemView {
    ItemView { msg_type, flags: 0, body }
}

/// A link message.
pub open spec fn link_item(name: Seq<char>, addr: u64) -> ItemView {
    item(MSG_LINK, BodyView::Link { name, addr })
}

/// A count of links: a version byte and the count.
pub open spec fn refcount_bytes(n: u32) -> Seq<u8> {
    seq![0u8] + le_bytes(n as nat, 4)
}

/// Encode a count of links: a version byte and the count.
pub fn encode_refcount(refcount: u32) -> (v: Vec<u8>)
    ensures
        v@ == refcount_bytes(refcount),
{
    let mut v: Vec<u8> = Vec::new();
    v.push(0u8);
    push_le(&mut v, refcount as u64, 4);
    assert(v@ =~= refcount_bytes(refcount));
    v
}

fn add_item(v: &mut Vec<HeaderItem>, msg_type: u8, flags: u8, body: MessageBody)
    ensures
        items(final(v)@) == items(old(v)@).push((HeaderItem { msg_type, flags, body })@),
{
    let it = HeaderItem { msg_type, flags, body };
    v.push(it);
    assert(items(v@) =~= items(old(v)@).push(it@));
}

/// The attribute messages of the first `n` attributes.
pub open spec fn attribute_items(attrs: Seq<AttributeMessage>) -> Seq<ItemView> {
    Seq::new(attrs.len(), |i: int| item(MSG_ATTRIBUTE, BodyView::Attribute(attrs[i]@)))
}

fn add_attributes(v: &mut Vec<HeaderItem>, attrs: &Vec<AttributeMessage>)
    ensures
        items(final(v)@) == items(old(v)@) + attribute_items(attrs@),
{
    let ghost before = items(v@);
    let mut i: usize = 0;
    assert(before + attribute_items(attrs@).take(0) =~= before);
    while i < attrs.len()
        invariant
            i <= attrs.len(),
            items(v@) == before + attribute_items(attrs@).take(i as int),
        decreases attrs.len() - i,
    {
        add_item(v, MSG_ATTRIBUTE, 0, MessageBody::Attribute(attrs[i].clone()));
        assert(items(v@) =~= before + attribute_items(attrs@).take(i + 1));
        i = i + 1;
    }
    assert(attribute_items(attrs@).take(i as int) =~= attribute_items(attrs@));
}

/// The fill value message of a dataset. Storage in chunks is allocated as it is
/// written, other storage late.
pub open spec fn fill_view(d: DatasetInfo) -> FillView {
    FillView {
        alloc_time: if in_chunks(layout_view(d)) {
            3
        } else {
            2
        },
        fill_write_time: 0,
        fill_defined: if d.fill_value is Some {
            2
        } else {
            1
        },
        fill_value: fill_of(d),
    }
}

/// The layout message of a dataset. The size of an element stands behind the
/// chunk dimensions.
pub open spec fn layout_view(d: DatasetInfo) -> LayoutView {
    let es = d.datatype.spec_element_size() as u64;
    match d.chunked {
        Some(c) => LayoutView::ChunkedV4 {
            chunk_dims: c.chunk_dims@.push(es),
            index_address: c.ea_header_addr,
            index_type: ChunkIndexType::ExtensibleArray,
            earray_params: Some(c.earray_params),
            farray_params: None,
        },
        None => match d.fixed_array {
            Some(f) => LayoutView::ChunkedV4 {
                chunk_dims: f.chunk_dims@.push(es),
                index_address: f.fa_header_addr,
                index_type: ChunkIndexType::FixedArray,
                earray_params: None,
                farray_params: Some(FixedArrayParams { max_dblk_page_nelmts_bits: FA_PAGE_BITS }),
            },
            None => match d.btree_v2 {
                Some(b) => LayoutView::ChunkedV4 {
                    chunk_dims: b.chunk_dims@.push(es),
                    index_address: b.bt2_header_addr,
                    index_type: ChunkIndexType::BTreeV2,
                    earray_params: None,
                    farray_params: None,
                },
                None => match d.kept_layout {
                    Some(l) => l@,
                    None => LayoutView::Contiguous { address: d.data_addr, size: d.data_size },
                },
            },
        },
    }
}

/// Whether a layout has chunks.
pub open spec fn in_chunks(l: LayoutView) -> bool {
    l is ChunkedV3 || l is ChunkedV4
}

/// The filter message of a dataset, if it has filters.
pub open spec fn filter_items(d: DatasetInfo) -> Seq<ItemView> {
    match d.filter_pipeline {
        Some(p) => if p.filters@.len() > 0 {
            seq![item(MSG_FILTER_PIPELINE, BodyView::FilterPipeline(p@))]
        } else {
            Seq::empty()
        },
        None => Seq::empty(),
    }
}

/// The message about the number of links, if there are several.
pub open spec fn refcount_items(n: nat) -> Seq<ItemView> {
    if n > 1 {
        seq![item(MSG_OBJ_REF_COUNT, BodyView::RefCount(refcount_bytes(n as u32)))]
    } else {
        Seq::empty()
    }
}

fn fill_message(d: &DatasetInfo) -> (m: FillValueMessage)
    ensures
        m@ == fill_view(*d),
{
    let chunks: bool = has_chunks(d) || match &d.kept_layout {
        Some(DataLayoutMessage::ChunkedV3 { .. }) => true,
        Some(DataLayoutMessage::ChunkedV4 { .. }) => true,
        _ => false,
    };
    let alloc_time: u8 = if chunks {
        3
    } else {
        2
    };
    match &d.fill_value {
        Some(b) => FillValueMessage {
            alloc_time,
            fill_write_time: 0,
            fill_defined: 2,
            fill_value: Some(crate::format::bytes::copy_range(b.as_slice(), 0, b.len())),
        },
        None => FillValueMessage {
            alloc_time,
            fill_write_time: 0,
            fill_defined: 1,
            fill_value: None,
        },
    }
}

fn with_element_size(dims: &Vec<u64>, es: u64) -> (v: Vec<u64>)
    ensures
        v@ == dims@.push(es),
{
    let mut v = copy_dims(dims.as_slice());
    v.push(es);
    v
}

fn layout_message(d: &DatasetInfo) -> (m: DataLayoutMessage)
    ensures
        m@ == layout_view(*d),
{
    let es: u64 = d.datatype.element_size() as u64;
    match &d.chunked {
        Some(c) => DataLayoutMessage::ChunkedV4 {
            chunk_dims: with_element_size(&c.chunk_dims, es),
            index_address: c.ea_header_addr,
            index_type: ChunkIndexType::ExtensibleArray,
            earray_params: Some(c.earray_params),
            farray_params: None,
        },
        None => match &d.fixed_array {
            Some(f) => DataLayoutMessage::ChunkedV4 {
                chunk_dims: with_element_size(&f.chunk_dims, es),
                index_address: f.fa_header_addr,
                index_type: ChunkIndexType::FixedArray,
                earray_params: None,
                farray_params: Some(FixedArrayParams { max_dblk_page_nelmts_bits: FA_PAGE_BITS }),
            },
            None => match &d.btree_v2 {
                Some(b) => DataLayoutMessage::ChunkedV4 {
                    chunk_dims: with_element_size(&b.chunk_dims, es),
                    index_address: b.bt2_header_addr,
                    index_type: ChunkIndexType::BTreeV2,
                    earray_params: None,
                    farray_params: None,
                },
                None => match &d.kept_layout {
                    Some(l) => l.clone(),
                    None => DataLayoutMessage::Contiguous {
                        address: d.data_addr,
                        size: d.data_size,
                    },
                },
            },
        },
    }
}

impl Hdf5Writer {
    /// The messages of a dataset's object header.
    pub open spec fn dataset_items(self, i: int) -> Seq<ItemView> {
        let d = self.datasets@[i];
        seq![
            item(MSG_DATASPACE, BodyView::Dataspace(d.dataspace@)),
            ItemView {
                msg_type: MSG_DATATYPE,
                flags: 1,
                body: BodyView::Datatype(d.datatype.message_view()),
            },
            item(MSG_FILL_VALUE, BodyView::FillValue(fill_view(d))),
            item(MSG_DATA_LAYOUT, BodyView::DataLayout(layout_view(d))),
        ] + filter_items(d) + attribute_items(d.attributes@) + refcount_items(
            self.link_count(HardLinkTarget::Dataset(i as usize)),
        )
    }

    /// The messages of a dataset's object header.
    pub fn build_dataset_header(&self, index: usize) -> (v: Vec<HeaderItem>)
        requires
            self.wf(),
            index < self.datasets@.len(),
            self.link_count(HardLinkTarget::Dataset(index)) <= u32::MAX,
        ensures
            items(v@) == self.dataset_items(index as int),
    {
        let d = &self.datasets[index];
        let ghost d0 = *d;
        let mut v: Vec<HeaderItem> = Vec::new();
        add_item(&mut v, MSG_DATASPACE, 0, MessageBody::Dataspace(d.dataspace.clone()));
        add_item(&mut v, MSG_DATATYPE, 1, MessageBody::Datatype(d.datatype.clone()));
        add_item(&mut v, MSG_FILL_VALUE, 0, MessageBody::FillValue(fill_message(d)));
        add_item(&mut v, MSG_DATA_LAYOUT, 0, MessageBody::DataLayout(layout_message(d)));
        let ghost head = items(v@);
        match &d.filter_pipeline {
            Some(p) => {
                if p.filters.len() > 0 {
                    add_item(
                        &mut v,
                        MSG_FILTER_PIPELINE,
                        0,
                        MessageBody::FilterPipeline(p.clone()),
                    );
                }
            },
            None => {},
        }
        assert(items(v@) =~= head + filter_items(d0));
        add_attributes(&mut v, &d.attributes);
        let n: u32 = self.object_link_count(HardLinkTarget::Dataset(index));
        if n > 1 {
            add_item(&mut v, MSG_OBJ_REF_COUNT, 0, MessageBody::RefCount(encode_refcount(n)));
        }
        assert(items(v@) =~= self.dataset_items(index as int));
        v
    }

    /// The links to the first `n` child datasets of a group; deleted ones are
    /// left out.
    pub open spec fn dataset_links(self, children: Seq<usize>, n: nat) -> Seq<ItemView>
        decreases n,
    {
        if n == 0 {
            Seq::empty()
        } else {
            let d = self.datasets@[children[n - 1] as int];
            let before = self.dataset_links(children, (n - 1) as nat);
            if d.deleted {
                before
            } else {
                before.push(link_item(leaf(d.name@), d.obj_header_addr))
            }
        }
    }

    /// The links to the first `n` child groups of a group; deleted ones are left
    /// out.
    pub open spec fn group_links(self, children: Seq<usize>, n: nat) -> Seq<ItemView>
        decreases n,
    {
        if n == 0 {
            Seq::empty()
        } else {
            let g = self.groups@[children[n - 1] as int];
            let before = self.group_links(children, (n - 1) as nat);
            if g.deleted {
                before
            } else {
                before.push(link_item(leaf(g.name@), g.obj_header_addr))
            }
        }
    }

    /// Address of the header of a link's target.
    pub open spec fn target_addr(self, t: HardLinkTarget) -> u64 {
        match t {
            HardLinkTarget::Dataset(i) => self.datasets@[i as int].obj_header_addr,
            HardLinkTarget::Group(i) => self.groups@[i as int].obj_header_addr,
        }
    }

    /// The hard links among the first `n` that stand in a group and will be in the
    /// file.
    pub open spec fn hard_link_items(self, parent: Option<usize>, n: nat) -> Seq<ItemView>
        decreases n,
    {
        if n == 0 {
            Seq::empty()
        } else {
            let l = self.hard_links@[n - 1];
            let before = self.hard_link_items(parent, (n - 1) as nat);
            if l.parent == parent && emitted(l, self.datasets@, self.groups@) {
                before.push(link_item(l.name@, self.target_addr(l.target)))
            } else {
                before
            }
        }
    }

    /// Add a link for every hard link of a group that will be in the file.
    fn emit_hard_links(&self, v: &mut Vec<HeaderItem>, parent: Option<usize>)
        requires
            self.wf(),
        ensures
            items(final(v)@) == items(old(v)@) + self.hard_link_items(
                parent,
                self.hard_links@.len(),
            ),
    {
        let ghost before = items(v@);
        let mut i: usize = 0;
        assert(before + self.hard_link_items(parent, 0) =~= before);
        while i < self.hard_links.len()
            invariant
                self.wf(),
                i <= self.hard_links.len(),
                items(v@) == before + self.hard_link_items(parent, i as nat),
            decreases self.hard_links.len() - i,
        {
            let l = &self.hard_links[i];
            assert(link_placed(
                self.hard_links@[i as int],
                self.groups@.len(),
                self.datasets@.len(),
            ));
            let same: bool = match (l.parent, parent) {
                (None, None) => true,
                (Some(x), Some(y)) => x == y,
                _ => false,
            };
            assert(same == (l.parent == parent));
            if same && self.hard_link_emitted(l) {
                let addr: u64 = match l.target {
                    HardLinkTarget::Dataset(k) => self.datasets[k].obj_header_addr,
                    HardLinkTarget::Group(k) => self.groups[k].obj_header_addr,
                };
                add_item(v, MSG_LINK, 0, MessageBody::Link { name: l.name.clone(), addr });
            }
            assert(items(v@) =~= before + self.hard_link_items(parent, (i + 1) as nat));
            i = i + 1;
        }
    }

    /// The messages of a group's object header.
    pub open spec fn group_items(self, g: int) -> Seq<ItemView> {
        let grp = self.groups@[g];
        seq![
            item(MSG_LINK_INFO, BodyView::LinkInfo),
            item(MSG_GROUP_INFO, BodyView::GroupInfo),
        ] + self.dataset_links(grp.child_datasets@, grp.child_datasets@.len()) + self.group_links(
            grp.child_groups@,
            grp.child_groups@.len(),
        ) + self.hard_link_items(Some(g as usize), self.hard_links@.len()) + attribute_items(
            grp.attributes@,
        ) + refcount_items(self.link_count(HardLinkTarget::Group(g as usize)))
    }

    /// The messages of a group's object header.
    pub fn build_group_header(&self, group_idx: usize) -> (v: Vec<HeaderItem>)
        requires
            self.wf(),
            group_idx < self.groups@.len(),
            self.link_count(HardLinkTarget::Group(group_idx)) <= u32::MAX,
        ensures
            items(v@) == self.group_items(group_idx as int),
    {
        let mut v: Vec<HeaderItem> = Vec::new();
        add_item(&mut v, MSG_LINK_INFO, 0, MessageBody::LinkInfo);
        add_item(&mut v, MSG_GROUP_INFO, 0, MessageBody::GroupInfo);
        let grp = &self.groups[group_idx];
        assert(group_placed(
            self.groups@[group_idx as int],
            group_idx as int,
            self.groups@.len(),
            self.datasets@.len(),
        ));
        let ghost a = items(v@);
        let mut i: usize = 0;
        assert(a + self.dataset_links(grp.child_datasets@, 0) =~= a);
        while i < grp.child_datasets.len()
            invariant
                self.wf(),
                group_idx < self.groups@.len(),
                *grp == self.groups@[group_idx as int],
                group_placed(
                    *grp,
                    group_idx as int,
                    self.groups@.len(),
                    self.datasets@.len(),
                ),
                i <= grp.child_datasets.len(),
                items(v@) == a + self.dataset_links(grp.child_datasets@, i as nat),
            decreases grp.child_datasets.len() - i,
        {
            let k: usize = grp.child_datasets[i];
            assert(grp.child_datasets@[i as int] < self.datasets@.len());
            let d = &self.datasets[k];
            if !d.deleted {
                add_item(
                    &mut v,
                    MSG_LINK,
                    0,
                    MessageBody::Link {
                        name: leaf_name(d.name.as_str()).to_owned(),
                        addr: d.obj_header_addr,
                    },
                );
            }
            assert(items(v@) =~= a + self.dataset_links(grp.child_datasets@, (i + 1) as nat));
            i = i + 1;
        }
        let ghost b = items(v@);
        let mut j: usize = 0;
        assert(b + self.group_links(grp.child_groups@, 0) =~= b);
        while j < grp.child_groups.len()
            invariant
                self.wf(),
                group_idx < self.groups@.len(),
                *grp == self.groups@[group_idx as int],
                group_placed(
                    *grp,
                    group_idx as int,
                    self.groups@.len(),
                    self.datasets@.len(),
                ),
                j <= grp.child_groups.len(),
                items(v@) == b + self.group_links(grp.child_groups@, j as nat),
            decreases grp.child_groups.len() - j,
        {
            let k: usize = grp.child_groups[j];
            assert(group_idx < grp.child_groups@[j as int] < self.groups@.len());
            let c = &self.groups[k];
            if !c.deleted {
                add_item(
                    &mut v,
                    MSG_LINK,
                    0,
                    MessageBody::Link {
                        name: leaf_name(c.name.as_str()).to_owned(),
                        addr: c.obj_header_addr,
                    },
                );
            }
            assert(items(v@) =~= b + self.group_links(grp.child_groups@, (j + 1) as nat));
            j = j + 1;
        }
        self.emit_hard_links(&mut v, Some(group_idx));
        add_attributes(&mut v, &grp.attributes);
        let n: u32 = self.object_link_count(HardLinkTarget::Group(group_idx));
        if n > 1 {
            add_item(&mut v, MSG_OBJ_REF_COUNT, 0, MessageBody::RefCount(encode_refcount(n)));
        }
        assert(items(v@) =~= self.group_items(group_idx as int));
        v
    }

    /// Whether a dataset is listed in a live group.
    pub open spec fn in_subgroup(self, i: usize) -> bool {
        exists|g: int|
            0 <= g < self.groups@.len() && !(#[trigger] self.groups@[g]).deleted
                && self.groups@[g].child_datasets@.contains(i)
    }

    /// The links to the first `n` datasets that stand in the root group.
    pub open spec fn root_dataset_links(self, n: nat) -> Seq<ItemView>
        decreases n,
    {
        if n == 0 {
            Seq::empty()
        } else {
            let d = self.datasets@[n - 1];
            let before = self.root_dataset_links((n - 1) as nat);
            if d.deleted || self.in_subgroup((n - 1) as usize) {
                before
            } else {
                before.push(link_item(d.name@, d.obj_header_addr))
            }
        }
    }

    /// The links to those of the first `n` groups that stand in the root group.
    pub open spec fn root_group_links(self, n: nat) -> Seq<ItemView>
        decreases n,
    {
        if n == 0 {
            Seq::empty()
        } else {
            let g = self.groups@[n - 1];
            let before = self.root_group_links((n - 1) as nat);
            if g.deleted || g.parent is Some {
                before
            } else {
                before.push(link_item(leaf(g.name@), g.obj_header_addr))
            }
        }
    }

    /// The messages of the root group's object header.
    pub open spec fn root_items(self) -> Seq<ItemView> {
        seq![
            item(MSG_LINK_INFO, BodyView::LinkInfo),
            item(MSG_GROUP_INFO, BodyView::GroupInfo),
        ] + self.root_dataset_links(self.datasets@.len()) + self.root_group_links(
            self.groups@.len(),
        ) + self.hard_link_items(None, self.hard_links@.len()) + attribute_items(
            self.root_attributes@,
        )
    }

    /// Whether a dataset is listed in a live group.
    fn listed(&self, i: usize) -> (r: bool)
        ensures
            r == self.in_subgroup(i),
    {
        let mut g: usize = 0;
        while g < self.groups.len()
            invariant
                g <= self.groups.len(),
                forall|h: int|
                    0 <= h < g ==> (#[trigger] self.groups@[h]).deleted
                        || !self.groups@[h].child_datasets@.contains(i),
            decreases self.groups.len() - g,
        {
            if !self.groups[g].deleted && contains_index(&self.groups[g].child_datasets, i) {
                return true;
            }
            g = g + 1;
        }
        false
    }

    /// The messages of the root group's object header.
    pub fn build_root_group_header(&self) -> (v: Vec<HeaderItem>)
        requires
            self.wf(),
        ensures
            items(v@) == self.root_items(),
    {
        let mut v: Vec<HeaderItem> = Vec::new();
        add_item(&mut v, MSG_LINK_INFO, 0, MessageBody::LinkInfo);
        add_item(&mut v, MSG_GROUP_INFO, 0, MessageBody::GroupInfo);
        let ghost a = items(v@);
        let mut i: usize = 0;
        assert(a + self.root_dataset_links(0) =~= a);
        while i < self.datasets.len()
            invariant
                i <= self.datasets.len(),
                items(v@) == a + self.root_dataset_links(i as nat),
            decreases self.datasets.len() - i,
        {
            let d = &self.datasets[i];
            if !d.deleted && !self.listed(i) {
                add_item(
                    &mut v,
                    MSG_LINK,
                    0,
                    MessageBody::Link { name: d.name.clone(), addr: d.obj_header_addr },
                );
            }
            assert(items(v@) =~= a + self.root_dataset_links((i + 1) as nat));
            i = i + 1;
        }
        let ghost b = items(v@);
        let mut g: usize = 0;
        assert(b + self.root_group_links(0) =~= b);
        while g < self.groups.len()
            invariant
                g <= self.groups.len(),
                items(v@) == b + self.root_group_links(g as nat),
            decreases self.groups.len() - g,
        {
            let grp = &self.groups[g];
            if !grp.deleted && grp.parent.is_none() {
                add_item(
                    &mut v,
                    MSG_LINK,
                    0,
                    MessageBody::Link {
                        name: leaf_name(grp.name.as_str()).to_owned(),
                        addr: grp.obj_header_addr,
                    },
                );
            }
            assert(items(v@) =~= b + self.root_group_links((g + 1) as nat));
            g = g + 1;
        }
        self.emit_hard_links(&mut v, None);
        add_attributes(&mut v, &self.root_attributes);
        assert(items(v@) =~= self.root_items());
        v
    }
}

fn contains_index(v: &Vec<usize>, x: usize) -> (r: bool)
    ensures
        r == v@.contains(x),
{
    let mut i: usize = 0;
    while i < v.len()
        invariant
            i <= v.len(),
            forall|k: int| 0 <= k < i ==> v@[k] != x,
        decreases v.len() - i,
    {
        if v[i] == x {
            assert(v@[i as int] == x);
            return true;
        }
        i = i + 1;
    }
    false
}

} // verus!
