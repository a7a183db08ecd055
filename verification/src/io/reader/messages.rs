//! What the messages of an object header say of the object.

use crate::format::messages::attribute::{AttributeMessage, AttributeView};
use crate::format::messages::data_layout::{DataLayoutMessage, LayoutView};
use crate::format::messages::dataspace::{DataspaceMessage, SpaceView};
use crate::format::messages::datatype::{DatatypeMessage, DatatypeView};
use crate::format::messages::filter::{FilterPipeline, FilterView};
use crate::format::messages::{
    MSG_DATATYPE, MSG_GROUP_INFO, MSG_LINK, MSG_LINK_INFO, MSG_SYMBOL_TABLE,
};
use crate::io::writer::headers::{BodyView, MessageBody};
use vstd::prelude::*;
use vstd::slice::slice_to_vec;

verus! {

/// A message of an object header as it was read. Links that stand in a heap
/// follow the message that refers to the heap.
#[derive(Debug)]
pub struct DecodedMessage {
    /// Type of the message.
    pub msg_type: u8,
    /// What it holds; nothing if that could not be decoded or does not matter.
    pub body: Option<MessageBody>,
}

/// What a message that was read says.
#[verifier::ext_equal]
pub struct InfoView {
    pub msg_type: u8,
    pub body: Option<BodyView>,
}

impl View for DecodedMessage {
    type V = InfoView;

    open spec fn view(&self) -> InfoView {
        InfoView {
            msg_type: self.msg_type,
            body: match self.body {
                Some(b) => Some(b@),
                None => None,
            },
        }
    }
}

/// What messages that were read say.
pub open spec fn infos(m: Seq<DecodedMessage>) -> Seq<InfoView> {
    Seq::new(m.len(), |i: int| m[i]@)
}

/// Read-side metadata for a single dataset.
#[derive(Debug)]
pub struct DatasetReadInfo {
    /// Path of the dataset.
    pub name: String,
    /// Element datatype.
    pub datatype: DatatypeMessage,
    /// Dataspace (dimensionality).
    pub dataspace: DataspaceMessage,
    /// Data layout.
    pub layout: DataLayoutMessage,
    /// Filters of the chunks.
    pub filter_pipeline: Option<FilterPipeline>,
    /// Attributes attached to this dataset.
    pub attributes: Vec<AttributeMessage>,
    /// User-defined fill value, one element wide.
    pub fill_value: Option<Vec<u8>>,
}

/// What is known of a dataset.
#[verifier::ext_equal]
pub struct ReadView {
    pub name: Seq<char>,
    pub datatype: DatatypeView,
    pub dataspace: SpaceView,
    pub layout: LayoutView,
    pub filters: Option<Seq<FilterView>>,
    pub attributes: Seq<AttributeView>,
    pub fill_value: Option<Seq<u8>>,
}

impl View for DatasetReadInfo {
    type V = ReadView;

    open spec fn view(&self) -> ReadView {
        ReadView {
            name: self.name@,
            datatype: self.datatype.message_view(),
            dataspace: self.dataspace@,
            layout: self.layout@,
            filters: match self.filter_pipeline {
                Some(p) => Some(p@),
                None => None,
            },
            attributes: attribute_views(self.attributes@),
            fill_value: match self.fill_value {
                Some(b) => Some(b@),
                None => None,
            },
        }
    }
}

/// What attributes say.
pub open spec fn attribute_views(a: Seq<AttributeMessage>) -> Seq<AttributeView> {
    Seq::new(a.len(), |i: int| a[i]@)
}

/// The type of the elements, as the last of the first `n` messages about it says.
pub open spec fn datatype_of(m: Seq<InfoView>, n: nat) -> Option<DatatypeView>
    decreases n,
{
    if n == 0 {
        None
    } else {
        match m[n - 1].body {
            Some(BodyView::Datatype(x)) => Some(x),
            _ => datatype_of(m, (n - 1) as nat),
        }
    }
}

/// The shape, as the last of the first `n` messages about it says.
pub open spec fn dataspace_of(m: Seq<InfoView>, n: nat) -> Option<SpaceView>
    decreases n,
{
    if n == 0 {
        None
    } else {
        match m[n - 1].body {
            Some(BodyView::Dataspace(x)) => Some(x),
            _ => dataspace_of(m, (n - 1) as nat),
        }
    }
}

/// The layout, as the last of the first `n` messages about it says.
pub open spec fn layout_of(m: Seq<InfoView>, n: nat) -> Option<LayoutView>
    decreases n,
{
    if n == 0 {
        None
    } else {
        match m[n - 1].body {
            Some(BodyView::DataLayout(x)) => Some(x),
            _ => layout_of(m, (n - 1) as nat),
        }
    }
}

/// The filters, as the last of the first `n` messages that has any says.
pub open spec fn filters_of(m: Seq<InfoView>, n: nat) -> Option<Seq<FilterView>>
    decreases n,
{
    if n == 0 {
        None
    } else {
        match m[n - 1].body {
            Some(BodyView::FilterPipeline(x)) => if x.len() > 0 {
                Some(x)
            } else {
                filters_of(m, (n - 1) as nat)
            },
            _ => filters_of(m, (n - 1) as nat),
        }
    }
}

/// The fill value, as the last of the first `n` messages with a value of the user
/// says.
pub open spec fn fill_value_of(m: Seq<InfoView>, n: nat) -> Option<Seq<u8>>
    decreases n,
{
    if n == 0 {
        None
    } else {
        match m[n - 1].body {
            Some(BodyView::FillValue(x)) => if x.fill_defined == 2 {
                x.fill_value
            } else {
                fill_value_of(m, (n - 1) as nat)
            },
            _ => fill_value_of(m, (n - 1) as nat),
        }
    }
}

/// The attributes among the first `n` messages.
pub open spec fn attributes_of(m: Seq<InfoView>, n: nat) -> Seq<AttributeView>
    decreases n,
{
    if n == 0 {
        Seq::empty()
    } else {
        match m[n - 1].body {
            Some(BodyView::Attribute(x)) => attributes_of(m, (n - 1) as nat).push(x),
            _ => attributes_of(m, (n - 1) as nat),
        }
    }
}

/// The dataset that messages describe: one with a type, a shape and a layout.
pub open spec fn dataset_of(m: Seq<InfoView>, name: Seq<char>) -> Option<ReadView> {
    let n = m.len();
    match (datatype_of(m, n), dataspace_of(m, n), layout_of(m, n)) {
        (Some(datatype), Some(dataspace), Some(layout)) => Some(
            ReadView {
                name,
                datatype,
                dataspace,
                layout,
                filters: filters_of(m, n),
                attributes: attributes_of(m, n),
                fill_value: fill_value_of(m, n),
            },
        ),
        _ => None,
    }
}

/// The attributes of an object.
pub fn object_attributes(m: &Vec<DecodedMessage>) -> (a: Vec<AttributeMessage>)
    ensures
        attribute_views(a@) == attributes_of(infos(m@), m@.len()),
{
    let mut a: Vec<AttributeMessage> = Vec::new();
    let mut i: usize = 0;
    assert(attribute_views(a@) =~= Seq::<AttributeView>::empty());
    while i < m.len()
        invariant
            i <= m.len(),
            attribute_views(a@) == attributes_of(infos(m@), i as nat),
        decreases m.len() - i,
    {
        let ghost before = a@;
        assert(infos(m@)[i as int] == m@[i as int]@);
        match &m[i].body {
            Some(MessageBody::Attribute(x)) => {
                a.push(x.clone());
                assert(attribute_views(a@) =~= attribute_views(before).push(x@));
            },
            _ => {},
        }
        i = i + 1;
    }
    a
}

/// The dataset that messages describe; `None` if they do not describe one.
pub fn read_dataset_from_object_header(m: &Vec<DecodedMessage>, name: &str) -> (r: Option<
    DatasetReadInfo,
>)
    ensures
        match r {
            Some(d) => dataset_of(infos(m@), name@) == Some(d@),
            None => dataset_of(infos(m@), name@) is None,
        },
{
    let mut datatype: Option<DatatypeMessage> = None;
    let mut dataspace: Option<DataspaceMessage> = None;
    let mut layout: Option<DataLayoutMessage> = None;
    let mut filters: Option<FilterPipeline> = None;
    let mut fill: Option<Vec<u8>> = None;
    let mut i: usize = 0;
    while i < m.len()
        invariant
            i <= m.len(),
            datatype_of(infos(m@), i as nat) == (match datatype {
                Some(x) => Some(x.message_view()),
                None => None::<DatatypeView>,
            }),
            dataspace_of(infos(m@), i as nat) == (match dataspace {
                Some(x) => Some(x@),
                None => None::<SpaceView>,
            }),
            layout_of(infos(m@), i as nat) == (match layout {
                Some(x) => Some(x@),
                None => None::<LayoutView>,
            }),
            filters_of(infos(m@), i as nat) == (match filters {
                Some(x) => Some(x@),
                None => None::<Seq<FilterView>>,
            }),
            fill_value_of(infos(m@), i as nat) == (match fill {
                Some(x) => Some(x@),
                None => None::<Seq<u8>>,
            }),
        decreases m.len() - i,
    {
        assert(infos(m@)[i as int] == m@[i as int]@);
        match &m[i].body {
            Some(MessageBody::Datatype(x)) => {
                datatype = Some(x.clone());
            },
            Some(MessageBody::Dataspace(x)) => {
                dataspace = Some(x.clone());
            },
            Some(MessageBody::DataLayout(x)) => {
                layout = Some(x.clone());
            },
            Some(MessageBody::FilterPipeline(x)) => {
                if x.filters.len() > 0 {
                    filters = Some(x.clone());
                }
            },
            Some(MessageBody::FillValue(x)) => {
                if x.fill_defined == 2 {
                    fill = match &x.fill_value {
                        Some(b) => Some(slice_to_vec(b.as_slice())),
                        None => None,
                    };
                }
            },
            _ => {},
        }
        i = i + 1;
    }
    let attributes = object_attributes(m);
    match (datatype, dataspace, layout) {
        (Some(datatype), Some(dataspace), Some(layout)) => {
            let d = DatasetReadInfo {
                name: name.to_owned(),
                datatype,
                dataspace,
                layout,
                filter_pipeline: filters,
                attributes,
                fill_value: fill,
            };
            assert(dataset_of(infos(m@), name@) == Some(d@));
            Some(d)
        },
        _ => None,
    }
}

/// Whether messages are those of a group.
pub open spec fn is_group(m: Seq<InfoView>) -> bool {
    exists|i: int| 0 <= i < m.len() && group_message((#[trigger] m[i]).msg_type)
}

/// Whether a message belongs to groups only.
pub open spec fn group_message(t: u8) -> bool {
    t == MSG_LINK || t == MSG_LINK_INFO || t == MSG_SYMBOL_TABLE || t == MSG_GROUP_INFO
}

/// Whether messages are those of a named datatype, which is no group.
pub open spec fn named_datatype(m: Seq<InfoView>) -> bool {
    &&& !is_group(m)
    &&& exists|i: int| 0 <= i < m.len() && (#[trigger] m[i]).msg_type == MSG_DATATYPE
}

/// Whether messages are those of a named datatype, which is no group.
pub fn is_named_datatype(m: &Vec<DecodedMessage>) -> (r: bool)
    ensures
        r == named_datatype(infos(m@)),
{
    let mut group: bool = false;
    let mut typed: bool = false;
    let mut i: usize = 0;
    while i < m.len()
        invariant
            i <= m.len(),
            group == exists|k: int| 0 <= k < i && group_message((#[trigger] infos(m@)[k]).msg_type),
            typed == exists|k: int| 0 <= k < i && (#[trigger] infos(m@)[k]).msg_type == MSG_DATATYPE,
        decreases m.len() - i,
    {
        let t: u8 = m[i].msg_type;
        assert(infos(m@)[i as int].msg_type == t);
        if t == MSG_LINK || t == MSG_LINK_INFO || t == MSG_SYMBOL_TABLE || t == MSG_GROUP_INFO {
            group = true;
        }
        if t == MSG_DATATYPE {
            typed = true;
        }
        i = i + 1;
    }
    !group && typed
}

} // verus!
