//! Attribute messages.

use crate::format::messages::dataspace::{DataspaceMessage, SpaceView};
use crate::format::messages::datatype::{DatatypeMessage, DatatypeView};
use vstd::prelude::*;
use vstd::slice::slice_to_vec;
use vstd::utf8::encode_utf8;

verus! {

/// A named value of an object.
#[derive(Debug)]
pub struct AttributeMessage {
    /// Name of the attribute.
    pub name: String,
    /// Type of the value.
    pub datatype: DatatypeMessage,
    /// Shape of the value.
    pub dataspace: DataspaceMessage,
    /// The value.
    pub data: Vec<u8>,
}

/// What an attribute says.
#[verifier::ext_equal]
pub struct AttributeView {
    pub name: Seq<char>,
    pub datatype: DatatypeView,
    pub dataspace: SpaceView,
    pub data: Seq<u8>,
}

impl View for AttributeMessage {
    type V = AttributeView;

    open spec fn view(&self) -> AttributeView {
        AttributeView {
            name: self.name@,
            datatype: self.datatype.message_view(),
            dataspace: self.dataspace@,
            data: self.data@,
        }
    }
}

/// A text attribute: a string of a fixed number of bytes.
pub open spec fn text_attribute(name: Seq<char>, value: Seq<char>) -> AttributeView {
    AttributeView {
        name,
        datatype: DatatypeView::Simple(
            DatatypeMessage::FixedString { size: encode_utf8(value).len() as u32 },
        ),
        dataspace: SpaceView { dims: Seq::empty(), max_dims: None },
        data: encode_utf8(value),
    }
}

/// An attribute of a single element.
pub open spec fn scalar_attribute(
    name: Seq<char>,
    datatype: DatatypeView,
    data: Seq<u8>,
) -> AttributeView {
    AttributeView {
        name,
        datatype,
        dataspace: SpaceView { dims: Seq::empty(), max_dims: None },
        data,
    }
}

impl AttributeMessage {
    /// A text attribute.
    pub fn scalar_string(name: &str, value: &str) -> (a: Self)
        requires
            encode_utf8(value@).len() <= u32::MAX,
        ensures
            a@ == text_attribute(name@, value@),
    {
        let data = slice_to_vec(value.as_bytes());
        AttributeMessage {
            name: name.to_owned(),
            datatype: DatatypeMessage::fixed_string(data.len() as u32),
            dataspace: DataspaceMessage::scalar(),
            data,
        }
    }

    /// An attribute of a single element.
    pub fn scalar_numeric(name: &str, datatype: DatatypeMessage, data: Vec<u8>) -> (a: Self)
        ensures
            a@ == scalar_attribute(name@, datatype.message_view(), data@),
    {
        AttributeMessage {
            name: name.to_owned(),
            datatype,
            dataspace: DataspaceMessage::scalar(),
            data,
        }
    }
}

impl Clone for AttributeMessage {
    fn clone(&self) -> (r: Self)
        ensures
            r@ == self@,
    {
        AttributeMessage {
            name: self.name.clone(),
            datatype: self.datatype.clone(),
            dataspace: self.dataspace.clone(),
            data: slice_to_vec(self.data.as_slice()),
        }
    }
}

} // verus!
