//! Header messages.

use vstd::prelude::*;

pub mod attribute;
pub mod data_layout;
pub mod dataspace;
pub mod datatype;
pub mod fill_value;
pub mod filter;

verus! {

/// Shape of a dataset.
pub const MSG_DATASPACE: u8 = 0x01;

/// How links are stored.
pub const MSG_LINK_INFO: u8 = 0x02;

/// Type of the elements.
pub const MSG_DATATYPE: u8 = 0x03;

/// Value of elements that were never written.
pub const MSG_FILL_VALUE: u8 = 0x05;

/// An entry of a group.
pub const MSG_LINK: u8 = 0x06;

/// Where the data stand.
pub const MSG_DATA_LAYOUT: u8 = 0x08;

/// Properties of a group.
pub const MSG_GROUP_INFO: u8 = 0x0A;

/// Filters of the chunks.
pub const MSG_FILTER_PIPELINE: u8 = 0x0B;

/// An attribute.
pub const MSG_ATTRIBUTE: u8 = 0x0C;

/// Where the header goes on.
pub const MSG_OBJ_HEADER_CONTINUATION: u8 = 0x10;

/// Symbol table of an old-style group.
pub const MSG_SYMBOL_TABLE: u8 = 0x11;

/// How many links lead to the object.
pub const MSG_OBJ_REF_COUNT: u8 = 0x16;

} // verus!
