//! HDF5 file reader.

pub mod arrays;
pub mod asked;
pub mod catalog;
pub mod chunked;
pub mod continued;
pub mod data;
pub mod dense;
pub mod fixed;
pub mod headers;
pub mod latest;
pub mod located;
pub mod messages;
pub mod needed;
pub mod open;
pub mod paged;
pub mod pages;
pub mod part;
pub mod paths;
pub mod planned;
pub mod reads_back;
pub mod referenced;
pub mod reopened;
pub mod selection;
pub mod shapes;
pub mod strings;
pub mod tables;
pub mod trees;
pub mod walk;
pub mod written;

pub use catalog::Hdf5Reader;
