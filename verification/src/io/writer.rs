//! HDF5 file writer.

pub mod accepted;
pub mod append;
pub mod appended;
pub mod attributes;
pub mod blocks;
pub mod catalog;
pub mod content;
pub mod counted;
pub mod datasets;
pub mod deleted;
pub mod edits;
pub mod finish;
pub mod fixed;
pub mod fixed_chunks;
pub mod headers;
pub mod index;
pub mod links;
pub mod messages_written;
pub mod regroup;
pub mod relinked;
pub mod reopen;
pub mod started;
pub mod state;
pub mod storage;
pub mod vlen;

pub use blocks::{encode_fixed_array_dblk, fixed_array_dblk_disk_size};
pub use state::Hdf5Writer;
