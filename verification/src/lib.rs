//! HDF5: the file format, its filters, and the rules by which files are read
//! and written.

pub mod format;
pub mod group;
pub mod io;
pub mod swmr;
pub mod text;
pub mod types;
