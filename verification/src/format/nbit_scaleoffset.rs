//! N-bit and scale-offset filters, and the conversion of numbers with reduced
//! precision.

pub mod conversion;
pub mod nbit;
pub mod numbers;
pub mod offsets;
pub mod pieces;
pub mod roundtrip;
pub mod scaleoffset;
pub mod tree;
pub mod widening;

pub use conversion::{apply_datatype_conversion, datatype_needs_bit_conversion};
pub use nbit::apply_nbit;
pub use scaleoffset::reverse_scaleoffset;
