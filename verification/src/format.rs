//! On-disk format: filters, headers and the superblock.

use vstd::prelude::*;

pub mod bitstream;
pub mod bytes;
pub mod checksum;
pub mod chunk_index;
pub mod global_heap;
pub mod header_v1;
pub mod messages;
pub mod nbit_scaleoffset;
pub mod object_header;
pub mod superblock;
pub mod superblock_v0;
pub mod szip;

verus! {

/// The address that stands for "no address".
pub const UNDEF_ADDR: u64 = 0xffff_ffff_ffff_ffff;

/// Widths of addresses and lengths in a file.
#[derive(Debug, Clone, Copy, PartialEq, Eq, Structural)]
pub struct FormatContext {
    /// Bytes of a file address.
    pub sizeof_addr: u8,
    /// Bytes of a length.
    pub sizeof_size: u8,
}

/// Why bytes could not be decoded.
#[derive(Debug)]
pub enum FormatError {
    /// A signature is not the expected one.
    InvalidSignature,
    /// A version number is not supported.
    InvalidVersion(u8),
    /// The buffer ends too early.
    BufferTooShort { needed: usize, available: usize },
    /// A stored checksum is not that of the data.
    ChecksumMismatch { expected: u32, computed: u32 },
    /// The data use a feature that is not supported.
    UnsupportedFeature(String),
    /// The data contradict the format.
    InvalidData(String),
}

/// What a format error says.
#[verifier::ext_equal]
pub enum ErrorView {
    InvalidSignature,
    InvalidVersion(u8),
    BufferTooShort { needed: nat, available: nat },
    ChecksumMismatch { expected: u32, computed: u32 },
    UnsupportedFeature(Seq<char>),
    InvalidData(Seq<char>),
}

impl View for FormatError {
    type V = ErrorView;

    open spec fn view(&self) -> ErrorView {
        match *self {
            FormatError::InvalidSignature => ErrorView::InvalidSignature,
            FormatError::InvalidVersion(v) => ErrorView::InvalidVersion(v),
            FormatError::BufferTooShort { needed, available } => ErrorView::BufferTooShort {
                needed: needed as nat,
                available: available as nat,
            },
            FormatError::ChecksumMismatch { expected, computed } => ErrorView::ChecksumMismatch {
                expected,
                computed,
            },
            FormatError::UnsupportedFeature(m) => ErrorView::UnsupportedFeature(m@),
            FormatError::InvalidData(m) => ErrorView::InvalidData(m@),
        }
    }
}

/// The result of decoding.
pub type FormatResult<T> = Result<T, FormatError>;

impl FormatError {
    /// Whether this is an invalid-data error with message `m`.
    pub open spec fn is_invalid(self, m: Seq<char>) -> bool {
        self matches FormatError::InvalidData(s) && s@ == m
    }
}

/// The error about a buffer that ends too early.
pub fn too_short(needed: usize, available: usize) -> (e: FormatError)
    ensures
        e@ == (ErrorView::BufferTooShort { needed: needed as nat, available: available as nat }),
{
    FormatError::BufferTooShort { needed, available }
}

/// An invalid-data error with message `m`.
pub fn invalid_data(m: &str) -> (e: FormatError)
    ensures
        e.is_invalid(m@),
{
    FormatError::InvalidData(m.to_owned())
}

} // verus!
