//! I/O engine: space allocation, locking policy, dataset catalogs and the
//! layout arithmetic behind dataset reads and writes.

use crate::format::{ErrorView, FormatError};
use crate::text::Text;
use vstd::prelude::*;

pub mod allocator;
pub mod array;
pub mod attributed;
pub mod chunks;
pub mod closing;
pub mod ea;
pub mod file_handle;
pub mod finished;
pub mod frames;
pub mod locking;
pub mod names;
pub mod order;
pub mod reader;
pub mod search;
pub mod slices;
pub mod stream;
pub mod streamed;
pub mod swmr;
pub mod tiles;
pub mod writer;

verus! {

/// Why an operation on a file failed.
#[derive(Debug)]
pub enum IoError {
    /// The file could not be read or written.
    Io(String),
    /// The bytes of the file contradict the format.
    Format(FormatError),
    /// Nothing of that name is there.
    NotFound(String),
    /// The operation does not fit the state of the file.
    InvalidState(String),
}

/// What an error says.
#[verifier::ext_equal]
pub enum IoErrorView {
    Io(Seq<char>),
    Format(ErrorView),
    NotFound(Seq<char>),
    InvalidState(Seq<char>),
}

impl View for IoError {
    type V = IoErrorView;

    open spec fn view(&self) -> IoErrorView {
        match *self {
            IoError::Io(m) => IoErrorView::Io(m@),
            IoError::Format(e) => IoErrorView::Format(e@),
            IoError::NotFound(m) => IoErrorView::NotFound(m@),
            IoError::InvalidState(m) => IoErrorView::InvalidState(m@),
        }
    }
}

/// The result of an operation on a file.
pub type IoResult<T> = Result<T, IoError>;

impl vstd::std_specs::convert::FromSpecImpl<FormatError> for IoError {
    open spec fn obeys_from_spec() -> bool {
        true
    }

    open spec fn from_spec(e: FormatError) -> Self {
        IoError::Format(e)
    }
}

impl From<FormatError> for IoError {
    fn from(e: FormatError) -> (r: Self) {
        IoError::Format(e)
    }
}

/// The error that the state does not allow the operation.
pub fn invalid_state(t: Text) -> (e: IoError)
    ensures
        e@ == IoErrorView::InvalidState(t@),
{
    IoError::InvalidState(t.done())
}

/// The error that something is not there.
pub fn not_found(t: Text) -> (e: IoError)
    ensures
        e@ == IoErrorView::NotFound(t@),
{
    IoError::NotFound(t.done())
}

} // verus!
