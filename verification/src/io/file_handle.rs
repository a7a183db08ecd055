//! Where reads and writes go in a file.
//!
//! Addresses count from the start of the HDF5 data, which need not be the start of the
//! file.

use crate::io::reader::chunked::smaller;
use crate::io::{IoError, IoErrorView, IoResult};
use crate::text::{decimal, Text};
use vstd::prelude::*;
use vstd::slice::slice_subrange;

verus! {

/// The part of a file that holds HDF5 data.
#[derive(Debug, Clone, Copy, PartialEq, Eq, Structural)]
pub struct FileSpan {
    /// Where address 0 is in the file.
    pub base_offset: u64,
    /// Bytes of the file.
    pub file_len: u64,
}

/// A piece of a file.
#[derive(Debug, Clone, Copy, PartialEq, Eq, Structural)]
pub struct FilePiece {
    /// Where it begins in the file.
    pub offset: u64,
    /// Bytes.
    pub len: usize,
}

/// Why a place is outside every file, if it is.
pub open spec fn offset_error(base: u64, offset: u64) -> Option<IoErrorView> {
    if base + offset > u64::MAX {
        Some(
            IoErrorView::Io(
                "file offset overflow: base="@ + decimal(base as nat) + " offset="@ + decimal(
                    offset as nat,
                ),
            ),
        )
    } else {
        None
    }
}

/// Why a piece cannot be read, if it cannot.
pub open spec fn read_error(s: FileSpan, offset: u64, len: usize) -> Option<IoErrorView> {
    let at = s.base_offset + offset;
    match offset_error(s.base_offset, offset) {
        Some(e) => Some(e),
        None => if at + len > s.file_len {
            Some(
                IoErrorView::Io(
                    "read past end: offset="@ + decimal(offset as nat) + " physical_offset="@
                        + decimal(at as nat) + " len="@ + decimal(len as nat) + " file_size="@
                        + decimal(s.file_len as nat),
                ),
            )
        } else {
            None
        },
    }
}

impl FileSpan {
    /// A span that begins at `base_offset`.
    pub fn with_base_offset(self, base_offset: u64) -> (s: Self)
        ensures
            s == (FileSpan { base_offset, ..self }),
    {
        FileSpan { base_offset, file_len: self.file_len }
    }

    /// Where an address is in the file.
    pub fn physical_offset(&self, offset: u64) -> (r: IoResult<u64>)
        ensures
            match offset_error(self.base_offset, offset) {
                Some(v) => r matches Err(e) && e@ == v,
                None => r matches Ok(n) && n == self.base_offset + offset,
            },
    {
        match self.base_offset.checked_add(offset) {
            Some(n) => Ok(n),
            None => Err(
                IoError::Io(
                    Text::new("file offset overflow: base=").number(self.base_offset).text(
                        " offset=",
                    ).number(offset).done(),
                ),
            ),
        }
    }

    /// The piece of `len` bytes at an address, all of which have to be there.
    pub fn read_at(&self, offset: u64, len: usize) -> (r: IoResult<FilePiece>)
        ensures
            match read_error(*self, offset, len) {
                Some(v) => r matches Err(e) && e@ == v,
                None => r matches Ok(p) && p == (FilePiece {
                    offset: (self.base_offset + offset) as u64,
                    len,
                }),
            },
    {
        match self.physical_offset(offset) {
            Err(e) => Err(e),
            Ok(at) => {
                let fits: bool = at <= self.file_len && len as u64 <= self.file_len - at;
                if !fits {
                    return Err(
                        IoError::Io(
                            Text::new("read past end: offset=").number(offset).text(
                                " physical_offset=",
                            ).number(at).text(" len=").number(len as u64).text(
                                " file_size=",
                            ).number(self.file_len).done(),
                        ),
                    );
                }
                Ok(FilePiece { offset: at, len })
            },
        }
    }

    /// The piece of at most `max_len` bytes at an address: as much as the file has.
    pub fn read_at_most(&self, offset: u64, max_len: usize) -> (r: IoResult<FilePiece>)
        ensures
            match offset_error(self.base_offset, offset) {
                Some(v) => r matches Err(e) && e@ == v,
                None => r matches Ok(p) && {
                    let at = self.base_offset + offset;
                    &&& p.offset == at
                    &&& p.len == if at >= self.file_len {
                        0
                    } else {
                        smaller(max_len as nat, (self.file_len - at) as nat) as int
                    }
                },
            },
    {
        match self.physical_offset(offset) {
            Err(e) => Err(e),
            Ok(at) => {
                let available: u64 = if at >= self.file_len {
                    0
                } else {
                    self.file_len - at
                };
                let len: usize = if (max_len as u64) < available {
                    max_len
                } else {
                    available as usize
                };
                Ok(FilePiece { offset: at, len })
            },
        }
    }

    /// Bytes of the file from address 0 on.
    pub fn file_size(&self) -> (n: u64)
        ensures
            n == if self.file_len >= self.base_offset {
                self.file_len - self.base_offset
            } else {
                0
            },
    {
        if self.file_len >= self.base_offset {
            self.file_len - self.base_offset
        } else {
            0
        }
    }
}

/// What is read lies within the file.
pub proof fn lemma_read_inside(s: FileSpan, offset: u64, len: usize)
    requires
        read_error(s, offset, len) is None,
    ensures
        s.base_offset + offset + len <= s.file_len,
{
}

/// Whatever lies within the file can be read, up to its last byte.
pub proof fn lemma_inside_read(s: FileSpan, offset: u64, len: usize)
    requires
        s.base_offset + offset <= u64::MAX,
        s.base_offset + offset + len <= s.file_len,
    ensures
        read_error(s, offset, len) is None,
{
}

/// Exactly `len` bytes of a mapped file.
pub fn mapped_read_at<'a>(map: &'a [u8], offset: u64, len: usize) -> (r: IoResult<&'a [u8]>)
    ensures
        if offset + len <= map@.len() {
            r matches Ok(b) && b@ == map@.subrange(offset as int, offset + len)
        } else {
            r matches Err(e) && e@ == IoErrorView::Io(
                "mmap read past end: offset="@ + decimal(offset as nat) + " len="@ + decimal(
                    len as nat,
                ) + " file_size="@ + decimal(map@.len()),
            )
        },
{
    let n: usize = map.len();
    if offset <= n as u64 && len <= n - offset as usize {
        let at: usize = offset as usize;
        return Ok(slice_subrange(map, at, at + len));
    }
    Err(
        IoError::Io(
            Text::new("mmap read past end: offset=").number(offset).text(" len=").number(
                len as u64,
            ).text(" file_size=").number(n as u64).done(),
        ),
    )
}

/// At most `max_len` bytes of a mapped file: as many as there are.
pub fn mapped_read_at_most<'a>(map: &'a [u8], offset: u64, max_len: usize) -> (b: &'a [u8])
    ensures
        b@ == if offset >= map@.len() {
            Seq::empty()
        } else {
            map@.subrange(
                offset as int,
                offset + smaller(max_len as nat, (map@.len() - offset) as nat),
            )
        },
{
    let n: usize = map.len();
    if offset >= n as u64 {
        let none = slice_subrange(map, 0, 0);
        assert(none@ =~= Seq::<u8>::empty());
        return none;
    }
    let at: usize = offset as usize;
    let len: usize = if max_len < n - at {
        max_len
    } else {
        n - at
    };
    slice_subrange(map, at, at + len)
}

} // verus!
