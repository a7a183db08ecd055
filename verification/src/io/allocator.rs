//! Append-only file space allocation.

use vstd::prelude::*;

verus! {

/// Simple append-only file space allocator.
///
/// Hands out file offsets by bumping an end-of-file pointer. Every
/// allocation is aligned to the configured boundary (8 bytes).
pub struct FileAllocator {
    eof: u64,
    alignment: u64,
}

/// The smallest multiple of eight that is not below `x`.
pub open spec fn align8(x: int) -> int {
    (x + 7) / 8 * 8
}

impl FileAllocator {
    /// The current end of file.
    pub closed spec fn spec_eof(&self) -> u64 {
        self.eof
    }

    /// The alignment is always eight.
    pub closed spec fn wf(&self) -> bool {
        self.alignment == 8
    }

    /// Create a new allocator whose free region starts at `initial_eof`.
    pub fn new(initial_eof: u64) -> (a: Self)
        ensures
            a.wf(),
            a.spec_eof() == initial_eof,
    {
        Self { eof: initial_eof, alignment: 8 }
    }

    /// Allocate `size` bytes, returning the aligned starting offset.
    pub fn allocate(&mut self, size: u64) -> (offset: u64)
        requires
            old(self).wf(),
            old(self).spec_eof() + 8 <= u64::MAX,
            align8(old(self).spec_eof() as int) + size <= u64::MAX,
        ensures
            final(self).wf(),
            offset == align8(old(self).spec_eof() as int),
            final(self).spec_eof() == offset + size,
    {
        let eof = self.eof;
        let aligned: u64 = (self.eof + self.alignment - 1) & !(self.alignment - 1);
        assert(aligned == (eof + 7) as u64 / 8 * 8) by {
            let y: u64 = (eof + 7) as u64;
            assert(y & !7u64 == y / 8 * 8) by (bit_vector);
        }
        self.eof = aligned + size;
        aligned
    }

    /// Return the current end-of-file offset.
    pub fn eof(&self) -> (r: u64)
        ensures
            r == self.spec_eof(),
    {
        self.eof
    }

    /// Manually set the end-of-file offset.
    pub fn set_eof(&mut self, eof: u64)
        requires
            old(self).wf(),
        ensures
            final(self).wf(),
            final(self).spec_eof() == eof,
    {
        self.eof = eof;
    }
}

/// Allocations begin at multiples of eight, at most seven bytes behind the end of the
/// file.
pub proof fn lemma_aligned(eof: int)
    requires
        eof >= 0,
    ensures
        align8(eof) % 8 == 0,
        eof <= align8(eof) < eof + 8,
{
}

/// No allocation reaches into a later one: after `size` bytes at `align8(eof)`, the next
/// allocation begins behind them.
pub proof fn lemma_disjoint(eof: int, size: int)
    requires
        eof >= 0,
        size >= 0,
    ensures
        align8(eof) + size <= align8(align8(eof) + size),
{
    lemma_aligned(align8(eof) + size);
}

} // verus!
