//! The start of a file.

use crate::format::bytes::{lemma_le_bytes_len, lemma_pow256_values, pow256};
use crate::format::checksum::checksum;
use crate::format::chunk_index::extensible_array::earray_valid;
use crate::format::superblock::{
    lemma_superblock_parts, lemma_superblock_roundtrip, parsed_v2v3, SuperblockV2V3,
};
use crate::format::ErrorView;
use crate::io::writer::datasets::new_file;
use crate::io::writer::finish::superblock_of;
use crate::io::writer::reopen::{appendable, array_of, index_stop, IndexImage, IndexStop, Stored};
use crate::io::writer::state::Hdf5Writer;
use crate::io::IoErrorView;
use vstd::prelude::*;

verus! {

/// The superblock of a file says where the root group stands, where the file ends and how wide
/// its addresses are. It fits before everything else that a new file gets.
pub proof fn lemma_superblock_says(
    start: Hdf5Writer,
    w: Hdf5Writer,
    root: u64,
    flags: u8,
    tail: Seq<u8>,
)
    requires
        new_file(start),
        w.ctx == start.ctx,
    ensures
        ({
            let b = superblock_of(w, root, flags).bytes();
            &&& b.len() == start.allocator.spec_eof()
            &&& parsed_v2v3(b + tail) matches Ok(s) && {
                &&& s.root_group_object_header_address == root
                &&& s.end_of_file_address == w.allocator.spec_eof()
                &&& s.base_address == 0
                &&& s.sizeof_offsets == w.ctx.sizeof_addr
                &&& s.sizeof_lengths == w.ctx.sizeof_size
                &&& s.file_consistency_flags == flags
            }
            &&& appendable(b + tail) == Ok::<SuperblockV2V3, IoErrorView>(
                superblock_of(w, root, flags),
            )
        }),
{
    let s = superblock_of(w, root, flags);
    lemma_pow256_values();
    lemma_superblock_roundtrip(s, tail);
    lemma_le_bytes_len(s.base_address as nat, 8);
    lemma_le_bytes_len(s.superblock_extension_address as nat, 8);
    lemma_le_bytes_len(s.end_of_file_address as nat, 8);
    lemma_le_bytes_len(s.root_group_object_header_address as nat, 8);
    lemma_le_bytes_len(checksum(s.body()) as nat, 4);
}

/// A file is appended to only if its superblock is of version 2 or 3 and can be read; what is
/// wrong with it otherwise is what reading it says, but for files of the older versions.
pub proof fn lemma_appendable(buf: Seq<u8>)
    requires
        buf.len() >= 9,
        buf.subrange(0, 8) == seq![0x89u8, 0x48, 0x44, 0x46, 0x0d, 0x0a, 0x1a, 0x0a],
    ensures
        appendable(buf) matches Ok(s) ==> {
            &&& buf[8] == 2 || buf[8] == 3
            &&& parsed_v2v3(buf) == Ok::<SuperblockV2V3, ErrorView>(s)
        },
        buf[8] <= 1 ==> (appendable(buf) matches Err(IoErrorView::InvalidState(_))),
        buf[8] >= 2 ==> (appendable(buf) matches Err(e) ==> parsed_v2v3(buf) matches Err(x) && e
            == IoErrorView::Format(x)),
{
}

/// Datasets can be restored once the index of every one that has an extensible array has been
/// read. As long as one is missing it is that of a dataset of the file, and all before it are
/// there.
pub proof fn lemma_indexes_needed(s: Seq<Stored>, indexes: Map<u64, IndexImage>, n: nat)
    requires
        n <= s.len(),
    ensures
        match index_stop(s, indexes, n) {
            None => forall|i: int|
                0 <= i < n ==> (array_of((#[trigger] s[i]).dataset.layout) matches Some((p, a))
                    ==> earray_valid(p) && indexes.contains_key(a)),
            Some(stop) => exists|k: int|
                0 <= k < n && index_stop(s, indexes, k as nat) is None && (array_of(
                    (#[trigger] s[k]).dataset.layout,
                ) matches Some((p, a)) && match stop {
                    IndexStop::Need(x) => x == a && earray_valid(p) && !indexes.contains_key(a),
                    IndexStop::Invalid => !earray_valid(p),
                }),
        },
    decreases n,
{
    if n > 0 {
        lemma_indexes_needed(s, indexes, (n - 1) as nat);
        let before = index_stop(s, indexes, (n - 1) as nat);
        if before is None && index_stop(s, indexes, n) is Some {
            let k = n - 1;
            assert(s[k] == s[n - 1]);
        }
    }
}

/// A superblock of version 2 or 3 reads back as it was written whenever its addresses and
/// lengths take two, four or eight bytes and its addresses fit; with any other width it is
/// refused.
pub proof fn lemma_superblock_widths(s: SuperblockV2V3, tail: Seq<u8>)
    requires
        s.version == 2 || s.version == 3,
        s.base_address < pow256(s.sizeof_offsets as nat),
        s.superblock_extension_address < pow256(s.sizeof_offsets as nat),
        s.end_of_file_address < pow256(s.sizeof_offsets as nat),
        s.root_group_object_header_address < pow256(s.sizeof_offsets as nat),
    ensures
        ({
            let o = s.sizeof_offsets;
            let l = s.sizeof_lengths;
            if (o == 2 || o == 4 || o == 8) && (l == 2 || l == 4 || l == 8) {
                parsed_v2v3(s.bytes() + tail) == Ok::<SuperblockV2V3, ErrorView>(s)
            } else {
                parsed_v2v3(s.bytes() + tail) matches Err(ErrorView::InvalidData(_))
            }
        }),
{
    let o = s.sizeof_offsets;
    let l = s.sizeof_lengths;
    if (o == 2 || o == 4 || o == 8) && (l == 2 || l == 4 || l == 8) {
        lemma_superblock_roundtrip(s, tail);
    } else {
        lemma_superblock_parts(s, tail);
    }
}

} // verus!
