//! Finishing a file: the order of the last writes and where headers go.

use crate::format::bytes::push_slice;
use crate::format::chunk_index::fixed_array::prefix_len;
use crate::format::superblock::{
    SuperblockV2V3, FLAG_SWMR_WRITE, FLAG_WRITE_ACCESS, SUPERBLOCK_V3,
};
use crate::format::{FormatContext, UNDEF_ADDR};
use crate::io::allocator::{align8, lemma_aligned};
use crate::io::finished::{header_done, indexes_done};
use crate::io::writer::attributes::BytesWrite;
use crate::io::writer::blocks::{dblk_bytes, dblk_items, encode_fixed_array_dblk};
use crate::io::writer::content::{has_chunks, is_chunked, lemma_same_catalog};
use crate::io::writer::state::{group_placed, link_placed, DatasetInfo, GroupInfo, Hdf5Writer};
use crate::io::writer::storage::same_others;
use crate::io::{invalid_state, IoErrorView, IoResult};
use crate::swmr::groups::header_placed;
use crate::text::{decimal, Text};
use vstd::prelude::*;

verus! {

/// A step of finishing a file.
#[derive(Debug, Clone, Copy, PartialEq, Eq, Structural)]
pub enum FinalStep {
    /// Write the index of a dataset.
    FlushIndex(usize),
    /// Place and write the header of a dataset.
    DatasetHeader(usize),
    /// Keep the header of a dataset that has not changed.
    KeepHeader(usize),
    /// Place the header of a group.
    GroupAddress(usize),
    /// Write the header of a group.
    GroupHeader(usize),
    /// Place and write the header of the root group.
    RootHeader,
    /// Write the superblock with these flags.
    Superblock(u8),
    /// Flush everything to disk.
    SyncAll,
}

/// What has to be written for the index of a dataset. The block is written before the
/// header that refers to it.
#[derive(Debug)]
pub enum IndexWrite {
    /// The index block and the header of an extensible array, at these addresses.
    Array { block: u64, header: u64, filtered: bool },
    /// The data block of a fixed array, and its header at this address.
    Fixed { block: BytesWrite, header: u64 },
    /// The leaf of a B-tree, which is placed anew, and its header at this address.
    Tree { header: u64 },
    /// The dataset has no index.
    Nothing,
}

/// Flags of the superblock while the file is written and read at once.
pub const SWMR_FLAGS: u8 = 5;

/// Whether a dataset is in the file and no chunks have been added to its index.
pub open spec fn index_holds(d: DatasetInfo) -> bool {
    d.obj_header_written_addr is Some && !(d.chunked matches Some(c) && c.chunks_written > 0)
}

/// Whether a dataset has a header in the file that still holds: neither chunks, nor
/// attributes, nor the fill value, nor the shape have changed.
pub open spec fn header_holds(d: DatasetInfo) -> bool {
    index_holds(d) && !d.header_changed
}

fn keeps_index(d: &DatasetInfo) -> (r: bool)
    ensures
        r == index_holds(*d),
{
    if d.obj_header_written_addr.is_none() {
        return false;
    }
    match &d.chunked {
        Some(c) => c.chunks_written == 0,
        None => true,
    }
}

/// The indexes of the first `n` datasets that have to be written. With `all`,
/// those of unchanged datasets too.
pub open spec fn index_steps(ds: Seq<DatasetInfo>, all: bool, n: nat) -> Seq<FinalStep>
    decreases n,
{
    if n == 0 {
        Seq::empty()
    } else {
        let d = ds[n - 1];
        let before = index_steps(ds, all, (n - 1) as nat);
        if is_chunked(d) && (all || !index_holds(d)) {
            before.push(FinalStep::FlushIndex((n - 1) as usize))
        } else {
            before
        }
    }
}

/// What happens to the header of dataset `i`.
pub open spec fn header_step(ds: Seq<DatasetInfo>, all: bool, i: int) -> FinalStep {
    if all || !header_holds(ds[i]) {
        FinalStep::DatasetHeader(i as usize)
    } else {
        FinalStep::KeepHeader(i as usize)
    }
}

/// The steps of finishing a file, in order: indexes, dataset headers, places of
/// group headers, group headers, the root header, the superblock.
pub open spec fn final_steps(w: Hdf5Writer, all: bool, flags: u8) -> Seq<FinalStep> {
    let nd = w.datasets@.len();
    let ng = w.groups@.len();
    index_steps(w.datasets@, all, nd) + Seq::new(nd, |i: int| header_step(w.datasets@, all, i))
        + Seq::new(ng, |g: int| FinalStep::GroupAddress(g as usize)) + Seq::new(
        ng,
        |g: int| FinalStep::GroupHeader(g as usize),
    ) + seq![FinalStep::RootHeader, FinalStep::Superblock(flags), FinalStep::SyncAll]
}

/// The superblock comes after everything else, and only the final flush after
/// it; group headers are written once all of them have their place.
pub proof fn lemma_superblock_last(w: Hdf5Writer, all: bool, flags: u8)
    ensures
        ({
            let s = final_steps(w, all, flags);
            let n = s.len() as int;
            &&& n >= 3
            &&& s[n - 1] == FinalStep::SyncAll
            &&& s[n - 2] == FinalStep::Superblock(flags)
            &&& s[n - 3] == FinalStep::RootHeader
            &&& forall|i: int| 0 <= i < n - 2 ==> !(#[trigger] s[i] is Superblock)
            &&& forall|i: int, j: int|
                0 <= i < n && 0 <= j < n && (#[trigger] s[i] is GroupAddress) && (#[trigger] s[j]
                    is GroupHeader) ==> i < j
            &&& forall|i: int, j: int|
                0 <= i < n && 0 <= j < n && (#[trigger] s[i] is DatasetHeader) && (#[trigger] s[j]
                    is GroupHeader) ==> i < j
        }),
{
    lemma_index_steps(w.datasets@, all, w.datasets@.len());
}

proof fn lemma_index_steps(ds: Seq<DatasetInfo>, all: bool, n: nat)
    ensures
        forall|i: int|
            0 <= i < index_steps(ds, all, n).len() ==> #[trigger] index_steps(ds, all, n)[i]
                is FlushIndex,
    decreases n,
{
    if n > 0 {
        lemma_index_steps(ds, all, (n - 1) as nat);
    }
}

/// The superblock of a file.
pub open spec fn superblock_of(w: Hdf5Writer, root: u64, flags: u8) -> SuperblockV2V3 {
    SuperblockV2V3 {
        version: SUPERBLOCK_V3,
        sizeof_offsets: w.ctx.sizeof_addr,
        sizeof_lengths: w.ctx.sizeof_size,
        file_consistency_flags: flags,
        base_address: 0,
        superblock_extension_address: UNDEF_ADDR,
        end_of_file_address: w.allocator.spec_eof(),
        root_group_object_header_address: root,
    }
}

impl Hdf5Writer {
    /// The steps of finishing a file, in order.
    fn steps(&self, all: bool, flags: u8) -> (steps: Vec<FinalStep>)
        ensures
            steps@ == final_steps(*self, all, flags),
    {
        let mut steps: Vec<FinalStep> = Vec::new();
        let mut i: usize = 0;
        assert(steps@ =~= index_steps(self.datasets@, all, 0));
        while i < self.datasets.len()
            invariant
                i <= self.datasets.len(),
                steps@ == index_steps(self.datasets@, all, i as nat),
            decreases self.datasets.len() - i,
        {
            let d = &self.datasets[i];
            if has_chunks(d) && (all || !keeps_index(d)) {
                steps.push(FinalStep::FlushIndex(i));
            }
            i = i + 1;
        }
        let ghost a = steps@;
        let ghost heads = Seq::new(
            self.datasets@.len(),
            |i: int| header_step(self.datasets@, all, i),
        );
        i = 0;
        assert(a + heads.take(0) =~= a);
        while i < self.datasets.len()
            invariant
                i <= self.datasets.len(),
                heads == Seq::new(
                    self.datasets@.len(),
                    |i: int| header_step(self.datasets@, all, i),
                ),
                steps@ == a + heads.take(i as int),
            decreases self.datasets.len() - i,
        {
            let d = &self.datasets[i];
            if all || d.header_changed || !keeps_index(d) {
                steps.push(FinalStep::DatasetHeader(i));
            } else {
                steps.push(FinalStep::KeepHeader(i));
            }
            assert(steps@ =~= a + heads.take(i + 1));
            i = i + 1;
        }
        assert(heads.take(i as int) =~= heads);
        let ghost b = steps@;
        let ghost places = Seq::new(
            self.groups@.len(),
            |g: int| FinalStep::GroupAddress(g as usize),
        );
        let mut g: usize = 0;
        assert(b + places.take(0) =~= b);
        while g < self.groups.len()
            invariant
                g <= self.groups.len(),
                places == Seq::new(
                    self.groups@.len(),
                    |g: int| FinalStep::GroupAddress(g as usize),
                ),
                steps@ == b + places.take(g as int),
            decreases self.groups.len() - g,
        {
            steps.push(FinalStep::GroupAddress(g));
            assert(steps@ =~= b + places.take(g + 1));
            g = g + 1;
        }
        assert(places.take(g as int) =~= places);
        let ghost c = steps@;
        let ghost writes = Seq::new(
            self.groups@.len(),
            |g: int| FinalStep::GroupHeader(g as usize),
        );
        g = 0;
        assert(c + writes.take(0) =~= c);
        while g < self.groups.len()
            invariant
                g <= self.groups.len(),
                writes == Seq::new(
                    self.groups@.len(),
                    |g: int| FinalStep::GroupHeader(g as usize),
                ),
                steps@ == c + writes.take(g as int),
            decreases self.groups.len() - g,
        {
            steps.push(FinalStep::GroupHeader(g));
            assert(steps@ =~= c + writes.take(g + 1));
            g = g + 1;
        }
        assert(writes.take(g as int) =~= writes);
        steps.push(FinalStep::RootHeader);
        steps.push(FinalStep::Superblock(flags));
        steps.push(FinalStep::SyncAll);
        assert(steps@ =~= final_steps(*self, all, flags));
        steps
    }

    /// The steps of closing a file. Waiting frames have been written before.
    pub fn finalize(&self) -> (steps: Vec<FinalStep>)
        ensures
            steps@ == final_steps(*self, false, 0),
    {
        self.steps(false, 0)
    }

    /// The steps of making a file ready for readers while it is written.
    pub fn finalize_for_swmr(&self) -> (steps: Vec<FinalStep>)
        ensures
            steps@ == final_steps(*self, true, SWMR_FLAGS),
            SWMR_FLAGS == FLAG_WRITE_ACCESS | FLAG_SWMR_WRITE,
    {
        assert(5u8 == 0x01u8 | 0x04u8) by (bit_vector);
        self.steps(true, SWMR_FLAGS)
    }

    /// Keep the header of a dataset that has not changed.
    pub fn keep_dataset_header(&mut self, i: usize)
        requires
            old(self).wf(),
            i < old(self).datasets@.len(),
            old(self).datasets@[i as int].obj_header_written_addr is Some,
        ensures
            final(self).wf(),
            final(self).allocator == old(self).allocator,
            same_others(*old(self), *final(self), i as int),
            final(self).datasets@[i as int] == (DatasetInfo {
                obj_header_addr: old(self).datasets@[i as int].obj_header_written_addr->0,
                ..old(self).datasets@[i as int]
            }),
            header_done(*old(self), *final(self), i as int),
    {
        let ghost before = *self;
        if let Some(addr) = self.datasets[i].obj_header_written_addr {
            self.datasets[i].obj_header_addr = addr;
        }
        proof {
            lemma_same_catalog(before, *self);
        }
    }

    /// Place the header of a dataset, which takes `size` bytes. With `live`, the
    /// header can be rewritten in its place later.
    pub fn place_dataset_header(&mut self, i: usize, size: usize, live: bool) -> (addr: u64)
        requires
            old(self).wf(),
            i < old(self).datasets@.len(),
            old(self).allocator.spec_eof() + 8 + size <= u64::MAX,
        ensures
            final(self).wf(),
            addr == align8(old(self).allocator.spec_eof() as int),
            final(self).allocator.spec_eof() == addr + size,
            same_others(*old(self), *final(self), i as int),
            final(self).datasets@[i as int] == (if live {
                DatasetInfo {
                    obj_header_addr: addr,
                    obj_header_written_addr: Some(addr),
                    obj_header_encoded_size: size,
                    header_changed: false,
                    ..old(self).datasets@[i as int]
                }
            } else {
                DatasetInfo { obj_header_addr: addr, ..old(self).datasets@[i as int] }
            }),
            size > 0 ==> header_done(*old(self), *final(self), i as int),
    {
        let ghost before = *self;
        let addr: u64 = self.allocator.allocate(size as u64);
        self.datasets[i].obj_header_addr = addr;
        if live {
            self.datasets[i].obj_header_written_addr = Some(addr);
            self.datasets[i].obj_header_encoded_size = size;
            self.datasets[i].header_changed = false;
        }
        proof {
            lemma_same_catalog(before, *self);
        }
        addr
    }

    /// Place the header of a group, which takes `size` bytes.
    pub fn place_group_header(&mut self, g: usize, size: usize) -> (addr: u64)
        requires
            old(self).wf(),
            g < old(self).groups@.len(),
            old(self).allocator.spec_eof() + 8 + size <= u64::MAX,
        ensures
            final(self).wf(),
            addr == align8(old(self).allocator.spec_eof() as int),
            final(self).allocator.spec_eof() == addr + size,
            final(self).ctx == old(self).ctx,
            final(self).datasets == old(self).datasets,
            final(self).hard_links == old(self).hard_links,
            final(self).root_attributes == old(self).root_attributes,
            final(self).closed == old(self).closed,
            final(self).root_group_addr == old(self).root_group_addr,
            final(self).root_group_encoded_size == old(self).root_group_encoded_size,
            final(self).groups@ == old(self).groups@.update(
                g as int,
                GroupInfo { obj_header_addr: addr, ..old(self).groups@[g as int] },
            ),
            header_placed(*old(self), *final(self), g as int, size as int),
    {
        let ghost before = *self;
        let addr: u64 = self.allocator.allocate(size as u64);
        self.groups[g].obj_header_addr = addr;
        proof {
            assert forall|i: int| 0 <= i < self.groups@.len() implies #[trigger] group_placed(
                self.groups@[i],
                i,
                self.groups@.len(),
                self.datasets@.len(),
            ) by {
                assert(group_placed(
                    before.groups@[i],
                    i,
                    before.groups@.len(),
                    before.datasets@.len(),
                ));
            }
            assert forall|i: int| 0 <= i < self.hard_links@.len() implies #[trigger] link_placed(
                self.hard_links@[i],
                self.groups@.len(),
                self.datasets@.len(),
            ) by {
                assert(link_placed(
                    before.hard_links@[i],
                    before.groups@.len(),
                    before.datasets@.len(),
                ));
            }
        }
        addr
    }

    /// Place the header of the root group, which takes `size` bytes. With `live`,
    /// its size is kept.
    pub fn place_root_header(&mut self, size: usize, live: bool) -> (addr: u64)
        requires
            old(self).wf(),
            old(self).allocator.spec_eof() + 8 + size <= u64::MAX,
        ensures
            final(self).wf(),
            addr == align8(old(self).allocator.spec_eof() as int),
            final(self).allocator.spec_eof() == addr + size,
            final(self).root_group_addr == Some(addr),
            final(self).root_group_encoded_size == if live {
                size
            } else {
                old(self).root_group_encoded_size
            },
            final(self).ctx == old(self).ctx,
            final(self).datasets == old(self).datasets,
            final(self).groups == old(self).groups,
            final(self).hard_links == old(self).hard_links,
            final(self).root_attributes == old(self).root_attributes,
            final(self).closed == old(self).closed,
    {
        let addr: u64 = self.allocator.allocate(size as u64);
        self.root_group_addr = Some(addr);
        if live {
            self.root_group_encoded_size = size;
        }
        addr
    }

    /// What has to be written for the index of a dataset.
    pub fn flush_dataset(&self, index: usize) -> (w: IndexWrite)
        requires
            index < self.datasets@.len(),
            self.datasets@[index as int].fixed_array matches Some(f) ==> {
                &&& f.fa_header.wf()
                &&& f.fa_header.num_elmts == dblk_items(self.ctx, f.fa_header, f.fa_dblk).len()
                &&& f.fa_header.num_elmts + 1024 <= usize::MAX
                &&& prefix_len(self.ctx.sizeof_addr as nat, f.fa_header.spec_npages())
                    <= usize::MAX
            },
        ensures
            ({
                let d = self.datasets@[index as int];
                match d.chunked {
                    Some(c) => w matches IndexWrite::Array { block, header, filtered } && {
                        &&& block == c.ea_iblk_addr
                        &&& header == c.ea_header_addr
                        &&& filtered == c.filtered
                    },
                    None => match d.fixed_array {
                        Some(f) => w matches IndexWrite::Fixed { block, header } && {
                            &&& block.at == f.fa_dblk_addr
                            &&& block.bytes@ == dblk_bytes(self.ctx, f.fa_header, f.fa_dblk)
                            &&& header == f.fa_header_addr
                        },
                        None => match d.btree_v2 {
                            Some(b) => w matches IndexWrite::Tree { header } && header
                                == b.bt2_header_addr,
                            None => w is Nothing,
                        },
                    },
                }
            }),
    {
        let d = &self.datasets[index];
        if let Some(c) = &d.chunked {
            return IndexWrite::Array {
                block: c.ea_iblk_addr,
                header: c.ea_header_addr,
                filtered: c.filtered,
            };
        }
        if let Some(f) = &d.fixed_array {
            let bytes = encode_fixed_array_dblk(&self.ctx, &f.fa_header, &f.fa_dblk);
            return IndexWrite::Fixed {
                block: BytesWrite { at: f.fa_dblk_addr, bytes },
                header: f.fa_header_addr,
            };
        }
        match &d.btree_v2 {
            Some(b) => IndexWrite::Tree { header: b.bt2_header_addr },
            None => IndexWrite::Nothing,
        }
    }

    /// Place the leaf of a dataset's B-tree, which takes `size` bytes.
    pub fn place_bt2_leaf(&mut self, i: usize, size: u64) -> (addr: u64)
        requires
            old(self).wf(),
            i < old(self).datasets@.len(),
            old(self).datasets@[i as int].btree_v2 is Some,
            old(self).allocator.spec_eof() + 8 + size <= u64::MAX,
        ensures
            final(self).wf(),
            addr == align8(old(self).allocator.spec_eof() as int),
            final(self).allocator.spec_eof() == addr + size,
            same_others(*old(self), *final(self), i as int),
            ({
                let d = old(self).datasets@[i as int];
                let d2 = final(self).datasets@[i as int];
                &&& d2 == (DatasetInfo { btree_v2: d2.btree_v2, ..d })
                &&& d2.btree_v2 is Some
                &&& d2.btree_v2->0 == (crate::io::writer::state::Bt2DatasetInfo {
                    bt2_leaf_addr: addr,
                    ..d.btree_v2->0
                })
            }),
            indexes_done(*old(self), *final(self)),
    {
        let ghost before = *self;
        let addr: u64 = self.allocator.allocate(size);
        match self.datasets[i].btree_v2.take() {
            Some(info) => {
                let mut b = info;
                b.bt2_leaf_addr = addr;
                self.datasets[i].btree_v2 = Some(b);
            },
            None => {
                assert(false);
            },
        }
        proof {
            lemma_aligned(before.allocator.spec_eof() as int);
            lemma_same_catalog(before, *self);
        }
        addr
    }

    /// The superblock with the given flags, which stands at the start of the
    /// file. The root group has to be written before.
    pub fn write_superblock(&self, flags: u8) -> (r: IoResult<Vec<u8>>)
        requires
            self.ctx.sizeof_addr <= 8,
        ensures
            match self.root_group_addr {
                Some(root) => r matches Ok(b) && b@ == superblock_of(*self, root, flags).bytes(),
                None => r matches Err(e) && e@ == IoErrorView::InvalidState(
                    "root group not yet written"@,
                ),
            },
    {
        match self.root_group_addr {
            None => Err(invalid_state(Text::new("root group not yet written"))),
            Some(root) => {
                let sb = SuperblockV2V3 {
                    version: SUPERBLOCK_V3,
                    sizeof_offsets: self.ctx.sizeof_addr,
                    sizeof_lengths: self.ctx.sizeof_size,
                    file_consistency_flags: flags,
                    base_address: 0,
                    superblock_extension_address: UNDEF_ADDR,
                    end_of_file_address: self.allocator.eof(),
                    root_group_object_header_address: root,
                };
                Ok(sb.encode())
            },
        }
    }

    /// Rewrite the header of a dataset in its place: `encoded` is the new header,
    /// which may not be longer than the first one. It is padded with zeros.
    pub fn write_dataset_header_inplace(&self, index: usize, encoded: Vec<u8>) -> (r: IoResult<
        BytesWrite,
    >)
        requires
            index < self.datasets@.len(),
        ensures
            ({
                let d = self.datasets@[index as int];
                let size = d.obj_header_encoded_size as nat;
                match d.obj_header_written_addr {
                    None => r matches Err(e) && e@ == IoErrorView::InvalidState(
                        "dataset header not yet written"@,
                    ),
                    Some(addr) => if encoded@.len() > size {
                        r matches Err(e) && e@ == IoErrorView::InvalidState(
                            "dataset header grew from "@ + decimal(size) + " to "@ + decimal(
                                encoded@.len(),
                            ) + " bytes; cannot rewrite in place"@,
                        )
                    } else {
                        r matches Ok(w) && w.at == addr && w.bytes@ == encoded@ + Seq::new(
                            (size - encoded@.len()) as nat,
                            |i: int| 0u8,
                        )
                    },
                }
            }),
    {
        let d = &self.datasets[index];
        match d.obj_header_written_addr {
            None => Err(invalid_state(Text::new("dataset header not yet written"))),
            Some(addr) => {
                let size: usize = d.obj_header_encoded_size;
                if encoded.len() > size {
                    return Err(
                        invalid_state(
                            Text::new("dataset header grew from ").number(size as u64).text(
                                " to ",
                            ).number(encoded.len() as u64).text(
                                " bytes; cannot rewrite in place",
                            ),
                        ),
                    );
                }
                let pad = crate::format::bytes::filled(size - encoded.len(), 0);
                let mut bytes = encoded;
                push_slice(&mut bytes, pad.as_slice());
                Ok(BytesWrite { at: addr, bytes })
            },
        }
    }

    /// The widths of addresses and lengths.
    pub fn ctx(&self) -> (c: &FormatContext)
        ensures
            *c == self.ctx,
    {
        &self.ctx
    }

    /// The current end of the file.
    pub fn eof(&self) -> (n: u64)
        ensures
            n == self.allocator.spec_eof(),
    {
        self.allocator.eof()
    }
}

} // verus!
