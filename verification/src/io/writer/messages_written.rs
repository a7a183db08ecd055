//! What the header of an object says besides its name and its data.

use crate::format::bytes::{
    le_bytes, le_value, lemma_le_bytes_len, lemma_le_roundtrip_exact, lemma_pow256_values,
};
use crate::format::messages::{MSG_DATATYPE, MSG_FILL_VALUE, MSG_OBJ_REF_COUNT};
use crate::io::writer::headers::{fill_view, refcount_items, BodyView, ItemView};
use crate::io::writer::state::{HardLinkTarget, Hdf5Writer};
use vstd::prelude::*;

verus! {

/// Whether an item is a count of links: a version of zero, and the count in four bytes.
pub open spec fn counts_links(x: ItemView, n: nat) -> bool {
    &&& x.msg_type == MSG_OBJ_REF_COUNT
    &&& x.body matches BodyView::RefCount(b) && {
        &&& b.len() == 5
        &&& b[0] == 0
        &&& le_value(b.subrange(1, 5)) == n
    }
}

/// An object with more than one link says how many there are; one with a single link says
/// nothing of it.
pub proof fn lemma_links_written(n: nat)
    requires
        n <= u32::MAX,
    ensures
        n <= 1 ==> refcount_items(n).len() == 0,
        n > 1 ==> refcount_items(n).len() == 1 && counts_links(refcount_items(n)[0], n),
{
    if n > 1 {
        lemma_pow256_values();
        lemma_le_bytes_len(n, 4);
        lemma_le_roundtrip_exact(n, 4);
        let b = refcount_items(n)[0].body->RefCount_0;
        assert(b.subrange(1, 5) =~= le_bytes(n, 4));
    }
}

/// The header of a dataset says how many links lead to it, if they are more than one, behind
/// everything else.
pub proof fn lemma_dataset_links_written(w: Hdf5Writer, i: int)
    requires
        0 <= i < w.datasets@.len() <= usize::MAX,
        w.link_count(HardLinkTarget::Dataset(i as usize)) <= u32::MAX,
    ensures
        ({
            let n = w.link_count(HardLinkTarget::Dataset(i as usize));
            let all = w.dataset_items(i);
            &&& n > 1 ==> counts_links(all.last(), n)
            &&& n <= 1 ==> forall|k: int|
                0 <= k < all.len() ==> !((#[trigger] all[k]).body is RefCount)
        }),
{
    lemma_links_written(w.link_count(HardLinkTarget::Dataset(i as usize)));
}

/// The header of a group says how many links lead to it, if they are more than one.
pub proof fn lemma_group_links_written(w: Hdf5Writer, g: int)
    requires
        0 <= g < w.groups@.len() <= usize::MAX,
        1 < w.link_count(HardLinkTarget::Group(g as usize)) <= u32::MAX,
    ensures
        counts_links(w.group_items(g).last(), w.link_count(HardLinkTarget::Group(g as usize))),
{
    lemma_links_written(w.link_count(HardLinkTarget::Group(g as usize)));
}

/// The header of a dataset holds its fill value as defined exactly if it has one, and says that
/// space is taken chunk by chunk if it stands in chunks and not before data come otherwise. Its
/// datatype does not change.
pub proof fn lemma_fill_message(w: Hdf5Writer, i: int)
    requires
        0 <= i < w.datasets@.len(),
        w.datasets@[i].kept_layout is None,
    ensures
        ({
            let d = w.datasets@[i];
            let all = w.dataset_items(i);
            let f = fill_view(d);
            &&& all[2].msg_type == MSG_FILL_VALUE
            &&& all[2].body == BodyView::FillValue(f)
            &&& f.alloc_time == 3 <==> d.chunked is Some || d.fixed_array is Some || d.btree_v2 is Some
            &&& f.alloc_time == 2 || f.alloc_time == 3
            &&& f.fill_write_time == 0
            &&& f.fill_defined == 2 <==> d.fill_value is Some
            &&& f.fill_defined == 1 || f.fill_defined == 2
            &&& d.fill_value matches Some(b) ==> f.fill_value == Some(b@)
            &&& all[1].msg_type == MSG_DATATYPE
            &&& all[1].flags == 1
            &&& forall|k: int| 0 <= k < all.len() && k != 1 ==> (#[trigger] all[k]).flags == 0
        }),
{
}

} // verus!
