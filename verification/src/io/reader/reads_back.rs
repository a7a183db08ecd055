//! What a reader finds of a file that has been written.

use crate::format::messages::attribute::AttributeView;
use crate::io::reader::messages::{
    attribute_views, attributes_of, dataset_of, dataspace_of, datatype_of, fill_value_of,
    filters_of, infos, layout_of, InfoView, ReadView,
};
use crate::io::reader::walk::{lemma_linked_dataset, linked, Objects};
use crate::io::writer::attributes::fill_of;
use crate::io::writer::catalog::emitted;
use crate::io::writer::headers::{
    attribute_items, filter_items, fill_view, layout_view, link_item, refcount_items,
    BodyView, ItemView,
};
use crate::io::writer::state::{DatasetInfo, HardLinkTarget, Hdf5Writer};
use vstd::prelude::*;

verus! {

/// Header messages as they are read.
pub open spec fn as_read(v: Seq<ItemView>) -> Seq<InfoView> {
    Seq::new(v.len(), |i: int| InfoView { msg_type: v[i].msg_type, body: Some(v[i].body) })
}

/// What a reader should know of a dataset.
pub open spec fn read_of(d: DatasetInfo, name: Seq<char>) -> ReadView {
    ReadView {
        name,
        datatype: d.datatype.message_view(),
        dataspace: d.dataspace@,
        layout: layout_view(d),
        filters: match d.filter_pipeline {
            Some(p) => if p.filters@.len() > 0 {
                Some(p@)
            } else {
                None
            },
            None => None,
        },
        attributes: attribute_views(d.attributes@),
        fill_value: fill_of(d),
    }
}

/// The first messages of a dataset's header say what they say, whatever follows.
proof fn lemma_header_upto(w: Hdf5Writer, i: int, n: nat)
    requires
        4 <= n <= w.dataset_items(i).len(),
    ensures
        ({
            let d = w.datasets@[i];
            let m = as_read(w.dataset_items(i));
            let b = 4 + filter_items(d).len();
            let c = b + d.attributes@.len();
            &&& datatype_of(m, n) == Some(d.datatype.message_view())
            &&& dataspace_of(m, n) == Some(d.dataspace@)
            &&& layout_of(m, n) == Some(layout_view(d))
            &&& fill_value_of(m, n) == fill_of(d)
            &&& n >= b ==> filters_of(m, n) == read_of(d, Seq::empty()).filters
            &&& attributes_of(m, n) == attribute_views(d.attributes@).take(
                if n <= b {
                    0
                } else if n <= c {
                    n - b
                } else {
                    d.attributes@.len() as int
                },
            )
        }),
    decreases n,
{
    let d = w.datasets@[i];
    let all = w.dataset_items(i);
    let m = as_read(all);
    let fs = filter_items(d);
    let at = attribute_items(d.attributes@);
    let b = 4 + fs.len();
    let c = b + at.len();
    let views = attribute_views(d.attributes@);
    if n == 4 {
        reveal_with_fuel(datatype_of, 5);
        reveal_with_fuel(dataspace_of, 5);
        reveal_with_fuel(layout_of, 5);
        reveal_with_fuel(fill_value_of, 5);
        reveal_with_fuel(filters_of, 5);
        reveal_with_fuel(attributes_of, 5);
        assert(m[0].body == Some(BodyView::Dataspace(d.dataspace@)));
        assert(m[1].body == Some(BodyView::Datatype(d.datatype.message_view())));
        assert(m[2].body == Some(BodyView::FillValue(fill_view(d))));
        assert(m[3].body == Some(BodyView::DataLayout(layout_view(d))));
        assert(views.take(0) =~= Seq::<AttributeView>::empty());
        assert(attributes_of(m, 4) =~= views.take(0));
    } else {
        lemma_header_upto(w, i, (n - 1) as nat);
        let k = n - 1;
        if k < b {
            assert(all[k] == fs[k - 4]);
        } else if k < c {
            assert(all[k] == at[k - b]);
            assert(views.take(k - b + 1) =~= views.take(k - b).push(d.attributes@[k - b]@));
        } else {
            let rc = refcount_items(w.link_count(HardLinkTarget::Dataset(i as usize)));
            assert(all[k] == rc[k - c]);
            assert(views.take(k - b) =~= views || k > c);
        }
    }
}

/// The header of a dataset reads back as the dataset that was written: type, shape,
/// layout, filters, attributes and fill value.
pub proof fn lemma_dataset_reads_back(w: Hdf5Writer, i: int, name: Seq<char>)
    requires
        0 <= i < w.datasets@.len(),
    ensures
        dataset_of(as_read(w.dataset_items(i)), name) == Some(read_of(w.datasets@[i], name)),
{
    let m = as_read(w.dataset_items(i));
    let d = w.datasets@[i];
    lemma_header_upto(w, i, m.len());
    let views = attribute_views(d.attributes@);
    assert(views.take(views.len() as int) =~= views);
}

/// Every dataset of the root group has its link there.
pub proof fn lemma_root_link(w: Hdf5Writer, i: int, n: nat)
    requires
        0 <= i < n <= w.datasets@.len(),
        !w.datasets@[i].deleted,
        !w.in_subgroup(i as usize),
    ensures
        w.root_dataset_links(n).contains(
            link_item(w.datasets@[i].name@, w.datasets@[i].obj_header_addr),
        ),
    decreases n,
{
    let x = link_item(w.datasets@[i].name@, w.datasets@[i].obj_header_addr);
    let all = w.root_dataset_links(n);
    if i == n - 1 {
        assert(all[all.len() - 1] == x);
    } else {
        lemma_root_link(w, i, (n - 1) as nat);
        let before = w.root_dataset_links((n - 1) as nat);
        let k = choose|k: int| 0 <= k < before.len() && before[k] == x;
        assert(all[k] == x);
    }
}

/// Every hard link that will be in the file has its link in its group.
pub proof fn lemma_hard_link_item(w: Hdf5Writer, parent: Option<usize>, i: int, n: nat)
    requires
        0 <= i < n <= w.hard_links@.len(),
        w.hard_links@[i].parent == parent,
        emitted(w.hard_links@[i], w.datasets@, w.groups@),
    ensures
        w.hard_link_items(parent, n).contains(
            link_item(w.hard_links@[i].name@, w.target_addr(w.hard_links@[i].target)),
        ),
    decreases n,
{
    let x = link_item(w.hard_links@[i].name@, w.target_addr(w.hard_links@[i].target));
    let all = w.hard_link_items(parent, n);
    if i == n - 1 {
        assert(all[all.len() - 1] == x);
    } else {
        lemma_hard_link_item(w, parent, i, (n - 1) as nat);
        let before = w.hard_link_items(parent, (n - 1) as nat);
        let k = choose|k: int| 0 <= k < before.len() && before[k] == x;
        assert(all[k] == x);
    }
}

/// A link of the root header leads to a dataset that is found under its name.
proof fn lemma_found(w: Hdf5Writer, o: Objects, root: u64, i: int, name: Seq<char>, k: int)
    requires
        0 <= i < w.datasets@.len(),
        header_read(w, o, i),
        0 <= k < w.root_items().len(),
        w.root_items()[k] == link_item(name, w.datasets@[i].obj_header_addr),
        linked(o, as_read(w.root_items()), root).need is None,
    ensures
        linked(o, as_read(w.root_items()), root).datasets.contains(
            read_of(w.datasets@[i], name),
        ),
{
    lemma_linked_dataset(o, as_read(w.root_items()), root, k);
    lemma_dataset_reads_back(w, i, name);
}

/// Whether what stands in the file at the place of a dataset's header has been read,
/// and is the header that was written.
pub open spec fn header_read(w: Hdf5Writer, o: Objects, i: int) -> bool {
    let addr = w.datasets@[i].obj_header_addr;
    &&& o.nodes@.contains_key(addr)
    &&& o.nodes@[addr] is Some
    &&& infos(o.nodes@[addr]->0.messages@) == as_read(w.dataset_items(i))
}

/// A live dataset that stands in no group is found from the root header, under its
/// name and as it was written.
pub proof fn lemma_written_dataset_found(w: Hdf5Writer, o: Objects, root: u64, i: int)
    requires
        0 <= i < w.datasets@.len() <= usize::MAX,
        !w.datasets@[i].deleted,
        !w.in_subgroup(i as usize),
        header_read(w, o, i),
        linked(o, as_read(w.root_items()), root).need is None,
    ensures
        linked(o, as_read(w.root_items()), root).datasets.contains(
            read_of(w.datasets@[i], w.datasets@[i].name@),
        ),
{
    let d = w.datasets@[i];
    let n = w.datasets@.len();
    lemma_root_link(w, i, n);
    let links = w.root_dataset_links(n);
    let x = link_item(d.name@, d.obj_header_addr);
    let k = choose|k: int| 0 <= k < links.len() && links[k] == x;
    assert(w.root_items()[k + 2] == x);
    lemma_found(w, o, root, i, d.name@, k + 2);
}

/// A hard link in the root group is found from the root header: the dataset appears a
/// second time, under the name of the link.
pub proof fn lemma_hard_link_found(w: Hdf5Writer, o: Objects, root: u64, l: int, i: usize)
    requires
        0 <= l < w.hard_links@.len(),
        w.hard_links@[l].parent is None,
        w.hard_links@[l].target == HardLinkTarget::Dataset(i),
        i < w.datasets@.len(),
        emitted(w.hard_links@[l], w.datasets@, w.groups@),
        header_read(w, o, i as int),
        linked(o, as_read(w.root_items()), root).need is None,
    ensures
        linked(o, as_read(w.root_items()), root).datasets.contains(
            read_of(w.datasets@[i as int], w.hard_links@[l].name@),
        ),
{
    let name = w.hard_links@[l].name@;
    let n = w.hard_links@.len();
    lemma_hard_link_item(w, None, l, n);
    let links = w.hard_link_items(None, n);
    let x = link_item(name, w.datasets@[i as int].obj_header_addr);
    let k = choose|k: int| 0 <= k < links.len() && links[k] == x;
    let at = 2 + w.root_dataset_links(w.datasets@.len()).len() + w.root_group_links(
        w.groups@.len(),
    ).len();
    assert(w.root_items()[at + k] == x);
    lemma_found(w, o, root, i as int, name, at + k);
}

} // verus!
