//! What a reader finds of the groups and links of a file that has been written.

use crate::format::messages::attribute::AttributeMessage;
use crate::format::messages::MSG_LINK_INFO;
use crate::io::names::{leaf, trimmed_start};
use crate::io::reader::messages::{
    attribute_views, attributes_of, dataset_of, group_message, layout_of, InfoView, ReadView,
};
use crate::io::reader::paths::{
    group_header, has_attributes, leads_within, lemma_walk_complete, lemma_walk_needs_nothing,
    link_addr, link_at, link_name, messages_at, reached, Entry, Tree,
};
use crate::io::reader::reads_back::{
    as_read, header_read, lemma_dataset_reads_back, lemma_hard_link_item, lemma_root_link, read_of,
};
use crate::io::reader::walk::{
    lemma_linked_dataset, linked, nothing, path_of, FoundView, GroupView, Objects, MAX_GROUP_DEPTH,
};
use crate::io::writer::catalog::{emitted, link_path};
use crate::io::writer::headers::{
    attribute_items, link_item, refcount_items, BodyView, ItemView,
};
use crate::io::writer::state::{group_placed, link_placed, HardLink, HardLinkTarget, Hdf5Writer};
use vstd::prelude::*;

verus! {

/// Whether what stands in the file at the place of a group's header has been read, and
/// is the header that was written.
pub open spec fn group_read(w: Hdf5Writer, o: Objects, g: int) -> bool {
    let addr = w.groups@[g].obj_header_addr;
    &&& o.nodes@.contains_key(addr)
    &&& o.nodes@[addr] is Some
    &&& messages_at(o, addr) == as_read(w.group_items(g))
}

/// The messages of group headers: nothing that only datasets have.
pub open spec fn of_groups(v: Seq<ItemView>) -> bool {
    forall|k: int| 0 <= k < v.len() ==> !((#[trigger] v[k]).body is DataLayout)
}

proof fn lemma_links_of_groups(w: Hdf5Writer, children: Seq<usize>, parent: Option<usize>, n: nat)
    ensures
        of_groups(w.dataset_links(children, n)),
        of_groups(w.group_links(children, n)),
        of_groups(w.hard_link_items(parent, n)),
    decreases n,
{
    if n > 0 {
        lemma_links_of_groups(w, children, parent, (n - 1) as nat);
    }
}

proof fn lemma_no_layout(m: Seq<InfoView>, n: nat)
    requires
        n <= m.len(),
        forall|k: int| 0 <= k < n ==> !((#[trigger] m[k]).body matches Some(BodyView::DataLayout(_))),
    ensures
        layout_of(m, n) is None,
    decreases n,
{
    if n > 0 {
        lemma_no_layout(m, (n - 1) as nat);
    }
}

/// The header of a group reads as that of a group.
proof fn lemma_group_header(w: Hdf5Writer, o: Objects, g: int)
    requires
        group_read(w, o, g),
    ensures
        group_header(o, w.groups@[g].obj_header_addr),
{
    let all = w.group_items(g);
    let m = as_read(all);
    let grp = w.groups@[g];
    lemma_links_of_groups(w, grp.child_datasets@, None, grp.child_datasets@.len());
    lemma_links_of_groups(w, grp.child_groups@, None, grp.child_groups@.len());
    lemma_links_of_groups(w, Seq::empty(), Some(g as usize), w.hard_links@.len());
    assert(of_groups(all));
    assert forall|k: int| 0 <= k < m.len() implies !((#[trigger] m[k]).body matches Some(
        BodyView::DataLayout(_),
    )) by {
        assert(!(all[k].body is DataLayout));
    }
    lemma_no_layout(m, m.len());
    assert(group_message(m[0].msg_type)) by {
        assert(all[0].msg_type == MSG_LINK_INFO);
    }
}

proof fn lemma_dataset_link(w: Hdf5Writer, children: Seq<usize>, i: usize, n: nat, x: int)
    requires
        0 <= x < n <= children.len(),
        children[x] == i,
        !w.datasets@[i as int].deleted,
    ensures
        w.dataset_links(children, n).contains(
            link_item(leaf(w.datasets@[i as int].name@), w.datasets@[i as int].obj_header_addr),
        ),
    decreases n,
{
    let one = link_item(leaf(w.datasets@[i as int].name@), w.datasets@[i as int].obj_header_addr);
    let all = w.dataset_links(children, n);
    if x == n - 1 {
        assert(all[all.len() - 1] == one);
    } else {
        lemma_dataset_link(w, children, i, (n - 1) as nat, x);
        let before = w.dataset_links(children, (n - 1) as nat);
        let k = choose|k: int| 0 <= k < before.len() && before[k] == one;
        assert(all[k] == one);
    }
}

proof fn lemma_group_link(w: Hdf5Writer, children: Seq<usize>, h: usize, n: nat, x: int)
    requires
        0 <= x < n <= children.len(),
        children[x] == h,
        !w.groups@[h as int].deleted,
    ensures
        w.group_links(children, n).contains(
            link_item(leaf(w.groups@[h as int].name@), w.groups@[h as int].obj_header_addr),
        ),
    decreases n,
{
    let one = link_item(leaf(w.groups@[h as int].name@), w.groups@[h as int].obj_header_addr);
    let all = w.group_links(children, n);
    if x == n - 1 {
        assert(all[all.len() - 1] == one);
    } else {
        lemma_group_link(w, children, h, (n - 1) as nat, x);
        let before = w.group_links(children, (n - 1) as nat);
        let k = choose|k: int| 0 <= k < before.len() && before[k] == one;
        assert(all[k] == one);
    }
}

proof fn lemma_root_group_link(w: Hdf5Writer, h: int, n: nat)
    requires
        0 <= h < n <= w.groups@.len(),
        !w.groups@[h].deleted,
        w.groups@[h].parent is None,
    ensures
        w.root_group_links(n).contains(
            link_item(leaf(w.groups@[h].name@), w.groups@[h].obj_header_addr),
        ),
    decreases n,
{
    let one = link_item(leaf(w.groups@[h].name@), w.groups@[h].obj_header_addr);
    let all = w.root_group_links(n);
    if h == n - 1 {
        assert(all[all.len() - 1] == one);
    } else {
        lemma_root_group_link(w, h, (n - 1) as nat);
        let before = w.root_group_links((n - 1) as nat);
        let k = choose|k: int| 0 <= k < before.len() && before[k] == one;
        assert(all[k] == one);
    }
}


/// The groups of the file that a writer has finished.
pub open spec fn file_of(w: Hdf5Writer, o: Objects, root: u64) -> Tree {
    Tree { root: as_read(w.root_items()), addr: root, objects: o }
}

/// What is found in the file that a writer has finished.
pub open spec fn found(w: Hdf5Writer, o: Objects, root: u64) -> FoundView {
    linked(o, as_read(w.root_items()), root)
}

/// Whether what stands in the file at the place of a dataset's header has been read, and
/// is the header of a dataset.
pub open spec fn dataset_read(w: Hdf5Writer, o: Objects, i: int) -> bool {
    let addr = w.datasets@[i].obj_header_addr;
    &&& o.nodes@.contains_key(addr)
    &&& o.nodes@[addr] is Some
    &&& dataset_of(messages_at(o, addr), Seq::empty()) is Some
}

/// The dataset that stands in the file at the place of a dataset's header, under `path`.
pub open spec fn stored_as(w: Hdf5Writer, o: Objects, i: int, path: Seq<char>) -> ReadView {
    dataset_of(messages_at(o, w.datasets@[i].obj_header_addr), path)->0
}

/// Where the header of a dataset is the one that was written, the dataset is found as it
/// was written.
pub proof fn lemma_stored_as_written(w: Hdf5Writer, o: Objects, i: int, path: Seq<char>)
    requires
        0 <= i < w.datasets@.len(),
        header_read(w, o, i),
    ensures
        dataset_read(w, o, i),
        stored_as(w, o, i, path) == read_of(w.datasets@[i], path),
{
    lemma_dataset_reads_back(w, i, path);
    lemma_dataset_reads_back(w, i, Seq::empty());
}

/// Whether the headers of all live datasets and groups have been read.
pub open spec fn all_read(w: Hdf5Writer, o: Objects) -> bool {
    &&& forall|i: int|
        0 <= i < w.datasets@.len() && !(#[trigger] w.datasets@[i]).deleted ==> dataset_read(
            w,
            o,
            i,
        )
    &&& forall|g: int|
        0 <= g < w.groups@.len() && !(#[trigger] w.groups@[g]).deleted ==> group_read(w, o, g)
}

/// Whether each live group has a header of its own.
pub open spec fn apart(w: Hdf5Writer, root: u64) -> bool {
    &&& forall|g: int|
        0 <= g < w.groups@.len() && !(#[trigger] w.groups@[g]).deleted
            ==> w.groups@[g].obj_header_addr != root
    &&& forall|g: int, h: int|
        0 <= g < h < w.groups@.len() && !(#[trigger] w.groups@[g]).deleted && !(
        #[trigger] w.groups@[h]).deleted ==> w.groups@[g].obj_header_addr
            != w.groups@[h].obj_header_addr
}

/// Whether live groups differ in their paths.
pub open spec fn unlike(w: Hdf5Writer) -> bool {
    forall|g: int, h: int|
        0 <= g < h < w.groups@.len() && !(#[trigger] w.groups@[g]).deleted && !(
        #[trigger] w.groups@[h]).deleted ==> trimmed_start(w.groups@[g].name@) != trimmed_start(
            w.groups@[h].name@,
        )
}

/// Whether the name of a group is that of its parent and its own.
pub open spec fn titled(w: Hdf5Writer, g: int) -> bool {
    let x = w.groups@[g];
    &&& leaf(x.name@).len() > 0
    &&& x.name@ == match x.parent {
        None => seq!['/'] + leaf(x.name@),
        Some(p) => w.groups@[p as int].name@ + seq!['/'] + leaf(x.name@),
    }
}

/// Whether children know their parents, and groups are named after theirs.
pub open spec fn filed(w: Hdf5Writer) -> bool {
    &&& forall|p: int, k: int|
        0 <= p < w.groups@.len() && 0 <= k < w.groups@[p].child_groups@.len()
            ==> w.groups@[(#[trigger] w.groups@[p].child_groups@[k]) as int].parent == Some(
            p as usize,
        )
    &&& forall|g: int| 0 <= g < w.groups@.len() ==> #[trigger] titled(w, g)
}

/// Whether a live group hangs on the root group by live groups.
pub open spec fn rooted(w: Hdf5Writer, g: int) -> bool
    decreases g,
{
    &&& 0 <= g < w.groups@.len()
    &&& !w.groups@[g].deleted
    &&& match w.groups@[g].parent {
        None => true,
        Some(p) => {
            &&& p < g
            &&& w.groups@[p as int].child_groups@.contains(g as usize)
            &&& rooted(w, p as int)
        },
    }
}

/// How deep a group lies; the root group has level 0.
pub open spec fn level(w: Hdf5Writer, g: int) -> nat
    decreases g,
{
    match w.groups@[g].parent {
        Some(p) => if 0 <= p < g {
            level(w, p as int) + 1
        } else {
            1
        },
        None => 1,
    }
}

/// Whether no group has a second name in the file.
pub open spec fn no_group_links(w: Hdf5Writer) -> bool {
    forall|l: int|
        0 <= l < w.hard_links@.len() && emitted(
            #[trigger] w.hard_links@[l],
            w.datasets@,
            w.groups@,
        ) ==> w.hard_links@[l].target is Dataset
}

/// Whether neither a group nor one above it has a second name in the file.
pub open spec fn unlinked(w: Hdf5Writer, g: int) -> bool
    decreases g,
{
    &&& forall|l: int|
        0 <= l < w.hard_links@.len() && emitted(
            #[trigger] w.hard_links@[l],
            w.datasets@,
            w.groups@,
        ) ==> w.hard_links@[l].target != HardLinkTarget::Group(g as usize)
    &&& match w.groups@[g].parent {
        Some(p) => 0 <= p < g ==> unlinked(w, p as int),
        None => true,
    }
}

/// Whether the writer's file is in order: everything was placed and has been read.
pub open spec fn readable(w: Hdf5Writer, o: Objects, root: u64) -> bool {
    &&& w.wf()
    &&& w.groups@.len() <= usize::MAX
    &&& w.datasets@.len() <= usize::MAX
    &&& all_read(w, o)
    &&& apart(w, root)
    &&& found(w, o, root).need is None
}

/// A child of a group, as a link of the group names it.
pub open spec fn is_child(
    w: Hdf5Writer,
    parent: Option<usize>,
    h: int,
    name: Seq<char>,
    addr: u64,
) -> bool {
    &&& 0 <= h < w.groups@.len()
    &&& !w.groups@[h].deleted
    &&& w.groups@[h].parent == parent
    &&& w.groups@[h].obj_header_addr == addr
    &&& name == leaf(w.groups@[h].name@)
}

/// Whether hard link `l` stands in a group, under this name, and leads to group `h`.
pub open spec fn is_linked(
    w: Hdf5Writer,
    parent: Option<usize>,
    h: int,
    name: Seq<char>,
    l: int,
) -> bool {
    &&& 0 <= l < w.hard_links@.len()
    &&& emitted(w.hard_links@[l], w.datasets@, w.groups@)
    &&& w.hard_links@[l].parent == parent
    &&& w.hard_links@[l].target == HardLinkTarget::Group(h as usize)
    &&& w.hard_links@[l].name@ == name
}

/// Whether a link of a group names a live group: a child of it, or the target of a hard
/// link.
pub open spec fn names_group(
    w: Hdf5Writer,
    parent: Option<usize>,
    h: int,
    name: Seq<char>,
    addr: u64,
) -> bool {
    &&& 0 <= h < w.groups@.len()
    &&& !w.groups@[h].deleted
    &&& w.groups@[h].obj_header_addr == addr
    &&& is_child(w, parent, h, name, addr) || exists|l: int| #[trigger]
        is_linked(w, parent, h, name, l)
}

/// Whether those of the links that lead to a group name live groups.
pub open spec fn leads_home(
    w: Hdf5Writer,
    o: Objects,
    parent: Option<usize>,
    v: Seq<ItemView>,
) -> bool {
    forall|k: int|
        0 <= k < v.len() && ((#[trigger] v[k]).body matches BodyView::Link { name, addr }
            && group_header(o, addr)) ==> exists|h: int| #[trigger]
            names_group(w, parent, h, v[k].body->Link_name, v[k].body->Link_addr)
}

proof fn lemma_no_group(w: Hdf5Writer, o: Objects, i: int)
    requires
        0 <= i < w.datasets@.len(),
        dataset_read(w, o, i),
    ensures
        !group_header(o, w.datasets@[i].obj_header_addr),
{
}

proof fn lemma_dataset_links_home(
    w: Hdf5Writer,
    o: Objects,
    parent: Option<usize>,
    children: Seq<usize>,
    n: nat,
)
    requires
        n <= children.len(),
        all_read(w, o),
        forall|k: int| 0 <= k < children.len() ==> #[trigger] children[k] < w.datasets@.len(),
    ensures
        leads_home(w, o, parent, w.dataset_links(children, n)),
    decreases n,
{
    if n > 0 {
        lemma_dataset_links_home(w, o, parent, children, (n - 1) as nat);
        let i = children[n - 1] as int;
        if !w.datasets@[i].deleted {
            lemma_no_group(w, o, i);
        }
    }
}

proof fn lemma_home_pushed(
    w: Hdf5Writer,
    o: Objects,
    parent: Option<usize>,
    a: Seq<ItemView>,
    h: int,
    name: Seq<char>,
)
    requires
        leads_home(w, o, parent, a),
        0 <= h < w.groups@.len(),
        names_group(w, parent, h, name, w.groups@[h].obj_header_addr),
    ensures
        leads_home(w, o, parent, a.push(link_item(name, w.groups@[h].obj_header_addr))),
{
    let v = a.push(link_item(name, w.groups@[h].obj_header_addr));
    assert forall|k: int|
        0 <= k < v.len() && ((#[trigger] v[k]).body matches BodyView::Link { name, addr }
            && group_header(o, addr)) implies exists|h: int| #[trigger]
        names_group(w, parent, h, v[k].body->Link_name, v[k].body->Link_addr) by {
        if k < a.len() {
            assert(v[k] == a[k]);
        } else {
            assert(names_group(w, parent, h, v[k].body->Link_name, v[k].body->Link_addr));
        }
    }
}

proof fn lemma_group_links_home(w: Hdf5Writer, o: Objects, p: int, n: nat)
    requires
        0 <= p < w.groups@.len() <= usize::MAX,
        n <= w.groups@[p].child_groups@.len(),
        w.wf(),
        filed(w),
    ensures
        leads_home(w, o, Some(p as usize), w.group_links(w.groups@[p].child_groups@, n)),
    decreases n,
{
    if n > 0 {
        lemma_group_links_home(w, o, p, (n - 1) as nat);
        let c = w.groups@[p].child_groups@;
        assert(group_placed(w.groups@[p], p, w.groups@.len(), w.datasets@.len()));
        let h = w.groups@[p].child_groups@[n - 1] as int;
        if !w.groups@[h].deleted {
            lemma_home_pushed(
                w,
                o,
                Some(p as usize),
                w.group_links(c, (n - 1) as nat),
                h,
                leaf(w.groups@[h].name@),
            );
        }
    }
}

proof fn lemma_hard_links_home(w: Hdf5Writer, o: Objects, parent: Option<usize>, n: nat)
    requires
        n <= w.hard_links@.len(),
        w.wf(),
        all_read(w, o),
    ensures
        leads_home(w, o, parent, w.hard_link_items(parent, n)),
    decreases n,
{
    if n > 0 {
        lemma_hard_links_home(w, o, parent, (n - 1) as nat);
        let l = w.hard_links@[n - 1];
        assert(link_placed(l, w.groups@.len(), w.datasets@.len()));
        if l.parent == parent && emitted(l, w.datasets@, w.groups@) {
            match l.target {
                HardLinkTarget::Dataset(i) => {
                    lemma_no_group(w, o, i as int);
                },
                HardLinkTarget::Group(h) => {
                    assert(is_linked(w, parent, h as int, l.name@, n - 1));
                    lemma_home_pushed(
                        w,
                        o,
                        parent,
                        w.hard_link_items(parent, (n - 1) as nat),
                        h as int,
                        l.name@,
                    );
                },
            }
        }
    }
}

proof fn lemma_root_links_home(w: Hdf5Writer, o: Objects, n: nat)
    requires
        n <= w.datasets@.len(),
        all_read(w, o),
    ensures
        leads_home(w, o, None, w.root_dataset_links(n)),
    decreases n,
{
    if n > 0 {
        lemma_root_links_home(w, o, (n - 1) as nat);
        if !w.datasets@[n - 1].deleted {
            lemma_no_group(w, o, n - 1);
        }
    }
}

proof fn lemma_root_groups_home(w: Hdf5Writer, o: Objects, n: nat)
    requires
        n <= w.groups@.len(),
    ensures
        leads_home(w, o, None, w.root_group_links(n)),
    decreases n,
{
    if n > 0 {
        lemma_root_groups_home(w, o, (n - 1) as nat);
        let x = w.groups@[n - 1];
        if !x.deleted && x.parent is None {
            lemma_home_pushed(
                w,
                o,
                None,
                w.root_group_links((n - 1) as nat),
                n - 1,
                leaf(x.name@),
            );
        }
    }
}

proof fn lemma_home_joined(
    w: Hdf5Writer,
    o: Objects,
    parent: Option<usize>,
    a: Seq<ItemView>,
    b: Seq<ItemView>,
)
    requires
        leads_home(w, o, parent, a),
        leads_home(w, o, parent, b),
    ensures
        leads_home(w, o, parent, a + b),
{
    let v = a + b;
    assert forall|k: int|
        0 <= k < v.len() && ((#[trigger] v[k]).body matches BodyView::Link { name, addr }
            && group_header(o, addr)) implies exists|h: int| #[trigger]
        names_group(w, parent, h, v[k].body->Link_name, v[k].body->Link_addr) by {
        if k < a.len() {
            assert(v[k] == a[k]);
        } else {
            assert(v[k] == b[k - a.len()]);
        }
    }
}

/// The links of the root group lead to live groups and to datasets.
#[verifier::rlimit(40)]
proof fn lemma_root_home(w: Hdf5Writer, o: Objects)
    requires
        w.wf(),
        all_read(w, o),
    ensures
        leads_home(w, o, None, w.root_items()),
{
    let first = w.root_items().take(2);
    assert(leads_home(w, o, None, first));
    let a = w.root_dataset_links(w.datasets@.len());
    let b = w.root_group_links(w.groups@.len());
    let c = w.hard_link_items(None, w.hard_links@.len());
    let d = attribute_items(w.root_attributes@);
    lemma_root_links_home(w, o, w.datasets@.len());
    lemma_root_groups_home(w, o, w.groups@.len());
    lemma_hard_links_home(w, o, None, w.hard_links@.len());
    lemma_home_joined(w, o, None, first, a);
    lemma_home_joined(w, o, None, first + a, b);
    lemma_home_joined(w, o, None, first + a + b, c);
    lemma_home_joined(w, o, None, first + a + b + c, d);
    assert(w.root_items() =~= first + a + b + c + d);
}

/// The links of a group lead to live groups and to datasets.
#[verifier::rlimit(40)]
proof fn lemma_group_home(w: Hdf5Writer, o: Objects, g: int)
    requires
        0 <= g < w.groups@.len() <= usize::MAX,
        w.wf(),
        all_read(w, o),
        filed(w),
    ensures
        leads_home(w, o, Some(g as usize), w.group_items(g)),
{
    let at = Some(g as usize);
    let grp = w.groups@[g];
    assert(group_placed(grp, g, w.groups@.len(), w.datasets@.len()));
    let first = w.group_items(g).take(2);
    assert(leads_home(w, o, at, first));
    let a = w.dataset_links(grp.child_datasets@, grp.child_datasets@.len());
    let b = w.group_links(grp.child_groups@, grp.child_groups@.len());
    let c = w.hard_link_items(at, w.hard_links@.len());
    let d = attribute_items(grp.attributes@);
    let r = refcount_items(w.link_count(HardLinkTarget::Group(g as usize)));
    lemma_dataset_links_home(w, o, at, grp.child_datasets@, grp.child_datasets@.len());
    lemma_group_links_home(w, o, g, grp.child_groups@.len());
    lemma_hard_links_home(w, o, at, w.hard_links@.len());
    lemma_home_joined(w, o, at, first, a);
    lemma_home_joined(w, o, at, first + a, b);
    lemma_home_joined(w, o, at, first + a + b, c);
    lemma_home_joined(w, o, at, first + a + b + c, d);
    lemma_home_joined(w, o, at, first + a + b + c + d, r);
    assert(w.group_items(g) =~= first + a + b + c + d + r);
}

/// The path of a child is the path of its parent and its own name.
proof fn lemma_trimmed_child(p: Seq<char>, x: Seq<char>)
    ensures
        trimmed_start(p + seq!['/'] + leaf(x)) == path_of(trimmed_start(p), leaf(x)),
    decreases p.len(),
{
    reveal_strlit("/");
    assert("/"@ =~= seq!['/']);
    let l = leaf(x);
    let s = p + seq!['/'] + l;
    if p.len() == 0 {
        assert(s.skip(1) =~= l);
        lemma_leaf_plain(x);
    } else if p[0] == '/' {
        assert(s.skip(1) =~= p.skip(1) + seq!['/'] + l);
        lemma_trimmed_child(p.skip(1), x);
    }
}

/// The name of an object within its group has no slash.
pub proof fn lemma_leaf_plain(x: Seq<char>)
    ensures
        !leaf(x).contains('/'),
        trimmed_start(leaf(x)) == leaf(x),
    decreases x.len(),
{
    if x.len() > 0 && x.last() != '/' {
        lemma_leaf_plain(x.drop_last());
        let a = leaf(x.drop_last());
        let b = leaf(x);
        if b.contains('/') {
            let k = choose|k: int| 0 <= k < b.len() && b[k] == '/';
            assert(a[k] == '/');
        }
        assert(!b.contains(b[0]) || b[0] != '/');
        assert(b.contains(b[0]));
    }
}

/// A link of an entered group that leads to a group names a live group. The group with the
/// link is `p`, or the root group.
proof fn lemma_link_names(
    w: Hdf5Writer,
    o: Objects,
    root: u64,
    e: Map<u64, Entry>,
    q: u64,
    k: int,
    a: u64,
) -> (r: (Option<usize>, int))
    requires
        readable(w, o, root),
        filed(w),
        file_of(w, o, root).complete(found(w, o, root), e),
        e.contains_key(q),
        file_of(w, o, root).link(q, k, a),
        group_header(o, a),
    ensures
        names_group(w, r.0, r.1, link_name(file_of(w, o, root).at(q), k), a),
        match r.0 {
            None => q == root,
            Some(p) => {
                &&& p < w.groups@.len()
                &&& !w.groups@[p as int].deleted
                &&& w.groups@[p as int].obj_header_addr == q
                &&& q != root
            },
        },
    decreases e[q].depth,
{
    let t = file_of(w, o, root);
    let m = t.at(q);
    if q == root {
        lemma_root_home(w, o);
        let v = w.root_items()[k];
        assert(v.body is Link);
        let h = choose|h: int| #[trigger]
            names_group(w, None, h, v.body->Link_name, v.body->Link_addr);
        (None, h)
    } else {
        let (r, j) = choose|r: u64, j: int| #[trigger] t.entered(e, r, j, q);
        let p = lemma_link_names(w, o, root, e, r, j, q).1;
        assert(group_read(w, o, p));
        lemma_group_home(w, o, p);
        let v = w.group_items(p)[k];
        assert(m == as_read(w.group_items(p)));
        assert(v.body is Link);
        let h = choose|h: int| #[trigger]
            names_group(w, Some(p as usize), h, v.body->Link_name, v.body->Link_addr);
        (Some(p as usize), h)
    }
}

/// Without second names, every link of an entered group that leads to a group leads to a
/// child of it; the path is that of the child.
proof fn lemma_home(
    w: Hdf5Writer,
    o: Objects,
    root: u64,
    e: Map<u64, Entry>,
    q: u64,
    k: int,
    a: u64,
) -> (h: int)
    requires
        readable(w, o, root),
        filed(w),
        no_group_links(w),
        file_of(w, o, root).complete(found(w, o, root), e),
        e.contains_key(q),
        file_of(w, o, root).link(q, k, a),
        group_header(o, a),
    ensures
        0 <= h < w.groups@.len(),
        !w.groups@[h].deleted,
        w.groups@[h].obj_header_addr == a,
        path_of(e[q].path, link_name(file_of(w, o, root).at(q), k)) == trimmed_start(
            w.groups@[h].name@,
        ),
    decreases e[q].depth,
{
    let t = file_of(w, o, root);
    let name = link_name(t.at(q), k);
    let (at, h) = lemma_link_names(w, o, root, e, q, k, a);
    assert(is_child(w, at, h, name, a)) by {
        if !is_child(w, at, h, name, a) {
            let l = choose|l: int| #[trigger] is_linked(w, at, h, name, l);
            assert(w.hard_links@[l].target is Dataset);
        }
    }
    assert(titled(w, h));
    match at {
        None => {
            lemma_trimmed_child(Seq::empty(), w.groups@[h].name@);
            assert(Seq::<char>::empty() + seq!['/'] + name =~= seq!['/'] + name);
        },
        Some(p) => {
            let (r, j) = choose|r: u64, j: int| #[trigger] t.entered(e, r, j, q);
            let x = lemma_home(w, o, root, e, r, j, q);
            assert(x == p);
            lemma_trimmed_child(w.groups@[p as int].name@, w.groups@[h].name@);
        },
    }
    h
}

/// Messages without attributes before and behind those of a group.
proof fn lemma_attributes_upto(all: Seq<ItemView>, attrs: Seq<AttributeMessage>, b: int, n: nat)
    requires
        0 <= b,
        b + attrs.len() <= all.len(),
        n <= all.len(),
        forall|k: int|
            0 <= k < all.len() && !(b <= k < b + attrs.len()) ==> !((#[trigger] all[k]).body is
                Attribute),
        forall|k: int|
            b <= k < b + attrs.len() ==> #[trigger] all[k] == attribute_items(attrs)[k - b],
    ensures
        attributes_of(as_read(all), n) == attribute_views(attrs).take(
            if n <= b {
                0
            } else if n <= b + attrs.len() {
                n - b
            } else {
                attrs.len() as int
            },
        ),
    decreases n,
{
    let views = attribute_views(attrs);
    if n == 0 {
        assert(views.take(0) =~= Seq::empty());
    } else {
        lemma_attributes_upto(all, attrs, b, (n - 1) as nat);
        let k = n - 1;
        if b <= k < b + attrs.len() {
            assert(all[k] == attribute_items(attrs)[k - b]);
            assert(views.take(k - b + 1) =~= views.take(k - b).push(attrs[k - b]@));
        }
    }
}

proof fn lemma_plain_links(w: Hdf5Writer, children: Seq<usize>, parent: Option<usize>, n: nat)
    ensures
        forall|k: int|
            0 <= k < w.dataset_links(children, n).len() ==> (#[trigger] w.dataset_links(
                children,
                n,
            )[k]).body is Link,
        forall|k: int|
            0 <= k < w.group_links(children, n).len() ==> (#[trigger] w.group_links(
                children,
                n,
            )[k]).body is Link,
        forall|k: int|
            0 <= k < w.hard_link_items(parent, n).len() ==> (#[trigger] w.hard_link_items(
                parent,
                n,
            )[k]).body is Link,
    decreases n,
{
    if n > 0 {
        lemma_plain_links(w, children, parent, (n - 1) as nat);
    }
}

/// The header of a group holds the attributes of the group.
proof fn lemma_group_attributes(w: Hdf5Writer, g: int)
    ensures
        attributes_of(as_read(w.group_items(g)), w.group_items(g).len()) == attribute_views(
            w.groups@[g].attributes@,
        ),
{
    let grp = w.groups@[g];
    let all = w.group_items(g);
    let at = Some(g as usize);
    let x = w.dataset_links(grp.child_datasets@, grp.child_datasets@.len());
    let y = w.group_links(grp.child_groups@, grp.child_groups@.len());
    let z = w.hard_link_items(at, w.hard_links@.len());
    lemma_plain_links(w, grp.child_datasets@, at, grp.child_datasets@.len());
    lemma_plain_links(w, grp.child_groups@, at, grp.child_groups@.len());
    lemma_plain_links(w, Seq::empty(), at, w.hard_links@.len());
    let b = 2 + x.len() + y.len() + z.len();
    let n = grp.attributes@.len();
    assert forall|k: int| 0 <= k < all.len() && !(b <= k < b + n) implies !((
    #[trigger] all[k]).body is Attribute) by {
        if k < 2 {
        } else if k < 2 + x.len() {
            assert(all[k] == x[k - 2]);
        } else if k < 2 + x.len() + y.len() {
            assert(all[k] == y[k - 2 - x.len()]);
        } else if k < b {
            assert(all[k] == z[k - 2 - x.len() - y.len()]);
        }
    }
    lemma_attributes_upto(all, grp.attributes@, b as int, all.len());
    let views = attribute_views(grp.attributes@);
    assert(views.take(n as int) =~= views);
}

/// The header of the root group holds the attributes of the root group.
pub proof fn lemma_root_attributes(w: Hdf5Writer)
    ensures
        attributes_of(as_read(w.root_items()), w.root_items().len()) == attribute_views(
            w.root_attributes@,
        ),
{
    let all = w.root_items();
    let x = w.root_dataset_links(w.datasets@.len());
    let y = w.root_group_links(w.groups@.len());
    let z = w.hard_link_items(None, w.hard_links@.len());
    lemma_plain_root_links(w, w.datasets@.len());
    lemma_plain_root_links(w, w.groups@.len());
    lemma_plain_links(w, Seq::empty(), None, w.hard_links@.len());
    let b = 2 + x.len() + y.len() + z.len();
    let n = w.root_attributes@.len();
    assert forall|k: int| 0 <= k < all.len() && !(b <= k < b + n) implies !((
    #[trigger] all[k]).body is Attribute) by {
        if k < 2 {
        } else if k < 2 + x.len() {
            assert(all[k] == x[k - 2]);
        } else if k < 2 + x.len() + y.len() {
            assert(all[k] == y[k - 2 - x.len()]);
        } else if k < b {
            assert(all[k] == z[k - 2 - x.len() - y.len()]);
        }
    }
    lemma_attributes_upto(all, w.root_attributes@, b as int, all.len());
    let views = attribute_views(w.root_attributes@);
    assert(views.take(n as int) =~= views);
}

proof fn lemma_plain_root_links(w: Hdf5Writer, n: nat)
    ensures
        forall|k: int|
            0 <= k < w.root_dataset_links(n).len() ==> (#[trigger] w.root_dataset_links(
                n,
            )[k]).body is Link,
        forall|k: int|
            0 <= k < w.root_group_links(n).len() ==> (#[trigger] w.root_group_links(
                n,
            )[k]).body is Link,
    decreases n,
{
    if n > 0 {
        lemma_plain_root_links(w, (n - 1) as nat);
    }
}

/// A live group of the root group is reached.
proof fn lemma_root_child(w: Hdf5Writer, o: Objects, root: u64, e: Map<u64, Entry>, g: int)
    requires
        file_of(w, o, root).complete(found(w, o, root), e),
        0 <= g < w.groups@.len(),
        !w.groups@[g].deleted,
        w.groups@[g].parent is None,
    ensures
        reached(o, found(w, o, root), leaf(w.groups@[g].name@), w.groups@[g].obj_header_addr),
{
    let t = file_of(w, o, root);
    let grp = w.groups@[g];
    let one = link_item(leaf(grp.name@), grp.obj_header_addr);
    lemma_root_group_link(w, g, w.groups@.len());
    let links = w.root_group_links(w.groups@.len());
    let y = choose|y: int| 0 <= y < links.len() && links[y] == one;
    let k = 2 + w.root_dataset_links(w.datasets@.len()).len() + y;
    assert(w.root_items()[k] == one);
    assert(link_at(t.at(root), k) == Some((leaf(grp.name@), grp.obj_header_addr)));
    assert(t.covered(found(w, o, root), e, root, t.at(root).len()));
}

/// A live group of an entered group is reached.
proof fn lemma_group_child(
    w: Hdf5Writer,
    o: Objects,
    root: u64,
    e: Map<u64, Entry>,
    p: int,
    g: int,
)
    requires
        file_of(w, o, root).complete(found(w, o, root), e),
        0 <= p < w.groups@.len(),
        0 <= g < w.groups@.len() <= usize::MAX,
        !w.groups@[g].deleted,
        group_read(w, o, p),
        w.groups@[p].obj_header_addr != root,
        w.groups@[p].child_groups@.contains(g as usize),
        e.contains_key(w.groups@[p].obj_header_addr),
        e[w.groups@[p].obj_header_addr].depth <= MAX_GROUP_DEPTH,
    ensures
        reached(
            o,
            found(w, o, root),
            path_of(e[w.groups@[p].obj_header_addr].path, leaf(w.groups@[g].name@)),
            w.groups@[g].obj_header_addr,
        ),
{
    let t = file_of(w, o, root);
    let grp = w.groups@[g];
    let par = w.groups@[p];
    let a = par.obj_header_addr;
    let one = link_item(leaf(grp.name@), grp.obj_header_addr);
    let c = par.child_groups@;
    let x = choose|x: int| 0 <= x < c.len() && c[x] == g as usize;
    lemma_group_link(w, c, g as usize, c.len(), x);
    let links = w.group_links(c, c.len());
    let y = choose|y: int| 0 <= y < links.len() && links[y] == one;
    let k = 2 + w.dataset_links(par.child_datasets@, par.child_datasets@.len()).len() + y;
    assert(w.group_items(p)[k] == one);
    assert(link_at(t.at(a), k) == Some((leaf(grp.name@), grp.obj_header_addr)));
    assert(t.covered(found(w, o, root), e, a, t.at(a).len()));
}

/// A group that hangs on the root group is entered, unless it lies too deep.
proof fn lemma_group_entered(w: Hdf5Writer, o: Objects, root: u64, e: Map<u64, Entry>, g: int)
    requires
        readable(w, o, root),
        rooted(w, g),
        file_of(w, o, root).complete(found(w, o, root), e),
        forall|h: int|
            0 <= h < g && #[trigger] rooted(w, h) ==> (e.contains_key(
                w.groups@[h].obj_header_addr,
            ) ==> e[w.groups@[h].obj_header_addr].depth <= MAX_GROUP_DEPTH),
    ensures
        e.contains_key(w.groups@[g].obj_header_addr),
        match w.groups@[g].parent {
            None => reached(o, found(w, o, root), leaf(w.groups@[g].name@), w.groups@[g].obj_header_addr),
            Some(p) => e.contains_key(w.groups@[p as int].obj_header_addr) && reached(
                o,
                found(w, o, root),
                path_of(
                    e[w.groups@[p as int].obj_header_addr].path,
                    leaf(w.groups@[g].name@),
                ),
                w.groups@[g].obj_header_addr,
            ),
        },
    decreases g,
{
    assert(group_read(w, o, g));
    lemma_group_header(w, o, g);
    match w.groups@[g].parent {
        None => {
            lemma_root_child(w, o, root, e, g);
        },
        Some(p) => {
            lemma_group_entered(w, o, root, e, p as int);
            assert(rooted(w, p as int));
            assert(group_read(w, o, p as int));
            lemma_group_child(w, o, root, e, p as int, g);
        },
    }
}

/// A group that hangs on the root group is entered under its own path, when neither it nor
/// a group above it has a second name.
proof fn lemma_entry(w: Hdf5Writer, o: Objects, root: u64, e: Map<u64, Entry>, g: int)
    requires
        readable(w, o, root),
        filed(w),
        unlinked(w, g),
        rooted(w, g),
        level(w, g) <= MAX_GROUP_DEPTH + 1,
        file_of(w, o, root).complete(found(w, o, root), e),
    ensures
        e.contains_key(w.groups@[g].obj_header_addr),
        e[w.groups@[g].obj_header_addr] == (Entry {
            path: trimmed_start(w.groups@[g].name@),
            depth: level(w, g),
        }),
        found(w, o, root).paths.contains(trimmed_start(w.groups@[g].name@)),
        w.groups@[g].attributes@.len() > 0 ==> has_attributes(
            found(w, o, root).groups,
            trimmed_start(w.groups@[g].name@),
        ),
    decreases g,
{
    let t = file_of(w, o, root);
    let f = found(w, o, root);
    let grp = w.groups@[g];
    let a = grp.obj_header_addr;
    assert(titled(w, g));
    assert(group_read(w, o, g));
    lemma_group_header(w, o, g);
    lemma_group_attributes(w, g);
    match grp.parent {
        None => {
            lemma_root_child(w, o, root, e, g);
            lemma_trimmed_child(Seq::empty(), grp.name@);
            assert(Seq::<char>::empty() + seq!['/'] + leaf(grp.name@) =~= seq!['/'] + leaf(
                grp.name@,
            ));
        },
        Some(p) => {
            lemma_entry(w, o, root, e, p as int);
            assert(rooted(w, p as int));
            assert(group_read(w, o, p as int));
            lemma_group_child(w, o, root, e, p as int, g);
            lemma_trimmed_child(w.groups@[p as int].name@, grp.name@);
        },
    }
    assert(e.contains_key(a));
    let (q, k) = choose|q: u64, k: int| #[trigger] t.entered(e, q, k, a);
    let name = link_name(t.at(q), k);
    let (at, h) = lemma_link_names(w, o, root, e, q, k, a);
    assert(h == g);
    assert(is_child(w, at, g, name, a)) by {
        if !is_child(w, at, g, name, a) {
            let l = choose|l: int| #[trigger] is_linked(w, at, g, name, l);
            assert(w.hard_links@[l].target != HardLinkTarget::Group(g as usize));
        }
    }
    assert(at == grp.parent);
}

/// A live group is found again under its path, empty or not, however deep it lies. Where a
/// group above it has a second name it is left out: that group may be entered under the
/// second name, and what is in it is found under that name only.
pub proof fn lemma_group_path_found(w: Hdf5Writer, o: Objects, root: u64, g: int)
    requires
        readable(w, o, root),
        filed(w),
        rooted(w, g),
        w.groups@[g].parent matches Some(p) ==> unlinked(w, p as int),
        level(w, g) <= MAX_GROUP_DEPTH + 1,
    ensures
        found(w, o, root).paths.contains(trimmed_start(w.groups@[g].name@)),
        w.groups@[g].attributes@.len() > 0 ==> has_attributes(
            found(w, o, root).groups,
            trimmed_start(w.groups@[g].name@),
        ),
{
    let t = file_of(w, o, root);
    lemma_walk_complete(t);
    let e = choose|e: Map<u64, Entry>| t.complete(found(w, o, root), e);
    let grp = w.groups@[g];
    assert(titled(w, g));
    assert(group_read(w, o, g));
    lemma_group_header(w, o, g);
    lemma_group_attributes(w, g);
    match grp.parent {
        None => {
            lemma_root_child(w, o, root, e, g);
            lemma_trimmed_child(Seq::empty(), grp.name@);
            assert(Seq::<char>::empty() + seq!['/'] + leaf(grp.name@) =~= seq!['/'] + leaf(
                grp.name@,
            ));
        },
        Some(p) => {
            lemma_entry(w, o, root, e, p as int);
            assert(rooted(w, p as int));
            assert(group_read(w, o, p as int));
            lemma_group_child(w, o, root, e, p as int, g);
            lemma_trimmed_child(w.groups@[p as int].name@, grp.name@);
        },
    }
}

/// A live group is found again under its path with its attributes, empty or not, however
/// deep it lies; without attributes, none are found. Files in which a group has a second
/// name are left out: there a group may be entered under that name, and what is in it is
/// found under that name only.
pub proof fn lemma_group_found(w: Hdf5Writer, o: Objects, root: u64, g: int)
    requires
        readable(w, o, root),
        filed(w),
        unlike(w),
        no_group_links(w),
        rooted(w, g),
        level(w, g) <= MAX_GROUP_DEPTH + 1,
    ensures
        found(w, o, root).paths.contains(trimmed_start(w.groups@[g].name@)),
        w.groups@[g].attributes@.len() > 0 ==> found(w, o, root).groups.contains(
            GroupView {
                path: trimmed_start(w.groups@[g].name@),
                attributes: attribute_views(w.groups@[g].attributes@),
            },
        ),
        w.groups@[g].attributes@.len() == 0 ==> !has_attributes(
            found(w, o, root).groups,
            trimmed_start(w.groups@[g].name@),
        ),
        forall|i: int|
            0 <= i < found(w, o, root).groups.len() && (#[trigger] found(
                w,
                o,
                root,
            ).groups[i]).path == trimmed_start(w.groups@[g].name@) ==> found(
                w,
                o,
                root,
            ).groups[i].attributes == attribute_views(w.groups@[g].attributes@),
{
    let t = file_of(w, o, root);
    let f = found(w, o, root);
    let grp = w.groups@[g];
    let path = trimmed_start(grp.name@);
    lemma_walk_complete(t);
    let e = choose|e: Map<u64, Entry>| t.complete(f, e);
    assert forall|x: int| rooted(w, x) implies #[trigger] unlinked(w, x) by {
        lemma_unlinked(w, x);
    }
    lemma_entry(w, o, root, e, g);
    assert forall|i: int|
        0 <= i < f.groups.len() && (#[trigger] f.groups[i]).path == path implies f.groups[i]
        == (GroupView { path, attributes: attribute_views(grp.attributes@) })
        && grp.attributes@.len() > 0 by {
        let v = f.groups[i];
        assert(t.carried(e, v));
        let (q, k, a) = choose|q: u64, k: int, a: u64|
            {
                &&& e.contains_key(q)
                &&& #[trigger] t.link(q, k, a)
                &&& group_header(o, a)
                &&& v.path == path_of(e[q].path, link_name(t.at(q), k))
                &&& v.attributes == attributes_of(messages_at(o, a), messages_at(o, a).len())
            };
        let h = lemma_home(w, o, root, e, q, k, a);
        assert(h == g);
        assert(group_read(w, o, g));
        lemma_group_attributes(w, g);
        assert(v == (GroupView { path, attributes: attribute_views(grp.attributes@) }));
        assert(attribute_views(grp.attributes@).len() == grp.attributes@.len());
    }
    if has_attributes(f.groups, path) {
        let i = choose|i: int| 0 <= i < f.groups.len() && #[trigger] f.groups[i].path == path;
        assert(f.groups[i].path == path);
    }
}

proof fn lemma_unlinked(w: Hdf5Writer, g: int)
    requires
        no_group_links(w),
    ensures
        unlinked(w, g),
    decreases g,
{
    match w.groups@[g].parent {
        Some(p) => if 0 <= p < g {
            lemma_unlinked(w, p as int);
        },
        None => {},
    }
}

/// A live dataset of a group, however deep, is found under the path of the group and its
/// own name, as it stands in the file. Groups with a second name, and those below one, are
/// left out.
pub proof fn lemma_grouped_dataset_found(
    w: Hdf5Writer,
    o: Objects,
    root: u64,
    g: int,
    i: usize,
)
    requires
        readable(w, o, root),
        filed(w),
        unlinked(w, g),
        rooted(w, g),
        level(w, g) <= MAX_GROUP_DEPTH,
        w.groups@[g].child_datasets@.contains(i),
        !w.datasets@[i as int].deleted,
    ensures
        found(w, o, root).datasets.contains(
            stored_as(
                w,
                o,
                i as int,
                path_of(
                    trimmed_start(w.groups@[g].name@),
                    leaf(w.datasets@[i as int].name@),
                ),
            ),
        ),
{
    let t = file_of(w, o, root);
    lemma_walk_complete(t);
    let e = choose|e: Map<u64, Entry>| t.complete(found(w, o, root), e);
    lemma_entry(w, o, root, e, g);
    lemma_dataset_child(w, o, root, e, g, i);
}

proof fn lemma_dataset_child(
    w: Hdf5Writer,
    o: Objects,
    root: u64,
    e: Map<u64, Entry>,
    g: int,
    i: usize,
)
    requires
        readable(w, o, root),
        0 <= g < w.groups@.len(),
        !w.groups@[g].deleted,
        file_of(w, o, root).complete(found(w, o, root), e),
        e.contains_key(w.groups@[g].obj_header_addr),
        e[w.groups@[g].obj_header_addr].depth <= MAX_GROUP_DEPTH,
        w.groups@[g].child_datasets@.contains(i),
        !w.datasets@[i as int].deleted,
    ensures
        found(w, o, root).datasets.contains(
            stored_as(
                w,
                o,
                i as int,
                path_of(
                    e[w.groups@[g].obj_header_addr].path,
                    leaf(w.datasets@[i as int].name@),
                ),
            ),
        ),
{
    let t = file_of(w, o, root);
    let f = found(w, o, root);
    let grp = w.groups@[g];
    let a = grp.obj_header_addr;
    let d = w.datasets@[i as int];
    assert(group_read(w, o, g));
    assert(group_placed(grp, g, w.groups@.len(), w.datasets@.len()));
    let c = grp.child_datasets@;
    let x = choose|x: int| 0 <= x < c.len() && c[x] == i;
    assert(c[x] < w.datasets@.len());
    lemma_dataset_link(w, c, i, c.len(), x);
    let links = w.dataset_links(c, c.len());
    let one = link_item(leaf(d.name@), d.obj_header_addr);
    let k = choose|k: int| 0 <= k < links.len() && links[k] == one;
    assert(w.group_items(g)[k + 2] == one);
    assert(link_at(t.at(a), k + 2) == Some((leaf(d.name@), d.obj_header_addr)));
    assert(t.covered(f, e, a, t.at(a).len()));
    assert(dataset_read(w, o, i as int));
    let path = path_of(e[a].path, leaf(d.name@));
    assert(reached(o, f, path, d.obj_header_addr));
}

/// A hard link that is in the file is found: a dataset under the path of the link, as it
/// stands in the file; a group in the list of paths, with its attributes. Links in a group
/// that has a second name, or in one below such a group, are left out.
pub proof fn lemma_link_found(w: Hdf5Writer, o: Objects, root: u64, l: int)
    requires
        readable(w, o, root),
        0 <= l < w.hard_links@.len(),
        emitted(w.hard_links@[l], w.datasets@, w.groups@),
        w.hard_links@[l].parent matches Some(p) ==> {
            &&& filed(w)
            &&& unlinked(w, p as int)
            &&& rooted(w, p as int)
            &&& level(w, p as int) <= MAX_GROUP_DEPTH
            &&& trimmed_start(w.groups@[p as int].name@).len() > 0
        },
    ensures
        match w.hard_links@[l].target {
            HardLinkTarget::Dataset(i) => found(w, o, root).datasets.contains(
                stored_as(w, o, i as int, link_path(w.hard_links@[l], w.groups@)),
            ),
            HardLinkTarget::Group(h) => {
                &&& found(w, o, root).paths.contains(link_path(w.hard_links@[l], w.groups@))
                &&& w.groups@[h as int].attributes@.len() > 0 ==> has_attributes(
                    found(w, o, root).groups,
                    link_path(w.hard_links@[l], w.groups@),
                )
            },
        },
{
    let t = file_of(w, o, root);
    lemma_walk_complete(t);
    let e = choose|e: Map<u64, Entry>| t.complete(found(w, o, root), e);
    match w.hard_links@[l].parent {
        Some(p) => {
            lemma_entry(w, o, root, e, p as int);
        },
        None => {},
    }
    lemma_link_under(w, o, root, e, l);
}

/// The path under which the group of a link was entered.
pub open spec fn link_prefix(w: Hdf5Writer, e: Map<u64, Entry>, l: HardLink) -> Seq<char> {
    match l.parent {
        Some(p) => e[w.groups@[p as int].obj_header_addr].path,
        None => Seq::empty(),
    }
}

/// A hard link of a group is found under the path by which the group was entered.
proof fn lemma_link_under(w: Hdf5Writer, o: Objects, root: u64, e: Map<u64, Entry>, l: int)
    requires
        readable(w, o, root),
        0 <= l < w.hard_links@.len(),
        emitted(w.hard_links@[l], w.datasets@, w.groups@),
        file_of(w, o, root).complete(found(w, o, root), e),
        w.hard_links@[l].parent matches Some(p) ==> {
            &&& e.contains_key(w.groups@[p as int].obj_header_addr)
            &&& e[w.groups@[p as int].obj_header_addr].depth <= MAX_GROUP_DEPTH
        },
    ensures
        ({
            let f = found(w, o, root);
            let path = path_of(link_prefix(w, e, w.hard_links@[l]), w.hard_links@[l].name@);
            match w.hard_links@[l].target {
                HardLinkTarget::Dataset(i) => f.datasets.contains(
                    stored_as(w, o, i as int, path),
                ),
                HardLinkTarget::Group(h) => {
                    &&& f.paths.contains(path)
                    &&& e.contains_key(w.groups@[h as int].obj_header_addr)
                    &&& w.groups@[h as int].attributes@.len() > 0 ==> has_attributes(
                        f.groups,
                        path,
                    )
                },
            }
        }),
{
    let t = file_of(w, o, root);
    let f = found(w, o, root);
    let link = w.hard_links@[l];
    assert(link_placed(link, w.groups@.len(), w.datasets@.len()));
    let n = w.hard_links@.len();
    let to = w.target_addr(link.target);
    let one = link_item(link.name@, to);
    lemma_hard_link_item(w, link.parent, l, n);
    let links = w.hard_link_items(link.parent, n);
    let y = choose|y: int| 0 <= y < links.len() && links[y] == one;
    let path = path_of(link_prefix(w, e, link), link.name@);
    match link.parent {
        None => {
            let k = 2 + w.root_dataset_links(w.datasets@.len()).len() + w.root_group_links(
                w.groups@.len(),
            ).len() + y;
            assert(w.root_items()[k] == one);
            assert(link_at(t.at(root), k) == Some((link.name@, to)));
            assert(t.covered(f, e, root, t.at(root).len()));
        },
        Some(p) => {
            let par = w.groups@[p as int];
            let a = par.obj_header_addr;
            assert(group_read(w, o, p as int));
            let k = 2 + w.dataset_links(par.child_datasets@, par.child_datasets@.len()).len()
                + w.group_links(par.child_groups@, par.child_groups@.len()).len() + y;
            assert(w.group_items(p as int)[k] == one);
            assert(link_at(t.at(a), k) == Some((link.name@, to)));
            assert(t.covered(f, e, a, t.at(a).len()));
        },
    }
    assert(reached(o, f, path, to));
    match link.target {
        HardLinkTarget::Dataset(i) => {
            assert(dataset_read(w, o, i as int));
        },
        HardLinkTarget::Group(h) => {
            assert(group_read(w, o, h as int));
            lemma_group_header(w, o, h as int);
            lemma_group_attributes(w, h as int);
        },
    }
}

/// What is in a group is found under one of the names of the group, also when it has
/// several: there is a path that is listed, and under it all live datasets of the group,
/// its live groups and the links in it.
pub proof fn lemma_contents_found(
    w: Hdf5Writer,
    o: Objects,
    root: u64,
    e: Map<u64, Entry>,
    g: int,
)
    requires
        readable(w, o, root),
        file_of(w, o, root).complete(found(w, o, root), e),
        rooted(w, g),
        forall|a: u64| #[trigger] e.contains_key(a) ==> e[a].depth <= MAX_GROUP_DEPTH,
    ensures
        ({
            let f = found(w, o, root);
            let a = w.groups@[g].obj_header_addr;
            let path = e[a].path;
            &&& e.contains_key(a)
            &&& f.paths.contains(path)
            &&& forall|i: usize|
                w.groups@[g].child_datasets@.contains(i) && !(#[trigger]
                w.datasets@[i as int]).deleted ==> f.datasets.contains(
                    stored_as(
                        w,
                        o,
                        i as int,
                        path_of(path, leaf(w.datasets@[i as int].name@)),
                    ),
                )
            &&& forall|h: int| #[trigger]
                rooted(w, h) && w.groups@[h].parent == Some(g as usize) ==> f.paths.contains(
                    path_of(path, leaf(w.groups@[h].name@)),
                )
            &&& forall|l: int|
                0 <= l < w.hard_links@.len() && emitted(
                    #[trigger] w.hard_links@[l],
                    w.datasets@,
                    w.groups@,
                ) && w.hard_links@[l].parent == Some(g as usize) ==> match w.hard_links@[l].target {
                    HardLinkTarget::Dataset(i) => f.datasets.contains(
                        stored_as(w, o, i as int, path_of(path, w.hard_links@[l].name@)),
                    ),
                    HardLinkTarget::Group(h) => f.paths.contains(
                        path_of(path, w.hard_links@[l].name@),
                    ),
                }
        }),
{
    let t = file_of(w, o, root);
    let f = found(w, o, root);
    let a = w.groups@[g].obj_header_addr;
    let path = e[a].path;
    lemma_group_entered(w, o, root, e, g);
    assert(group_read(w, o, g));
    lemma_group_header(w, o, g);
    let (q, k) = choose|q: u64, k: int| #[trigger] t.entered(e, q, k, a);
    assert(t.covered(f, e, q, t.at(q).len()));
    assert(link_at(t.at(q), k) is Some);
    assert(reached(o, f, path, a));
    assert forall|i: usize|
        w.groups@[g].child_datasets@.contains(i) && !(#[trigger]
        w.datasets@[i as int]).deleted implies f.datasets.contains(
        stored_as(w, o, i as int, path_of(path, leaf(w.datasets@[i as int].name@))),
    ) by {
        lemma_dataset_child(w, o, root, e, g, i);
    }
    assert forall|h: int| #[trigger]
        rooted(w, h) && w.groups@[h].parent == Some(g as usize) implies f.paths.contains(
        path_of(path, leaf(w.groups@[h].name@)),
    ) by {
        lemma_group_entered(w, o, root, e, h);
        assert(group_read(w, o, h));
        lemma_group_header(w, o, h);
    }
    assert forall|l: int|
        0 <= l < w.hard_links@.len() && emitted(
            #[trigger] w.hard_links@[l],
            w.datasets@,
            w.groups@,
        ) && w.hard_links@[l].parent == Some(g as usize) implies match w.hard_links@[l].target {
        HardLinkTarget::Dataset(i) => f.datasets.contains(
            stored_as(w, o, i as int, path_of(path, w.hard_links@[l].name@)),
        ),
        HardLinkTarget::Group(h) => f.paths.contains(path_of(path, w.hard_links@[l].name@)),
    } by {
        lemma_link_under(w, o, root, e, l);
    }
}

/// A live dataset of the root group is found under its name, as it stands in the file.
pub proof fn lemma_root_dataset_found(w: Hdf5Writer, o: Objects, root: u64, i: int)
    requires
        0 <= i < w.datasets@.len() <= usize::MAX,
        !w.datasets@[i].deleted,
        !w.in_subgroup(i as usize),
        dataset_read(w, o, i),
        found(w, o, root).need is None,
    ensures
        found(w, o, root).datasets.contains(stored_as(w, o, i, w.datasets@[i].name@)),
{
    let d = w.datasets@[i];
    let n = w.datasets@.len();
    lemma_root_link(w, i, n);
    let links = w.root_dataset_links(n);
    let x = link_item(d.name@, d.obj_header_addr);
    let k = choose|k: int| 0 <= k < links.len() && links[k] == x;
    assert(w.root_items()[k + 2] == x);
    lemma_linked_dataset(o, as_read(w.root_items()), root, k + 2);
}

/// Whether a dataset has this name in the root group: its own, or that of a hard link.
pub open spec fn rooted_name(w: Hdf5Writer, name: Seq<char>) -> bool {
    ||| exists|j: int|
        0 <= j < w.datasets@.len() && !(#[trigger] w.datasets@[j]).deleted && !w.in_subgroup(
            j as usize,
        ) && w.datasets@[j].name@ == name
    ||| exists|l: int|
        0 <= l < w.hard_links@.len() && (#[trigger] w.hard_links@[l]).parent is None
            && w.hard_links@[l].name@ == name
}

/// Whether those of the links that lead to no group have the name of a dataset of the root
/// group.
pub open spec fn names_rooted(w: Hdf5Writer, o: Objects, v: Seq<ItemView>) -> bool {
    forall|k: int|
        0 <= k < v.len() && ((#[trigger] v[k]).body matches BodyView::Link { name, addr }
            && !group_header(o, addr)) ==> rooted_name(w, v[k].body->Link_name)
}

proof fn lemma_datasets_rooted(w: Hdf5Writer, o: Objects, n: nat)
    requires
        n <= w.datasets@.len(),
    ensures
        names_rooted(w, o, w.root_dataset_links(n)),
    decreases n,
{
    if n > 0 {
        lemma_datasets_rooted(w, o, (n - 1) as nat);
        assert(w.datasets@[n - 1].name@ == w.datasets@[n - 1].name@);
    }
}

proof fn lemma_groups_rooted(w: Hdf5Writer, o: Objects, n: nat)
    requires
        n <= w.groups@.len(),
        all_read(w, o),
    ensures
        names_rooted(w, o, w.root_group_links(n)),
    decreases n,
{
    if n > 0 {
        lemma_groups_rooted(w, o, (n - 1) as nat);
        if !w.groups@[n - 1].deleted {
            assert(group_read(w, o, n - 1));
            lemma_group_header(w, o, n - 1);
        }
    }
}

proof fn lemma_links_rooted(w: Hdf5Writer, o: Objects, n: nat)
    requires
        n <= w.hard_links@.len(),
    ensures
        names_rooted(w, o, w.hard_link_items(None, n)),
    decreases n,
{
    if n > 0 {
        lemma_links_rooted(w, o, (n - 1) as nat);
        assert(w.hard_links@[n - 1].name@ == w.hard_links@[n - 1].name@);
    }
}

proof fn lemma_root_item(w: Hdf5Writer, o: Objects, k: int)
    requires
        all_read(w, o),
        0 <= k < w.root_items().len(),
        w.root_items()[k].body is Link,
        !group_header(o, w.root_items()[k].body->Link_addr),
    ensures
        rooted_name(w, w.root_items()[k].body->Link_name),
{
    let v = w.root_items();
    lemma_datasets_rooted(w, o, w.datasets@.len());
    lemma_groups_rooted(w, o, w.groups@.len());
    lemma_links_rooted(w, o, w.hard_links@.len());
    let a = w.root_dataset_links(w.datasets@.len());
    let b = w.root_group_links(w.groups@.len());
    let c = w.hard_link_items(None, w.hard_links@.len());
    if 2 <= k < 2 + a.len() {
        assert(v[k] == a[k - 2]);
    } else if 2 + a.len() <= k < 2 + a.len() + b.len() {
        assert(v[k] == b[k - 2 - a.len()]);
    } else if 2 + a.len() + b.len() <= k < 2 + a.len() + b.len() + c.len() {
        assert(v[k] == c[k - 2 - a.len() - b.len()]);
    } else {
        assert(false);
    }
}

/// A name without a slash that no dataset of the root group has, neither as its own nor by
/// a link, is not among the datasets that are found.
pub proof fn lemma_not_at_root(w: Hdf5Writer, o: Objects, root: u64, name: Seq<char>)
    requires
        readable(w, o, root),
        filed(w),
        !rooted_name(w, name),
        name.len() > 0,
        !name.contains('/'),
        forall|l: int|
            0 <= l < w.hard_links@.len() ==> (#[trigger] w.hard_links@[l]).name@.len() > 0,
    ensures
        forall|i: int|
            0 <= i < found(w, o, root).datasets.len() ==> (#[trigger] found(
                w,
                o,
                root,
            ).datasets[i]).name != name,
{
    let t = file_of(w, o, root);
    let f = found(w, o, root);
    lemma_walk_complete(t);
    let e = choose|e: Map<u64, Entry>| t.complete(f, e);
    assert forall|i: int| 0 <= i < f.datasets.len() implies (#[trigger] f.datasets[i]).name
        != name by {
        let d = f.datasets[i];
        assert(t.named(e, d));
        let (q, k, a) = choose|q: u64, k: int, a: u64|
            {
                &&& e.contains_key(q)
                &&& #[trigger] t.link(q, k, a)
                &&& o.nodes@.contains_key(a)
                &&& o.nodes@[a] is Some
                &&& dataset_of(messages_at(o, a), path_of(e[q].path, link_name(t.at(q), k)))
                    == Some(d)
            };
        assert(d.name == path_of(e[q].path, link_name(t.at(q), k)));
        assert(dataset_of(messages_at(o, a), Seq::empty()) is Some);
        assert(!group_header(o, a));
        if d.name == name {
            if q == root {
                let v = w.root_items();
                assert(v[k].body is Link);
                lemma_root_item(w, o, k);
                assert(rooted_name(w, v[k].body->Link_name));
            } else {
                lemma_entry_named(w, o, root, e, q);
                let p = e[q].path;
                reveal_strlit("/");
                assert(name[p.len() as int] == '/');
            }
        }
    }
}

/// Every group but the root group is entered under a path that is not empty.
proof fn lemma_entry_named(w: Hdf5Writer, o: Objects, root: u64, e: Map<u64, Entry>, q: u64)
    requires
        readable(w, o, root),
        filed(w),
        file_of(w, o, root).complete(found(w, o, root), e),
        e.contains_key(q),
        q != root,
        forall|l: int|
            0 <= l < w.hard_links@.len() ==> (#[trigger] w.hard_links@[l]).name@.len() > 0,
    ensures
        e[q].path.len() > 0,
{
    let t = file_of(w, o, root);
    let (r, j) = choose|r: u64, j: int| #[trigger] t.entered(e, r, j, q);
    let name = link_name(t.at(r), j);
    let (at, h) = lemma_link_names(w, o, root, e, r, j, q);
    assert(titled(w, h));
    if !is_child(w, at, h, name, q) {
        let l = choose|l: int| #[trigger] is_linked(w, at, h, name, l);
        assert(w.hard_links@[l].name@ == name);
    }
}

/// Whether everything that links lead to has been read.
pub open spec fn ends_read(o: Objects, v: Seq<ItemView>) -> bool {
    forall|k: int|
        0 <= k < v.len() ==> ((#[trigger] v[k]).body matches BodyView::Link { name, addr }
            ==> o.nodes@.contains_key(addr))
}

proof fn lemma_children_read(
    w: Hdf5Writer,
    o: Objects,
    datasets: Seq<usize>,
    groups: Seq<usize>,
    a: nat,
    b: nat,
)
    requires
        all_read(w, o),
        a <= datasets.len(),
        b <= groups.len(),
        forall|k: int| 0 <= k < datasets.len() ==> #[trigger] datasets[k] < w.datasets@.len(),
        forall|k: int| 0 <= k < groups.len() ==> #[trigger] groups[k] < w.groups@.len(),
    ensures
        ends_read(o, w.dataset_links(datasets, a)),
        ends_read(o, w.group_links(groups, b)),
    decreases a + b,
{
    if a > 0 {
        lemma_children_read(w, o, datasets, groups, (a - 1) as nat, b);
        let i = datasets[a - 1] as int;
        if !w.datasets@[i].deleted {
            assert(dataset_read(w, o, i));
        }
    }
    if b > 0 {
        lemma_children_read(w, o, datasets, groups, a, (b - 1) as nat);
        let g = groups[b - 1] as int;
        if !w.groups@[g].deleted {
            assert(group_read(w, o, g));
        }
    }
}

proof fn lemma_links_read(w: Hdf5Writer, o: Objects, parent: Option<usize>, n: nat)
    requires
        w.wf(),
        all_read(w, o),
        n <= w.hard_links@.len(),
    ensures
        ends_read(o, w.hard_link_items(parent, n)),
    decreases n,
{
    if n > 0 {
        lemma_links_read(w, o, parent, (n - 1) as nat);
        let l = w.hard_links@[n - 1];
        assert(link_placed(l, w.groups@.len(), w.datasets@.len()));
        if emitted(l, w.datasets@, w.groups@) {
            match l.target {
                HardLinkTarget::Dataset(i) => {
                    assert(dataset_read(w, o, i as int));
                },
                HardLinkTarget::Group(g) => {
                    assert(group_read(w, o, g as int));
                },
            }
        }
    }
}

proof fn lemma_root_read(w: Hdf5Writer, o: Objects, a: nat, b: nat)
    requires
        all_read(w, o),
        a <= w.datasets@.len(),
        b <= w.groups@.len(),
    ensures
        ends_read(o, w.root_dataset_links(a)),
        ends_read(o, w.root_group_links(b)),
    decreases a + b,
{
    if a > 0 {
        lemma_root_read(w, o, (a - 1) as nat, b);
        if !w.datasets@[a - 1].deleted {
            assert(dataset_read(w, o, a - 1));
        }
    }
    if b > 0 {
        lemma_root_read(w, o, a, (b - 1) as nat);
        if !w.groups@[b - 1].deleted {
            assert(group_read(w, o, b - 1));
        }
    }
}

proof fn lemma_ends_joined(o: Objects, a: Seq<ItemView>, b: Seq<ItemView>)
    requires
        ends_read(o, a),
        ends_read(o, b),
    ensures
        ends_read(o, a + b),
{
    let v = a + b;
    assert forall|k: int| 0 <= k < v.len() implies ((
    #[trigger] v[k]).body matches BodyView::Link { name, addr } ==> o.nodes@.contains_key(
        addr,
    )) by {
        if k < a.len() {
            assert(v[k] == a[k]);
        } else {
            assert(v[k] == b[k - a.len()]);
        }
    }
}

#[verifier::rlimit(40)]
proof fn lemma_root_ends(w: Hdf5Writer, o: Objects)
    requires
        w.wf(),
        all_read(w, o),
    ensures
        ends_read(o, w.root_items()),
{
    let first = w.root_items().take(2);
    assert(ends_read(o, first));
    let n = w.hard_links@.len();
    let a = w.root_dataset_links(w.datasets@.len());
    let b = w.root_group_links(w.groups@.len());
    let c = w.hard_link_items(None, n);
    let d = attribute_items(w.root_attributes@);
    lemma_root_read(w, o, w.datasets@.len(), w.groups@.len());
    lemma_links_read(w, o, None, n);
    lemma_ends_joined(o, first, a);
    lemma_ends_joined(o, first + a, b);
    lemma_ends_joined(o, first + a + b, c);
    lemma_ends_joined(o, first + a + b + c, d);
    assert(w.root_items() =~= first + a + b + c + d);
}

#[verifier::rlimit(40)]
proof fn lemma_group_ends(w: Hdf5Writer, o: Objects, g: int)
    requires
        w.wf(),
        all_read(w, o),
        0 <= g < w.groups@.len(),
    ensures
        ends_read(o, w.group_items(g)),
{
    let first = w.group_items(g).take(2);
    assert(ends_read(o, first));
    let n = w.hard_links@.len();
    let grp = w.groups@[g];
    assert(group_placed(grp, g, w.groups@.len(), w.datasets@.len()));
    let ds = grp.child_datasets@;
    let gs = grp.child_groups@;
    let a = w.dataset_links(ds, ds.len());
    let b = w.group_links(gs, gs.len());
    let c = w.hard_link_items(Some(g as usize), n);
    let d = attribute_items(grp.attributes@);
    let r = refcount_items(w.link_count(HardLinkTarget::Group(g as usize)));
    lemma_children_read(w, o, ds, gs, ds.len(), gs.len());
    lemma_links_read(w, o, Some(g as usize), n);
    lemma_ends_joined(o, first, a);
    lemma_ends_joined(o, first + a, b);
    lemma_ends_joined(o, first + a + b, c);
    lemma_ends_joined(o, first + a + b + c, d);
    lemma_ends_joined(o, first + a + b + c + d, r);
    assert(w.group_items(g) =~= first + a + b + c + d + r);
}

/// Once the headers of all live datasets and groups have been read, nothing more has to be
/// read to find what is in the file.
pub proof fn lemma_nothing_needed(w: Hdf5Writer, o: Objects, root: u64)
    requires
        w.wf(),
        w.groups@.len() <= usize::MAX,
        filed(w),
        all_read(w, o),
    ensures
        found(w, o, root).need is None,
{
    let known = Set::new(
        |a: u64|
            exists|g: int|
                0 <= g < w.groups@.len() && !(#[trigger] w.groups@[g]).deleted
                    && w.groups@[g].obj_header_addr == a,
    );
    lemma_root_ends(w, o);
    lemma_root_home(w, o);
    lemma_within(w, o, known, None, w.root_items());
    assert forall|a: u64| #[trigger] known.contains(a) && group_header(o, a) implies leads_within(
        o,
        known,
        messages_at(o, a),
    ) by {
        let g = choose|g: int|
            0 <= g < w.groups@.len() && !(#[trigger] w.groups@[g]).deleted
                && w.groups@[g].obj_header_addr == a;
        assert(group_read(w, o, g));
        lemma_group_ends(w, o, g);
        lemma_group_home(w, o, g);
        lemma_within(w, o, known, Some(g as usize), w.group_items(g));
    }
    let m = as_read(w.root_items());
    lemma_walk_needs_nothing(
        o,
        known,
        m,
        Seq::empty(),
        0,
        m.len(),
        nothing(root),
    );
}

proof fn lemma_within(
    w: Hdf5Writer,
    o: Objects,
    known: Set<u64>,
    parent: Option<usize>,
    v: Seq<ItemView>,
)
    requires
        ends_read(o, v),
        leads_home(w, o, parent, v),
        known == Set::new(
            |a: u64|
                exists|g: int|
                    0 <= g < w.groups@.len() && !(#[trigger] w.groups@[g]).deleted
                        && w.groups@[g].obj_header_addr == a,
        ),
    ensures
        leads_within(o, known, as_read(v)),
{
    let m = as_read(v);
    assert forall|k: int| 0 <= k < m.len() && (#[trigger] link_at(m, k)) is Some implies {
        &&& o.nodes@.contains_key(link_addr(m, k))
        &&& group_header(o, link_addr(m, k)) ==> known.contains(
            link_addr(m, k),
        )
    } by {
        assert(v[k].body is Link);
        let addr = v[k].body->Link_addr;
        assert(link_addr(m, k) == addr);
        if group_header(o, addr) {
            let h = choose|h: int| #[trigger]
                names_group(w, parent, h, v[k].body->Link_name, v[k].body->Link_addr);
            assert(!w.groups@[h].deleted && w.groups@[h].obj_header_addr == addr);
        }
    }
}

} // verus!
