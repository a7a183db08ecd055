//! What a reader finds of a file, from the calls that wrote it.

use crate::io::allocator::{align8, lemma_aligned};
use crate::io::names::{child_path, leaf, trimmed, trimmed_start};
use crate::io::reader::messages::ReadView;
use crate::io::reader::walk::{path_of, Objects, MAX_GROUP_DEPTH};
use crate::io::reader::written::{
    all_read, apart, dataset_read, filed, found, lemma_group_path_found,
    lemma_grouped_dataset_found, lemma_link_found, lemma_not_at_root, lemma_nothing_needed,
    lemma_root_dataset_found, level, readable, rooted, rooted_name, stored_as, unlinked,
};
use crate::io::search::lemma_position_is;
use crate::io::writer::catalog::{emitted, link_path, live_dataset_at, live_group};
use crate::io::writer::edits::{groups_deleted, unlisted, within};
use crate::io::writer::state::{link_placed, DatasetInfo, HardLinkTarget, Hdf5Writer};
use crate::io::writer::storage::same_others;
use crate::io::IoResult;
use crate::swmr::groups::{
    header_placed, lemma_created_group, lemma_deleted_group, lemma_groups_apart,
    lemma_name_shape, lemma_placed_groups, named_apart, same_groups, same_tree,
};
use crate::swmr::{dataset_listed, group_made, link_made};
use vstd::prelude::*;

verus! {

/// Whether the groups of a file are in order: they are named after their parents and listed
/// in them, no two live groups have the same name, every live group hangs on the root
/// group, and links have names. A new file is so, and every change keeps it so.
pub open spec fn orderly(w: Hdf5Writer) -> bool {
    &&& w.wf()
    &&& filed(w)
    &&& named_apart(w)
    &&& forall|g: int|
        0 <= g < w.groups@.len() && !(#[trigger] w.groups@[g]).deleted ==> rooted(w, g)
    &&& links_named(w)
}

/// Whether no hard link has an empty name.
pub open spec fn links_named(w: Hdf5Writer) -> bool {
    forall|l: int| 0 <= l < w.hard_links@.len() ==> (#[trigger] w.hard_links@[l]).name@.len() > 0
}

/// Vectors are no longer than the largest number.
proof fn lemma_lengths(w: Hdf5Writer)
    ensures
        w.groups@.len() <= usize::MAX,
        w.datasets@.len() <= usize::MAX,
        w.hard_links@.len() <= usize::MAX,
{
    assert(w.groups.len() == w.groups@.len());
    assert(w.datasets.len() == w.datasets@.len());
    assert(w.hard_links.len() == w.hard_links@.len());
}

/// A file without groups and links is in order.
pub proof fn lemma_orderly_new(w: Hdf5Writer)
    requires
        w.wf(),
        w.groups@.len() == 0,
        w.hard_links@.len() == 0,
    ensures
        orderly(w),
{
}

/// What leaves the tree of groups alone keeps it in order: new datasets and links, what is
/// put into a group, attributes, places of headers.
pub proof fn lemma_orderly_kept(a: Hdf5Writer, b: Hdf5Writer)
    requires
        orderly(a),
        b.wf(),
        same_tree(a, b),
        links_named(b),
    ensures
        orderly(b),
        forall|g: int| rooted(a, g) ==> level(b, g) == #[trigger] level(a, g),
{
    lemma_placed_groups(a, b, 0);
    assert forall|g: int| 0 <= g < b.groups@.len() && !(#[trigger] b.groups@[g]).deleted implies
        rooted(b, g) by {
        assert(!a.groups@[g].deleted);
        lemma_placed_groups(a, b, g);
    }
    assert forall|g: int| rooted(a, g) implies level(b, g) == #[trigger] level(a, g) by {
        lemma_placed_groups(a, b, g);
    }
}

/// A new group keeps the groups in order, and is live and at its path; a second one of the
/// same name is refused.
pub proof fn lemma_orderly_created(
    a: Hdf5Writer,
    b: Hdf5Writer,
    parent_path: Seq<char>,
    name: Seq<char>,
)
    requires
        orderly(a),
        b.wf(),
        group_made(a, b, parent_path, name),
        name.len() > 0,
        !name.contains('/'),
    ensures
        orderly(b),
        rooted(b, a.groups@.len() as int),
        b.groups@[a.groups@.len() as int].name@ == child_path(parent_path, name),
        b.group_error(parent_path, name) is Some,
{
    lemma_lengths(b);
    let i = a.groups@.len() as int;
    let parent = if parent_path == seq!['/'] {
        None
    } else {
        a.group_index(parent_path)
    };
    lemma_position_is(a.groups@.len(), live_group(a.groups@, parent_path));
    if parent_path != seq!['/'] {
        let p = a.group_index(parent_path)->0;
        assert(live_group(a.groups@, parent_path)(p));
        assert(!a.groups@[p].deleted);
    }
    lemma_created_group(a, b, parent_path, name);
    assert forall|g: int| 0 <= g < b.groups@.len() && !(#[trigger] b.groups@[g]).deleted implies
        rooted(b, g) by {
        if g < i {
            assert(b.groups@[g].deleted == a.groups@[g].deleted) by {
                if parent == Some(g) {
                }
            }
            assert(rooted(a, g));
        }
    }
    let f = live_group(b.groups@, child_path(parent_path, name));
    assert(f(i));
    lemma_position_is(b.groups@.len(), f);
}

/// Deleting a group keeps the groups in order.
pub proof fn lemma_orderly_deleted(a: Hdf5Writer, b: Hdf5Writer, g: int)
    requires
        orderly(a),
        b.wf(),
        0 <= g < a.groups@.len(),
        !a.groups@[g].deleted,
        unlisted(groups_deleted(a.groups@, g), b.groups@, g),
        b.hard_links == a.hard_links,
    ensures
        orderly(b),
{
    lemma_lengths(a);
    assert(rooted(a, g));
    lemma_deleted_group(a, b, g);
    let gs = groups_deleted(a.groups@, g);
    assert forall|x: int| 0 <= x < a.groups@.len() implies (#[trigger] b.groups@[x]).name
        == a.groups@[x].name && b.groups@[x].deleted == gs[x].deleted by {
        if gs[g].parent == Some(x as usize) {
        }
    }
    assert forall|x: int| 0 <= x < b.groups@.len() && !(#[trigger] b.groups@[x]).deleted implies
        rooted(b, x) by {
        assert(!a.groups@[x].deleted && !within(a.groups@, g, x));
        assert(rooted(a, x));
    }
}

/// The places that headers get when a file is finished: the writer before the header of each
/// dataset and behind the last one, before the place of each group and behind the last one,
/// the sizes of the group headers, the writer at the end and the place of the root group.
pub struct Run {
    pub datasets: Seq<Hdf5Writer>,
    pub groups: Seq<Hdf5Writer>,
    pub sizes: Seq<int>,
    pub last: Hdf5Writer,
    pub root: u64,
}

/// Whether two datasets are the same but for the places of their header and of the leaf of
/// their index.
pub open spec fn same_dataset(d: DatasetInfo, e: DatasetInfo) -> bool {
    &&& e == (DatasetInfo {
        obj_header_addr: e.obj_header_addr,
        obj_header_written_addr: e.obj_header_written_addr,
        obj_header_encoded_size: e.obj_header_encoded_size,
        header_changed: e.header_changed,
        btree_v2: e.btree_v2,
        ..d
    })
}

/// Whether two files hold the same, but for places.
pub open spec fn same_content(a: Hdf5Writer, b: Hdf5Writer) -> bool {
    &&& b.hard_links == a.hard_links
    &&& b.root_attributes == a.root_attributes
    &&& same_groups(a, b)
    &&& b.datasets@.len() == a.datasets@.len()
    &&& forall|i: int|
        0 <= i < a.datasets@.len() ==> same_dataset(a.datasets@[i], #[trigger] b.datasets@[i])
}

/// Whether the indexes have been written: nothing but the leaves of indexes has got a place.
pub open spec fn indexes_done(a: Hdf5Writer, b: Hdf5Writer) -> bool {
    &&& same_content(a, b)
    &&& b.groups == a.groups
    &&& a.allocator.spec_eof() <= b.allocator.spec_eof()
    &&& forall|i: int|
        0 <= i < a.datasets@.len() ==> (#[trigger] b.datasets@[i]) == (DatasetInfo {
            btree_v2: b.datasets@[i].btree_v2,
            ..a.datasets@[i]
        })
}

/// Whether the header of dataset `i` has been kept where it stands, or has got a place at
/// the end of the file.
pub open spec fn header_done(a: Hdf5Writer, b: Hdf5Writer, i: int) -> bool {
    let d = a.datasets@[i];
    let e = b.datasets@[i];
    &&& same_others(a, b, i)
    &&& same_dataset(d, e)
    &&& ({
        ||| {
            &&& d.obj_header_written_addr == Some(e.obj_header_addr)
            &&& b.allocator == a.allocator
        }
        ||| {
            &&& e.obj_header_addr == align8(a.allocator.spec_eof() as int)
            &&& e.obj_header_addr < b.allocator.spec_eof()
        }
    })
}

/// Whether a file has been finished in the order of the steps: indexes, dataset headers,
/// places of group headers, the header of the root group.
pub open spec fn finished(w: Hdf5Writer, run: Run) -> bool {
    let nd = w.datasets@.len() as int;
    let ng = w.groups@.len() as int;
    &&& run.datasets.len() == nd + 1
    &&& indexes_done(w, run.datasets[0])
    &&& forall|i: int|
        0 <= i < nd ==> #[trigger] header_done(run.datasets[i], run.datasets[i + 1], i)
    &&& run.groups.len() == ng + 1
    &&& run.sizes.len() == ng
    &&& run.groups[0] == run.datasets[nd]
    &&& forall|g: int|
        0 <= g < ng ==> #[trigger] run.sizes[g] > 0 && header_placed(
            run.groups[g],
            run.groups[g + 1],
            g,
            run.sizes[g],
        )
    &&& run.root == align8(run.groups[ng].allocator.spec_eof() as int)
    &&& run.last.groups == run.groups[ng].groups
    &&& run.last.datasets == run.groups[ng].datasets
    &&& run.last.hard_links == run.groups[ng].hard_links
    &&& run.last.root_attributes == run.groups[ng].root_attributes
    &&& run.last.wf()
}

/// Whether the headers that stand in the file lie in it, each at a place of its own.
pub open spec fn written_apart(w: Hdf5Writer) -> bool {
    &&& forall|i: int|
        0 <= i < w.datasets@.len() ==> ((
        #[trigger] w.datasets@[i]).obj_header_written_addr matches Some(a) ==> a
            < w.allocator.spec_eof())
    &&& forall|i: int, j: int|
        0 <= i < j < w.datasets@.len() && (
        #[trigger] w.datasets@[i]).obj_header_written_addr is Some
            ==> w.datasets@[i].obj_header_written_addr != (
        #[trigger] w.datasets@[j]).obj_header_written_addr
}

/// Whether dataset headers have places of their own.
pub open spec fn headers_apart(w: Hdf5Writer) -> bool {
    forall|i: int, j: int|
        0 <= i < j < w.datasets@.len() ==> (#[trigger] w.datasets@[i]).obj_header_addr != (
        #[trigger] w.datasets@[j]).obj_header_addr
}

/// Whether the file of a run has been read: what stands at the places of headers is what
/// was written there.
pub open spec fn seen(run: Run, o: Objects) -> bool {
    all_read(run.last, o)
}

/// The first `k` headers in a run: each is either where it stood before, or behind all that
/// was in the file before.
pub open spec fn places_upto(w: Hdf5Writer, s: Hdf5Writer, k: int) -> bool {
    &&& w.allocator.spec_eof() <= s.allocator.spec_eof()
    &&& forall|i: int|
        0 <= i < k ==> {
            let a = (#[trigger] s.datasets@[i]).obj_header_addr;
            ||| w.datasets@[i].obj_header_written_addr == Some(a)
            ||| w.allocator.spec_eof() <= a < s.allocator.spec_eof()
        }
    &&& forall|i: int, j: int|
        0 <= i < j < k ==> (#[trigger] s.datasets@[i]).obj_header_addr != (
        #[trigger] s.datasets@[j]).obj_header_addr
    &&& forall|i: int|
        k <= i < w.datasets@.len() ==> (#[trigger] s.datasets@[i]).obj_header_written_addr
            == w.datasets@[i].obj_header_written_addr
}

proof fn lemma_headers_done(w: Hdf5Writer, run: Run, k: int)
    requires
        finished(w, run),
        0 <= k <= w.datasets@.len(),
    ensures
        same_content(w, run.datasets[k]),
        run.datasets[k].groups == w.groups,
        written_apart(w) ==> places_upto(w, run.datasets[k], k),
    decreases k,
{
    if k > 0 {
        lemma_headers_done(w, run, k - 1);
        let a = run.datasets[k - 1];
        let b = run.datasets[k];
        assert(header_done(a, run.datasets[k - 1 + 1], k - 1));
        assert forall|i: int| 0 <= i < w.datasets@.len() implies same_dataset(
            w.datasets@[i],
            #[trigger] b.datasets@[i],
        ) by {
            assert(same_dataset(w.datasets@[i], a.datasets@[i]));
            if i != k - 1 {
                assert(b.datasets@[i] == a.datasets@[i]);
            }
        }
        if written_apart(w) {
            lemma_aligned(a.allocator.spec_eof() as int);
            let e = b.datasets@[k - 1].obj_header_addr;
            assert(a.datasets@[k - 1].obj_header_written_addr
                == w.datasets@[k - 1].obj_header_written_addr);
            assert(b.allocator.spec_eof() >= a.allocator.spec_eof());
            assert forall|i: int| 0 <= i < k implies ({
                let x = (#[trigger] b.datasets@[i]).obj_header_addr;
                ||| w.datasets@[i].obj_header_written_addr == Some(x)
                ||| w.allocator.spec_eof() <= x < b.allocator.spec_eof()
            }) by {
                if i < k - 1 {
                    assert(b.datasets@[i] == a.datasets@[i]);
                }
            }
            assert forall|i: int, j: int| 0 <= i < j < k implies (
            #[trigger] b.datasets@[i]).obj_header_addr != (
            #[trigger] b.datasets@[j]).obj_header_addr by {
                assert(b.datasets@[i] == a.datasets@[i]);
                if j < k - 1 {
                    assert(b.datasets@[j] == a.datasets@[j]);
                } else {
                    let x = w.datasets@[i].obj_header_written_addr;
                    let y = w.datasets@[j].obj_header_written_addr;
                    assert(x is Some ==> x != y);
                    assert(x matches Some(v) ==> v < w.allocator.spec_eof());
                    assert(y matches Some(v) ==> v < w.allocator.spec_eof());
                }
            }
            assert forall|i: int| k <= i < w.datasets@.len() implies (
            #[trigger] b.datasets@[i]).obj_header_written_addr
                == w.datasets@[i].obj_header_written_addr by {
                assert(b.datasets@[i] == a.datasets@[i]);
            }
        }
    } else {
        let s = run.datasets[0];
        assert(indexes_done(w, s));
        if written_apart(w) {
            assert forall|i: int| 0 <= i < w.datasets@.len() implies (
            #[trigger] s.datasets@[i]).obj_header_written_addr
                == w.datasets@[i].obj_header_written_addr by {}
        }
    }
}

/// A finished file holds what was in it before, each group has a header of its own, and so
/// has each dataset; the groups are in order. Once it has been read, it is readable.
pub proof fn lemma_finished(w: Hdf5Writer, run: Run)
    requires
        orderly(w),
        finished(w, run),
    ensures
        same_content(w, run.last),
        orderly(run.last),
        apart(run.last, run.root),
        written_apart(w) ==> headers_apart(run.last),
        forall|g: int| rooted(w, g) ==> level(run.last, g) == #[trigger] level(w, g),
        forall|o: Objects| #[trigger] seen(run, o) ==> readable(run.last, o, run.root),
{
    let nd = w.datasets@.len() as int;
    lemma_headers_done(w, run, nd);
    lemma_groups_apart(run.groups, run.sizes, run.last, run.root);
    lemma_lengths(run.last);
    assert(same_content(w, run.last));
    lemma_orderly_kept(w, run.last);
    assert forall|o: Objects| #[trigger] seen(run, o) implies readable(
        run.last,
        o,
        run.root,
    ) by {
        lemma_nothing_needed(run.last, o, run.root);
    }
}

/// Second names are what they were: places do not count.
proof fn lemma_unlinked_kept(a: Hdf5Writer, b: Hdf5Writer, g: int)
    requires
        same_content(a, b),
        a.wf(),
        0 <= g < a.groups@.len(),
        unlinked(a, g),
    ensures
        unlinked(b, g),
    decreases g,
{
    assert forall|l: int|
        0 <= l < b.hard_links@.len() && emitted(
            #[trigger] b.hard_links@[l],
            b.datasets@,
            b.groups@,
        ) implies b.hard_links@[l].target
        != HardLinkTarget::Group(g as usize) by {
        lemma_emitted_kept(a, b, l);
    }
    match a.groups@[g].parent {
        Some(p) => if 0 <= p < g {
            lemma_unlinked_kept(a, b, p as int);
        },
        None => {},
    }
}

proof fn lemma_emitted_kept(a: Hdf5Writer, b: Hdf5Writer, l: int)
    requires
        same_content(a, b),
        a.wf(),
        0 <= l < a.hard_links@.len(),
    ensures
        emitted(a.hard_links@[l], a.datasets@, a.groups@)
            == emitted(b.hard_links@[l], b.datasets@, b.groups@),
{
    let x = a.hard_links@[l];
    assert(link_placed(x, a.groups@.len(), a.datasets@.len()));
    match x.target {
        HardLinkTarget::Dataset(i) => {
            assert(same_dataset(a.datasets@[i as int], b.datasets@[i as int]));
        },
        HardLinkTarget::Group(i) => {
            assert(b.groups@[i as int].deleted == a.groups@[i as int].deleted);
        },
    }
    match x.parent {
        Some(p) => {
            assert(b.groups@[p as int].deleted == a.groups@[p as int].deleted);
        },
        None => {},
    }
}

/// Every live group of a file is found under its path when the file has been closed and is
/// read again, empty or not. Groups below one with a second name are left out, and those
/// that lie deeper than a reader follows groups.
pub proof fn lemma_live_group_found(w: Hdf5Writer, run: Run, o: Objects, g: int)
    requires
        orderly(w),
        finished(w, run),
        seen(run, o),
        0 <= g < w.groups@.len(),
        !w.groups@[g].deleted,
        w.groups@[g].parent matches Some(p) ==> unlinked(w, p as int),
        level(w, g) <= MAX_GROUP_DEPTH + 1,
    ensures
        found(run.last, o, run.root).paths.contains(trimmed_start(w.groups@[g].name@)),
{
    lemma_finished(w, run);
    assert(rooted(w, g));
    assert(level(run.last, g) == level(w, g));
    assert(!run.last.groups@[g].deleted);
    match w.groups@[g].parent {
        Some(p) => {
            lemma_unlinked_kept(w, run.last, p as int);
        },
        None => {},
    }
    lemma_group_path_found(run.last, o, run.root, g);
}

/// A group that is created is found again: `create_group` in a group at `parent_path` gives
/// a group with the path of both names, a second one of that name is refused, and once the
/// file has been closed the group is found at its path, though it is empty.
pub proof fn lemma_created_group_found(
    a: Hdf5Writer,
    b: Hdf5Writer,
    parent_path: Seq<char>,
    name: Seq<char>,
    run: Run,
    o: Objects,
)
    requires
        orderly(a),
        b.wf(),
        group_made(a, b, parent_path, name),
        name.len() > 0,
        !name.contains('/'),
        finished(b, run),
        seen(run, o),
        parent_path != seq!['/'] ==> unlinked(b, a.group_index(parent_path)->0),
        level(b, a.groups@.len() as int) <= MAX_GROUP_DEPTH + 1,
    ensures
        orderly(b),
        b.group_error(parent_path, name) is Some,
        found(run.last, o, run.root).paths.contains(
            trimmed_start(child_path(parent_path, name)),
        ),
{
    lemma_orderly_created(a, b, parent_path, name);
    lemma_position_is(a.groups@.len(), live_group(a.groups@, parent_path));
    lemma_live_group_found(b, run, o, a.groups@.len() as int);
}

/// Under which paths a dataset is in the file by its own name: in the root group, or in each
/// group that it is listed in. Groups with a second name, those below one and those that lie
/// too deep are left out.
pub open spec fn at_home(w: Hdf5Writer, i: int, path: Seq<char>) -> bool {
    let d = w.datasets@[i];
    ||| !w.in_subgroup(i as usize) && path == d.name@
    ||| exists|g: int|
        {
            &&& 0 <= g < w.groups@.len()
            &&& !(#[trigger] w.groups@[g]).deleted
            &&& w.groups@[g].child_datasets@.contains(i as usize)
            &&& unlinked(w, g)
            &&& level(w, g) <= MAX_GROUP_DEPTH
            &&& path == path_of(trimmed_start(w.groups@[g].name@), leaf(d.name@))
        }
}

/// Every live dataset of a file is found under its paths when the file has been closed and
/// is read again, as it stands in the file.
pub proof fn lemma_live_dataset_found(
    w: Hdf5Writer,
    run: Run,
    o: Objects,
    i: int,
    path: Seq<char>,
)
    requires
        orderly(w),
        finished(w, run),
        seen(run, o),
        0 <= i < w.datasets@.len(),
        !w.datasets@[i].deleted,
        at_home(w, i, path),
    ensures
        found(run.last, o, run.root).datasets.contains(stored_as(run.last, o, i, path)),
{
    let z = run.last;
    lemma_finished(w, run);
    lemma_lengths(z);
    assert(same_dataset(w.datasets@[i], z.datasets@[i]));
    if !w.in_subgroup(i as usize) && path == w.datasets@[i].name@ {
        lemma_subgroup_kept(w, z, i as usize);
        lemma_root_dataset_found(z, o, run.root, i);
    } else {
        let g = choose|g: int|
            {
                &&& 0 <= g < w.groups@.len()
                &&& !(#[trigger] w.groups@[g]).deleted
                &&& w.groups@[g].child_datasets@.contains(i as usize)
                &&& unlinked(w, g)
                &&& level(w, g) <= MAX_GROUP_DEPTH
                &&& path == path_of(
                    trimmed_start(w.groups@[g].name@),
                    leaf(w.datasets@[i].name@),
                )
            };
        assert(rooted(w, g));
        assert(level(z, g) == level(w, g));
        assert(!z.groups@[g].deleted);
        lemma_unlinked_kept(w, z, g);
        lemma_grouped_dataset_found(z, o, run.root, g, i as usize);
    }
}

proof fn lemma_subgroup_kept(a: Hdf5Writer, b: Hdf5Writer, i: usize)
    requires
        same_content(a, b),
    ensures
        a.in_subgroup(i) == b.in_subgroup(i),
{
    if a.in_subgroup(i) {
        let g = choose|g: int|
            0 <= g < a.groups@.len() && !(#[trigger] a.groups@[g]).deleted
                && a.groups@[g].child_datasets@.contains(i);
        assert(!b.groups@[g].deleted && b.groups@[g].child_datasets@.contains(i));
    }
    if b.in_subgroup(i) {
        let g = choose|g: int|
            0 <= g < b.groups@.len() && !(#[trigger] b.groups@[g]).deleted
                && b.groups@[g].child_datasets@.contains(i);
        assert(!a.groups@[g].deleted && a.groups@[g].child_datasets@.contains(i));
    }
}

/// A hard link to a dataset is found again: once the file has been closed, the dataset is
/// listed under the path of the link and still under its own, with the same type, shape,
/// layout (so the same bytes), filters, attributes and fill value. Links in a group that has
/// a second name, and in groups below one, are left out.
pub proof fn lemma_linked_dataset_found(
    a: Hdf5Writer,
    b: Hdf5Writer,
    parent: Seq<char>,
    name: Seq<char>,
    target: Seq<char>,
    i: usize,
    run: Run,
    o: Objects,
)
    requires
        orderly(a),
        b.wf(),
        link_made(a, b, parent, name, target),
        a.target_at(trimmed(target)) == Some(HardLinkTarget::Dataset(i)),
        finished(b, run),
        seen(run, o),
        parent != seq!['/'] ==> {
            let p = a.group_index(parent)->0;
            unlinked(b, p) && level(b, p) <= MAX_GROUP_DEPTH
        },
    ensures
        orderly(b),
        i < b.datasets@.len(),
        trimmed_start(b.datasets@[i as int].name@) == trimmed(target),
        ({
            let f = found(run.last, o, run.root);
            let there = stored_as(
                run.last,
                o,
                i as int,
                path_of(trimmed_start(parent), name),
            );
            &&& f.datasets.contains(there)
            &&& there.name == path_of(trimmed_start(parent), name)
            &&& forall|path: Seq<char>| #[trigger]
                at_home(b, i as int, path) ==> f.datasets.contains(
                    ReadView { name: path, ..there },
                )
        }),
{
    let n = a.hard_links@.len() as int;
    let z = run.last;
    lemma_lengths(a);
    lemma_position_is(a.datasets@.len(), live_dataset_at(a.datasets@, trimmed(target)));
    let x = a.dataset_at(trimmed(target))->0;
    assert(live_dataset_at(a.datasets@, trimmed(target))(x));
    assert(x == i);
    lemma_position_is(a.groups@.len(), live_group(a.groups@, parent));
    assert forall|l: int| 0 <= l < b.hard_links@.len() implies (
    #[trigger] b.hard_links@[l]).name@.len() > 0 by {
        if l < n {
            assert(b.hard_links@.take(n)[l] == b.hard_links@[l]);
            assert(a.hard_links@[l].name@.len() > 0);
        }
    }
    lemma_orderly_kept(a, b);
    lemma_finished(b, run);
    let link = b.hard_links@[n];
    assert(emitted(link, b.datasets@, b.groups@)) by {
        if parent != seq!['/'] {
            let p = a.group_index(parent)->0;
            assert(live_group(a.groups@, parent)(p));
        }
    }
    lemma_emitted_kept(b, z, n);
    if parent != seq!['/'] {
        let p = a.group_index(parent)->0;
        assert(live_group(a.groups@, parent)(p));
        assert(rooted(b, p));
        assert(level(z, p) == level(b, p));
        assert(!z.groups@[p].deleted);
        lemma_unlinked_kept(b, z, p);
        lemma_name_shape(z, p);
        assert(z.groups@[p].name == a.groups@[p].name);
    } else {
        assert(trimmed_start(parent) =~= Seq::<char>::empty()) by {
            reveal_with_fuel(trimmed_start, 2);
            assert(parent.skip(1) =~= Seq::<char>::empty());
        }
    }
    lemma_link_found(z, o, run.root, n);
    assert(link_path(z.hard_links@[n], z.groups@) == path_of(trimmed_start(parent), name));
    let f = found(z, o, run.root);
    let there = stored_as(z, o, i as int, path_of(trimmed_start(parent), name));
    assert(same_dataset(b.datasets@[i as int], z.datasets@[i as int]));
    assert(dataset_read(z, o, i as int));
    assert forall|path: Seq<char>| #[trigger] at_home(b, i as int, path) implies f.datasets.contains(
        ReadView { name: path, ..there },
    ) by {
        lemma_live_dataset_found(b, run, o, i as int, path);
        assert(stored_as(z, o, i as int, path) == (ReadView {
            name: path,
            ..there
        }));
    }
}

/// A target with and without a slash at its start makes the same link.
pub proof fn lemma_link_target_slash(
    a: Hdf5Writer,
    b: Hdf5Writer,
    parent: Seq<char>,
    name: Seq<char>,
    target: Seq<char>,
)
    ensures
        link_made(a, b, parent, name, seq!['/'] + target) == link_made(a, b, parent, name, target),
        (a.link_error(parent, name, seq!['/'] + target) is None) == (a.link_error(
            parent,
            name,
            target,
        ) is None),
{
    let s = seq!['/'] + target;
    assert(s.skip(1) =~= target);
    assert(trimmed_start(s) == trimmed_start(target));
}

/// A target that is not in the file makes no link.
pub proof fn lemma_link_refused(a: Hdf5Writer, parent: Seq<char>, name: Seq<char>, target: Seq<char>)
    requires
        a.target_at(trimmed(target)) is None,
    ensures
        a.link_error(parent, name, target) is Some,
{
}

/// A dataset that has been assigned to a group is listed in the group once the file has been
/// closed, as it stands in the file; a dataset of a plain name is no longer listed in the
/// root group, where no other dataset or link has its name. Without a group of that path the
/// assignment is refused, and the dataset stays where it was.
pub proof fn lemma_assigned_dataset_found(
    a: Hdf5Writer,
    b: Hdf5Writer,
    r: IoResult<()>,
    path: Seq<char>,
    i: usize,
    run: Run,
    o: Objects,
)
    requires
        orderly(a),
        b.wf(),
        i < a.datasets@.len(),
        !a.datasets@[i as int].deleted,
        dataset_listed(a, b, r, path, i),
        finished(b, run),
        seen(run, o),
        a.group_index(path) matches Some(g) ==> unlinked(b, g) && level(b, g) <= MAX_GROUP_DEPTH,
    ensures
        orderly(b),
        ({
            let f = found(run.last, o, run.root);
            let name = a.datasets@[i as int].name@;
            match a.group_index(path) {
                Some(g) => {
                    &&& r is Ok
                    &&& f.datasets.contains(
                        stored_as(run.last, o, i as int, path_of(trimmed_start(path), leaf(name))),
                    )
                    &&& name.len() > 0 && !name.contains('/') && alone(a, i as int)
                        ==> forall|k: int|
                        0 <= k < f.datasets.len() ==> (#[trigger] f.datasets[k]).name != name
                },
                None => {
                    &&& r is Err
                    &&& !a.in_subgroup(i) ==> f.datasets.contains(
                        stored_as(run.last, o, i as int, name),
                    )
                },
            }
        }),
{
    let z = run.last;
    let name = a.datasets@[i as int].name@;
    lemma_position_is(a.groups@.len(), live_group(a.groups@, path));
    match a.group_index(path) {
        Some(g) => {
            assert(live_group(a.groups@, path)(g));
            assert forall|x: int| 0 <= x < a.groups@.len() implies {
                &&& (#[trigger] b.groups@[x]).name == a.groups@[x].name
                &&& b.groups@[x].parent == a.groups@[x].parent
                &&& b.groups@[x].child_groups == a.groups@[x].child_groups
                &&& b.groups@[x].deleted == a.groups@[x].deleted
            } by {
                if x != g {
                    assert(b.groups@[x] == a.groups@[x]);
                }
            }
            lemma_orderly_kept(a, b);
            let c = b.groups@[g].child_datasets@;
            assert(c[c.len() - 1] == i);
            assert(!b.groups@[g].deleted);
            let p = path_of(trimmed_start(path), leaf(name));
            assert(at_home(b, i as int, p));
            lemma_live_dataset_found(b, run, o, i as int, p);
            if name.len() > 0 && !name.contains('/') && alone(a, i as int) {
                lemma_finished(b, run);
                assert(b.in_subgroup(i));
                lemma_subgroup_kept(b, z, i);
                lemma_alone(a, b, z, i as int);
                lemma_not_at_root(z, o, run.root, name);
            }
        },
        None => {
            lemma_orderly_kept(a, b);
            if !a.in_subgroup(i) {
                assert(at_home(b, i as int, name));
                lemma_live_dataset_found(b, run, o, i as int, name);
            }
        },
    }
}

/// Whether no other live dataset, and no link of the root group, has the name of a dataset.
pub open spec fn alone(w: Hdf5Writer, i: int) -> bool {
    &&& forall|j: int|
        0 <= j < w.datasets@.len() && j != i && !(#[trigger] w.datasets@[j]).deleted
            ==> w.datasets@[j].name@ != w.datasets@[i].name@
    &&& forall|l: int|
        0 <= l < w.hard_links@.len() && (#[trigger] w.hard_links@[l]).parent is None
            ==> w.hard_links@[l].name@ != w.datasets@[i].name@
}

proof fn lemma_alone(a: Hdf5Writer, b: Hdf5Writer, z: Hdf5Writer, i: int)
    requires
        0 <= i < a.datasets@.len(),
        alone(a, i),
        b.datasets == a.datasets,
        b.hard_links == a.hard_links,
        same_content(b, z),
        z.in_subgroup(i as usize),
    ensures
        !rooted_name(z, a.datasets@[i].name@),
{
    assert forall|j: int|
        0 <= j < z.datasets@.len() && !(#[trigger] z.datasets@[j]).deleted && !z.in_subgroup(
            j as usize,
        ) implies z.datasets@[j].name@ != a.datasets@[i].name@ by {
        assert(same_dataset(b.datasets@[j], z.datasets@[j]));
        assert(a.datasets@[j].name == z.datasets@[j].name);
        assert(!a.datasets@[j].deleted);
    }
    assert forall|l: int|
        0 <= l < z.hard_links@.len() && (#[trigger] z.hard_links@[l]).parent is None implies
        z.hard_links@[l].name@ != a.datasets@[i].name@ by {
        assert(a.hard_links@[l] == z.hard_links@[l]);
    }
}

} // verus!
