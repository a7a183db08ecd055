//! What is found again of groups that have been created, deleted, linked to and given
//! attributes.

use crate::format::messages::attribute::AttributeMessage;
use crate::io::allocator::{align8, lemma_aligned};
use crate::io::names::{child_path, leaf, lemma_leaf_of, trimmed_start};
use crate::io::reader::written::{
    apart, filed, lemma_leaf_plain, level, rooted, titled, unlike,
};
use crate::io::search::{lemma_position_is, lemma_without};
use crate::io::writer::attributes::{attribute_at, attribute_named, with_attribute};
use crate::io::writer::catalog::live_group;
use crate::io::writer::edits::{groups_deleted, unlisted, within};
use crate::io::writer::headers::link_item;
use crate::io::writer::state::{group_placed, GroupInfo, Hdf5Writer};
use crate::swmr::group_made;
use vstd::prelude::*;

verus! {

/// The name of a group is its path with one slash before it.
pub proof fn lemma_name_shape(w: Hdf5Writer, g: int)
    requires
        w.wf(),
        filed(w),
        0 <= g < w.groups@.len(),
    ensures
        w.groups@[g].name@.len() > 1,
        w.groups@[g].name@[0] == '/',
        w.groups@[g].name@[1] != '/',
        trimmed_start(w.groups@[g].name@) == w.groups@[g].name@.skip(1),
    decreases g,
{
    let x = w.groups@[g];
    assert(titled(w, g));
    assert(group_placed(x, g, w.groups@.len(), w.datasets@.len()));
    lemma_leaf_plain(x.name@);
    let l = leaf(x.name@);
    match x.parent {
        None => {
            assert(l.contains(l[0]));
            assert(x.name@.skip(1) =~= l);
        },
        Some(p) => {
            lemma_name_shape(w, p as int);
        },
    }
    let n = x.name@;
    assert(n.skip(1)[0] == n[1]);
    reveal_with_fuel(trimmed_start, 2);
}

/// Live groups with different names have different paths.
pub proof fn lemma_unlike(w: Hdf5Writer)
    requires
        w.wf(),
        filed(w),
        forall|g: int, h: int|
            0 <= g < h < w.groups@.len() && !(#[trigger] w.groups@[g]).deleted && !(
            #[trigger] w.groups@[h]).deleted ==> w.groups@[g].name@ != w.groups@[h].name@,
    ensures
        unlike(w),
{
    assert forall|g: int, h: int|
        0 <= g < h < w.groups@.len() && !(#[trigger] w.groups@[g]).deleted && !(
        #[trigger] w.groups@[h]).deleted implies trimmed_start(w.groups@[g].name@)
        != trimmed_start(w.groups@[h].name@) by {
        lemma_name_shape(w, g);
        lemma_name_shape(w, h);
        let a = w.groups@[g].name@;
        let b = w.groups@[h].name@;
        if a.skip(1) == b.skip(1) {
            assert(a =~= seq!['/'] + a.skip(1));
            assert(b =~= seq!['/'] + b.skip(1));
        }
    }
}

/// Whether live groups have different names.
pub open spec fn named_apart(w: Hdf5Writer) -> bool {
    forall|g: int, h: int|
        0 <= g < h < w.groups@.len() && !(#[trigger] w.groups@[g]).deleted && !(
        #[trigger] w.groups@[h]).deleted ==> w.groups@[g].name@ != w.groups@[h].name@
}

/// A group that has been created hangs on the root group, at its parent's path, and the
/// groups that did before still do. So it is found again, as every group that does.
pub proof fn lemma_created_group(
    a: Hdf5Writer,
    b: Hdf5Writer,
    parent_path: Seq<char>,
    name: Seq<char>,
)
    requires
        a.wf(),
        b.wf(),
        b.groups@.len() <= usize::MAX,
        filed(a),
        named_apart(a),
        group_made(a, b, parent_path, name),
        name.len() > 0,
        !name.contains('/'),
        parent_path != seq!['/'] ==> rooted(a, a.group_index(parent_path)->0),
    ensures
        filed(b),
        named_apart(b),
        rooted(b, a.groups@.len() as int),
        b.groups@[a.groups@.len() as int].name@ == child_path(parent_path, name),
        forall|g: int| #[trigger] rooted(a, g) ==> rooted(b, g),
{
    let i = a.groups@.len() as int;
    let parent = if parent_path == seq!['/'] {
        None
    } else {
        a.group_index(parent_path)
    };
    lemma_position_is(a.groups@.len(), live_group(a.groups@, parent_path));
    let full = child_path(parent_path, name);
    match parent {
        None => {
            assert(full =~= Seq::<char>::empty() + seq!['/'] + name);
            lemma_leaf_of(Seq::empty(), name);
        },
        Some(p) => {
            assert(live_group(a.groups@, parent_path)(p));
            lemma_leaf_of(parent_path, name);
            assert(b.groups@[p].child_groups@[a.groups@[p].child_groups@.len() as int] == i as usize);
        },
    }
    assert forall|g: int| 0 <= g < b.groups@.len() implies #[trigger] titled(b, g) by {
        if g < i {
            assert(titled(a, g));
            assert(group_placed(a.groups@[g], g, a.groups@.len(), a.datasets@.len()));
            assert(b.groups@[g].name == a.groups@[g].name && b.groups@[g].parent
                == a.groups@[g].parent) by {
                if parent == Some(g) {
                }
            }
            match a.groups@[g].parent {
                Some(q) => {
                    assert(b.groups@[q as int].name == a.groups@[q as int].name) by {
                        if parent == Some(q as int) {
                        }
                    }
                },
                None => {},
            }
        }
    }
    assert forall|p: int, k: int|
        0 <= p < b.groups@.len() && 0 <= k < b.groups@[p].child_groups@.len() implies b.groups@[(
    #[trigger] b.groups@[p].child_groups@[k]) as int].parent == Some(p as usize) by {
        if p < i {
            assert(group_placed(a.groups@[p], p, a.groups@.len(), a.datasets@.len()));
            let c = a.groups@[p].child_groups@;
            if k < c.len() {
                let h = a.groups@[p].child_groups@[k] as int;
                assert(b.groups@[p].child_groups@[k] == h);
                assert(a.groups@[h].parent == Some(p as usize));
                assert(b.groups@[h].parent == a.groups@[h].parent) by {
                    if parent == Some(h) {
                    }
                }
            }
        }
    }
    lemma_position_is(a.groups@.len(), live_group(a.groups@, full));
    assert forall|g: int, h: int|
        0 <= g < h < b.groups@.len() && !(#[trigger] b.groups@[g]).deleted && !(
        #[trigger] b.groups@[h]).deleted implies b.groups@[g].name@ != b.groups@[h].name@ by {
        assert(b.groups@[g].name == a.groups@[g].name && b.groups@[g].deleted
            == a.groups@[g].deleted) by {
            if parent == Some(g) {
            }
        }
        if h < i {
            assert(b.groups@[h].name == a.groups@[h].name && b.groups@[h].deleted
                == a.groups@[h].deleted) by {
                if parent == Some(h) {
                }
            }
        } else {
            assert(!live_group(a.groups@, full)(g));
        }
    }
    assert forall|g: int| #[trigger] rooted(a, g) implies rooted(b, g) by {
        lemma_rooted_on(a, b, g, parent);
    }
}

proof fn lemma_rooted_on(a: Hdf5Writer, b: Hdf5Writer, g: int, parent: Option<int>)
    requires
        rooted(a, g),
        a.groups@.len() < b.groups@.len(),
        forall|x: int|
            0 <= x < a.groups@.len() && parent != Some(x) ==> #[trigger] b.groups@[x]
                == a.groups@[x],
        parent matches Some(p) ==> {
            &&& b.groups@[p].parent == a.groups@[p].parent
            &&& b.groups@[p].deleted == a.groups@[p].deleted
            &&& b.groups@[p].child_groups@ == a.groups@[p].child_groups@.push(
                a.groups@.len() as usize,
            )
        },
    ensures
        rooted(b, g),
    decreases g,
{
    assert(b.groups@[g].parent == a.groups@[g].parent && b.groups@[g].deleted
        == a.groups@[g].deleted) by {
        if parent == Some(g) {
        }
    }
    match a.groups@[g].parent {
        None => {},
        Some(p) => {
            lemma_rooted_on(a, b, p as int, parent);
            let c = a.groups@[p as int].child_groups@;
            let k = choose|k: int| 0 <= k < c.len() && c[k] == g as usize;
            assert(b.groups@[p as int].child_groups@[k] == g as usize) by {
                if parent == Some(p as int) {
                }
            }
        },
    }
}

/// When a group is deleted, the groups that do not lie below it still hang on the root
/// group.
pub proof fn lemma_deleted_group(a: Hdf5Writer, b: Hdf5Writer, g: int)
    requires
        a.wf(),
        a.groups@.len() <= usize::MAX,
        filed(a),
        rooted(a, g),
        unlisted(groups_deleted(a.groups@, g), b.groups@, g),
    ensures
        filed(b),
        forall|x: int| #[trigger]
            rooted(a, x) && !within(a.groups@, g, x) ==> rooted(b, x),
{
    let gs = groups_deleted(a.groups@, g);
    assert forall|x: int| 0 <= x < a.groups@.len() implies (#[trigger] b.groups@[x]).name
        == a.groups@[x].name && b.groups@[x].parent == a.groups@[x].parent && b.groups@[x].deleted
        == gs[x].deleted by {
        if gs[g].parent == Some(x as usize) {
        }
    }
    assert forall|x: int| 0 <= x < b.groups@.len() implies #[trigger] titled(b, x) by {
        assert(titled(a, x));
        assert(group_placed(a.groups@[x], x, a.groups@.len(), a.datasets@.len()));
    }
    assert forall|p: int, k: int|
        0 <= p < b.groups@.len() && 0 <= k < b.groups@[p].child_groups@.len() implies b.groups@[(
    #[trigger] b.groups@[p].child_groups@[k]) as int].parent == Some(p as usize) by {
        assert(group_placed(a.groups@[p], p, a.groups@.len(), a.datasets@.len()));
        let c = a.groups@[p].child_groups@;
        let h = b.groups@[p].child_groups@[k];
        assert(c.contains(h)) by {
            if gs[g].parent == Some(p as usize) {
                lemma_without(c, g as usize);
                assert(b.groups@[p].child_groups@.contains(h));
            } else {
                assert(c[k] == h);
            }
        }
        let j = choose|j: int| 0 <= j < c.len() && c[j] == h;
        assert(a.groups@[a.groups@[p].child_groups@[j] as int].parent == Some(p as usize));
    }
    assert forall|x: int| #[trigger] rooted(a, x) && !within(a.groups@, g, x) implies rooted(
        b,
        x,
    ) by {
        lemma_rooted_off(a, b, g, x);
    }
}

proof fn lemma_rooted_off(a: Hdf5Writer, b: Hdf5Writer, g: int, x: int)
    requires
        a.wf(),
        a.groups@.len() <= usize::MAX,
        rooted(a, g),
        rooted(a, x),
        !within(a.groups@, g, x),
        unlisted(groups_deleted(a.groups@, g), b.groups@, g),
    ensures
        rooted(b, x),
    decreases x,
{
    let gs = groups_deleted(a.groups@, g);
    assert(b.groups@[x].parent == a.groups@[x].parent && !b.groups@[x].deleted) by {
        if gs[g].parent == Some(x as usize) {
        }
    }
    match a.groups@[x].parent {
        None => {},
        Some(p) => {
            let c = a.groups@[p as int].child_groups@;
            let k = choose|k: int| 0 <= k < c.len() && c[k] == x as usize;
            assert(!within(a.groups@, g, p as int)) by {
                if within(a.groups@, g, p as int) {
                    lemma_within_child(a, g, p as int, k);
                }
            }
            lemma_rooted_off(a, b, g, p as int);
            lemma_without(c, g as usize);
            assert(x != g);
            assert(b.groups@[p as int].child_groups@.contains(x as usize)) by {
                if gs[g].parent == Some(p) {
                    assert(c.contains(x as usize));
                } else {
                    assert(b.groups@[p as int] == gs[p as int]);
                }
            }
        },
    }
}

proof fn lemma_within_child(a: Hdf5Writer, g: int, p: int, k: int)
    requires
        a.wf(),
        0 <= g < a.groups@.len(),
        0 <= p < a.groups@.len(),
        within(a.groups@, g, p),
        0 <= k < a.groups@[p].child_groups@.len(),
    ensures
        within(a.groups@, g, a.groups@[p].child_groups@[k] as int),
    decreases a.groups@.len() - g,
{
    let gs = a.groups@;
    let x = gs[p].child_groups@[k] as int;
    assert(group_placed(gs[p], p, gs.len(), a.datasets@.len()));
    if p == g {
        assert(within(gs, gs[g].child_groups@[k] as int, x));
    } else {
        let j = choose|j: int|
            0 <= j < gs[g].child_groups@.len() && g < #[trigger] gs[g].child_groups@[j] < gs.len()
                && within(gs, gs[g].child_groups@[j] as int, p);
        lemma_within_child(a, gs[g].child_groups@[j] as int, p, k);
        assert(within(gs, gs[g].child_groups@[j] as int, x));
    }
}

/// Whether attributes differ in their names.
pub open spec fn once_each(attrs: Seq<AttributeMessage>) -> bool {
    forall|i: int, j: int|
        0 <= i < j < attrs.len() ==> (#[trigger] attrs[i]).name@ != (#[trigger] attrs[j]).name@
}

/// An attribute that is set stands once among the attributes, with the value that was set
/// last.
pub proof fn lemma_attribute_once(attrs: Seq<AttributeMessage>, m: AttributeMessage)
    requires
        once_each(attrs),
    ensures
        once_each(with_attribute(attrs, m)),
        with_attribute(attrs, m).contains(m),
        forall|i: int|
            0 <= i < with_attribute(attrs, m).len() && (#[trigger] with_attribute(
                attrs,
                m,
            )[i]).name@ == m.name@ ==> with_attribute(attrs, m)[i] == m,
{
    let f = attribute_named(attrs, m.name@);
    lemma_position_is(attrs.len(), f);
    let now = with_attribute(attrs, m);
    match attribute_at(attrs, m.name@) {
        Some(i) => {
            assert(f(i));
            assert(now[i] == m);
        },
        None => {
            assert forall|j: int| 0 <= j < attrs.len() implies (#[trigger] attrs[j]).name@
                != m.name@ by {
                assert(!f(j));
            }
            assert(now[attrs.len() as int] == m);
        },
    }
}

/// Whether two writers have the same groups, but for the places of their headers.
pub open spec fn same_groups(a: Hdf5Writer, b: Hdf5Writer) -> bool {
    &&& a.groups@.len() == b.groups@.len()
    &&& forall|g: int|
        0 <= g < a.groups@.len() ==> {
            &&& (#[trigger] b.groups@[g]).name == a.groups@[g].name
            &&& b.groups@[g].parent == a.groups@[g].parent
            &&& b.groups@[g].child_groups == a.groups@[g].child_groups
            &&& b.groups@[g].child_datasets == a.groups@[g].child_datasets
            &&& b.groups@[g].deleted == a.groups@[g].deleted
            &&& b.groups@[g].attributes == a.groups@[g].attributes
        }
}

/// Whether two writers have the same tree of groups, whatever is in the groups.
pub open spec fn same_tree(a: Hdf5Writer, b: Hdf5Writer) -> bool {
    &&& a.groups@.len() == b.groups@.len()
    &&& forall|g: int|
        0 <= g < a.groups@.len() ==> {
            &&& (#[trigger] b.groups@[g]).name == a.groups@[g].name
            &&& b.groups@[g].parent == a.groups@[g].parent
            &&& b.groups@[g].child_groups == a.groups@[g].child_groups
            &&& b.groups@[g].deleted == a.groups@[g].deleted
        }
}

/// When headers get their places, and when something is put into groups, groups go on
/// hanging on the root group.
pub proof fn lemma_placed_groups(a: Hdf5Writer, b: Hdf5Writer, g: int)
    requires
        same_tree(a, b),
    ensures
        filed(a) && a.wf() ==> filed(b),
        rooted(a, g) ==> rooted(b, g) && level(b, g) == level(a, g),
    decreases g,
{
    if filed(a) && a.wf() {
        assert forall|x: int| 0 <= x < b.groups@.len() implies #[trigger] titled(b, x) by {
            assert(titled(a, x));
            assert(group_placed(a.groups@[x], x, a.groups@.len(), a.datasets@.len()));
        }
        assert forall|p: int, k: int|
            0 <= p < b.groups@.len() && 0 <= k < b.groups@[p].child_groups@.len() implies b.groups@[
        (#[trigger] b.groups@[p].child_groups@[k]) as int].parent == Some(p as usize) by {
            assert(group_placed(a.groups@[p], p, a.groups@.len(), a.datasets@.len()));
            assert(a.groups@[a.groups@[p].child_groups@[k] as int].parent == Some(p as usize));
        }
    }
    if rooted(a, g) {
        match a.groups@[g].parent {
            Some(p) => {
                lemma_placed_groups(a, b, p as int);
            },
            None => {},
        }
    }
}

/// Whether the header of group `g`, of `size` bytes, has got its place at the end of the
/// file.
pub open spec fn header_placed(a: Hdf5Writer, b: Hdf5Writer, g: int, size: int) -> bool {
    let addr = align8(a.allocator.spec_eof() as int);
    &&& b.allocator.spec_eof() == addr + size
    &&& b.datasets == a.datasets
    &&& b.hard_links == a.hard_links
    &&& b.root_attributes == a.root_attributes
    &&& b.groups@.len() == a.groups@.len()
    &&& b.groups@[g] == (GroupInfo { obj_header_addr: addr as u64, ..a.groups@[g] })
    &&& forall|h: int| 0 <= h < a.groups@.len() && h != g ==> #[trigger] b.groups@[h] == a.groups@[h]
}

/// Whether the headers of the first `n` groups lie behind each other, before the end of
/// the file.
pub open spec fn in_line(w: Hdf5Writer, n: int) -> bool {
    &&& forall|g: int|
        0 <= g < n ==> (#[trigger] w.groups@[g]).obj_header_addr < w.allocator.spec_eof()
    &&& forall|g: int, h: int|
        0 <= g < h < n ==> (#[trigger] w.groups@[g]).obj_header_addr < (
        #[trigger] w.groups@[h]).obj_header_addr
}

proof fn lemma_in_line(states: Seq<Hdf5Writer>, sizes: Seq<int>, n: int)
    requires
        0 <= n <= sizes.len(),
        sizes.len() < states.len(),
        sizes.len() == states[0].groups@.len(),
        forall|k: int|
            0 <= k < sizes.len() ==> #[trigger] sizes[k] > 0 && header_placed(
                states[k],
                states[k + 1],
                k,
                sizes[k],
            ),
    ensures
        same_groups(states[0], states[n]),
        states[n].datasets == states[0].datasets,
        states[n].hard_links == states[0].hard_links,
        states[n].root_attributes == states[0].root_attributes,
        in_line(states[n], n),
    decreases n,
{
    if n > 0 {
        lemma_in_line(states, sizes, n - 1);
        let a = states[n - 1];
        let b = states[n];
        assert(sizes[n - 1] > 0 && header_placed(a, states[n - 1 + 1], n - 1, sizes[n - 1]));
        lemma_aligned(a.allocator.spec_eof() as int);
        assert forall|g: int| 0 <= g < n implies (#[trigger] b.groups@[g]).obj_header_addr
            < b.allocator.spec_eof() by {
            if g < n - 1 {
                assert(b.groups@[g] == a.groups@[g]);
            }
        }
        assert forall|g: int, h: int| 0 <= g < h < n implies (
        #[trigger] b.groups@[g]).obj_header_addr < (#[trigger] b.groups@[h]).obj_header_addr by {
            assert(b.groups@[g] == a.groups@[g]);
            if h < n - 1 {
                assert(b.groups@[h] == a.groups@[h]);
            }
        }
        assert forall|g: int| 0 <= g < a.groups@.len() implies {
            &&& (#[trigger] b.groups@[g]).name == a.groups@[g].name
            &&& b.groups@[g].parent == a.groups@[g].parent
            &&& b.groups@[g].child_groups == a.groups@[g].child_groups
            &&& b.groups@[g].child_datasets == a.groups@[g].child_datasets
            &&& b.groups@[g].deleted == a.groups@[g].deleted
            &&& b.groups@[g].attributes == a.groups@[g].attributes
        } by {
            if g != n - 1 {
                assert(b.groups@[g] == a.groups@[g]);
            }
        }
    }
}

/// When the headers of all groups have got their places, in the order of the steps that
/// finish a file, and that of the root group after them, each group has a header of its
/// own, and the groups are the same.
pub proof fn lemma_groups_apart(
    states: Seq<Hdf5Writer>,
    sizes: Seq<int>,
    last: Hdf5Writer,
    root: u64,
)
    requires
        states.len() == sizes.len() + 1,
        sizes.len() == states[0].groups@.len(),
        forall|k: int|
            0 <= k < sizes.len() ==> #[trigger] sizes[k] > 0 && header_placed(
                states[k],
                states[k + 1],
                k,
                sizes[k],
            ),
        last.groups == states.last().groups,
        root == align8(states.last().allocator.spec_eof() as int),
    ensures
        apart(last, root),
        same_groups(states[0], last),
        states.last().datasets == states[0].datasets,
        states.last().hard_links == states[0].hard_links,
        states.last().root_attributes == states[0].root_attributes,
{
    let n = sizes.len() as int;
    lemma_in_line(states, sizes, n);
    lemma_aligned(states[n].allocator.spec_eof() as int);
}

/// A dataset that is listed in a live group has no link in the root group.
pub proof fn lemma_listed_not_at_root(w: Hdf5Writer, i: int, n: nat)
    requires
        0 <= i < w.datasets@.len() <= usize::MAX,
        n <= w.datasets@.len(),
        w.in_subgroup(i as usize),
        forall|j: int|
            0 <= j < w.datasets@.len() && j != i ==> (#[trigger] w.datasets@[j]).obj_header_addr
                != w.datasets@[i].obj_header_addr,
    ensures
        forall|k: int, name: Seq<char>|
            0 <= k < w.root_dataset_links(n).len() ==> #[trigger] w.root_dataset_links(n)[k]
                != #[trigger] link_item(name, w.datasets@[i].obj_header_addr),
    decreases n,
{
    if n > 0 {
        lemma_listed_not_at_root(w, i, (n - 1) as nat);
    }
}

} // verus!
