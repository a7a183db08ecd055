//! The groups of a file, found again from the paths of its datasets.

use crate::io::names::{leaf, lemma_leaf_of};
use crate::io::search::{is_at, lemma_no_position, lemma_position, lemma_position_is, position};
use crate::io::writer::catalog::texts;
use crate::io::writer::state::{group_placed, GroupInfo};
use vstd::prelude::*;
use vstd::string::{StrSliceExecFns, StringExecFns};

verus! {

/// Where a group stands among the objects of a file.
#[verifier::ext_equal]
pub struct GroupShape {
    pub name: Seq<char>,
    pub parent: Option<usize>,
    pub child_datasets: Seq<usize>,
    pub child_groups: Seq<usize>,
}

/// Where a group stands among the objects of a file.
pub open spec fn shape_of(g: GroupInfo) -> GroupShape {
    GroupShape {
        name: g.name@,
        parent: g.parent,
        child_datasets: g.child_datasets@,
        child_groups: g.child_groups@,
    }
}

/// Where groups stand among the objects of a file.
pub open spec fn shapes(gs: Seq<GroupInfo>) -> Seq<GroupShape> {
    Seq::new(gs.len(), |i: int| shape_of(gs[i]))
}

/// Whether nothing but its place is known of a group.
pub open spec fn bare_group(g: GroupInfo) -> bool {
    &&& g.obj_header_addr == 0
    &&& !g.deleted
    &&& g.attributes@.len() == 0
}

/// Whether group `i` has this path.
pub open spec fn at_path(gs: Seq<GroupShape>, path: Seq<char>) -> spec_fn(int) -> bool {
    |i: int| gs[i].name == path
}

/// The group with this path.
pub open spec fn group_at(gs: Seq<GroupShape>, path: Seq<char>) -> Option<int> {
    position(gs.len(), at_path(gs, path))
}

/// The path of the group that ends before character `k` of a dataset's path.
pub open spec fn path_upto(name: Seq<char>, k: int) -> Seq<char> {
    seq!['/'] + name.take(k)
}

/// The last slash among the first `k` characters.
pub open spec fn last_slash(name: Seq<char>, k: nat) -> Option<int>
    decreases k,
{
    if k == 0 {
        None
    } else if name[k - 1] == '/' {
        Some(k - 1)
    } else {
        last_slash(name, (k - 1) as nat)
    }
}

pub proof fn lemma_last_slash(name: Seq<char>, k: nat)
    requires
        k <= name.len(),
    ensures
        match last_slash(name, k) {
            Some(j) => 0 <= j < k && name[j] == '/' && forall|x: int|
                j < x < k ==> #[trigger] name[x] != '/',
            None => forall|x: int| 0 <= x < k ==> #[trigger] name[x] != '/',
        },
    decreases k,
{
    if k > 0 {
        lemma_last_slash(name, (k - 1) as nat);
    }
}

/// The parent of the group that ends at the slash `k` of a dataset's path; groups
/// directly in the root group have none.
pub open spec fn parent_at(gs: Seq<GroupShape>, name: Seq<char>, k: int) -> Option<usize> {
    match last_slash(name, k as nat) {
        None => None,
        Some(j) => if j == 0 {
            None
        } else {
            match group_at(gs, path_upto(name, j)) {
                Some(i) => Some(i as usize),
                None => None,
            }
        },
    }
}

/// Groups with the one that ends at the slash `k` of a dataset's path, unless it is
/// there.
pub open spec fn with_group_at(gs: Seq<GroupShape>, name: Seq<char>, k: int) -> Seq<GroupShape> {
    let path = path_upto(name, k);
    if group_at(gs, path) is Some {
        gs
    } else {
        let parent = parent_at(gs, name, k);
        let g = GroupShape {
            name: path,
            parent,
            child_datasets: Seq::empty(),
            child_groups: Seq::empty(),
        };
        match parent {
            Some(p) => gs.update(
                p as int,
                GroupShape {
                    child_groups: gs[p as int].child_groups.push(gs.len() as usize),
                    ..gs[p as int]
                },
            ).push(g),
            None => gs.push(g),
        }
    }
}

/// Groups with those on the first `k` characters of a dataset's path.
pub open spec fn groups_on(gs: Seq<GroupShape>, name: Seq<char>, k: nat) -> Seq<GroupShape>
    decreases k,
{
    if k == 0 {
        gs
    } else {
        let before = groups_on(gs, name, (k - 1) as nat);
        if name[k - 1] == '/' {
            with_group_at(before, name, k - 1)
        } else {
            before
        }
    }
}

/// Groups with those on the path of dataset `d`, which is put into the last of them.
pub open spec fn with_dataset(gs: Seq<GroupShape>, name: Seq<char>, d: usize) -> Seq<GroupShape> {
    let all = groups_on(gs, name, name.len());
    match last_slash(name, name.len()) {
        None => all,
        Some(j) => match group_at(all, path_upto(name, j)) {
            None => all,
            Some(i) => all.update(
                i,
                GroupShape { child_datasets: all[i].child_datasets.push(d), ..all[i] },
            ),
        },
    }
}

/// The groups of the first `n` of a list of datasets.
pub open spec fn regrouped(names: Seq<Seq<char>>, n: nat) -> Seq<GroupShape>
    decreases n,
{
    if n == 0 {
        Seq::empty()
    } else {
        with_dataset(regrouped(names, (n - 1) as nat), names[n - 1], (n - 1) as usize)
    }
}

/// Whether groups are placed among the groups and datasets of a file, and nothing but
/// their places is known.
pub open spec fn placed_groups(gs: Seq<GroupInfo>, ndatasets: nat) -> bool {
    &&& forall|i: int| 0 <= i < gs.len() ==> bare_group(#[trigger] gs[i])
    &&& forall|i: int|
        0 <= i < gs.len() ==> #[trigger] group_placed(gs[i], i, gs.len(), ndatasets)
}

fn find_path(groups: &Vec<GroupInfo>, path: &String) -> (r: Option<usize>)
    ensures
        is_at(r, group_at(shapes(groups@), path@)),
{
    let ghost gs = shapes(groups@);
    let ghost f = at_path(gs, path@);
    let mut i: usize = 0;
    while i < groups.len()
        invariant
            i <= groups.len(),
            gs == shapes(groups@),
            f == at_path(gs, path@),
            forall|j: int| 0 <= j < i ==> !#[trigger] f(j),
        decreases groups.len() - i,
    {
        let hit: bool = groups[i].name == *path;
        assert(hit == f(i as int)) by {
            assert(gs[i as int].name == groups@[i as int].name@);
        }
        if hit {
            proof {
                lemma_position(gs.len(), f, i as int);
            }
            return Some(i);
        }
        i = i + 1;
    }
    proof {
        lemma_no_position(gs.len(), f);
    }
    None
}

fn path_of_group(name: &str, k: usize) -> (s: String)
    requires
        k <= name@.len(),
    ensures
        s@ == path_upto(name@, k as int),
{
    let s = "/".to_owned().concat(name.substring_char(0, k));
    proof {
        reveal_strlit("/");
        assert(s@ =~= path_upto(name@, k as int));
    }
    s
}

/// Add the group that ends at the slash `k`. `last` is the slash before it.
fn add_group(groups: &mut Vec<GroupInfo>, name: &str, k: usize, last: Option<usize>, Ghost(nd): Ghost<
    nat,
>)
    requires
        k <= name@.len(),
        placed_groups(old(groups)@, nd),
        is_at(last, last_slash(name@, k as nat)),
    ensures
        placed_groups(final(groups)@, nd),
        shapes(final(groups)@) == with_group_at(shapes(old(groups)@), name@, k as int),
{
    let ghost gs = shapes(groups@);
    let ghost was = groups@;
    let path = path_of_group(name, k);
    proof {
        lemma_position_is(gs.len(), at_path(gs, path@));
        lemma_last_slash(name@, k as nat);
    }
    if find_path(groups, &path).is_some() {
        return;
    }
    let parent: Option<usize> = match last {
        None => None,
        Some(j) => {
            if j == 0 {
                None
            } else {
                let above = path_of_group(name, j);
                proof {
                    lemma_position_is(gs.len(), at_path(gs, above@));
                }
                find_path(groups, &above)
            }
        },
    };
    assert(parent == parent_at(gs, name@, k as int));
    let n: usize = groups.len();
    groups.push(
        GroupInfo {
            name: path,
            parent,
            child_datasets: Vec::new(),
            child_groups: Vec::new(),
            obj_header_addr: 0,
            deleted: false,
            attributes: Vec::new(),
        },
    );
    if let Some(p) = parent {
        groups[p].child_groups.push(n);
    }
    proof {
        let now = groups@;
        assert forall|i: int| 0 <= i < now.len() implies #[trigger] group_placed(
            now[i],
            i,
            now.len(),
            nd,
        ) by {
            if i < n {
                assert(group_placed(was[i], i, was.len(), nd));
                assert(now[i].child_datasets == was[i].child_datasets);
                assert(now[i].parent == was[i].parent);
                let c = now[i].child_groups@;
                assert forall|x: int| 0 <= x < c.len() implies i < #[trigger] c[x] < now.len() by {
                    if x < was[i].child_groups@.len() {
                        assert(c[x] == was[i].child_groups@[x]);
                    }
                }
            }
        }
        assert forall|i: int| 0 <= i < now.len() implies bare_group(#[trigger] now[i]) by {
            if i < n {
                assert(bare_group(was[i]));
            }
        }
        assert(shapes(now) =~~= with_group_at(gs, name@, k as int));
    }
}

/// Add the groups on the path of dataset `d`, and put the dataset into the last of them.
fn add_path(groups: &mut Vec<GroupInfo>, name: &str, d: usize, Ghost(nd): Ghost<nat>)
    requires
        d < nd,
        placed_groups(old(groups)@, nd),
    ensures
        placed_groups(final(groups)@, nd),
        shapes(final(groups)@) == with_dataset(shapes(old(groups)@), name@, d),
{
    let ghost start = shapes(groups@);
    let n: usize = name.unicode_len();
    let mut last: Option<usize> = None;
    let mut k: usize = 0;
    while k < n
        invariant
            k <= n,
            n == name@.len(),
            placed_groups(groups@, nd),
            is_at(last, last_slash(name@, k as nat)),
            shapes(groups@) == groups_on(start, name@, k as nat),
        decreases n - k,
    {
        if name.get_char(k) == '/' {
            add_group(groups, name, k, last, Ghost(nd));
            last = Some(k);
        }
        k = k + 1;
    }
    match last {
        None => {},
        Some(j) => {
            proof {
                lemma_last_slash(name@, n as nat);
            }
            let ghost all = shapes(groups@);
            let ghost was = groups@;
            let path = path_of_group(name, j);
            proof {
                lemma_position_is(all.len(), at_path(all, path@));
            }
            match find_path(groups, &path) {
                None => {},
                Some(i) => {
                    groups[i].child_datasets.push(d);
                    proof {
                        let now = groups@;
                        assert forall|x: int| 0 <= x < now.len() implies #[trigger] group_placed(
                            now[x],
                            x,
                            now.len(),
                            nd,
                        ) by {
                            assert(group_placed(was[x], x, was.len(), nd));
                            assert(now[x].child_groups == was[x].child_groups);
                            assert(now[x].parent == was[x].parent);
                            let c = now[x].child_datasets@;
                            assert forall|y: int| 0 <= y < c.len() implies #[trigger] c[y] < nd by {
                                if y < was[x].child_datasets@.len() {
                                    assert(c[y] == was[x].child_datasets@[y]);
                                }
                            }
                        }
                        assert forall|i: int| 0 <= i < now.len() implies bare_group(#[trigger] now[i]) by {
            if i < n {
                assert(bare_group(was[i]));
            }
        }
                        assert(shapes(now) =~~= with_dataset(start, name@, d));
                    }
                },
            }
        },
    }
}

/// The groups of datasets with these paths.
pub fn rebuild_groups(names: &Vec<String>) -> (groups: Vec<GroupInfo>)
    ensures
        placed_groups(groups@, names@.len()),
        shapes(groups@) == regrouped(texts(names@), names@.len()),
{
    let mut groups: Vec<GroupInfo> = Vec::new();
    let ghost all = texts(names@);
    let mut d: usize = 0;
    assert(shapes(groups@) =~= regrouped(all, 0));
    while d < names.len()
        invariant
            d <= names.len(),
            all == texts(names@),
            placed_groups(groups@, names@.len()),
            shapes(groups@) == regrouped(all, d as nat),
        decreases names.len() - d,
    {
        assert(all[d as int] == names@[d as int]@);
        add_path(&mut groups, names[d].as_str(), d, Ghost(names@.len()));
        d = d + 1;
    }
    groups
}

/// Whether one list of groups goes on where another ends: its groups keep their paths
/// and their datasets, at least.
pub open spec fn extends(a: Seq<GroupShape>, b: Seq<GroupShape>) -> bool {
    &&& a.len() <= b.len()
    &&& forall|i: int|
        0 <= i < a.len() ==> {
            &&& (#[trigger] a[i]).name == b[i].name
            &&& a[i].parent == b[i].parent
            &&& forall|d: usize| #[trigger]
                a[i].child_datasets.contains(d) ==> b[i].child_datasets.contains(d)
        }
}

proof fn lemma_group_added(gs: Seq<GroupShape>, name: Seq<char>, k: int)
    requires
        0 <= k <= name.len(),
    ensures
        extends(gs, with_group_at(gs, name, k)),
        group_at(with_group_at(gs, name, k), path_upto(name, k)) is Some,
{
    let path = path_upto(name, k);
    let now = with_group_at(gs, name, k);
    lemma_position_is(now.len(), at_path(now, path));
    if group_at(gs, path) is None {
        let f = at_path(now, path);
        match last_slash(name, k as nat) {
            Some(j) => {
                lemma_position_is(gs.len(), at_path(gs, path_upto(name, j)));
            },
            None => {},
        }
        assert(now[gs.len() as int].name == path);
        assert(f(gs.len() as int));
        assert forall|i: int| 0 <= i < gs.len() implies {
            &&& (#[trigger] gs[i]).name == now[i].name
            &&& gs[i].parent == now[i].parent
            &&& gs[i].child_datasets == now[i].child_datasets
        } by {}
    }
}

proof fn lemma_extends(a: Seq<GroupShape>, b: Seq<GroupShape>, c: Seq<GroupShape>)
    requires
        extends(a, b),
        extends(b, c),
    ensures
        extends(a, c),
{
    assert forall|i: int| 0 <= i < a.len() implies {
        &&& (#[trigger] a[i]).name == c[i].name
        &&& a[i].parent == c[i].parent
        &&& forall|d: usize| #[trigger]
            a[i].child_datasets.contains(d) ==> c[i].child_datasets.contains(d)
    } by {
        assert(a[i].name == b[i].name);
        assert(b[i].name == c[i].name);
    }
}

proof fn lemma_still_there(a: Seq<GroupShape>, b: Seq<GroupShape>, path: Seq<char>)
    requires
        extends(a, b),
        group_at(a, path) is Some,
    ensures
        group_at(b, path) == group_at(a, path),
{
    let f = at_path(a, path);
    let g = at_path(b, path);
    lemma_position_is(a.len(), f);
    let i = group_at(a, path)->0;
    assert(f(i));
    assert(a[i].name == b[i].name);
    assert(g(i));
    assert forall|j: int| 0 <= j < i implies !#[trigger] g(j) by {
        assert(!f(j));
        assert(a[j].name == b[j].name);
    }
    lemma_position(b.len(), g, i);
}

proof fn lemma_groups_on(gs: Seq<GroupShape>, name: Seq<char>, k: nat)
    requires
        k <= name.len(),
    ensures
        extends(gs, groups_on(gs, name, k)),
        last_slash(name, k) matches Some(j) ==> group_at(
            groups_on(gs, name, k),
            path_upto(name, j),
        ) is Some,
    decreases k,
{
    if k > 0 {
        lemma_groups_on(gs, name, (k - 1) as nat);
        let before = groups_on(gs, name, (k - 1) as nat);
        if name[k - 1] == '/' {
            lemma_group_added(before, name, k - 1);
            lemma_extends(gs, before, with_group_at(before, name, k - 1));
        }
    }
}

proof fn lemma_dataset_added(gs: Seq<GroupShape>, name: Seq<char>, d: usize)
    ensures
        extends(gs, with_dataset(gs, name, d)),
        last_slash(name, name.len()) matches Some(j) ==> (group_at(
            with_dataset(gs, name, d),
            path_upto(name, j),
        ) matches Some(i) && with_dataset(gs, name, d)[i].child_datasets.contains(d)),
{
    lemma_groups_on(gs, name, name.len());
    lemma_last_slash(name, name.len());
    let all = groups_on(gs, name, name.len());
    let now = with_dataset(gs, name, d);
    match last_slash(name, name.len()) {
        None => {},
        Some(j) => {
            let path = path_upto(name, j);
            lemma_position_is(all.len(), at_path(all, path));
            let i = group_at(all, path)->0;
            let c = all[i].child_datasets;
            assert(c.push(d)[c.len() as int] == d);
            assert(extends(all, now)) by {
                assert forall|x: int| 0 <= x < all.len() implies {
                    &&& (#[trigger] all[x]).name == now[x].name
                    &&& all[x].parent == now[x].parent
                    &&& forall|y: usize| #[trigger]
                        all[x].child_datasets.contains(y) ==> now[x].child_datasets.contains(y)
                } by {
                    assert forall|y: usize| #[trigger]
                        all[x].child_datasets.contains(y) implies now[x].child_datasets.contains(
                        y,
                    ) by {
                        let z = choose|z: int|
                            0 <= z < all[x].child_datasets.len() && all[x].child_datasets[z] == y;
                        assert(now[x].child_datasets[z] == y);
                    }
                }
            }
            lemma_still_there(all, now, path);
            lemma_extends(gs, all, now);
        },
    }
}

/// Every dataset with a group in its path is a child of the group that its path leads
/// to.
pub proof fn lemma_regrouped(names: Seq<Seq<char>>, n: nat, d: int)
    requires
        0 <= d < n <= names.len(),
        n <= usize::MAX,
    ensures
        last_slash(names[d], names[d].len()) matches Some(j) ==> (group_at(
            regrouped(names, n),
            path_upto(names[d], j),
        ) matches Some(i) && regrouped(names, n)[i].child_datasets.contains(d as usize)),
    decreases n,
{
    let before = regrouped(names, (n - 1) as nat);
    lemma_dataset_added(before, names[n - 1], (n - 1) as usize);
    if d < n - 1 {
        lemma_regrouped(names, (n - 1) as nat, d);
        match last_slash(names[d], names[d].len()) {
            Some(j) => {
                let path = path_upto(names[d], j);
                lemma_still_there(before, regrouped(names, n), path);
                let i = group_at(before, path)->0;
                lemma_position_is(before.len(), at_path(before, path));
                assert(before[i].name == regrouped(names, n)[i].name);
            },
            None => {},
        }
    }
}

/// Whether no slash stands at an end of a name or behind another at `k`.
pub open spec fn slash_ok(name: Seq<char>, k: int) -> bool {
    name[k] == '/' ==> 0 < k < name.len() - 1 && name[k - 1] != '/'
}

/// Whether a path has no empty parts.
pub open spec fn proper(name: Seq<char>) -> bool {
    forall|k: int| 0 <= k < name.len() ==> #[trigger] slash_ok(name, k)
}

/// Whether a group is listed in its parent and named after it.
pub open spec fn hangs(gs: Seq<GroupShape>, g: int) -> bool {
    let x = gs[g];
    &&& leaf(x.name).len() > 0
    &&& match x.parent {
        None => x.name == seq!['/'] + leaf(x.name),
        Some(p) => {
            &&& p < g
            &&& gs[p as int].child_groups.contains(g as usize)
            &&& x.name == gs[p as int].name + seq!['/'] + leaf(x.name)
        },
    }
}

/// Whether groups and their parents agree.
pub open spec fn well_shaped(gs: Seq<GroupShape>) -> bool {
    &&& forall|p: int, k: int|
        0 <= p < gs.len() && 0 <= k < gs[p].child_groups.len() ==> (#[trigger]
        gs[p].child_groups[k]) < gs.len() && gs[gs[p].child_groups[k] as int].parent == Some(
            p as usize,
        )
    &&& forall|g: int| 0 <= g < gs.len() ==> #[trigger] hangs(gs, g)
}

proof fn lemma_shape_added(gs: Seq<GroupShape>, name: Seq<char>, k: int)
    requires
        well_shaped(gs),
        proper(name),
        0 <= k < name.len(),
        name[k] == '/',
        with_group_at(gs, name, k).len() <= usize::MAX,
        last_slash(name, k as nat) matches Some(j) ==> group_at(gs, path_upto(name, j)) is Some,
    ensures
        well_shaped(with_group_at(gs, name, k)),
{
    let path = path_upto(name, k);
    let now = with_group_at(gs, name, k);
    if group_at(gs, path) is None {
        let n = gs.len() as int;
        let parent = parent_at(gs, name, k);
        assert(slash_ok(name, k));
        lemma_last_slash(name, k as nat);
        match last_slash(name, k as nat) {
            None => {
                let b = name.take(k);
                assert(!b.contains('/')) by {
                    if b.contains('/') {
                        let x = choose|x: int| 0 <= x < b.len() && b[x] == '/';
                        assert(name[x] != '/');
                    }
                }
                lemma_leaf_of(Seq::empty(), b);
                assert(Seq::<char>::empty() + seq!['/'] + b =~= path);
                assert(leaf(path) == b);
            },
            Some(j) => {
                assert(slash_ok(name, j));
                let up = path_upto(name, j);
                lemma_position_is(gs.len(), at_path(gs, up));
                let i = group_at(gs, up)->0;
                assert(at_path(gs, up)(i));
                let b = name.subrange(j + 1, k);
                assert(!b.contains('/')) by {
                    if b.contains('/') {
                        let x = choose|x: int| 0 <= x < b.len() && b[x] == '/';
                        assert(name[j + 1 + x] != '/');
                    }
                }
                lemma_leaf_of(up, b);
                assert(up + seq!['/'] + b =~= path);
                assert(name[k - 1] != '/');
                assert(b.len() > 0);
                let c = gs[i].child_groups;
                assert(now[i].child_groups[c.len() as int] == n as usize);
            },
        }
        assert forall|g: int| 0 <= g < now.len() implies #[trigger] hangs(now, g) by {
            if g < n {
                assert(hangs(gs, g));
                assert(now[g].name == gs[g].name && now[g].parent == gs[g].parent);
                match gs[g].parent {
                    Some(p) => {
                        let c = gs[p as int].child_groups;
                        let x = choose|x: int| 0 <= x < c.len() && c[x] == g as usize;
                        assert(now[p as int].child_groups[x] == g as usize);
                    },
                    None => {},
                }
            }
        }
        assert forall|p: int, x: int|
            0 <= p < now.len() && 0 <= x < now[p].child_groups.len() implies (#[trigger]
        now[p].child_groups[x]) < now.len() && now[now[p].child_groups[x] as int].parent == Some(
            p as usize,
        ) by {
            if p < n {
                let c = gs[p].child_groups;
                if x < c.len() {
                    assert(gs[p].child_groups[x] < gs.len());
                    assert(now[p].child_groups[x] == c[x]);
                    assert(now[c[x] as int].parent == gs[c[x] as int].parent);
                }
            }
        }
    }
}

proof fn lemma_shapes_on(gs: Seq<GroupShape>, name: Seq<char>, k: nat)
    requires
        well_shaped(gs),
        proper(name),
        k <= name.len(),
        groups_on(gs, name, k).len() <= usize::MAX,
    ensures
        well_shaped(groups_on(gs, name, k)),
    decreases k,
{
    if k > 0 {
        let before = groups_on(gs, name, (k - 1) as nat);
        lemma_groups_on(gs, name, (k - 1) as nat);
        if name[k - 1] == '/' {
            lemma_group_added(before, name, k - 1);
        }
        lemma_shapes_on(gs, name, (k - 1) as nat);
        if name[k - 1] == '/' {
            lemma_shape_added(before, name, k - 1);
        }
    }
}

/// The groups that are found again from the paths of datasets are listed in their parents
/// and named after them; a dataset without a group in its path is in none.
pub proof fn lemma_regrouped_shapes(names: Seq<Seq<char>>, n: nat)
    requires
        n <= names.len(),
        n <= usize::MAX,
        regrouped(names, n).len() <= usize::MAX,
        forall|i: int| 0 <= i < names.len() ==> proper(#[trigger] names[i]),
    ensures
        well_shaped(regrouped(names, n)),
        forall|g: int, d: usize|
            0 <= g < regrouped(names, n).len() && #[trigger] regrouped(
                names,
                n,
            )[g].child_datasets.contains(d) ==> d < n && last_slash(
                names[d as int],
                names[d as int].len(),
            ) is Some,
    decreases n,
{
    if n > 0 {
        let before = regrouped(names, (n - 1) as nat);
        let name = names[n - 1];
        let all = groups_on(before, name, name.len());
        let now = regrouped(names, n);
        lemma_groups_on(before, name, name.len());
        match last_slash(name, name.len()) {
            None => {},
            Some(j) => {
                lemma_position_is(all.len(), at_path(all, path_upto(name, j)));
            },
        }
        assert(now.len() == all.len());
        lemma_regrouped_shapes(names, (n - 1) as nat);
        assert(proper(name));
        lemma_shapes_on(before, name, name.len());
        lemma_children_on(before, name, name.len());
        match last_slash(name, name.len()) {
            None => {},
            Some(_) => {
                assert forall|g: int| 0 <= g < now.len() implies #[trigger] hangs(now, g) by {
                    assert(hangs(all, g));
                }
                assert forall|p: int, x: int|
                    0 <= p < now.len() && 0 <= x < now[p].child_groups.len() implies (#[trigger]
                now[p].child_groups[x]) < now.len() && now[now[p].child_groups[x] as int].parent
                    == Some(p as usize) by {
                    assert(all[p].child_groups[x] < all.len());
                }
            },
        }
        assert forall|g: int, d: usize|
            0 <= g < now.len() && #[trigger] now[g].child_datasets.contains(d) implies d < n
            && last_slash(names[d as int], names[d as int].len()) is Some by {
            let c = now[g].child_datasets;
            let x = choose|x: int| 0 <= x < c.len() && c[x] == d;
            if d != n - 1 || last_slash(name, name.len()) is None {
                assert(all[g].child_datasets.contains(d)) by {
                    assert(all[g].child_datasets[x] == d);
                }
                assert(g < before.len() && before[g].child_datasets.contains(d));
            }
        }
    }
}

/// New groups have no datasets.
proof fn lemma_children_on(gs: Seq<GroupShape>, name: Seq<char>, k: nat)
    requires
        k <= name.len(),
    ensures
        ({
            let now = groups_on(gs, name, k);
            &&& gs.len() <= now.len()
            &&& forall|g: int|
                0 <= g < now.len() ==> (#[trigger] now[g]).child_datasets == if g < gs.len() {
                    gs[g].child_datasets
                } else {
                    Seq::empty()
                }
        }),
    decreases k,
{
    if k > 0 {
        lemma_children_on(gs, name, (k - 1) as nat);
        let before = groups_on(gs, name, (k - 1) as nat);
        if name[k - 1] == '/' {
            match last_slash(name, (k - 1) as nat) {
                Some(j) => {
                    lemma_position_is(before.len(), at_path(before, path_upto(name, j)));
                },
                None => {},
            }
        }
    }
}

/// Whether groups differ in their names.
pub open spec fn distinct(gs: Seq<GroupShape>) -> bool {
    forall|i: int, j: int|
        0 <= i < j < gs.len() ==> (#[trigger] gs[i]).name != (#[trigger] gs[j]).name
}

proof fn lemma_distinct_added(gs: Seq<GroupShape>, name: Seq<char>, k: int)
    requires
        distinct(gs),
        0 <= k <= name.len(),
    ensures
        distinct(with_group_at(gs, name, k)),
{
    let path = path_upto(name, k);
    let now = with_group_at(gs, name, k);
    lemma_group_added(gs, name, k);
    lemma_position_is(gs.len(), at_path(gs, path));
    if group_at(gs, path) is None {
        match last_slash(name, k as nat) {
            Some(j) => {
                lemma_position_is(gs.len(), at_path(gs, path_upto(name, j)));
            },
            None => {},
        }
        assert(now.len() == gs.len() + 1);
        assert forall|i: int, j: int| 0 <= i < j < now.len() implies (#[trigger] now[i]).name != (
        #[trigger] now[j]).name by {
            assert(gs[i].name == now[i].name);
            if j < gs.len() {
                assert(gs[j].name == now[j].name);
            } else {
                assert(!at_path(gs, path)(i));
                assert(now[j].name == path);
            }
        }
    }
}

proof fn lemma_distinct_on(gs: Seq<GroupShape>, name: Seq<char>, k: nat)
    requires
        distinct(gs),
        k <= name.len(),
    ensures
        distinct(groups_on(gs, name, k)),
    decreases k,
{
    if k > 0 {
        lemma_distinct_on(gs, name, (k - 1) as nat);
        if name[k - 1] == '/' {
            lemma_distinct_added(groups_on(gs, name, (k - 1) as nat), name, k - 1);
        }
    }
}

/// The groups that are found again from the paths of datasets differ in their names.
pub proof fn lemma_regrouped_distinct(names: Seq<Seq<char>>, n: nat)
    requires
        n <= names.len(),
    ensures
        distinct(regrouped(names, n)),
    decreases n,
{
    if n > 0 {
        let before = regrouped(names, (n - 1) as nat);
        let name = names[n - 1];
        let all = groups_on(before, name, name.len());
        lemma_regrouped_distinct(names, (n - 1) as nat);
        lemma_distinct_on(before, name, name.len());
        match last_slash(name, name.len()) {
            None => {},
            Some(j) => {
                lemma_position_is(all.len(), at_path(all, path_upto(name, j)));
            },
        }
    }
}

} // verus!
