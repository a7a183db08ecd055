//! What a walk over the groups of a file finds.

use crate::io::reader::messages::{
    attributes_of, dataset_of, infos, named_datatype, InfoView, ReadView,
};
use crate::io::reader::walk::{
    entry_of, lemma_rest_needs, link_visited, linked, nothing, path_of, walked, with_group,
    with_path, FoundView, GroupView, Objects, MAX_GROUP_DEPTH,
};
use crate::io::search::{lemma_position_is, position};
use crate::io::writer::headers::BodyView;
use vstd::prelude::*;

verus! {

/// The link in message `k`.
pub open spec fn link_at(m: Seq<InfoView>, k: int) -> Option<(Seq<char>, u64)> {
    match m[k].body {
        Some(BodyView::Link { name, addr }) => Some((name, addr)),
        _ => None,
    }
}

/// The name of the link in message `k`.
pub open spec fn link_name(m: Seq<InfoView>, k: int) -> Seq<char> {
    match link_at(m, k) {
        Some((name, _)) => name,
        None => Seq::empty(),
    }
}

/// What the link in message `k` leads to.
pub open spec fn link_addr(m: Seq<InfoView>, k: int) -> u64 {
    match link_at(m, k) {
        Some((_, addr)) => addr,
        None => 0,
    }
}

/// The messages of the object at `a`.
pub open spec fn messages_at(o: Objects, a: u64) -> Seq<InfoView> {
    infos(o.nodes@[a]->0.messages@)
}

/// Whether there is a group at `a`.
pub open spec fn group_header(o: Objects, a: u64) -> bool {
    &&& o.nodes@.contains_key(a)
    &&& o.nodes@[a] is Some
    &&& dataset_of(messages_at(o, a), Seq::empty()) is None
    &&& !named_datatype(messages_at(o, a))
}

/// A file, as far as its groups are concerned: the messages and the address of the root
/// group, and the other objects.
pub struct Tree {
    pub root: Seq<InfoView>,
    pub addr: u64,
    pub objects: Objects,
}

impl Tree {
    /// Whether there is a group at `a`.
    pub open spec fn has(self, a: u64) -> bool {
        a == self.addr || group_header(self.objects, a)
    }

    /// The messages of the group at `a`.
    pub open spec fn at(self, a: u64) -> Seq<InfoView> {
        if a == self.addr {
            self.root
        } else {
            messages_at(self.objects, a)
        }
    }

    /// Whether link `k` of group `p` leads to `a`.
    pub open spec fn link(self, p: u64, k: int, a: u64) -> bool {
        &&& self.has(p)
        &&& 0 <= k < self.at(p).len()
        &&& link_at(self.at(p), k) matches Some(l) && l.1 == a
    }

    /// How the walk came to a group by a link of one that it had entered before.
    pub open spec fn entered(self, e: Map<u64, Entry>, q: u64, k: int, a: u64) -> bool {
        &&& e.contains_key(q)
        &&& self.link(q, k, a)
        &&& e[a] == Entry {
            path: path_of(e[q].path, link_name(self.at(q), k)),
            depth: e[q].depth + 1,
        }
    }

    /// Whether the attributes are those of a group to which a link leads from a group
    /// that the walk has entered.
    pub open spec fn carried(self, e: Map<u64, Entry>, v: GroupView) -> bool {
        v.attributes.len() > 0 && exists|q: u64, k: int, a: u64|
            {
                &&& e.contains_key(q)
                &&& #[trigger] self.link(q, k, a)
                &&& group_header(self.objects, a)
                &&& v.path == path_of(e[q].path, link_name(self.at(q), k))
                &&& v.attributes == attributes_of(
                    messages_at(self.objects, a),
                    messages_at(self.objects, a).len(),
                )
            }
    }

    /// Whether the dataset is one to which a link leads from a group that the walk has
    /// entered, under the path of the group and the name of the link.
    pub open spec fn named(self, e: Map<u64, Entry>, d: ReadView) -> bool {
        exists|q: u64, k: int, a: u64|
            {
                &&& e.contains_key(q)
                &&& #[trigger] self.link(q, k, a)
                &&& self.objects.nodes@.contains_key(a)
                &&& self.objects.nodes@[a] is Some
                &&& dataset_of(
                    messages_at(self.objects, a),
                    path_of(e[q].path, link_name(self.at(q), k)),
                ) == Some(d)
            }
    }

    /// Whether everything has been found to which the first `n` messages of the group at
    /// `a` lead.
    pub open spec fn covered(self, f: FoundView, e: Map<u64, Entry>, a: u64, n: nat) -> bool {
        forall|k: int|
            0 <= k < n && (#[trigger] link_at(self.at(a), k)) is Some ==> reached(
                self.objects,
                f,
                path_of(e[a].path, link_name(self.at(a), k)),
                link_addr(self.at(a), k),
            )
    }

    /// What holds during a walk. `open` are the groups that it has not finished.
    pub open spec fn kept(self, f: FoundView, e: Map<u64, Entry>, open: Set<u64>) -> bool {
        &&& e.dom() == f.visited
        &&& e.contains_key(self.addr)
        &&& e[self.addr] == Entry { path: Seq::empty(), depth: 0 }
        &&& forall|a: u64| #[trigger]
            e.contains_key(a) && a != self.addr ==> group_header(self.objects, a) && exists|
                q: u64,
                k: int,
            |
                #[trigger] self.entered(e, q, k, a)
        &&& forall|a: u64| #[trigger]
            e.contains_key(a) && !open.contains(a) && e[a].depth <= MAX_GROUP_DEPTH
                ==> self.covered(f, e, a, self.at(a).len())
        &&& forall|i: int| 0 <= i < f.groups.len() ==> self.carried(e, #[trigger] f.groups[i])
        &&& forall|i: int| 0 <= i < f.datasets.len() ==> self.named(e, #[trigger] f.datasets[i])
    }

    /// Whether a walk has found everything: each group was entered once, under one path,
    /// and everything to which its links lead was found under that path and the name of
    /// the link.
    pub open spec fn complete(self, f: FoundView, e: Map<u64, Entry>) -> bool {
        self.kept(f, e, Set::empty())
    }
}

/// How a walk came to a group: under which path, and through how many groups.
#[verifier::ext_equal]
pub struct Entry {
    pub path: Seq<char>,
    pub depth: nat,
}

/// Whether there are attributes for the group at `path`.
pub open spec fn has_attributes(gs: Seq<GroupView>, path: Seq<char>) -> bool {
    exists|i: int| 0 <= i < gs.len() && #[trigger] gs[i].path == path
}

/// Whether what stands at `a` has been found under `path`: a dataset, or a group with its
/// attributes.
pub open spec fn reached(o: Objects, f: FoundView, path: Seq<char>, a: u64) -> bool {
    &&& o.nodes@.contains_key(a)
    &&& o.nodes@[a] is Some ==> match dataset_of(messages_at(o, a), path) {
        Some(d) => f.datasets.contains(d),
        None => !named_datatype(messages_at(o, a)) ==> {
            &&& f.paths.contains(path)
            &&& f.visited.contains(a)
            &&& attributes_of(messages_at(o, a), messages_at(o, a).len()).len() > 0
                ==> has_attributes(f.groups, path)
        },
    }
}

/// Whether what `f` has found, `g` has found too.
pub open spec fn grown(f: FoundView, g: FoundView) -> bool {
    &&& forall|d: ReadView| #[trigger]
        f.datasets.contains(d) ==> g.datasets.contains(d)
    &&& forall|p: Seq<char>| #[trigger] f.paths.contains(p) ==> g.paths.contains(p)
    &&& f.visited.subset_of(g.visited)
    &&& forall|p: Seq<char>| #[trigger]
        has_attributes(f.groups, p) ==> has_attributes(g.groups, p)
}

/// Whether the groups of `e` were entered in `x` in the same way.
pub open spec fn extends(e: Map<u64, Entry>, x: Map<u64, Entry>) -> bool {
    forall|a: u64| #[trigger] e.contains_key(a) ==> x.contains_key(a) && x[a] == e[a]
}

/// What holds of a walk goes on holding when more is found.
proof fn lemma_kept_grows(
    t: Tree,
    f: FoundView,
    g: FoundView,
    e: Map<u64, Entry>,
    open: Set<u64>,
)
    requires
        t.kept(f, e, open),
        grown(f, g),
        g.visited == f.visited,
        forall|i: int| 0 <= i < g.groups.len() ==> t.carried(e, #[trigger] g.groups[i]),
        forall|i: int| 0 <= i < g.datasets.len() ==> t.named(e, #[trigger] g.datasets[i]),
    ensures
        t.kept(g, e, open),
{
    assert forall|a: u64| #[trigger]
        e.contains_key(a) && !open.contains(a) && e[a].depth <= MAX_GROUP_DEPTH implies t.covered(
        g,
        e,
        a,
        t.at(a).len(),
    ) by {
        assert(t.covered(f, e, a, t.at(a).len()));
    }
}

proof fn lemma_covered_grows(
    t: Tree,
    f: FoundView,
    g: FoundView,
    e: Map<u64, Entry>,
    x: Map<u64, Entry>,
    a: u64,
    n: nat,
)
    requires
        t.covered(f, e, a, n),
        grown(f, g),
        x[a] == e[a],
    ensures
        t.covered(g, x, a, n),
{
}

proof fn lemma_with_group(t: Tree, e: Map<u64, Entry>, gs: Seq<GroupView>, v: GroupView)
    requires
        forall|i: int| 0 <= i < gs.len() ==> t.carried(e, #[trigger] gs[i]),
        v.attributes.len() > 0 ==> t.carried(e, v),
    ensures
        ({
            let r = with_group(gs, v.path, v.attributes);
            &&& forall|i: int| 0 <= i < r.len() ==> t.carried(e, #[trigger] r[i])
            &&& forall|p: Seq<char>| #[trigger] has_attributes(gs, p) ==> has_attributes(r, p)
            &&& v.attributes.len() > 0 ==> has_attributes(r, v.path)
        }),
{
    let r = with_group(gs, v.path, v.attributes);
    lemma_position_is(gs.len(), entry_of(gs, v.path));
    if v.attributes.len() > 0 {
        let at = match position(gs.len(), entry_of(gs, v.path)) {
            Some(i) => {
                assert(entry_of(gs, v.path)(i));
                i
            },
            None => gs.len() as int,
        };
        assert(r[at] == v);
        assert(r[at].path == v.path);
        assert forall|p: Seq<char>| #[trigger] has_attributes(gs, p) implies has_attributes(
            r,
            p,
        ) by {
            let i = choose|i: int| 0 <= i < gs.len() && #[trigger] gs[i].path == p;
            assert(r[i].path == p);
        }
    }
}

proof fn lemma_with_path(paths: Seq<Seq<char>>, path: Seq<char>)
    ensures
        with_path(paths, path).contains(path),
        forall|p: Seq<char>| #[trigger]
            paths.contains(p) ==> with_path(paths, path).contains(p),
{
    let r = with_path(paths, path);
    if !paths.contains(path) {
        assert(r[paths.len() as int] == path);
    }
    assert forall|p: Seq<char>| #[trigger] paths.contains(p) implies r.contains(p) by {
        let i = choose|i: int| 0 <= i < paths.len() && paths[i] == p;
        assert(r[i] == p);
    }
}

/// Whether messages describe a dataset does not depend on its name.
proof fn lemma_any_name(m: Seq<InfoView>, path: Seq<char>)
    ensures
        dataset_of(m, path) is Some <==> dataset_of(m, Seq::empty()) is Some,
{
}

/// One more group is entered.
proof fn lemma_enter(
    t: Tree,
    f: FoundView,
    e: Map<u64, Entry>,
    open: Set<u64>,
    p: u64,
    k: int,
    a: u64,
) -> (x: Map<u64, Entry>)
    requires
        t.kept(f, e, open),
        e.contains_key(p),
        t.link(p, k, a),
        group_header(t.objects, a),
        !e.contains_key(a),
    ensures
        t.kept(FoundView { visited: f.visited.insert(a), ..f }, x, open.insert(a)),
        extends(e, x),
        x.contains_key(a),
        x[a] == (Entry {
            path: path_of(e[p].path, link_name(t.at(p), k)),
            depth: e[p].depth + 1,
        }),
{
    let n = Entry {
        path: path_of(e[p].path, link_name(t.at(p), k)),
        depth: e[p].depth + 1,
    };
    let x = e.insert(a, n);
    let h = FoundView { visited: f.visited.insert(a), ..f };
    assert(x.dom() =~= h.visited);
    assert(grown(f, h));
    assert forall|b: u64| #[trigger]
        x.contains_key(b) && b != t.addr implies group_header(t.objects, b) && exists|
        q: u64,
        j: int,
    |
        #[trigger] t.entered(x, q, j, b) by {
        if b == a {
            assert(t.entered(x, p, k, a));
        } else {
            assert(e.contains_key(b));
            let (q, j) = choose|q: u64, j: int| #[trigger] t.entered(e, q, j, b);
            assert(q != a);
            assert(t.entered(x, q, j, b));
        }
    }
    assert forall|b: u64| #[trigger]
        x.contains_key(b) && !open.insert(a).contains(b) && x[b].depth <= MAX_GROUP_DEPTH implies t.covered(
        h,
        x,
        b,
        t.at(b).len(),
    ) by {
        assert(e.contains_key(b));
        lemma_covered_grows(t, f, h, e, x, b, t.at(b).len());
    }
    assert forall|i: int| 0 <= i < h.groups.len() implies t.carried(x, #[trigger] h.groups[i]) by {
        lemma_carried(t, e, x, f.groups[i]);
    }
    assert forall|i: int| 0 <= i < h.datasets.len() implies t.named(
        x,
        #[trigger] h.datasets[i],
    ) by {
        let d = f.datasets[i];
        assert(t.named(e, d));
        let (q, j, b) = choose|q: u64, j: int, b: u64|
            {
                &&& e.contains_key(q)
                &&& #[trigger] t.link(q, j, b)
                &&& t.objects.nodes@.contains_key(b)
                &&& t.objects.nodes@[b] is Some
                &&& dataset_of(
                    messages_at(t.objects, b),
                    path_of(e[q].path, link_name(t.at(q), j)),
                ) == Some(d)
            };
        assert(x.contains_key(q) && t.link(q, j, b));
    }
    x
}

proof fn lemma_carried(t: Tree, e: Map<u64, Entry>, x: Map<u64, Entry>, v: GroupView)
    requires
        t.carried(e, v),
        extends(e, x),
    ensures
        t.carried(x, v),
{
    let (q, k, a) = choose|q: u64, k: int, a: u64|
        {
            &&& e.contains_key(q)
            &&& #[trigger] t.link(q, k, a)
            &&& group_header(t.objects, a)
            &&& v.path == path_of(e[q].path, link_name(t.at(q), k))
            &&& v.attributes == attributes_of(
                messages_at(t.objects, a),
                messages_at(t.objects, a).len(),
            )
        };
    assert(x.contains_key(q) && t.link(q, k, a));
}

/// The first `k` messages of a group that the walk has entered.
proof fn lemma_walk(
    t: Tree,
    p: u64,
    k: nat,
    f: FoundView,
    e: Map<u64, Entry>,
    open: Set<u64>,
) -> (x: Map<u64, Entry>)
    requires
        t.kept(f, e, open),
        e.contains_key(p),
        open.contains(p),
        t.has(p),
        e[p].depth <= MAX_GROUP_DEPTH,
        k <= t.at(p).len(),
        walked(t.objects, t.at(p), e[p].path, e[p].depth, k, f).need is None,
    ensures
        ({
            let g = walked(t.objects, t.at(p), e[p].path, e[p].depth, k, f);
            &&& t.kept(g, x, open)
            &&& grown(f, g)
            &&& extends(e, x)
            &&& t.covered(g, x, p, k)
        }),
    decreases 257 - e[p].depth, k,
{
    let o = t.objects;
    let m = t.at(p);
    let prefix = e[p].path;
    let depth = e[p].depth;
    if k == 0 {
        e
    } else {
        lemma_rest_needs(o, m, prefix, depth, (k - 1) as nat, k, f);
        let y = lemma_walk(t, p, (k - 1) as nat, f, e, open);
        let g = walked(o, m, prefix, depth, (k - 1) as nat, f);
        let r = walked(o, m, prefix, depth, k, f);
        match m[k - 1].body {
            Some(BodyView::Link { name, addr }) => {
                let path = path_of(prefix, name);
                assert(link_at(m, k - 1) == Some((name, addr)));
                assert(t.link(p, k - 1, addr));
                assert(r == link_visited(o, path, depth, addr, g));
                assert(y[p] == e[p]);
                let x = lemma_visit(t, p, k - 1, g, y, open);
                lemma_covered_grows(t, g, r, y, x, p, (k - 1) as nat);
                assert(reached(o, r, path, addr));
                assert(t.covered(r, x, p, k)) by {
                    assert forall|j: int|
                        0 <= j < k && (#[trigger] link_at(t.at(p), j)) is Some implies reached(
                        o,
                        r,
                        path_of(x[p].path, link_name(t.at(p), j)),
                        link_addr(t.at(p), j),
                    ) by {
                        if j == k - 1 {
                        }
                    }
                }
                x
            },
            _ => {
                assert(link_at(m, k - 1) is None);
                assert(t.covered(r, y, p, k)) by {
                    assert forall|j: int|
                        0 <= j < k && (#[trigger] link_at(t.at(p), j)) is Some implies reached(
                        o,
                        r,
                        path_of(y[p].path, link_name(t.at(p), j)),
                        link_addr(t.at(p), j),
                    ) by {
                        assert(j < k - 1);
                    }
                }
                y
            },
        }
    }
}

/// What link `k` of a group leads to.
proof fn lemma_visit(
    t: Tree,
    p: u64,
    k: int,
    f: FoundView,
    e: Map<u64, Entry>,
    open: Set<u64>,
) -> (x: Map<u64, Entry>)
    requires
        t.kept(f, e, open),
        e.contains_key(p),
        e[p].depth <= MAX_GROUP_DEPTH,
        0 <= k < t.at(p).len(),
        link_at(t.at(p), k) is Some,
        t.has(p),
        link_visited(
            t.objects,
            path_of(e[p].path, link_name(t.at(p), k)),
            e[p].depth,
            link_addr(t.at(p), k),
            f,
        ).need is None,
    ensures
        ({
            let path = path_of(e[p].path, link_name(t.at(p), k));
            let addr = link_addr(t.at(p), k);
            let g = link_visited(t.objects, path, e[p].depth, addr, f);
            &&& t.kept(g, x, open)
            &&& grown(f, g)
            &&& extends(e, x)
            &&& reached(t.objects, g, path, addr)
        }),
    decreases 257 - e[p].depth, 0nat,
{
    let o = t.objects;
    let (name, addr) = link_at(t.at(p), k)->0;
    let depth = e[p].depth;
    let path = path_of(e[p].path, name);
    let r = link_visited(o, path, depth, addr, f);
    assert(t.link(p, k, addr));
    assert(o.nodes@.contains_key(addr));
    match o.nodes@[addr] {
        None => {
            assert(grown(f, r));
            e
        },
        Some(node) => {
            let m = messages_at(o, addr);
            lemma_any_name(m, path);
            match dataset_of(m, path) {
                Some(d) => {
                    assert(r.datasets[f.datasets.len() as int] == d);
                    assert(grown(f, r)) by {
                        assert forall|y: ReadView| #[trigger]
                            f.datasets.contains(y) implies r.datasets.contains(y) by {
                            let i = choose|i: int| 0 <= i < f.datasets.len() && f.datasets[i] == y;
                            assert(r.datasets[i] == y);
                        }
                    }
                    assert(t.named(e, d));
                    assert forall|i: int| 0 <= i < r.datasets.len() implies t.named(
                        e,
                        #[trigger] r.datasets[i],
                    ) by {
                        if i < f.datasets.len() {
                            assert(r.datasets[i] == f.datasets[i]);
                        }
                    }
                    lemma_kept_grows(t, f, r, e, open);
                    e
                },
                None => if named_datatype(m) {
                    assert(grown(f, r));
                    e
                } else {
                    let v = GroupView { path, attributes: attributes_of(m, m.len()) };
                    let g = FoundView {
                        paths: with_path(f.paths, path),
                        groups: with_group(f.groups, path, attributes_of(m, m.len())),
                        ..f
                    };
                    assert(v.attributes.len() > 0 ==> t.carried(e, v));
                    lemma_with_group(t, e, f.groups, v);
                    lemma_with_path(f.paths, path);
                    assert(grown(f, g));
                    lemma_kept_grows(t, f, g, e, open);
                    if g.visited.contains(addr) {
                        assert(r == g);
                        e
                    } else {
                        let h = FoundView { visited: g.visited.insert(addr), ..g };
                        let y = lemma_enter(t, g, e, open, p, k, addr);
                        assert(t.at(addr) == m);
                        assert(r == walked(o, m, path, depth + 1, m.len(), h));
                        let wide = open.insert(addr);
                        assert(grown(f, h));
                        assert(reached(o, h, path, addr));
                        if depth + 1 > MAX_GROUP_DEPTH {
                            assert(r == h);
                            lemma_closing(t, r, y, open, addr);
                            y
                        } else {
                            let x = lemma_walk(t, addr, m.len(), h, y, wide);
                            lemma_closing(t, r, x, open, addr);
                            x
                        }
                    }
                },
            }
        },
    }
}

proof fn lemma_closing(t: Tree, f: FoundView, e: Map<u64, Entry>, open: Set<u64>, a: u64)
    requires
        t.kept(f, e, open.insert(a)),
        e.contains_key(a),
        e[a].depth <= MAX_GROUP_DEPTH ==> t.covered(f, e, a, t.at(a).len()),
    ensures
        t.kept(f, e, open),
{
}

/// A walk from the root header finds everything, once everything has been read: every
/// group that it enters, it enters once and under one path, and what the links of the
/// group lead to it finds under that path and the names of the links; it finds no other
/// datasets.
pub proof fn lemma_walk_complete(t: Tree)
    requires
        linked(t.objects, t.root, t.addr).need is None,
    ensures
        exists|e: Map<u64, Entry>| t.complete(linked(t.objects, t.root, t.addr), e),
{
    let f = nothing(t.addr);
    let e = Map::<u64, Entry>::empty().insert(
        t.addr,
        Entry { path: Seq::empty(), depth: 0 },
    );
    let open = set![t.addr];
    assert(e.dom() =~= f.visited);
    assert(t.at(t.addr) == t.root);
    assert(t.kept(f, e, open));
    let x = lemma_walk(t, t.addr, t.root.len(), f, e, open);
    let r = linked(t.objects, t.root, t.addr);
    assert(open =~= Set::empty().insert(t.addr));
    lemma_closing(t, r, x, Set::empty(), t.addr);
    assert(t.complete(r, x));
}

/// Whether what the links of a group lead to has been read, and is no group but one of
/// `known`.
pub open spec fn leads_within(o: Objects, known: Set<u64>, m: Seq<InfoView>) -> bool {
    forall|k: int|
        0 <= k < m.len() && (#[trigger] link_at(m, k)) is Some ==> {
            &&& o.nodes@.contains_key(link_addr(m, k))
            &&& group_header(o, link_addr(m, k)) ==> known.contains(link_addr(m, k))
        }
}

/// A walk over groups whose links all lead to what has been read needs nothing more.
pub proof fn lemma_walk_needs_nothing(
    o: Objects,
    known: Set<u64>,
    m: Seq<InfoView>,
    prefix: Seq<char>,
    depth: nat,
    k: nat,
    f: FoundView,
)
    requires
        k <= m.len(),
        f.need is None,
        leads_within(o, known, m),
        forall|a: u64| #[trigger]
            known.contains(a) && group_header(o, a) ==> leads_within(o, known, messages_at(o, a)),
    ensures
        walked(o, m, prefix, depth, k, f).need is None,
    decreases 257 - depth, k,
{
    if depth <= MAX_GROUP_DEPTH && k > 0 {
        lemma_walk_needs_nothing(o, known, m, prefix, depth, (k - 1) as nat, f);
        let g = walked(o, m, prefix, depth, (k - 1) as nat, f);
        match m[k - 1].body {
            Some(BodyView::Link { name, addr }) => {
                assert(link_at(m, k - 1) == Some((name, addr)));
                let path = path_of(prefix, name);
                let r = link_visited(o, path, depth, addr, g);
                assert(walked(o, m, prefix, depth, k, f) == r);
                match o.nodes@[addr] {
                    Some(node) => {
                        let n = infos(node.messages@);
                        lemma_any_name(n, path);
                        if dataset_of(n, path) is None && !named_datatype(n) {
                            assert(group_header(o, addr));
                            assert(known.contains(addr));
                            let h = FoundView {
                                paths: with_path(g.paths, path),
                                groups: with_group(g.groups, path, attributes_of(n, n.len())),
                                visited: g.visited.insert(addr),
                                ..g
                            };
                            assert(n == messages_at(o, addr));
                            lemma_walk_needs_nothing(o, known, n, path, depth + 1, n.len(), h);
                            if !g.visited.contains(addr) {
                                assert(r == walked(o, n, path, depth + 1, n.len(), h));
                            }
                        }
                    },
                    None => {},
                }
            },
            _ => {},
        }
    }
}

} // verus!
