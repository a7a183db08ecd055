//! What a walk over the symbol tables of a file finds.

use crate::format::UNDEF_ADDR;
use crate::io::reader::messages::{attributes_of, dataset_of, infos, named_datatype, ReadView};
use crate::io::reader::paths::{group_header, has_attributes, messages_at};
use crate::io::reader::walk::{
    entries_walked, entry_of, entry_visited, nothing, path_of, table_of, tabled, with_group,
    with_path, FoundView, GroupView, Objects, SymbolEntry, MAX_GROUP_DEPTH,
};
use crate::io::search::{lemma_position_is, position};
use vstd::prelude::*;

verus! {

/// How a walk came to a group: under which path, through how many groups, and which symbol
/// table is the group's.
#[verifier::ext_equal]
pub struct Way {
    pub path: Seq<char>,
    pub depth: nat,
    pub btree: u64,
    pub heap: u64,
}

/// The path of an object in a group: that of the group, a slash and the name of the object.
/// In the root group it is the name.
pub open spec fn below(path: Seq<char>, name: Seq<char>) -> Seq<char> {
    if path.len() == 0 {
        name
    } else {
        path + seq!['/'] + name
    }
}

proof fn lemma_below(path: Seq<char>, name: Seq<char>)
    ensures
        path_of(path, name) == below(path, name),
{
    reveal_strlit("/");
    assert("/"@ =~= seq!['/']);
}

/// A file with symbol tables: its objects, and the symbol table and the header of the root
/// group.
pub struct Tables {
    pub objects: Objects,
    pub btree: u64,
    pub heap: u64,
    pub root: u64,
}

impl Tables {
    /// The entries of the symbol table of a group that was entered.
    pub open spec fn entries(self, w: Way) -> Seq<SymbolEntry> {
        self.objects.tables@[table_of(self.objects, w.btree, w.heap)->0].entries@
    }

    /// Whether a group that was entered has a symbol table.
    pub open spec fn has_table(self, w: Way) -> bool {
        &&& w.btree != UNDEF_ADDR
        &&& w.heap != UNDEF_ADDR
        &&& table_of(self.objects, w.btree, w.heap) is Some
    }

    /// The way through entry `k` of a group: the path grows by the name of the entry, and
    /// the symbol table is the one that the entry knows, or that of the object's header.
    pub open spec fn way(self, w: Way, k: int) -> Way {
        let e = self.entries(w)[k];
        Way {
            path: below(w.path, e.name@),
            depth: w.depth + 1,
            btree: if e.cached {
                e.btree
            } else {
                self.objects.nodes@[e.addr]->0.btree
            },
            heap: if e.cached {
                e.heap
            } else {
                self.objects.nodes@[e.addr]->0.heap
            },
        }
    }

    /// Whether entry `k` of the group at `q` has a name and leads to `a`.
    pub open spec fn leads(self, ways: Map<u64, Way>, q: u64, k: int, a: u64) -> bool {
        &&& ways.contains_key(q)
        &&& ways[q].depth <= MAX_GROUP_DEPTH
        &&& self.has_table(ways[q])
        &&& 0 <= k < self.entries(ways[q]).len()
        &&& self.entries(ways[q])[k].name@.len() > 0
        &&& self.entries(ways[q])[k].addr == a
    }

    /// Whether what entry `k` of a group leads to has been found, under the path of the
    /// group and the name of the entry.
    pub open spec fn reached(self, f: FoundView, w: Way, k: int) -> bool {
        let e = self.entries(w)[k];
        let path = below(w.path, e.name@);
        &&& self.objects.nodes@.contains_key(e.addr)
        &&& self.objects.nodes@[e.addr] is Some ==> match dataset_of(
            messages_at(self.objects, e.addr),
            path,
        ) {
            Some(d) => f.datasets.contains(d),
            None => !named_datatype(messages_at(self.objects, e.addr)) ==> {
                &&& f.paths.contains(path)
                &&& f.visited.contains(e.addr)
            },
        }
    }

    /// Whether everything has been found to which the first `n` entries of a group lead.
    pub open spec fn covered(self, f: FoundView, w: Way, n: int) -> bool {
        forall|k: int|
            0 <= k < n && (#[trigger] self.entries(w)[k]).name@.len() > 0 ==> self.reached(f, w, k)
    }

    /// Whether a dataset is one to which an entry of a group that was entered leads, under
    /// the path of the group and the name of the entry.
    pub open spec fn named(self, ways: Map<u64, Way>, d: ReadView) -> bool {
        exists|q: u64, k: int, a: u64|
            {
                &&& #[trigger] self.leads(ways, q, k, a)
                &&& self.objects.nodes@.contains_key(a)
                &&& self.objects.nodes@[a] is Some
                &&& dataset_of(
                    messages_at(self.objects, a),
                    below(ways[q].path, self.entries(ways[q])[k].name@),
                ) == Some(d)
            }
    }

    /// Whether the attributes are those of a group that was entered under this path.
    pub open spec fn carried(self, ways: Map<u64, Way>, v: GroupView) -> bool {
        exists|a: u64|
            {
                &&& #[trigger] ways.contains_key(a)
                &&& a != self.root
                &&& ways[a].path == v.path
                &&& v.attributes == attributes_of(
                    messages_at(self.objects, a),
                    messages_at(self.objects, a).len(),
                )
            }
    }

    /// What holds during a walk. `open` are the groups that it has not finished.
    pub open spec fn kept(self, f: FoundView, ways: Map<u64, Way>, open: Set<u64>) -> bool {
        &&& ways.dom() == f.visited
        &&& ways.contains_key(self.root)
        &&& ways[self.root] == Way {
            path: Seq::empty(),
            depth: 0,
            btree: self.btree,
            heap: self.heap,
        }
        &&& forall|a: u64| #[trigger]
            ways.contains_key(a) && a != self.root ==> {
                &&& group_header(self.objects, a)
                &&& exists|q: u64, k: int| #[trigger]
                    self.leads(ways, q, k, a) && ways[a] == self.way(ways[q], k)
                &&& attributes_of(
                    messages_at(self.objects, a),
                    messages_at(self.objects, a).len(),
                ).len() > 0 ==> has_attributes(f.groups, ways[a].path)
            }
        &&& forall|a: u64| #[trigger]
            ways.contains_key(a) && !open.contains(a) && ways[a].depth <= MAX_GROUP_DEPTH
                && ways[a].btree != UNDEF_ADDR && ways[a].heap != UNDEF_ADDR ==> self.has_table(
                ways[a],
            ) && self.covered(f, ways[a], self.entries(ways[a]).len() as int)
        &&& forall|i: int| 0 <= i < f.datasets.len() ==> self.named(ways, #[trigger] f.datasets[i])
        &&& forall|i: int| 0 <= i < f.groups.len() ==> self.carried(ways, #[trigger] f.groups[i])
    }

    /// What is found from the root group on.
    pub open spec fn found(self) -> FoundView {
        tabled(self.objects, self.btree, self.heap, Seq::empty(), 0, nothing(self.root))
    }

    /// Whether a walk has found everything, and nothing else.
    pub open spec fn complete(self, ways: Map<u64, Way>) -> bool {
        self.kept(self.found(), ways, Set::empty())
    }
}

/// Whether what `f` has found, `g` has found too.
pub open spec fn more(f: FoundView, g: FoundView) -> bool {
    &&& forall|d: ReadView| #[trigger]
        f.datasets.contains(d) ==> g.datasets.contains(d)
    &&& forall|p: Seq<char>| #[trigger] f.paths.contains(p) ==> g.paths.contains(p)
    &&& f.visited.subset_of(g.visited)
    &&& forall|p: Seq<char>| #[trigger]
        has_attributes(f.groups, p) ==> has_attributes(g.groups, p)
}

/// Whether the groups of `e` were entered in `x` in the same way.
pub open spec fn goes_on(e: Map<u64, Way>, x: Map<u64, Way>) -> bool {
    forall|a: u64| #[trigger] e.contains_key(a) ==> x.contains_key(a) && x[a] == e[a]
}

proof fn lemma_more_covered(t: Tables, f: FoundView, g: FoundView, w: Way, n: int)
    requires
        t.covered(f, w, n),
        more(f, g),
    ensures
        t.covered(g, w, n),
{
    assert forall|k: int| 0 <= k < n && (#[trigger] t.entries(w)[k]).name@.len() > 0 implies t.reached(
        g,
        w,
        k,
    ) by {
        assert(t.reached(f, w, k));
    }
}

/// What holds of a walk goes on holding when more is found and groups are entered.
proof fn lemma_kept_on(
    t: Tables,
    f: FoundView,
    g: FoundView,
    e: Map<u64, Way>,
    open: Set<u64>,
)
    requires
        t.kept(f, e, open),
        more(f, g),
        g.visited == f.visited,
        forall|i: int| 0 <= i < g.datasets.len() ==> t.named(e, #[trigger] g.datasets[i]),
        forall|i: int| 0 <= i < g.groups.len() ==> t.carried(e, #[trigger] g.groups[i]),
    ensures
        t.kept(g, e, open),
{
    assert forall|a: u64| #[trigger]
        e.contains_key(a) && !open.contains(a) && e[a].depth <= MAX_GROUP_DEPTH && e[a].btree
            != UNDEF_ADDR && e[a].heap != UNDEF_ADDR implies t.has_table(e[a]) && t.covered(
        g,
        e[a],
        t.entries(e[a]).len() as int,
    ) by {
        lemma_more_covered(t, f, g, e[a], t.entries(e[a]).len() as int);
    }
}

proof fn lemma_with_path(paths: Seq<Seq<char>>, path: Seq<char>)
    ensures
        with_path(paths, path).contains(path),
        forall|p: Seq<char>| #[trigger]
            paths.contains(p) ==> with_path(paths, path).contains(p),
{
    let r = with_path(paths, path);
    if !paths.contains(path) {
        assert(r[paths.len() as int] == path);
    }
    assert forall|p: Seq<char>| #[trigger] paths.contains(p) implies r.contains(p) by {
        let i = choose|i: int| 0 <= i < paths.len() && paths[i] == p;
        assert(r[i] == p);
    }
}

proof fn lemma_named_on(t: Tables, e: Map<u64, Way>, x: Map<u64, Way>, d: ReadView)
    requires
        t.named(e, d),
        goes_on(e, x),
    ensures
        t.named(x, d),
{
    let (q, k, a) = choose|q: u64, k: int, a: u64|
        {
            &&& #[trigger] t.leads(e, q, k, a)
            &&& t.objects.nodes@.contains_key(a)
            &&& t.objects.nodes@[a] is Some
            &&& dataset_of(
                messages_at(t.objects, a),
                below(e[q].path, t.entries(e[q])[k].name@),
            ) == Some(d)
        };
    assert(x[q] == e[q]);
    assert(t.leads(x, q, k, a));
}

/// One more group is entered.
#[verifier::rlimit(60)]
proof fn lemma_enter(
    t: Tables,
    f: FoundView,
    e: Map<u64, Way>,
    open: Set<u64>,
    p: u64,
    k: int,
) -> (x: Map<u64, Way>)
    requires
        t.kept(f, e, open),
        t.leads(e, p, k, t.entries(e[p])[k].addr),
        group_header(t.objects, t.entries(e[p])[k].addr),
        !e.contains_key(t.entries(e[p])[k].addr),
    ensures
        ({
            let a = t.entries(e[p])[k].addr;
            let w = t.way(e[p], k);
            let m = messages_at(t.objects, a);
            let g = FoundView {
                visited: f.visited.insert(a),
                groups: with_group(f.groups, w.path, attributes_of(m, m.len())),
                ..f
            };
            &&& t.kept(g, x, open.insert(a))
            &&& goes_on(e, x)
            &&& x.contains_key(a)
            &&& x[a] == w
            &&& more(f, g)
        }),
{
    let a = t.entries(e[p])[k].addr;
    let w = t.way(e[p], k);
    let m = messages_at(t.objects, a);
    let atts = attributes_of(m, m.len());
    let x = e.insert(a, w);
    let g = FoundView {
        visited: f.visited.insert(a),
        groups: with_group(f.groups, w.path, atts),
        ..f
    };
    assert(x.dom() =~= g.visited);
    assert(goes_on(e, x));
    lemma_position_is(f.groups.len(), entry_of(f.groups, w.path));
    assert forall|q: Seq<char>| #[trigger] has_attributes(f.groups, q) implies has_attributes(
        g.groups,
        q,
    ) by {
        let i = choose|i: int| 0 <= i < f.groups.len() && #[trigger] f.groups[i].path == q;
        match position(f.groups.len(), entry_of(f.groups, w.path)) {
            Some(j) => {
                assert(entry_of(f.groups, w.path)(j));
            },
            None => {},
        }
        assert(g.groups[i].path == q);
    }
    assert(more(f, g));
    if atts.len() > 0 {
        let at = match position(f.groups.len(), entry_of(f.groups, w.path)) {
            Some(j) => j,
            None => f.groups.len() as int,
        };
        assert(g.groups[at].path == w.path);
    }
    assert(t.leads(x, p, k, a)) by {
        assert(x[p] == e[p]);
    }
    assert forall|b: u64| #[trigger] x.contains_key(b) && b != t.root implies {
        &&& group_header(t.objects, b)
        &&& exists|q: u64, j: int| #[trigger] t.leads(x, q, j, b) && x[b] == t.way(x[q], j)
        &&& attributes_of(
            messages_at(t.objects, b),
            messages_at(t.objects, b).len(),
        ).len() > 0 ==> has_attributes(g.groups, x[b].path)
    } by {
        if b == a {
            assert(t.leads(x, p, k, a) && x[a] == t.way(x[p], k));
        } else {
            assert(e.contains_key(b));
            let (q, j) = choose|q: u64, j: int| #[trigger]
                t.leads(e, q, j, b) && e[b] == t.way(e[q], j);
            assert(x[q] == e[q]);
            assert(t.leads(x, q, j, b) && x[b] == t.way(x[q], j));
        }
    }
    assert forall|b: u64| #[trigger]
        x.contains_key(b) && !open.insert(a).contains(b) && x[b].depth <= MAX_GROUP_DEPTH
            && x[b].btree != UNDEF_ADDR && x[b].heap != UNDEF_ADDR implies t.has_table(x[b])
        && t.covered(g, x[b], t.entries(x[b]).len() as int) by {
        assert(e.contains_key(b));
        lemma_more_covered(t, f, g, x[b], t.entries(x[b]).len() as int);
    }
    assert forall|i: int| 0 <= i < g.datasets.len() implies t.named(
        x,
        #[trigger] g.datasets[i],
    ) by {
        lemma_named_on(t, e, x, f.datasets[i]);
    }
    assert forall|i: int| 0 <= i < g.groups.len() implies t.carried(x, #[trigger] g.groups[i]) by {
        let v = g.groups[i];
        if atts.len() > 0 && v == (GroupView { path: w.path, attributes: atts }) {
            assert(x.contains_key(a) && a != t.root);
        } else {
            assert(v == f.groups[i]);
            assert(t.carried(e, v));
            let b = choose|b: u64|
                {
                    &&& #[trigger] e.contains_key(b)
                    &&& b != t.root
                    &&& e[b].path == v.path
                    &&& v.attributes == attributes_of(
                        messages_at(t.objects, b),
                        messages_at(t.objects, b).len(),
                    )
                };
            assert(x.contains_key(b));
        }
    }
    x
}

/// The symbol table of a group that the walk has entered.
proof fn lemma_table(
    t: Tables,
    p: u64,
    f: FoundView,
    e: Map<u64, Way>,
    open: Set<u64>,
) -> (x: Map<u64, Way>)
    requires
        t.kept(f, e, open),
        e.contains_key(p),
        open.contains(p),
        tabled(t.objects, e[p].btree, e[p].heap, e[p].path, e[p].depth, f).need is None,
    ensures
        ({
            let g = tabled(t.objects, e[p].btree, e[p].heap, e[p].path, e[p].depth, f);
            &&& t.kept(g, x, open.remove(p))
            &&& more(f, g)
            &&& goes_on(e, x)
        }),
    decreases 2 * (258 - e[p].depth) + 1, 0nat,
{
    let w = e[p];
    let o = t.objects;
    let g = tabled(o, w.btree, w.heap, w.path, w.depth, f);
    if w.depth > MAX_GROUP_DEPTH || w.btree == UNDEF_ADDR || w.heap == UNDEF_ADDR {
        assert(g == f);
        lemma_closed(t, f, e, open, p);
        e
    } else {
        assert(t.has_table(w));
        let n = t.entries(w).len();
        let x = lemma_entries(t, p, n, f, e, open);
        lemma_closed(t, g, x, open, p);
        x
    }
}

proof fn lemma_closed(t: Tables, f: FoundView, e: Map<u64, Way>, open: Set<u64>, p: u64)
    requires
        t.kept(f, e, open),
        e.contains_key(p),
        e[p].depth <= MAX_GROUP_DEPTH && e[p].btree != UNDEF_ADDR && e[p].heap != UNDEF_ADDR
            ==> t.has_table(e[p]) && t.covered(f, e[p], t.entries(e[p]).len() as int),
    ensures
        t.kept(f, e, open.remove(p)),
{
}

/// The first `k` entries of a group that the walk has entered.
proof fn lemma_entries(
    t: Tables,
    p: u64,
    k: nat,
    f: FoundView,
    e: Map<u64, Way>,
    open: Set<u64>,
) -> (x: Map<u64, Way>)
    requires
        t.kept(f, e, open),
        e.contains_key(p),
        open.contains(p),
        e[p].depth <= MAX_GROUP_DEPTH,
        t.has_table(e[p]),
        k <= t.entries(e[p]).len(),
        entries_walked(t.objects, t.entries(e[p]), e[p].path, e[p].depth, k, f).need is None,
    ensures
        ({
            let g = entries_walked(t.objects, t.entries(e[p]), e[p].path, e[p].depth, k, f);
            &&& t.kept(g, x, open)
            &&& more(f, g)
            &&& goes_on(e, x)
            &&& t.covered(g, e[p], k as int)
        }),
    decreases 2 * (258 - e[p].depth), k,
{
    let w = e[p];
    let o = t.objects;
    let es = t.entries(w);
    if k == 0 {
        e
    } else {
        let y = lemma_entries(t, p, (k - 1) as nat, f, e, open);
        let g = entries_walked(o, es, w.path, w.depth, (k - 1) as nat, f);
        let r = entries_walked(o, es, w.path, w.depth, k, f);
        assert(y[p] == w);
        if es[k - 1].name@.len() == 0 {
            assert(r == g);
            assert forall|j: int| 0 <= j < k && (#[trigger] t.entries(w)[j]).name@.len()
                > 0 implies t.reached(r, w, j) by {
                assert(j != k - 1);
            }
            y
        } else {
            let x = lemma_visit(t, p, k - 1, g, y, open);
            lemma_below(w.path, es[k - 1].name@);
            lemma_more_covered(t, g, r, w, k - 1);
            assert forall|j: int| 0 <= j < k && (#[trigger] t.entries(w)[j]).name@.len()
                > 0 implies t.reached(r, w, j) by {
                if j == k - 1 {
                    assert(t.reached(r, w, k - 1));
                } else {
                    assert(t.covered(r, w, k - 1));
                }
            }
            x
        }
    }
}

/// What entry `k` of a group leads to.
proof fn lemma_visit(
    t: Tables,
    p: u64,
    k: int,
    f: FoundView,
    e: Map<u64, Way>,
    open: Set<u64>,
) -> (x: Map<u64, Way>)
    requires
        t.kept(f, e, open),
        open.contains(p),
        t.leads(e, p, k, t.entries(e[p])[k].addr),
        entry_visited(
            t.objects,
            t.entries(e[p])[k],
            path_of(e[p].path, t.entries(e[p])[k].name@),
            e[p].depth,
            f,
        ).need is None,
    ensures
        ({
            let s = t.entries(e[p])[k];
            let g = entry_visited(t.objects, s, path_of(e[p].path, s.name@), e[p].depth, f);
            &&& t.kept(g, x, open)
            &&& more(f, g)
            &&& goes_on(e, x)
            &&& t.reached(g, e[p], k)
        }),
    decreases 2 * (258 - e[p].depth), 0nat,
{
    let w = e[p];
    let s = t.entries(w)[k];
    let o = t.objects;
    let path = path_of(w.path, s.name@);
    let r = entry_visited(o, s, path, w.depth, f);
    lemma_below(w.path, s.name@);
    let a = s.addr;
    assert(o.nodes@.contains_key(a));
    match o.nodes@[a] {
        None => e,
        Some(node) => {
            let m = infos(node.messages@);
            assert(m == messages_at(o, a));
            assert(dataset_of(m, path) is Some <==> dataset_of(m, Seq::empty()) is Some);
            match dataset_of(m, path) {
                Some(d) => {
                    assert(r.datasets[f.datasets.len() as int] == d);
                    assert(more(f, r)) by {
                        assert forall|y: ReadView| #[trigger]
                            f.datasets.contains(y) implies r.datasets.contains(y) by {
                            let i = choose|i: int| 0 <= i < f.datasets.len() && f.datasets[i] == y;
                            assert(r.datasets[i] == y);
                        }
                    }
                    assert(t.named(e, d)) by {
                        assert(t.leads(e, p, k, a));
                    }
                    assert forall|i: int| 0 <= i < r.datasets.len() implies t.named(
                        e,
                        #[trigger] r.datasets[i],
                    ) by {
                        if i < f.datasets.len() {
                            assert(r.datasets[i] == f.datasets[i]);
                        }
                    }
                    lemma_kept_on(t, f, r, e, open);
                    e
                },
                None => if named_datatype(m) {
                    e
                } else {
                    let g = FoundView { paths: with_path(f.paths, path), ..f };
                    lemma_with_path(f.paths, path);
                    assert(more(f, g));
                    lemma_kept_on(t, f, g, e, open);
                    if g.visited.contains(a) {
                        assert(r == g);
                        e
                    } else {
                        assert(group_header(o, a));
                        let y = lemma_enter(t, g, e, open, p, k);
                        let v = t.way(w, k);
                        let h = FoundView {
                            visited: g.visited.insert(a),
                            groups: with_group(g.groups, path, attributes_of(m, m.len())),
                            ..g
                        };
                        assert(r == tabled(o, v.btree, v.heap, v.path, v.depth, h));
                        let x = lemma_table(t, a, h, y, open.insert(a));
                        lemma_open_dom(t, r, x, open, a);
                        x
                    }
                },
            }
        },
    }
}

proof fn lemma_open_dom(t: Tables, f: FoundView, e: Map<u64, Way>, open: Set<u64>, a: u64)
    requires
        t.kept(f, e, open.insert(a).remove(a)),
    ensures
        t.kept(f, e, open),
{
}

/// A walk over symbol tables finds everything, once everything has been read: each group is
/// entered once, under one path, and everything in its symbol table is found under that path
/// and the name of its entry, whether or not the entry knows the symbol table of the object.
/// It finds no other datasets, and the attributes of the groups that it enters.
pub proof fn lemma_tables_complete(t: Tables)
    requires
        t.found().need is None,
    ensures
        exists|ways: Map<u64, Way>| t.complete(ways),
{
    let f = nothing(t.root);
    let first = Way { path: Seq::empty(), depth: 0, btree: t.btree, heap: t.heap };
    let e = Map::<u64, Way>::empty().insert(t.root, first);
    let open = set![t.root];
    assert(e.dom() =~= f.visited);
    assert(t.kept(f, e, open));
    let x = lemma_table(t, t.root, f, e, open);
    assert(open.remove(t.root) =~= Set::empty());
    assert(t.complete(x));
}

/// The way along names, one entry in each group: `ks` are the numbers of the entries.
pub open spec fn along(t: Tables, ks: Seq<int>, n: nat) -> Way
    decreases n,
{
    if n == 0 {
        Way { path: Seq::empty(), depth: 0, btree: t.btree, heap: t.heap }
    } else {
        t.way(along(t, ks, (n - 1) as nat), ks[n - 1])
    }
}

/// The group that the first `n` entries lead to.
pub open spec fn group_along(t: Tables, ks: Seq<int>, n: nat) -> u64 {
    if n == 0 {
        t.root
    } else {
        t.entries(along(t, ks, (n - 1) as nat))[ks[n - 1]].addr
    }
}

/// Whether the first `n` entries lead through groups, each with a name and a symbol table.
pub open spec fn passable(t: Tables, ks: Seq<int>, n: nat) -> bool
    decreases n,
{
    n == 0 || {
        let w = along(t, ks, (n - 1) as nat);
        &&& passable(t, ks, (n - 1) as nat)
        &&& t.has_table(w)
        &&& 0 <= ks[n - 1] < t.entries(w).len()
        &&& t.entries(w)[ks[n - 1]].name@.len() > 0
        &&& group_header(t.objects, group_along(t, ks, n))
        &&& group_along(t, ks, n) != t.root
    }
}

/// The names of entries, joined by slashes.
pub open spec fn joined_names(names: Seq<Seq<char>>, n: nat) -> Seq<char>
    decreases n,
{
    if n == 0 {
        Seq::empty()
    } else if n == 1 {
        names[0]
    } else {
        joined_names(names, (n - 1) as nat) + seq!['/'] + names[n - 1]
    }
}

/// The names of the first entries on a way.
pub open spec fn names_along(t: Tables, ks: Seq<int>) -> Seq<Seq<char>> {
    Seq::new(
        ks.len(),
        |i: int| t.entries(along(t, ks, i as nat))[ks[i]].name@,
    )
}

/// Whether no group has a second name: no two entries of groups that a walk enters lead to
/// the same group.
pub open spec fn one_name_each(t: Tables, ways: Map<u64, Way>) -> bool {
    forall|q: u64, k: int, r: u64, j: int, a: u64|
        #![trigger t.leads(ways, q, k, a), t.leads(ways, r, j, a)]
        t.leads(ways, q, k, a) && t.leads(ways, r, j, a) && group_header(t.objects, a) ==> q == r
            && k == j
}

proof fn lemma_along(t: Tables, ways: Map<u64, Way>, ks: Seq<int>, n: nat)
    requires
        t.complete(ways),
        one_name_each(t, ways),
        n <= ks.len(),
        n <= MAX_GROUP_DEPTH,
        passable(t, ks, n),
    ensures
        ways.contains_key(group_along(t, ks, n)),
        ways[group_along(t, ks, n)] == along(t, ks, n),
        along(t, ks, n).depth == n,
        along(t, ks, n).path == joined_names(names_along(t, ks), n),
        n > 0 ==> along(t, ks, n).path.len() > 0,
    decreases n,
{
    if n > 0 {
        let m = (n - 1) as nat;
        lemma_along(t, ways, ks, m);
        let q = group_along(t, ks, m);
        let w = along(t, ks, m);
        let k = ks[n - 1];
        let a = group_along(t, ks, n);
        let f = t.found();
        assert(t.leads(ways, q, k, a));
        assert(t.covered(f, ways[q], t.entries(ways[q]).len() as int));
        assert(t.entries(w)[k].name@.len() > 0);
        assert(t.reached(f, w, k));
        let name = t.entries(w)[k].name@;
        assert(dataset_of(messages_at(t.objects, a), below(w.path, name)) is Some <==> dataset_of(
            messages_at(t.objects, a),
            Seq::empty(),
        ) is Some);
        assert(f.visited.contains(a));
        assert(ways.contains_key(a));
        let (r, j) = choose|r: u64, j: int| #[trigger]
            t.leads(ways, r, j, a) && ways[a] == t.way(ways[r], j);
        assert(t.leads(ways, q, k, a) && t.leads(ways, r, j, a));
        assert(names_along(t, ks)[n - 1] == name);
    }
}

/// Objects of a file with symbol tables are listed under the names that lead to them: where
/// the entries `ks` lead from the root group to an object, through groups, a dataset is
/// found under their names, joined by slashes, and a group is listed under them. It does not
/// matter which entries know the symbol tables of their groups. Files in which a group has a
/// second name are left out: there a group is entered under one of them only.
pub proof fn lemma_object_under_its_names(t: Tables, ways: Map<u64, Way>, ks: Seq<int>)
    requires
        t.complete(ways),
        one_name_each(t, ways),
        0 < ks.len() <= MAX_GROUP_DEPTH + 1,
        passable(t, ks, (ks.len() - 1) as nat),
        ({
            let w = along(t, ks, (ks.len() - 1) as nat);
            &&& t.has_table(w)
            &&& 0 <= ks.last() < t.entries(w).len()
            &&& t.entries(w)[ks.last()].name@.len() > 0
            &&& t.objects.nodes@[t.entries(w)[ks.last()].addr] is Some
        }),
    ensures
        ({
            let a = group_along(t, ks, ks.len());
            let path = joined_names(names_along(t, ks), ks.len());
            let f = t.found();
            match dataset_of(messages_at(t.objects, a), path) {
                Some(d) => d.name == path && f.datasets.contains(d),
                None => !named_datatype(messages_at(t.objects, a)) ==> f.paths.contains(path),
            }
        }),
{
    let m = (ks.len() - 1) as nat;
    lemma_along(t, ways, ks, m);
    let q = group_along(t, ks, m);
    let w = along(t, ks, m);
    let k = ks.last();
    let f = t.found();
    assert(t.covered(f, ways[q], t.entries(ways[q]).len() as int));
    assert(t.entries(w)[k].name@.len() > 0);
    assert(t.reached(f, w, k));
    assert(names_along(t, ks)[m as int] == t.entries(w)[k].name@);
}

} // verus!
