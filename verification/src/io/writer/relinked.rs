//! What is found again of a file that is opened once more.

use crate::format::chunk_index::extensible_array::EarrayParams;
use crate::format::messages::MSG_LINK;
use crate::format::{FormatContext, UNDEF_ADDR};
use crate::io::ea::EaIndexBlock;
use crate::io::reader::messages::{dataset_of, infos, InfoView, ReadView};
use crate::io::reader::paths::messages_at;
use crate::io::reader::tables::below;
use crate::io::reader::walk::{path_of, Objects};
use crate::io::writer::headers::BodyView;
use crate::io::writer::reopen::{
    collected, file_links, index_restored, link_collected, links_inline, stored_datasets,
    IndexImage, LinkView, LinksView, Stored, MAX_LINK_DEPTH,
};
use crate::io::writer::state::ChunkedDatasetInfo;
use vstd::prelude::*;

verus! {

/// Under which path a group was entered, and through how many groups.
#[verifier::ext_equal]
pub struct Entered {
    pub path: Seq<char>,
    pub depth: nat,
}

/// Whether message `k` is a link of this name to this address.
pub open spec fn links_to(m: Seq<InfoView>, k: int, name: Seq<char>, addr: u64) -> bool {
    &&& 0 <= k < m.len()
    &&& m[k].msg_type == MSG_LINK
    &&& m[k].body == Some(BodyView::Link { name, addr })
}

/// Whether the object at an address is a group with links in its header.
pub open spec fn is_group(o: Objects, addr: u64) -> bool {
    &&& o.nodes@.contains_key(addr)
    &&& o.nodes@[addr] is Some
    &&& exists|k: int|
        0 <= k < messages_at(o, addr).len() && (#[trigger] messages_at(o, addr)[k]).msg_type
            == MSG_LINK
}

/// A file to be opened once more: its objects, and the messages of the root group.
pub struct Linked {
    pub objects: Objects,
    pub root: Seq<InfoView>,
}

impl Linked {
    /// The messages of a group that was entered, or of the root group.
    pub open spec fn messages(self, q: Option<u64>) -> Seq<InfoView> {
        match q {
            None => self.root,
            Some(a) => messages_at(self.objects, a),
        }
    }

    /// How a group was entered. The walk begins in the root group, which has no path.
    pub open spec fn entered(self, ways: Map<u64, Entered>, q: Option<u64>) -> Entered {
        match q {
            None => Entered { path: Seq::empty(), depth: 0 },
            Some(a) => ways[a],
        }
    }

    /// Whether the name is that of a link of the root group or of a group that was
    /// entered: the path of the group and the name of the link.
    pub open spec fn named(self, ways: Map<u64, Entered>, l: LinkView) -> bool {
        exists|q: Option<u64>, k: int, name: Seq<char>|
            {
                &&& q matches Some(a) ==> ways.contains_key(a)
                &&& #[trigger] links_to(self.messages(q), k, name, l.addr)
                &&& l.name == below(self.entered(ways, q).path, name)
            }
    }

    /// Whether the first `n` messages of a group have been followed: each link has given a
    /// name, and each group that a link leads to has been entered.
    pub open spec fn followed(self, f: LinksView, q: Option<u64>, w: Entered, n: int) -> bool {
        forall|k: int, name: Seq<char>, addr: u64|
            k < n && #[trigger] links_to(self.messages(q), k, name, addr) ==> {
                &&& f.links.contains(LinkView { name: below(w.path, name), addr })
                &&& is_group(self.objects, addr) ==> f.visited.contains(addr)
            }
    }

    /// What holds during a walk. `open` are the groups that it has not finished.
    pub open spec fn kept(self, f: LinksView, ways: Map<u64, Entered>, open: Set<u64>) -> bool {
        &&& ways.dom() == f.visited
        &&& forall|a: u64| #[trigger]
            ways.contains_key(a) ==> {
                &&& is_group(self.objects, a)
                &&& f.links.contains(LinkView { name: ways[a].path, addr: a })
            }
        &&& forall|a: u64| #[trigger]
            ways.contains_key(a) && !open.contains(a) && ways[a].depth <= MAX_LINK_DEPTH
                ==> self.followed(f, Some(a), ways[a], messages_at(self.objects, a).len() as int)
        &&& forall|i: int| 0 <= i < f.links.len() ==> self.named(ways, #[trigger] f.links[i])
    }
}

/// Whether what `f` has found, `g` has found too.
pub open spec fn grown(f: LinksView, g: LinksView) -> bool {
    &&& forall|l: LinkView| #[trigger] f.links.contains(l) ==> g.links.contains(l)
    &&& f.visited.subset_of(g.visited)
}

/// Whether the groups of `e` were entered in `x` in the same way.
pub open spec fn still(e: Map<u64, Entered>, x: Map<u64, Entered>) -> bool {
    forall|a: u64| #[trigger] e.contains_key(a) ==> x.contains_key(a) && x[a] == e[a]
}

proof fn lemma_named_still(t: Linked, e: Map<u64, Entered>, x: Map<u64, Entered>, l: LinkView)
    requires
        t.named(e, l),
        still(e, x),
    ensures
        t.named(x, l),
{
    let (q, k, name) = choose|q: Option<u64>, k: int, name: Seq<char>|
        {
            &&& q matches Some(a) ==> e.contains_key(a)
            &&& #[trigger] links_to(t.messages(q), k, name, l.addr)
            &&& l.name == below(t.entered(e, q).path, name)
        };
    match q {
        Some(a) => {
            assert(x.contains_key(a) && x[a] == e[a]);
        },
        None => {},
    }
    assert(links_to(t.messages(q), k, name, l.addr));
}

proof fn lemma_followed_on(t: Linked, f: LinksView, g: LinksView, q: Option<u64>, w: Entered, n: int)
    requires
        t.followed(f, q, w, n),
        grown(f, g),
    ensures
        t.followed(g, q, w, n),
{
}

/// One more name.
proof fn lemma_link_named(
    t: Linked,
    f: LinksView,
    e: Map<u64, Entered>,
    open: Set<u64>,
    q: Option<u64>,
    k: int,
    name: Seq<char>,
    addr: u64,
)
    requires
        t.kept(f, e, open),
        q matches Some(a) ==> e.contains_key(a),
        links_to(t.messages(q), k, name, addr),
    ensures
        ({
            let l = LinkView { name: below(t.entered(e, q).path, name), addr };
            let g = LinksView { links: f.links.push(l), ..f };
            &&& t.kept(g, e, open)
            &&& grown(f, g)
            &&& g.links.contains(l)
        }),
{
    let l = LinkView { name: below(t.entered(e, q).path, name), addr };
    let g = LinksView { links: f.links.push(l), ..f };
    assert(g.links[f.links.len() as int] == l);
    assert forall|x: LinkView| #[trigger] f.links.contains(x) implies g.links.contains(x) by {
        let i = choose|i: int| 0 <= i < f.links.len() && f.links[i] == x;
        assert(g.links[i] == x);
    }
    assert(links_to(t.messages(q), k, name, l.addr));
    assert(t.named(e, l));
    assert forall|i: int| 0 <= i < g.links.len() implies t.named(e, #[trigger] g.links[i]) by {
        if i < f.links.len() {
            assert(g.links[i] == f.links[i]);
        }
    }
    assert forall|a: u64| #[trigger]
        e.contains_key(a) && !open.contains(a) && e[a].depth <= MAX_LINK_DEPTH implies t.followed(
        g,
        Some(a),
        e[a],
        messages_at(t.objects, a).len() as int,
    ) by {
        lemma_followed_on(t, f, g, Some(a), e[a], messages_at(t.objects, a).len() as int);
    }
}

/// One more group is entered.
proof fn lemma_group_entered(
    t: Linked,
    f: LinksView,
    e: Map<u64, Entered>,
    open: Set<u64>,
    a: u64,
    w: Entered,
) -> (x: Map<u64, Entered>)
    requires
        t.kept(f, e, open),
        is_group(t.objects, a),
        !e.contains_key(a),
        f.links.contains(LinkView { name: w.path, addr: a }),
    ensures
        t.kept(LinksView { visited: f.visited.insert(a), ..f }, x, open.insert(a)),
        x == e.insert(a, w),
        still(e, x),
{
    let x = e.insert(a, w);
    let g = LinksView { visited: f.visited.insert(a), ..f };
    assert(x.dom() =~= g.visited);
    assert forall|b: u64| #[trigger]
        x.contains_key(b) && !open.insert(a).contains(b) && x[b].depth <= MAX_LINK_DEPTH implies t.followed(
        g,
        Some(b),
        x[b],
        messages_at(t.objects, b).len() as int,
    ) by {
        assert(e.contains_key(b));
        lemma_followed_on(t, f, g, Some(b), e[b], messages_at(t.objects, b).len() as int);
    }
    assert forall|i: int| 0 <= i < g.links.len() implies t.named(x, #[trigger] g.links[i]) by {
        lemma_named_still(t, e, x, f.links[i]);
    }
    x
}

proof fn lemma_group_left(t: Linked, f: LinksView, e: Map<u64, Entered>, open: Set<u64>, a: u64)
    requires
        t.kept(f, e, open.insert(a)),
        e.contains_key(a),
        e[a].depth <= MAX_LINK_DEPTH ==> t.followed(
            f,
            Some(a),
            e[a],
            messages_at(t.objects, a).len() as int,
        ),
    ensures
        t.kept(f, e, open),
{
    assert forall|b: u64| #[trigger]
        e.contains_key(b) && !open.contains(b) && e[b].depth <= MAX_LINK_DEPTH implies t.followed(
        f,
        Some(b),
        e[b],
        messages_at(t.objects, b).len() as int,
    ) by {
        if b != a {
            assert(!open.insert(a).contains(b));
        }
    }
}

/// A walk over the first `k` messages of a group.
proof fn lemma_walk(
    t: Linked,
    q: Option<u64>,
    k: nat,
    f: LinksView,
    e: Map<u64, Entered>,
    open: Set<u64>,
) -> (x: Map<u64, Entered>)
    requires
        t.kept(f, e, open),
        q matches Some(a) ==> e.contains_key(a),
        t.entered(e, q).depth <= MAX_LINK_DEPTH + 1,
        k <= t.messages(q).len(),
        collected(
            t.objects,
            t.messages(q),
            t.entered(e, q).path,
            t.entered(e, q).depth,
            k,
            f,
        ).need is None,
    ensures
        ({
            let w = t.entered(e, q);
            let g = collected(t.objects, t.messages(q), w.path, w.depth, k, f);
            &&& t.kept(g, x, open)
            &&& still(e, x)
            &&& grown(f, g)
            &&& w.depth <= MAX_LINK_DEPTH ==> t.followed(g, q, w, k as int)
        }),
    decreases 258 - t.entered(e, q).depth, k,
{
    let o = t.objects;
    let w = t.entered(e, q);
    let m = t.messages(q);
    if w.depth > MAX_LINK_DEPTH || k == 0 {
        e
    } else {
        let g = collected(o, m, w.path, w.depth, (k - 1) as nat, f);
        assert(g.need is None);
        let x = lemma_walk(t, q, (k - 1) as nat, f, e, open);
        assert(t.entered(x, q) == w);
        if m[k - 1].msg_type != MSG_LINK {
            x
        } else {
            match m[k - 1].body {
                Some(BodyView::Link { name, addr }) => {
                    assert(links_to(m, k - 1, name, addr));
                    let y = lemma_follow(t, q, k - 1, name, addr, g, x, open);
                    let h = link_collected(o, path_of(w.path, name), addr, w.depth, g);
                    lemma_followed_on(t, g, h, q, w, k - 1);
                    assert forall|j: int, n: Seq<char>, a: u64|
                        j < k && #[trigger] links_to(t.messages(q), j, n, a) implies {
                        &&& h.links.contains(LinkView { name: below(w.path, n), addr: a })
                        &&& is_group(o, a) ==> h.visited.contains(a)
                    } by {
                        if j == k - 1 {
                            assert(n == name && a == addr);
                        }
                    }
                    y
                },
                _ => x,
            }
        }
    }
}

/// A walk through one link.
proof fn lemma_follow(
    t: Linked,
    q: Option<u64>,
    k: int,
    name: Seq<char>,
    addr: u64,
    f: LinksView,
    e: Map<u64, Entered>,
    open: Set<u64>,
) -> (x: Map<u64, Entered>)
    requires
        t.kept(f, e, open),
        q matches Some(a) ==> e.contains_key(a),
        t.entered(e, q).depth <= MAX_LINK_DEPTH,
        links_to(t.messages(q), k, name, addr),
        link_collected(
            t.objects,
            path_of(t.entered(e, q).path, name),
            addr,
            t.entered(e, q).depth,
            f,
        ).need is None,
        f.need is None,
    ensures
        ({
            let w = t.entered(e, q);
            let g = link_collected(t.objects, path_of(w.path, name), addr, w.depth, f);
            &&& t.kept(g, x, open)
            &&& still(e, x)
            &&& grown(f, g)
            &&& g.links.contains(LinkView { name: below(w.path, name), addr })
            &&& is_group(t.objects, addr) ==> g.visited.contains(addr)
        }),
    decreases 258 - t.entered(e, q).depth, 0nat,
{
    reveal_strlit("/");
    assert("/"@ =~= seq!['/']);
    let o = t.objects;
    let w = t.entered(e, q);
    let path = path_of(w.path, name);
    assert(path == below(w.path, name));
    let l = LinkView { name: path, addr };
    let g = LinksView { links: f.links.push(l), ..f };
    lemma_link_named(t, f, e, open, q, k, name, addr);
    assert(o.nodes@.contains_key(addr));
    match o.nodes@[addr] {
        None => e,
        Some(node) => {
            let m = messages_at(o, addr);
            assert(m == infos(node.messages@));
            assert(is_group(o, addr) == links_inline(m));
            if links_inline(m) && !g.visited.contains(addr) {
                let v = Entered { path, depth: w.depth + 1 };
                let h = LinksView { visited: g.visited.insert(addr), ..g };
                let x = lemma_group_entered(t, g, e, open, addr, v);
                let y = lemma_walk(t, Some(addr), m.len(), h, x, open.insert(addr));
                let r = collected(o, m, path, w.depth + 1, m.len(), h);
                assert(x.contains_key(addr));
                assert(y.contains_key(addr) && y[addr] == x[addr]);
                lemma_group_left(t, r, y, open, addr);
                assert(still(e, y));
                assert(grown(f, r));
                y
            } else {
                e
            }
        },
    }
}

/// A file that is opened once more is found with every name that it has, and no other:
/// a link of the root group gives its own name, a link of another group the path of the
/// group, a slash and its name; and every group that a link leads to is entered.
pub proof fn lemma_links_found(t: Linked)
    requires
        file_links(t.objects, t.root).need is None,
    ensures
        exists|ways: Map<u64, Entered>|
            {
                &&& #[trigger] t.kept(file_links(t.objects, t.root), ways, Set::empty())
                &&& t.followed(
                    file_links(t.objects, t.root),
                    None,
                    Entered { path: Seq::empty(), depth: 0 },
                    t.root.len() as int,
                )
            },
{
    let f = LinksView { links: Seq::empty(), visited: Set::empty(), need: None };
    let e = Map::<u64, Entered>::empty();
    assert(e.dom() =~= f.visited);
    let x = lemma_walk(t, None, t.root.len(), f, e, Set::empty());
    assert(t.kept(file_links(t.objects, t.root), x, Set::empty()));
}

/// The datasets of a file that is opened once more are the objects that its names lead to
/// and that are datasets, each under the name that leads to it.
pub proof fn lemma_datasets_stored(o: Objects, links: Seq<LinkView>, n: nat, d: Stored)
    requires
        n <= links.len(),
    ensures
        stored_datasets(o, links, n).contains(d) <==> exists|i: int|
            0 <= i < n && {
                let l = #[trigger] links[i];
                &&& o.nodes@.contains_key(l.addr)
                &&& o.nodes@[l.addr] is Some
                &&& d.addr == l.addr
                &&& dataset_of(messages_at(o, l.addr), l.name) == Some(d.dataset)
            },
        stored_datasets(o, links, n).len() <= n,
    decreases n,
{
    if n > 0 {
        let was = stored_datasets(o, links, (n - 1) as nat);
        let now = stored_datasets(o, links, n);
        let l = links[n - 1];
        lemma_datasets_stored(o, links, (n - 1) as nat, d);
        if now != was {
            let last = now[now.len() - 1];
            assert(now == was.push(last));
            if was.contains(d) {
                let i = choose|i: int| 0 <= i < was.len() && was[i] == d;
                assert(now[i] == d);
            }
            if now.contains(d) {
                let i = choose|i: int| 0 <= i < now.len() && now[i] == d;
                if i < was.len() {
                    assert(was[i] == d);
                }
            }
            if last == d {
                assert(now[now.len() - 1] == d);
                assert(now.contains(d));
            }
        }
    }
}

/// Whether a link of the root group, or of an object that has been read, leads to `a`.
pub open spec fn leads_there(t: Linked, a: u64) -> bool {
    exists|q: Option<u64>, k: int, name: Seq<char>|
        {
            &&& q matches Some(x) ==> t.objects.nodes@.contains_key(x) && t.objects.nodes@[x] is Some
            &&& #[trigger] links_to(t.messages(q), k, name, a)
        }
}

proof fn lemma_collect_needs(
    t: Linked,
    q: Option<u64>,
    prefix: Seq<char>,
    depth: nat,
    k: nat,
    f: LinksView,
    a: u64,
)
    requires
        q matches Some(x) ==> t.objects.nodes@.contains_key(x) && t.objects.nodes@[x] is Some,
        k <= t.messages(q).len(),
        f.need is None,
        collected(t.objects, t.messages(q), prefix, depth, k, f).need == Some(a),
    ensures
        !t.objects.nodes@.contains_key(a),
        leads_there(t, a),
    decreases 258 - depth, k,
{
    let m = t.messages(q);
    let g = collected(t.objects, m, prefix, depth, (k - 1) as nat, f);
    if g.need is Some {
        lemma_collect_needs(t, q, prefix, depth, (k - 1) as nat, f, a);
    } else {
        match m[k - 1].body {
            Some(BodyView::Link { name, addr }) => {
                assert(links_to(t.messages(q), k - 1, name, addr));
                lemma_link_needs(t, path_of(prefix, name), addr, depth, g, a);
            },
            _ => {},
        }
    }
}

proof fn lemma_link_needs(
    t: Linked,
    path: Seq<char>,
    addr: u64,
    depth: nat,
    f: LinksView,
    a: u64,
)
    requires
        leads_there(t, addr),
        depth <= MAX_LINK_DEPTH,
        f.need is None,
        link_collected(t.objects, path, addr, depth, f).need == Some(a),
    ensures
        !t.objects.nodes@.contains_key(a),
        leads_there(t, a),
    decreases 258 - depth, 0nat,
{
    let o = t.objects;
    let g = LinksView { links: f.links.push(LinkView { name: path, addr }), ..f };
    if o.nodes@.contains_key(addr) {
        match o.nodes@[addr] {
            None => {},
            Some(node) => {
                let m = infos(node.messages@);
                assert(m == t.messages(Some(addr)));
                if links_inline(m) && !g.visited.contains(addr) {
                    let h = LinksView { visited: g.visited.insert(addr), ..g };
                    lemma_collect_needs(t, Some(addr), path, depth + 1, m.len(), h, a);
                }
            },
        }
    }
}

/// An object that is needed before all names are known has not been read, and a link of an
/// object that was read, or of the root group, leads to it.
pub proof fn lemma_links_needed(t: Linked, a: u64)
    requires
        file_links(t.objects, t.root).need == Some(a),
    ensures
        !t.objects.nodes@.contains_key(a),
        leads_there(t, a),
{
    let f = LinksView { links: Seq::empty(), visited: Set::empty(), need: None };
    assert(t.messages(None) == t.root);
    lemma_collect_needs(t, None, Seq::empty(), 0, t.root.len(), f, a);
}

/// An index that is read again knows the chunks that it knew: those of the index block by
/// their addresses, and with their sizes if they went through filters, and all blocks by
/// theirs. It goes on from the header that was read.
pub proof fn lemma_index_goes_on(
    c: ChunkedDatasetInfo,
    d: ReadView,
    params: EarrayParams,
    index: u64,
    image: IndexImage,
    ctx: FormatContext,
    chunk_bytes: u64,
    b: EaIndexBlock,
    i: int,
)
    requires
        index_restored(c, d, params, index, image, ctx, chunk_bytes),
        image.block == Some(b),
        b.elements@.len() == c.geo.idx_blk_elmts,
        b.dblk_addrs@.len() == c.geo.ndblk_addrs,
        b.sblk_addrs@.len() == c.geo.nsblk_addrs,
        0 <= i < b.elements@.len(),
    ensures
        c.index().elements[i].addr == b.elements@[i].addr,
        c.filtered ==> c.index().elements[i] == b.elements@[i],
        !c.filtered && b.elements@[i].addr != UNDEF_ADDR ==> c.index().elements[i].nbytes
            == chunk_bytes,
        c.index().dblk_addrs == b.dblk_addrs@,
        c.index().sblk_addrs == b.sblk_addrs@,
        c.ea_header == image.header,
        c.ea_header_addr == index,
        c.ea_iblk_addr == image.header.idx_blk_addr,
{
}

} // verus!
