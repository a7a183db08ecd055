//! What walks over a file ask for.

use crate::format::UNDEF_ADDR;
use crate::io::reader::messages::{
    attributes_of, dataset_of, infos, named_datatype, InfoView,
};
use crate::io::reader::paths::messages_at;
use crate::io::reader::walk::{
    entries_walked, entry_visited, link_visited, linked, nothing, own_table, path_of, table_at,
    table_of, tabled, walked, with_group, with_path, FoundView, Objects, ReadRequest, SymbolEntry,
    MAX_GROUP_DEPTH,
};
use crate::io::search::lemma_position_is;
use crate::io::writer::headers::BodyView;
use vstd::prelude::*;

verus! {

/// Whether message `k` is a link to this address.
pub open spec fn link_at(m: Seq<InfoView>, k: int, a: u64) -> bool {
    0 <= k < m.len() && (m[k].body matches Some(BodyView::Link { addr, .. }) && addr == a)
}

/// Whether a link of the root group, or of an object that has been read, leads to `a`.
pub open spec fn link_known(o: Objects, root: Seq<InfoView>, a: u64) -> bool {
    ||| exists|k: int| #[trigger] link_at(root, k, a)
    ||| exists|q: u64, k: int|
        o.nodes@.contains_key(q) && o.nodes@[q] is Some && #[trigger] link_at(
            messages_at(o, q),
            k,
            a,
        )
}

/// Whether an entry of a symbol table that has been read leads to `a`.
pub open spec fn entry_known(o: Objects, a: u64) -> bool {
    exists|t: int, k: int|
        0 <= t < o.tables@.len() && 0 <= k < o.tables@[t].entries@.len() && (
        #[trigger] o.tables@[t].entries@[k]).addr == a
}

/// Whether what is asked for has not been read.
pub open spec fn unread(o: Objects, q: ReadRequest) -> bool {
    match q {
        ReadRequest::Object(a) => !o.nodes@.contains_key(a),
        ReadRequest::Table { btree, heap } => {
            &&& btree != UNDEF_ADDR
            &&& heap != UNDEF_ADDR
            &&& forall|t: int|
                0 <= t < o.tables@.len() ==> !((#[trigger] o.tables@[t]).btree == btree
                    && o.tables@[t].heap == heap)
        },
    }
}

/// Whether messages are those of the root group or of an object that has been read.
spec fn known(o: Objects, root: Seq<InfoView>, m: Seq<InfoView>) -> bool {
    m == root || exists|q: u64| #[trigger]
        o.nodes@.contains_key(q) && o.nodes@[q] is Some && m == messages_at(o, q)
}

proof fn lemma_walk_asks(
    o: Objects,
    root: Seq<InfoView>,
    m: Seq<InfoView>,
    prefix: Seq<char>,
    depth: nat,
    k: nat,
    f: FoundView,
    q: ReadRequest,
)
    requires
        known(o, root, m),
        k <= m.len(),
        f.need is None,
        walked(o, m, prefix, depth, k, f).need == Some(q),
    ensures
        unread(o, q),
        q matches ReadRequest::Object(a) && link_known(o, root, a),
    decreases 258 - depth, k,
{
    let g = walked(o, m, prefix, depth, (k - 1) as nat, f);
    if g.need is Some {
        lemma_walk_asks(o, root, m, prefix, depth, (k - 1) as nat, f, q);
    } else {
        match m[k - 1].body {
            Some(BodyView::Link { name, addr }) => {
                assert(link_at(m, k - 1, addr));
                lemma_link_asks(o, root, path_of(prefix, name), depth, addr, g, q);
            },
            _ => {},
        }
    }
}

proof fn lemma_link_asks(
    o: Objects,
    root: Seq<InfoView>,
    path: Seq<char>,
    depth: nat,
    addr: u64,
    f: FoundView,
    q: ReadRequest,
)
    requires
        link_known(o, root, addr),
        f.need is None,
        depth <= MAX_GROUP_DEPTH,
        link_visited(o, path, depth, addr, f).need == Some(q),
    ensures
        unread(o, q),
        q matches ReadRequest::Object(a) && link_known(o, root, a),
    decreases 258 - depth, 0nat,
{
    if o.nodes@.contains_key(addr) {
        match o.nodes@[addr] {
            None => {},
            Some(node) => {
                let m = infos(node.messages@);
                assert(m == messages_at(o, addr));
                if dataset_of(m, path) is None && !named_datatype(m) {
                    let g = FoundView {
                        paths: with_path(f.paths, path),
                        groups: with_group(f.groups, path, attributes_of(m, m.len())),
                        ..f
                    };
                    if !g.visited.contains(addr) {
                        let h = FoundView { visited: g.visited.insert(addr), ..g };
                        lemma_walk_asks(o, root, m, path, depth + 1, m.len(), h, q);
                    }
                }
            },
        }
    }
}

/// An object that a walk over links asks for has not been read, and a link of an object that
/// was read, or of the root group, leads to it.
pub proof fn lemma_links_ask(o: Objects, root: Seq<InfoView>, addr: u64, q: ReadRequest)
    requires
        linked(o, root, addr).need == Some(q),
    ensures
        unread(o, q),
        q matches ReadRequest::Object(a) && link_known(o, root, a),
{
    lemma_walk_asks(o, root, root, Seq::empty(), 0, root.len(), nothing(addr), q);
}

/// What a walk over symbol tables asks for has not been read: an object that an entry of a
/// table that was read leads to, or the table of a group.
pub proof fn lemma_tables_ask(
    o: Objects,
    btree: u64,
    heap: u64,
    prefix: Seq<char>,
    depth: nat,
    f: FoundView,
    q: ReadRequest,
)
    requires
        f.need is None,
        tabled(o, btree, heap, prefix, depth, f).need == Some(q),
    ensures
        unread(o, q),
        q matches ReadRequest::Object(a) ==> entry_known(o, a),
    decreases 2 * (258 - depth) + 1, 0nat,
{
    lemma_position_is(o.tables@.len(), table_at(o.tables@, btree, heap));
    match table_of(o, btree, heap) {
        None => {
            assert forall|t: int| 0 <= t < o.tables@.len() implies !((#[trigger] o.tables@[t]).btree
                == btree && o.tables@[t].heap == heap) by {
                assert(!table_at(o.tables@, btree, heap)(t));
            }
        },
        Some(t) => {
            lemma_entries_ask(o, t, prefix, depth, o.tables@[t].entries@.len(), f, q);
        },
    }
}

proof fn lemma_entries_ask(
    o: Objects,
    t: int,
    prefix: Seq<char>,
    depth: nat,
    k: nat,
    f: FoundView,
    q: ReadRequest,
)
    requires
        0 <= t < o.tables@.len(),
        k <= o.tables@[t].entries@.len(),
        f.need is None,
        entries_walked(o, o.tables@[t].entries@, prefix, depth, k, f).need == Some(q),
    ensures
        unread(o, q),
        q matches ReadRequest::Object(a) ==> entry_known(o, a),
    decreases 2 * (258 - depth), k,
{
    let e = o.tables@[t].entries@;
    let g = entries_walked(o, e, prefix, depth, (k - 1) as nat, f);
    if g.need is Some {
        lemma_entries_ask(o, t, prefix, depth, (k - 1) as nat, f, q);
    } else {
        assert(o.tables@[t].entries@[k - 1].addr == e[k - 1].addr);
        assert(entry_known(o, e[k - 1].addr));
        lemma_entry_asks(o, e[k - 1], path_of(prefix, e[k - 1].name@), depth, g, q);
    }
}

proof fn lemma_entry_asks(
    o: Objects,
    e: SymbolEntry,
    path: Seq<char>,
    depth: nat,
    f: FoundView,
    q: ReadRequest,
)
    requires
        entry_known(o, e.addr),
        f.need is None,
        entry_visited(o, e, path, depth, f).need == Some(q),
    ensures
        unread(o, q),
        q matches ReadRequest::Object(a) ==> entry_known(o, a),
    decreases 2 * (258 - depth), 0nat,
{
    if depth <= MAX_GROUP_DEPTH && o.nodes@.contains_key(e.addr) {
        match o.nodes@[e.addr] {
            None => {},
            Some(node) => {
                let m = infos(node.messages@);
                if dataset_of(m, path) is None && !named_datatype(m) {
                    let g = FoundView { paths: with_path(f.paths, path), ..f };
                    if !g.visited.contains(e.addr) {
                        let h = FoundView {
                            visited: g.visited.insert(e.addr),
                            groups: with_group(g.groups, path, attributes_of(m, m.len())),
                            ..g
                        };
                        let (btree, heap) = own_table(e, node);
                        lemma_tables_ask(o, btree, heap, path, depth + 1, h, q);
                    }
                }
            },
        }
    }
}

} // verus!
