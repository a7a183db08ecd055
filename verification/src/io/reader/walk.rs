//! Walking the groups of a file.
//!
//! A walk works on the object headers and symbol tables that have been read so far.
//! When it comes to one that has not, it stops and says which.

use crate::format::messages::attribute::{AttributeMessage, AttributeView};
use crate::format::UNDEF_ADDR;
use crate::io::reader::catalog::{contains_text, GroupAttributes};
use crate::io::reader::messages::{
    attribute_views, attributes_of, dataset_of, infos, is_named_datatype, named_datatype,
    object_attributes, read_dataset_from_object_header, DatasetReadInfo, DecodedMessage, InfoView,
    ReadView,
};
use crate::io::search::{is_at, lemma_no_position, lemma_position, lemma_position_is, position};
use crate::io::writer::catalog::texts;
use crate::io::writer::headers::{BodyView, MessageBody};
use std::collections::{HashMap, HashSet};
use vstd::prelude::*;
use vstd::string::{StrSliceExecFns, StringExecFns};

verus! {

broadcast use vstd::std_specs::hash::group_hash_axioms;

/// How deep groups are followed.
pub const MAX_GROUP_DEPTH: usize = 256;

/// An object header that has been read.
#[derive(Debug)]
pub struct ObjectNode {
    /// The messages.
    pub messages: Vec<DecodedMessage>,
    /// The B-tree of the object's symbol table.
    pub btree: u64,
    /// The heap of the object's symbol table.
    pub heap: u64,
}

/// An entry of a symbol table.
#[derive(Debug)]
pub struct SymbolEntry {
    /// Name of the object.
    pub name: String,
    /// Address of the object's header.
    pub addr: u64,
    /// Whether the entry knows the object's own symbol table.
    pub cached: bool,
    /// The B-tree of the object's symbol table.
    pub btree: u64,
    /// The heap of the object's symbol table.
    pub heap: u64,
}

/// The symbol table of a group.
#[derive(Debug)]
pub struct SymbolTable {
    /// Its B-tree.
    pub btree: u64,
    /// Its heap.
    pub heap: u64,
    /// Its entries.
    pub entries: Vec<SymbolEntry>,
}

/// What has been read of a file.
pub struct Objects {
    /// Object headers by their address. A header that cannot be decoded has no node.
    pub nodes: HashMap<u64, Option<ObjectNode>>,
    /// Symbol tables.
    pub tables: Vec<SymbolTable>,
}

/// What has to be read for a walk to go on.
#[derive(Debug, Clone, Copy, PartialEq, Eq, Structural)]
pub enum ReadRequest {
    /// The object header at this address.
    Object(u64),
    /// The symbol table with this B-tree and this heap.
    Table { btree: u64, heap: u64 },
}

/// What a walk has found.
pub struct Found {
    /// The datasets.
    pub datasets: Vec<DatasetReadInfo>,
    /// Attributes of groups.
    pub group_attributes: Vec<GroupAttributes>,
    /// Paths of groups, each once.
    pub group_paths: Vec<String>,
    /// Headers of the groups that have been entered.
    pub visited: HashSet<u64>,
    /// What is missing.
    pub need: Option<ReadRequest>,
}

/// The attributes of a group.
#[verifier::ext_equal]
pub struct GroupView {
    pub path: Seq<char>,
    pub attributes: Seq<AttributeView>,
}

/// What a walk has found.
#[verifier::ext_equal]
pub struct FoundView {
    pub datasets: Seq<ReadView>,
    pub groups: Seq<GroupView>,
    pub paths: Seq<Seq<char>>,
    pub visited: Set<u64>,
    pub need: Option<ReadRequest>,
}

/// What is known of datasets.
pub open spec fn read_views(v: Seq<DatasetReadInfo>) -> Seq<ReadView> {
    Seq::new(v.len(), |i: int| v[i]@)
}

/// The attributes of groups.
pub open spec fn group_views(v: Seq<GroupAttributes>) -> Seq<GroupView> {
    Seq::new(
        v.len(),
        |i: int| GroupView { path: v[i].path@, attributes: attribute_views(v[i].attributes@) },
    )
}

impl View for Found {
    type V = FoundView;

    open spec fn view(&self) -> FoundView {
        FoundView {
            datasets: read_views(self.datasets@),
            groups: group_views(self.group_attributes@),
            paths: texts(self.group_paths@),
            visited: self.visited@,
            need: self.need,
        }
    }
}

/// The path of an object in a group.
pub open spec fn path_of(prefix: Seq<char>, name: Seq<char>) -> Seq<char> {
    if prefix.len() == 0 {
        name
    } else {
        prefix + "/"@ + name
    }
}

/// The path of an object in a group.
pub fn join_path(prefix: &str, name: &str) -> (s: String)
    ensures
        s@ == path_of(prefix@, name@),
{
    if prefix.unicode_len() == 0 {
        name.to_owned()
    } else {
        prefix.to_owned().concat("/").concat(name)
    }
}

/// Whether the attributes at `i` are those of the group at `path`.
pub open spec fn entry_of(gs: Seq<GroupView>, path: Seq<char>) -> spec_fn(int) -> bool {
    |i: int| gs[i].path == path
}

/// Attributes of groups with those of one more; a group without attributes changes
/// nothing.
pub open spec fn with_group(gs: Seq<GroupView>, path: Seq<char>, a: Seq<AttributeView>) -> Seq<
    GroupView,
> {
    let g = GroupView { path, attributes: a };
    if a.len() == 0 {
        gs
    } else {
        match position(gs.len(), entry_of(gs, path)) {
            Some(i) => gs.update(i, g),
            None => gs.push(g),
        }
    }
}

/// Paths with one more, unless it is there.
pub open spec fn with_path(paths: Seq<Seq<char>>, path: Seq<char>) -> Seq<Seq<char>> {
    if paths.contains(path) {
        paths
    } else {
        paths.push(path)
    }
}

impl Found {
    /// A walk that has found nothing yet. The root group counts as entered.
    pub fn new(root: u64) -> (f: Self)
        ensures
            f@ == (FoundView {
                datasets: Seq::empty(),
                groups: Seq::empty(),
                paths: Seq::empty(),
                visited: set![root],
                need: None,
            }),
    {
        let mut visited: HashSet<u64> = HashSet::new();
        visited.insert(root);
        let f = Found {
            datasets: Vec::new(),
            group_attributes: Vec::new(),
            group_paths: Vec::new(),
            visited,
            need: None,
        };
        proof {
            assert(f@.datasets =~= Seq::<ReadView>::empty());
            assert(f@.groups =~= Seq::<GroupView>::empty());
            assert(f@.paths =~= Seq::<Seq<char>>::empty());
            assert(f@.visited =~= set![root]);
        }
        f
    }

    /// Add a dataset.
    fn add_dataset(&mut self, d: DatasetReadInfo)
        ensures
            final(self)@ == (FoundView { datasets: old(self)@.datasets.push(d@), ..old(self)@ }),
    {
        self.datasets.push(d);
        assert(self@.datasets =~= old(self)@.datasets.push(d@));
    }

    /// Add the path of a group.
    fn add_path(&mut self, path: &str)
        ensures
            final(self)@ == (FoundView {
                paths: with_path(old(self)@.paths, path@),
                ..old(self)@
            }),
    {
        if !contains_text(&self.group_paths, path) {
            self.group_paths.push(path.to_owned());
            assert(self@.paths =~= old(self)@.paths.push(path@));
        }
    }

    /// Add the attributes of a group.
    fn add_attributes(&mut self, path: &str, attributes: Vec<AttributeMessage>)
        ensures
            final(self)@ == (FoundView {
                groups: with_group(old(self)@.groups, path@, attribute_views(attributes@)),
                ..old(self)@
            }),
    {
        assert(attribute_views(attributes@).len() == attributes@.len());
        if attributes.len() == 0 {
            return;
        }
        let ghost gs = self@.groups;
        let ghost f = entry_of(gs, path@);
        let ghost g = GroupView { path: path@, attributes: attribute_views(attributes@) };
        let wanted: String = path.to_owned();
        let n: usize = self.group_attributes.len();
        let mut i: usize = 0;
        while i < n && self.group_attributes[i].path != wanted
            invariant
                i <= n,
                n == self.group_attributes@.len(),
                *self == *old(self),
                wanted@ == path@,
                gs == self@.groups,
                f == entry_of(gs, path@),
                forall|j: int| 0 <= j < i ==> !#[trigger] f(j),
            decreases n - i,
        {
            assert(!f(i as int)) by {
                assert(gs[i as int].path == self.group_attributes@[i as int].path@);
            }
            i = i + 1;
        }
        let one = GroupAttributes { path: wanted, attributes };
        if i < n {
            proof {
                assert(gs[i as int].path == self.group_attributes@[i as int].path@);
                assert(f(i as int));
                lemma_position(gs.len(), f, i as int);
            }
            self.group_attributes.set(i, one);
            assert(self@.groups =~= gs.update(i as int, g));
        } else {
            proof {
                lemma_no_position(gs.len(), f);
            }
            self.group_attributes.push(one);
            assert(self@.groups =~= gs.push(g));
        }
    }
}

/// The first `k` messages of a group in a walk over links. `prefix` is the path of the
/// group.
pub open spec fn walked(
    o: Objects,
    m: Seq<InfoView>,
    prefix: Seq<char>,
    depth: nat,
    k: nat,
    f: FoundView,
) -> FoundView
    decreases 257 - depth, k,
{
    if depth > MAX_GROUP_DEPTH || k == 0 {
        f
    } else {
        let g = walked(o, m, prefix, depth, (k - 1) as nat, f);
        if g.need is Some {
            g
        } else {
            match m[k - 1].body {
                Some(BodyView::Link { name, addr }) => link_visited(
                    o,
                    path_of(prefix, name),
                    depth,
                    addr,
                    g,
                ),
                _ => g,
            }
        }
    }
}

/// The object at the end of a link. A dataset is added; a group is added with its
/// attributes, and entered unless it has been before; anything else is passed over.
pub open spec fn link_visited(
    o: Objects,
    path: Seq<char>,
    depth: nat,
    addr: u64,
    f: FoundView,
) -> FoundView
    decreases 257 - depth, 0nat,
{
    if depth > MAX_GROUP_DEPTH {
        f
    } else if !o.nodes@.contains_key(addr) {
        FoundView { need: Some(ReadRequest::Object(addr)), ..f }
    } else {
        match o.nodes@[addr] {
            None => f,
            Some(node) => {
                let m = infos(node.messages@);
                match dataset_of(m, path) {
                    Some(d) => FoundView { datasets: f.datasets.push(d), ..f },
                    None => if named_datatype(m) {
                        f
                    } else {
                        let g = FoundView {
                            paths: with_path(f.paths, path),
                            groups: with_group(f.groups, path, attributes_of(m, m.len())),
                            ..f
                        };
                        if g.visited.contains(addr) {
                            g
                        } else {
                            walked(
                                o,
                                m,
                                path,
                                depth + 1,
                                m.len(),
                                FoundView { visited: g.visited.insert(addr), ..g },
                            )
                        }
                    },
                }
            },
        }
    }
}

/// Walk over the links of a group.
pub fn walk_links(
    o: &Objects,
    messages: &Vec<DecodedMessage>,
    prefix: &str,
    depth: usize,
    found: &mut Found,
)
    requires
        depth <= MAX_GROUP_DEPTH + 1,
        old(found).need is None,
    ensures
        final(found)@ == walked(
            *o,
            infos(messages@),
            prefix@,
            depth as nat,
            messages@.len(),
            old(found)@,
        ),
    decreases MAX_GROUP_DEPTH + 1 - depth, messages@.len() + 1,
{
    if depth > MAX_GROUP_DEPTH {
        return;
    }
    let ghost m = infos(messages@);
    let ghost start = found@;
    let n: usize = messages.len();
    let mut k: usize = 0;
    while k < n
        invariant
            k <= n,
            n == messages@.len(),
            m == infos(messages@),
            depth <= MAX_GROUP_DEPTH,
            found.need is None,
            start == old(found)@,
            found@ == walked(*o, m, prefix@, depth as nat, k as nat, start),
        decreases n - k,
    {
        assert(m[k as int] == messages@[k as int]@);
        match &messages[k].body {
            Some(MessageBody::Link { name, addr }) => {
                let path = join_path(prefix, name.as_str());
                visit_link(o, path.as_str(), depth, *addr, found);
                if found.need.is_some() {
                    proof {
                        lemma_walk_stops(
                            *o,
                            m,
                            prefix@,
                            depth as nat,
                            (k + 1) as nat,
                            n as nat,
                            start,
                        );
                    }
                    return;
                }
            },
            _ => {},
        }
        k = k + 1;
    }
}

/// A walk that has stopped stays where it is.
proof fn lemma_walk_stops(
    o: Objects,
    m: Seq<InfoView>,
    prefix: Seq<char>,
    depth: nat,
    k: nat,
    n: nat,
    f: FoundView,
)
    requires
        k <= n,
        walked(o, m, prefix, depth, k, f).need is Some,
    ensures
        walked(o, m, prefix, depth, n, f) == walked(o, m, prefix, depth, k, f),
    decreases n,
{
    if k < n {
        lemma_walk_stops(o, m, prefix, depth, k, (n - 1) as nat, f);
    }
}

fn visit_link(o: &Objects, path: &str, depth: usize, addr: u64, found: &mut Found)
    requires
        depth <= MAX_GROUP_DEPTH,
        old(found).need is None,
    ensures
        final(found)@ == link_visited(*o, path@, depth as nat, addr, old(found)@),
    decreases MAX_GROUP_DEPTH + 1 - depth, 0nat,
{
    match o.nodes.get(&addr) {
        None => {
            found.need = Some(ReadRequest::Object(addr));
        },
        Some(None) => {},
        Some(Some(node)) => match read_dataset_from_object_header(&node.messages, path) {
            Some(d) => {
                found.add_dataset(d);
            },
            None => {
                if is_named_datatype(&node.messages) {
                    return;
                }
                found.add_path(path);
                let attributes = object_attributes(&node.messages);
                found.add_attributes(path, attributes);
                if found.visited.contains(&addr) {
                    return;
                }
                found.visited.insert(addr);
                walk_links(o, &node.messages, path, depth + 1, found);
            },
        },
    }
}

/// What a walk over links finds from the root group on. The root group is entered
/// once.
pub open spec fn linked(o: Objects, root: Seq<InfoView>, addr: u64) -> FoundView {
    walked(o, root, Seq::empty(), 0, root.len(), nothing(addr))
}

/// A walk that has found nothing yet.
pub open spec fn nothing(root: u64) -> FoundView {
    FoundView {
        datasets: Seq::empty(),
        groups: Seq::empty(),
        paths: Seq::empty(),
        visited: set![root],
        need: None,
    }
}

/// Walk over the links of a file. `root` is the header of the root group.
pub fn discover_datasets_from_links(o: &Objects, root: &Vec<DecodedMessage>, addr: u64) -> (f:
    Found)
    ensures
        f@ == linked(*o, infos(root@), addr),
{
    let mut f = Found::new(addr);
    proof {
        reveal_strlit("");
        assert(""@ =~= Seq::<char>::empty());
        assert(infos(root@).len() == root@.len());
    }
    walk_links(o, root, "", 0, &mut f);
    f
}

/// Whether a symbol table is that of this B-tree and this heap.
pub open spec fn table_at(tables: Seq<SymbolTable>, btree: u64, heap: u64) -> spec_fn(int) -> bool {
    |i: int| tables[i].btree == btree && tables[i].heap == heap
}

/// The symbol table of this B-tree and this heap.
pub open spec fn table_of(o: Objects, btree: u64, heap: u64) -> Option<int> {
    position(o.tables@.len(), table_at(o.tables@, btree, heap))
}

/// A group with a symbol table. `prefix` is the path of the group.
pub open spec fn tabled(
    o: Objects,
    btree: u64,
    heap: u64,
    prefix: Seq<char>,
    depth: nat,
    f: FoundView,
) -> FoundView
    decreases 2 * (258 - depth) + 1, 0nat,
{
    if depth > MAX_GROUP_DEPTH || btree == UNDEF_ADDR || heap == UNDEF_ADDR {
        f
    } else {
        match table_of(o, btree, heap) {
            None => FoundView { need: Some(ReadRequest::Table { btree, heap }), ..f },
            Some(t) => entries_walked(
                o,
                o.tables@[t].entries@,
                prefix,
                depth,
                o.tables@[t].entries@.len(),
                f,
            ),
        }
    }
}

/// The first `k` entries of a symbol table.
pub open spec fn entries_walked(
    o: Objects,
    e: Seq<SymbolEntry>,
    prefix: Seq<char>,
    depth: nat,
    k: nat,
    f: FoundView,
) -> FoundView
    decreases 2 * (258 - depth), k,
{
    if depth > MAX_GROUP_DEPTH || k == 0 {
        f
    } else {
        let g = entries_walked(o, e, prefix, depth, (k - 1) as nat, f);
        if g.need is Some || e[k - 1].name@.len() == 0 {
            g
        } else {
            entry_visited(o, e[k - 1], path_of(prefix, e[k - 1].name@), depth, g)
        }
    }
}

/// The symbol table of an entry's object: the one that the entry knows, or that of
/// the object's header.
pub open spec fn own_table(e: SymbolEntry, node: ObjectNode) -> (u64, u64) {
    if e.cached {
        (e.btree, e.heap)
    } else {
        (node.btree, node.heap)
    }
}

/// The object of an entry. A dataset is added; a group is added, and entered unless
/// it has been before; anything else is passed over.
pub open spec fn entry_visited(
    o: Objects,
    e: SymbolEntry,
    path: Seq<char>,
    depth: nat,
    f: FoundView,
) -> FoundView
    decreases 2 * (258 - depth), 0nat,
{
    if depth > MAX_GROUP_DEPTH {
        f
    } else if !o.nodes@.contains_key(e.addr) {
        FoundView { need: Some(ReadRequest::Object(e.addr)), ..f }
    } else {
        match o.nodes@[e.addr] {
            None => f,
            Some(node) => {
                let m = infos(node.messages@);
                match dataset_of(m, path) {
                    Some(d) => FoundView { datasets: f.datasets.push(d), ..f },
                    None => if named_datatype(m) {
                        f
                    } else {
                        let g = FoundView { paths: with_path(f.paths, path), ..f };
                        if g.visited.contains(e.addr) {
                            g
                        } else {
                            let h = FoundView {
                                visited: g.visited.insert(e.addr),
                                groups: with_group(g.groups, path, attributes_of(m, m.len())),
                                ..g
                            };
                            let (btree, heap) = own_table(e, node);
                            tabled(o, btree, heap, path, depth + 1, h)
                        }
                    },
                }
            },
        }
    }
}

/// A walk that has stopped stays where it is.
proof fn lemma_entries_stop(
    o: Objects,
    e: Seq<SymbolEntry>,
    prefix: Seq<char>,
    depth: nat,
    k: nat,
    n: nat,
    f: FoundView,
)
    requires
        k <= n,
        entries_walked(o, e, prefix, depth, k, f).need is Some,
    ensures
        entries_walked(o, e, prefix, depth, n, f) == entries_walked(o, e, prefix, depth, k, f),
    decreases n,
{
    if k < n {
        lemma_entries_stop(o, e, prefix, depth, k, (n - 1) as nat, f);
    }
}

impl Objects {
    /// The symbol table of this B-tree and this heap.
    pub fn find_table(&self, btree: u64, heap: u64) -> (r: Option<usize>)
        ensures
            is_at(r, table_of(*self, btree, heap)),
    {
        let ghost f = table_at(self.tables@, btree, heap);
        let mut i: usize = 0;
        while i < self.tables.len()
            invariant
                i <= self.tables.len(),
                f == table_at(self.tables@, btree, heap),
                forall|j: int| 0 <= j < i ==> !#[trigger] f(j),
            decreases self.tables.len() - i,
        {
            if self.tables[i].btree == btree && self.tables[i].heap == heap {
                proof {
                    assert(f(i as int));
                    lemma_position(self.tables@.len(), f, i as int);
                }
                return Some(i);
            }
            assert(!f(i as int));
            i = i + 1;
        }
        proof {
            lemma_no_position(self.tables@.len(), f);
        }
        None
    }
}

/// Walk over the symbol table of a group.
pub fn walk_table(
    o: &Objects,
    btree: u64,
    heap: u64,
    prefix: &str,
    depth: usize,
    found: &mut Found,
)
    requires
        depth <= MAX_GROUP_DEPTH + 1,
        old(found).need is None,
    ensures
        final(found)@ == tabled(*o, btree, heap, prefix@, depth as nat, old(found)@),
    decreases 2 * (MAX_GROUP_DEPTH + 2 - depth) + 1, 0nat,
{
    if depth > MAX_GROUP_DEPTH || btree == UNDEF_ADDR || heap == UNDEF_ADDR {
        return;
    }
    proof {
        lemma_position_is(o.tables@.len(), table_at(o.tables@, btree, heap));
    }
    match o.find_table(btree, heap) {
        None => {
            found.need = Some(ReadRequest::Table { btree, heap });
        },
        Some(t) => {
            walk_entries(o, &o.tables[t].entries, prefix, depth, found);
        },
    }
}

fn walk_entries(
    o: &Objects,
    entries: &Vec<SymbolEntry>,
    prefix: &str,
    depth: usize,
    found: &mut Found,
)
    requires
        depth <= MAX_GROUP_DEPTH,
        old(found).need is None,
    ensures
        final(found)@ == entries_walked(
            *o,
            entries@,
            prefix@,
            depth as nat,
            entries@.len(),
            old(found)@,
        ),
    decreases 2 * (MAX_GROUP_DEPTH + 2 - depth), entries@.len() + 1,
{
    let ghost e = entries@;
    let ghost start = found@;
    let n: usize = entries.len();
    let mut k: usize = 0;
    while k < n
        invariant
            k <= n,
            n == entries@.len(),
            e == entries@,
            depth <= MAX_GROUP_DEPTH,
            found.need is None,
            start == old(found)@,
            found@ == entries_walked(*o, e, prefix@, depth as nat, k as nat, start),
        decreases n - k,
    {
        if entries[k].name.as_str().unicode_len() > 0 {
            let path = join_path(prefix, entries[k].name.as_str());
            visit_entry(o, &entries[k], path.as_str(), depth, found);
            if found.need.is_some() {
                proof {
                    lemma_entries_stop(
                        *o,
                        e,
                        prefix@,
                        depth as nat,
                        (k + 1) as nat,
                        n as nat,
                        start,
                    );
                }
                return;
            }
        }
        k = k + 1;
    }
}

fn visit_entry(o: &Objects, e: &SymbolEntry, path: &str, depth: usize, found: &mut Found)
    requires
        depth <= MAX_GROUP_DEPTH,
        old(found).need is None,
    ensures
        final(found)@ == entry_visited(*o, *e, path@, depth as nat, old(found)@),
    decreases 2 * (MAX_GROUP_DEPTH + 2 - depth), 0nat,
{
    match o.nodes.get(&e.addr) {
        None => {
            found.need = Some(ReadRequest::Object(e.addr));
        },
        Some(None) => {},
        Some(Some(node)) => match read_dataset_from_object_header(&node.messages, path) {
            Some(d) => {
                found.add_dataset(d);
            },
            None => {
                if is_named_datatype(&node.messages) {
                    return;
                }
                found.add_path(path);
                if found.visited.contains(&e.addr) {
                    return;
                }
                found.visited.insert(e.addr);
                let attributes = object_attributes(&node.messages);
                found.add_attributes(path, attributes);
                if e.cached {
                    walk_table(o, e.btree, e.heap, path, depth + 1, found);
                } else {
                    walk_table(o, node.btree, node.heap, path, depth + 1, found);
                }
            },
        },
    }
}

/// Walk over the symbol tables of a file, from that of the root group on.
pub fn discover_datasets_from_btree(o: &Objects, btree: u64, heap: u64, root: u64) -> (f: Found)
    ensures
        f@ == tabled(*o, btree, heap, Seq::empty(), 0, nothing(root)),
{
    let mut f = Found::new(root);
    proof {
        reveal_strlit("");
        assert(""@ =~= Seq::<char>::empty());
    }
    walk_table(o, btree, heap, "", 0, &mut f);
    f
}

/// A walk keeps the datasets that it has found, and the groups that it has entered.
pub proof fn lemma_walk_keeps(
    o: Objects,
    m: Seq<InfoView>,
    prefix: Seq<char>,
    depth: nat,
    k: nat,
    f: FoundView,
)
    ensures
        ({
            let g = walked(o, m, prefix, depth, k, f);
            f.datasets.is_prefix_of(g.datasets) && f.visited.subset_of(g.visited)
                && f.paths.is_prefix_of(g.paths)
        }),
    decreases 257 - depth, k,
{
    if depth <= MAX_GROUP_DEPTH && k > 0 {
        lemma_walk_keeps(o, m, prefix, depth, (k - 1) as nat, f);
        let g = walked(o, m, prefix, depth, (k - 1) as nat, f);
        if g.need is None {
            match m[k - 1].body {
                Some(BodyView::Link { name, addr }) => {
                    lemma_visit_keeps(o, path_of(prefix, name), depth, addr, g);
                    let h = link_visited(o, path_of(prefix, name), depth, addr, g);
                    assert(f.datasets =~= h.datasets.subrange(0, f.datasets.len() as int));
                    assert(f.paths =~= h.paths.subrange(0, f.paths.len() as int));
                },
                _ => {},
            }
        }
    } else {
        assert(f.datasets =~= f.datasets.subrange(0, f.datasets.len() as int));
        assert(f.paths =~= f.paths.subrange(0, f.paths.len() as int));
    }
}

pub proof fn lemma_visit_keeps(o: Objects, path: Seq<char>, depth: nat, addr: u64, f: FoundView)
    ensures
        ({
            let g = link_visited(o, path, depth, addr, f);
            f.datasets.is_prefix_of(g.datasets) && f.visited.subset_of(g.visited)
                && f.paths.is_prefix_of(g.paths)
        }),
    decreases 257 - depth, 0nat,
{
    let r = link_visited(o, path, depth, addr, f);
    assert(f.datasets =~= f.datasets.subrange(0, f.datasets.len() as int));
    assert(f.paths =~= f.paths.subrange(0, f.paths.len() as int));
    if depth <= MAX_GROUP_DEPTH && o.nodes@.contains_key(addr) {
        match o.nodes@[addr] {
            None => {},
            Some(node) => {
                let m = infos(node.messages@);
                match dataset_of(m, path) {
                    Some(d) => {
                        assert(f.datasets =~= r.datasets.subrange(0, f.datasets.len() as int));
                    },
                    None => if !named_datatype(m) {
                        let g = FoundView {
                            paths: with_path(f.paths, path),
                            groups: with_group(f.groups, path, attributes_of(m, m.len())),
                            ..f
                        };
                        assert(f.paths =~= g.paths.subrange(0, f.paths.len() as int));
                        if !g.visited.contains(addr) {
                            let h = FoundView { visited: g.visited.insert(addr), ..g };
                            lemma_walk_keeps(o, m, path, depth + 1, m.len(), h);
                            assert(f.paths =~= r.paths.subrange(0, f.paths.len() as int));
                        }
                    },
                }
            },
        }
    }
}

/// Every dataset that a link of the root group leads to is found, under the name of
/// the link, once everything has been read.
pub proof fn lemma_linked_dataset(o: Objects, m: Seq<InfoView>, addr: u64, i: int)
    requires
        0 <= i < m.len(),
        linked(o, m, addr).need is None,
    ensures
        match m[i].body {
            Some(BodyView::Link { name, addr: a }) => o.nodes@.contains_key(a) && match o.nodes@[a] {
                Some(node) => match dataset_of(infos(node.messages@), name) {
                    Some(d) => linked(o, m, addr).datasets.contains(d),
                    None => true,
                },
                None => true,
            },
            _ => true,
        },
{
    let none = Seq::<char>::empty();
    let f = nothing(addr);
    let n = m.len();
    lemma_rest_needs(o, m, none, 0, (i + 1) as nat, n, f);
    lemma_rest_needs(o, m, none, 0, i as nat, n, f);
    let before = walked(o, m, none, 0, i as nat, f);
    let after = walked(o, m, none, 0, (i + 1) as nat, f);
    match m[i].body {
        Some(BodyView::Link { name, addr: a }) => {
            assert(path_of(none, name) == name);
            assert(after == link_visited(o, name, 0, a, before));
            if o.nodes@.contains_key(a) {
                match o.nodes@[a] {
                    Some(node) => match dataset_of(infos(node.messages@), name) {
                        Some(d) => {
                            assert(after.datasets[before.datasets.len() as int] == d);
                            lemma_rest_keeps(o, m, none, 0, (i + 1) as nat, n, f);
                            let last = walked(o, m, none, 0, n, f).datasets;
                            assert(last[before.datasets.len() as int] == d) by {
                                assert(after.datasets == last.subrange(
                                    0,
                                    after.datasets.len() as int,
                                ));
                            }
                        },
                        None => {},
                    },
                    None => {},
                }
            }
        },
        _ => {},
    }
}

/// If nothing was missing in the end, nothing was missing on the way.
pub proof fn lemma_rest_needs(
    o: Objects,
    m: Seq<InfoView>,
    prefix: Seq<char>,
    depth: nat,
    k: nat,
    n: nat,
    f: FoundView,
)
    requires
        k <= n,
        walked(o, m, prefix, depth, n, f).need is None,
    ensures
        walked(o, m, prefix, depth, k, f).need is None,
{
    if walked(o, m, prefix, depth, k, f).need is Some {
        lemma_walk_stops(o, m, prefix, depth, k, n, f);
    }
}

/// What has been found after some messages is still there after more.
pub proof fn lemma_rest_keeps(
    o: Objects,
    m: Seq<InfoView>,
    prefix: Seq<char>,
    depth: nat,
    k: nat,
    n: nat,
    f: FoundView,
)
    requires
        k <= n,
    ensures
        walked(o, m, prefix, depth, k, f).datasets.is_prefix_of(
            walked(o, m, prefix, depth, n, f).datasets,
        ),
    decreases n,
{
    let a = walked(o, m, prefix, depth, k, f).datasets;
    assert(a =~= a.subrange(0, a.len() as int));
    if k < n && depth <= MAX_GROUP_DEPTH {
        lemma_rest_keeps(o, m, prefix, depth, k, (n - 1) as nat, f);
        let g = walked(o, m, prefix, depth, (n - 1) as nat, f);
        if g.need is None {
            match m[n - 1].body {
                Some(BodyView::Link { name, addr }) => {
                    lemma_visit_keeps(o, path_of(prefix, name), depth, addr, g);
                    let h = link_visited(o, path_of(prefix, name), depth, addr, g);
                    assert(a =~= h.datasets.subrange(0, a.len() as int)) by {
                        assert(g.datasets == h.datasets.subrange(0, g.datasets.len() as int));
                    }
                },
                _ => {},
            }
        }
    }
}

} // verus!
