//! A walk over a B-tree finds what is in its leaves, from left to right.

use crate::format::UNDEF_ADDR;
use crate::io::reader::trees::{
    chunks_below, chunks_in, node_is, node_of, records_below, records_in, symbol_nodes,
    symbol_nodes_below, tree_chunks, ChildRef, ChunkNode, ChunkTreeView, NameNode, NodeRef,
    RecordNode, RecordsView, SymbolNodesView, TreeChunkView, MAX_TREE_DEPTH,
};
use crate::io::search::lemma_position_is;
use vstd::prelude::*;

verus! {

/// A tree: leaves with their content, and nodes with trees below.
pub enum Shape<T> {
    Leaf { addr: u64, content: Seq<T> },
    Node { addr: u64, below: Seq<Shape<T>> },
}

/// How many trees are below the root.
pub open spec fn width<T>(s: Shape<T>) -> nat {
    match s {
        Shape::Leaf { .. } => 0,
        Shape::Node { below, .. } => below.len(),
    }
}

/// Where the root of a tree stands.
pub open spec fn addr_of<T>(s: Shape<T>) -> u64 {
    match s {
        Shape::Leaf { addr, .. } => addr,
        Shape::Node { addr, .. } => addr,
    }
}

/// What is in the leaves, from left to right.
pub open spec fn content<T>(s: Shape<T>) -> Seq<T>
    decreases s, width(s) + 1,
{
    match s {
        Shape::Leaf { content, .. } => content,
        Shape::Node { below, .. } => contents(s, below.len()),
    }
}

/// What is in the leaves of the first `n` trees below a node.
pub open spec fn contents<T>(s: Shape<T>, n: nat) -> Seq<T>
    decreases s, n,
    when s is Node && n <= s->below.len()
{
    if n == 0 {
        Seq::empty()
    } else {
        contents(s, (n - 1) as nat) + content(s->below[n - 1])
    }
}

/// Whether a tree has at most so many levels.
pub open spec fn levels<T>(s: Shape<T>, n: nat) -> bool
    decreases s,
{
    n > 0 && match s {
        Shape::Leaf { .. } => true,
        Shape::Node { below, .. } => forall|i: int|
            0 <= i < below.len() ==> levels(#[trigger] below[i], (n - 1) as nat),
    }
}

/// The addresses of all nodes of a tree.
pub open spec fn addrs<T>(s: Shape<T>) -> Seq<u64>
    decreases s, width(s) + 1,
{
    match s {
        Shape::Leaf { addr, .. } => seq![addr],
        Shape::Node { addr, below } => seq![addr] + addrs_below(s, below.len()),
    }
}

/// The addresses of the first `n` trees below a node.
pub open spec fn addrs_below<T>(s: Shape<T>, n: nat) -> Seq<u64>
    decreases s, n,
    when s is Node && n <= s->below.len()
{
    if n == 0 {
        Seq::empty()
    } else {
        addrs_below(s, (n - 1) as nat) + addrs(s->below[n - 1])
    }
}

/// Whether a tree of chunks has been read.
pub open spec fn chunks_stand(
    nodes: Map<u64, ChunkNode>,
    s: Shape<TreeChunkView>,
    file_size: u64,
) -> bool
    decreases s,
{
    &&& addr_of(s) != UNDEF_ADDR
    &&& addr_of(s) < file_size
    &&& nodes.contains_key(addr_of(s))
    &&& match s {
        Shape::Leaf { addr, content } => {
            &&& nodes[addr].level == 0
            &&& tree_chunks(nodes[addr].entries@) == content
        },
        Shape::Node { addr, below } => {
            &&& nodes[addr].level != 0
            &&& nodes[addr].entries@.len() == below.len()
            &&& forall|i: int|
                0 <= i < below.len() ==> {
                    &&& nodes[addr].entries@[i].addr == addr_of(#[trigger] below[i])
                    &&& chunks_stand(nodes, below[i], file_size)
                }
        },
    }
}

/// A walk over a version-1 B-tree of chunks finds all chunks of all leaves, from left to
/// right, and nothing else.
pub proof fn lemma_all_chunks_found(
    nodes: Map<u64, ChunkNode>,
    s: Shape<TreeChunkView>,
    file_size: u64,
    depth: nat,
    f: ChunkTreeView,
)
    requires
        chunks_stand(nodes, s, file_size),
        depth <= MAX_TREE_DEPTH,
        levels(s, (MAX_TREE_DEPTH + 1 - depth) as nat),
        f.stop is None,
    ensures
        chunks_in(nodes, addr_of(s), file_size, depth, f) == (ChunkTreeView {
            chunks: f.chunks + content(s),
            stop: None,
        }),
    decreases s, width(s) + 1,
{
    match s {
        Shape::Leaf { .. } => {},
        Shape::Node { addr, below } => {
            lemma_chunks_of_first(nodes, s, file_size, depth, f, below.len());
        },
    }
}

proof fn lemma_chunks_of_first(
    nodes: Map<u64, ChunkNode>,
    s: Shape<TreeChunkView>,
    file_size: u64,
    depth: nat,
    f: ChunkTreeView,
    n: nat,
)
    requires
        chunks_stand(nodes, s, file_size),
        depth <= MAX_TREE_DEPTH,
        levels(s, (MAX_TREE_DEPTH + 1 - depth) as nat),
        f.stop is None,
        s is Node,
        n <= s->below.len(),
    ensures
        chunks_below(nodes, nodes[addr_of(s)].entries@, file_size, depth + 1, n, f) == (
        ChunkTreeView { chunks: f.chunks + contents(s, n), stop: None }),
    decreases s, n,
{
    let e = nodes[addr_of(s)].entries@;
    if n == 0 {
        assert(f.chunks + Seq::<TreeChunkView>::empty() =~= f.chunks);
    } else {
        lemma_chunks_of_first(nodes, s, file_size, depth, f, (n - 1) as nat);
        let t = s->below[n - 1];
        let g = ChunkTreeView { chunks: f.chunks + contents(s, (n - 1) as nat), stop: None };
        assert(levels(t, (MAX_TREE_DEPTH - depth) as nat));
        assert(chunks_stand(nodes, t, file_size));
        lemma_all_chunks_found(nodes, t, file_size, depth + 1, g);
        assert(g.chunks + content(t) =~= f.chunks + contents(s, n));
    }
}

/// Whether a tree of names has been read.
pub open spec fn names_stand(nodes: Map<u64, NameNode>, s: Shape<u64>) -> bool
    decreases s,
{
    &&& nodes.contains_key(addr_of(s))
    &&& match s {
        Shape::Leaf { addr, content } => {
            &&& nodes[addr].level == 0
            &&& nodes[addr].children@ == content
        },
        Shape::Node { addr, below } => {
            &&& nodes[addr].level != 0
            &&& nodes[addr].children@.len() == below.len()
            &&& forall|i: int|
                0 <= i < below.len() ==> {
                    &&& nodes[addr].children@[i] == addr_of(#[trigger] below[i])
                    &&& names_stand(nodes, below[i])
                }
        },
    }
}

/// Whether no node of a tree has been entered, and none is in it twice.
pub open spec fn fresh(a: Seq<u64>, visited: Set<u64>) -> bool {
    &&& a.no_duplicates()
    &&& forall|i: int| 0 <= i < a.len() ==> !visited.contains(#[trigger] a[i])
}

proof fn lemma_fresh_split(a: Seq<u64>, b: Seq<u64>, visited: Set<u64>)
    requires
        fresh(a + b, visited),
    ensures
        fresh(a, visited),
        fresh(b, visited.union(a.to_set())),
{
    let z = a + b;
    assert forall|i: int| 0 <= i < a.len() implies !visited.contains(#[trigger] a[i]) by {
        assert(z[i] == a[i]);
    }
    assert forall|i: int, j: int| 0 <= i < a.len() && 0 <= j < a.len() && i != j implies a[i]
        != a[j] by {
        assert(z[i] != z[j]);
    }
    assert forall|i: int, j: int| 0 <= i < b.len() && 0 <= j < b.len() && i != j implies b[i]
        != b[j] by {
        assert(z[a.len() + i] != z[a.len() + j]);
    }
    assert forall|i: int| 0 <= i < b.len() implies !visited.union(a.to_set()).contains(
        #[trigger] b[i],
    ) by {
        assert(z[a.len() + i] == b[i]);
        if a.contains(b[i]) {
            let j = choose|j: int| 0 <= j < a.len() && a[j] == b[i];
            assert(z[j] != z[a.len() + i]);
        }
    }
}

/// A walk over the tree of names of a group finds all symbol nodes of all leaves, from left
/// to right, and nothing else, where no node stands in the tree twice.
pub proof fn lemma_all_symbols_found(
    nodes: Map<u64, NameNode>,
    s: Shape<u64>,
    depth: nat,
    f: SymbolNodesView,
)
    requires
        names_stand(nodes, s),
        depth <= MAX_TREE_DEPTH,
        levels(s, (MAX_TREE_DEPTH + 1 - depth) as nat),
        fresh(addrs(s), f.visited),
        f.need is None,
    ensures
        symbol_nodes(nodes, addr_of(s), depth, f) == (SymbolNodesView {
            addrs: f.addrs + content(s),
            visited: f.visited.union(addrs(s).to_set()),
            need: None,
        }),
    decreases s, width(s) + 1,
{
    let a = addr_of(s);
    let all = addrs(s);
    assert(all[0] == a);
    let g = SymbolNodesView { visited: f.visited.insert(a), ..f };
    match s {
        Shape::Leaf { .. } => {
            assert(g.visited =~= f.visited.union(all.to_set())) by {
                assert forall|x: u64| all.to_set().contains(x) <==> x == a by {
                    if all.contains(x) {
                    }
                }
            }
        },
        Shape::Node { addr, below } => {
            let rest = addrs_below(s, below.len());
            lemma_fresh_split(seq![addr], rest, f.visited);
            assert(f.visited.union(seq![addr].to_set()) =~= g.visited) by {
                assert forall|x: u64| seq![addr].to_set().contains(x) <==> x == addr by {
                    if x == addr {
                        assert(seq![addr][0] == x);
                    }
                }
            }
            lemma_symbols_of_first(nodes, s, depth, g, below.len());
            assert(g.visited.union(rest.to_set()) =~= f.visited.union(all.to_set())) by {
                assert forall|x: u64| all.contains(x) <==> x == addr || rest.contains(x) by {
                    if rest.contains(x) {
                        let i = choose|i: int| 0 <= i < rest.len() && rest[i] == x;
                        assert(all[i + 1] == x);
                    }
                    if all.contains(x) {
                        let i = choose|i: int| 0 <= i < all.len() && all[i] == x;
                        if i > 0 {
                            assert(rest[i - 1] == x);
                        }
                    }
                }
            }
        },
    }
}

proof fn lemma_symbols_of_first(
    nodes: Map<u64, NameNode>,
    s: Shape<u64>,
    depth: nat,
    f: SymbolNodesView,
    n: nat,
)
    requires
        names_stand(nodes, s),
        depth <= MAX_TREE_DEPTH,
        levels(s, (MAX_TREE_DEPTH + 1 - depth) as nat),
        s is Node,
        n <= s->below.len(),
        fresh(addrs_below(s, n), f.visited),
        f.need is None,
    ensures
        symbol_nodes_below(nodes, nodes[addr_of(s)].children@, depth + 1, n, f) == (
        SymbolNodesView {
            addrs: f.addrs + contents(s, n),
            visited: f.visited.union(addrs_below(s, n).to_set()),
            need: None,
        }),
    decreases s, n,
{
    let c = nodes[addr_of(s)].children@;
    if n == 0 {
        assert(f.addrs + Seq::<u64>::empty() =~= f.addrs);
        assert(f.visited.union(Seq::<u64>::empty().to_set()) =~= f.visited);
    } else {
        let m = (n - 1) as nat;
        let t = s->below[n - 1];
        let x = addrs_below(s, m);
        let y = addrs(t);
        lemma_fresh_split(x, y, f.visited);
        lemma_symbols_of_first(nodes, s, depth, f, m);
        let g = SymbolNodesView {
            addrs: f.addrs + contents(s, m),
            visited: f.visited.union(x.to_set()),
            need: None,
        };
        assert(levels(t, (MAX_TREE_DEPTH - depth) as nat));
        assert(names_stand(nodes, t));
        lemma_all_symbols_found(nodes, t, depth + 1, g);
        assert(g.addrs + content(t) =~= f.addrs + contents(s, n));
        assert(g.visited.union(y.to_set()) =~= f.visited.union((x + y).to_set())) by {
            assert forall|a: u64| (x + y).contains(a) <==> x.contains(a) || y.contains(a) by {
                if x.contains(a) {
                    let i = choose|i: int| 0 <= i < x.len() && x[i] == a;
                    assert((x + y)[i] == a);
                }
                if y.contains(a) {
                    let i = choose|i: int| 0 <= i < y.len() && y[i] == a;
                    assert((x + y)[x.len() + i] == a);
                }
            }
        }
    }
}

/// A version-2 B-tree: every node has records.
pub struct RecordShape {
    pub node: NodeRef,
    pub records: Seq<u8>,
    pub below: Seq<RecordShape>,
}

/// All records of a tree: those of a node, then those of the trees below, from left to
/// right.
pub open spec fn all_records(s: RecordShape) -> Seq<u8>
    decreases s, s.below.len() + 1,
{
    s.records + records_of_first(s, s.below.len())
}

/// The records of the first `n` trees below a node.
pub open spec fn records_of_first(s: RecordShape, n: nat) -> Seq<u8>
    decreases s, n,
    when n <= s.below.len()
{
    if n == 0 {
        Seq::empty()
    } else {
        records_of_first(s, (n - 1) as nat) + all_records(s.below[n - 1])
    }
}

/// Whether a node of a tree has been read: its records and the nodes below, which are one
/// level lower.
pub open spec fn records_stand(nodes: Seq<RecordNode>, s: RecordShape) -> bool
    decreases s,
{
    &&& exists|i: int| 0 <= i < nodes.len() && (#[trigger] nodes[i]).node == s.node
    &&& forall|i: int|
        0 <= i < nodes.len() && (#[trigger] nodes[i]).node == s.node ==> {
            &&& nodes[i].records@ == s.records
            &&& s.node.depth > 0 ==> nodes[i].children@ == Seq::new(
                s.below.len(),
                |j: int| ChildRef { addr: s.below[j].node.addr, nrec: s.below[j].node.nrec },
            )
        }
    &&& s.node.depth == 0 ==> s.below.len() == 0
    &&& forall|j: int|
        0 <= j < s.below.len() ==> {
            &&& (#[trigger] s.below[j]).node.depth == s.node.depth - 1
            &&& records_stand(nodes, s.below[j])
        }
}

/// A walk over a version-2 B-tree finds the records of all nodes, and nothing else.
pub proof fn lemma_all_records_found(nodes: Seq<RecordNode>, s: RecordShape, f: RecordsView)
    requires
        records_stand(nodes, s),
        f.need is None,
    ensures
        records_in(nodes, s.node, f) == (RecordsView {
            bytes: f.bytes + all_records(s),
            need: None,
        }),
    decreases s, s.below.len() + 1,
{
    lemma_position_is(nodes.len(), node_is(nodes, s.node));
    let k = choose|k: int| 0 <= k < nodes.len() && (#[trigger] nodes[k]).node == s.node;
    assert(node_is(nodes, s.node)(k));
    let i = node_of(nodes, s.node)->0;
    assert(nodes[i].node == s.node);
    let g = RecordsView { bytes: f.bytes + s.records, ..f };
    if s.node.depth == 0 {
        assert(s.records + Seq::<u8>::empty() =~= s.records);
    } else {
        lemma_records_of_first(nodes, s, g, s.below.len());
        assert(g.bytes + records_of_first(s, s.below.len()) =~= f.bytes + all_records(s));
    }
}

proof fn lemma_records_of_first(nodes: Seq<RecordNode>, s: RecordShape, f: RecordsView, n: nat)
    requires
        records_stand(nodes, s),
        s.node.depth > 0,
        n <= s.below.len(),
        f.need is None,
    ensures
        records_below(
            nodes,
            Seq::new(
                s.below.len(),
                |j: int| ChildRef { addr: s.below[j].node.addr, nrec: s.below[j].node.nrec },
            ),
            (s.node.depth - 1) as u16,
            n,
            f,
        ) == (RecordsView { bytes: f.bytes + records_of_first(s, n), need: None }),
    decreases s, n,
{
    if n == 0 {
        assert(f.bytes + Seq::<u8>::empty() =~= f.bytes);
    } else {
        let m = (n - 1) as nat;
        lemma_records_of_first(nodes, s, f, m);
        let t = s.below[n - 1];
        let g = RecordsView { bytes: f.bytes + records_of_first(s, m), need: None };
        assert(records_stand(nodes, t));
        assert(t.node == (NodeRef {
            addr: t.node.addr,
            depth: (s.node.depth - 1) as u16,
            nrec: t.node.nrec,
        }));
        lemma_all_records_found(nodes, t, g);
        assert(g.bytes + all_records(t) =~= f.bytes + records_of_first(s, n));
    }
}

} // verus!
