//! What walks over trees ask for.

use crate::format::UNDEF_ADDR;
use crate::io::reader::trees::{
    chunks_below, chunks_in, node_is, node_of, records_below, records_in, symbol_nodes,
    symbol_nodes_below, wrong_size, ChildRef, ChunkNode, ChunkTreeView, NameNode, NodeRef,
    RecordNode, RecordsView, SymbolNodesView, TreeChunkView, TreeStop,
};
use crate::io::search::{lemma_position_is, position};
use vstd::prelude::*;

verus! {

/// Whether an entry of a known inner node leads to `a`.
pub open spec fn chunk_node_named(nodes: Map<u64, ChunkNode>, a: u64) -> bool {
    exists|q: u64, k: int|
        {
            &&& nodes.contains_key(q)
            &&& nodes[q].level > 0
            &&& 0 <= k < nodes[q].entries@.len()
            &&& (#[trigger] nodes[q].entries@[k]).addr == a
        }
}

/// A node of a tree of chunks that is asked for has not been read, can stand in the file, and
/// is the root or a node that a node that was read leads to.
pub proof fn lemma_chunk_node_needed(
    nodes: Map<u64, ChunkNode>,
    addr: u64,
    file_size: u64,
    depth: nat,
    f: ChunkTreeView,
    a: u64,
)
    requires
        f.stop is None,
        chunks_in(nodes, addr, file_size, depth, f).stop == Some(TreeStop::Need(a)),
    ensures
        !nodes.contains_key(a),
        a != UNDEF_ADDR,
        a < file_size,
        a == addr || chunk_node_named(nodes, a),
    decreases 258 - depth, 0nat,
{
    if nodes.contains_key(addr) && nodes[addr].level != 0 {
        let e = nodes[addr].entries@;
        lemma_chunk_node_below(nodes, addr, file_size, depth + 1, e.len(), f, a);
    }
}

proof fn lemma_chunk_node_below(
    nodes: Map<u64, ChunkNode>,
    q: u64,
    file_size: u64,
    depth: nat,
    k: nat,
    f: ChunkTreeView,
    a: u64,
)
    requires
        nodes.contains_key(q),
        nodes[q].level > 0,
        k <= nodes[q].entries@.len(),
        f.stop is None,
        chunks_below(nodes, nodes[q].entries@, file_size, depth, k, f).stop == Some(
            TreeStop::Need(a),
        ),
    ensures
        !nodes.contains_key(a),
        a != UNDEF_ADDR,
        a < file_size,
        chunk_node_named(nodes, a),
    decreases 258 - depth, k,
{
    let e = nodes[q].entries@;
    let g = chunks_below(nodes, e, file_size, depth, (k - 1) as nat, f);
    if g.stop is Some {
        lemma_chunk_node_below(nodes, q, file_size, depth, (k - 1) as nat, f, a);
    } else {
        lemma_chunk_node_needed(nodes, e[k - 1].addr, file_size, depth, g, a);
        assert(nodes[q].entries@[k - 1].addr == e[k - 1].addr);
    }
}

/// Whether a known inner node of a tree of names leads to `a`.
pub open spec fn name_node_named(nodes: Map<u64, NameNode>, a: u64) -> bool {
    exists|q: u64, k: int|
        {
            &&& nodes.contains_key(q)
            &&& nodes[q].level > 0
            &&& 0 <= k < nodes[q].children@.len()
            &&& #[trigger] nodes[q].children@[k] == a
        }
}

/// A node of a tree of names that is asked for has not been read, and is the root or a node
/// that a node that was read leads to.
pub proof fn lemma_name_node_needed(
    nodes: Map<u64, NameNode>,
    addr: u64,
    depth: nat,
    f: SymbolNodesView,
    a: u64,
)
    requires
        f.need is None,
        symbol_nodes(nodes, addr, depth, f).need == Some(a),
    ensures
        !nodes.contains_key(a),
        a == addr || name_node_named(nodes, a),
    decreases 258 - depth, 0nat,
{
    if nodes.contains_key(addr) && nodes[addr].level != 0 {
        let g = SymbolNodesView { visited: f.visited.insert(addr), ..f };
        lemma_name_node_below(nodes, addr, depth + 1, nodes[addr].children@.len(), g, a);
    }
}

proof fn lemma_name_node_below(
    nodes: Map<u64, NameNode>,
    q: u64,
    depth: nat,
    k: nat,
    f: SymbolNodesView,
    a: u64,
)
    requires
        nodes.contains_key(q),
        nodes[q].level > 0,
        k <= nodes[q].children@.len(),
        f.need is None,
        symbol_nodes_below(nodes, nodes[q].children@, depth, k, f).need == Some(a),
    ensures
        !nodes.contains_key(a),
        name_node_named(nodes, a),
    decreases 258 - depth, k,
{
    let c = nodes[q].children@;
    let g = symbol_nodes_below(nodes, c, depth, (k - 1) as nat, f);
    if g.need is Some {
        lemma_name_node_below(nodes, q, depth, (k - 1) as nat, f, a);
    } else {
        lemma_name_node_needed(nodes, c[k - 1], depth, g, a);
        assert(nodes[q].children@[k - 1] == c[k - 1]);
    }
}

/// Whether a node has been read.
pub open spec fn node_read(nodes: Seq<RecordNode>, r: NodeRef) -> bool {
    exists|i: int| 0 <= i < nodes.len() && (#[trigger] nodes[i]).node == r
}

/// Whether a known node has a node below it with this address and this number of records, one
/// level further down.
pub open spec fn record_node_named(nodes: Seq<RecordNode>, r: NodeRef) -> bool {
    exists|i: int, k: int|
        {
            &&& 0 <= i < nodes.len()
            &&& nodes[i].node.depth == r.depth + 1
            &&& 0 <= k < nodes[i].children@.len()
            &&& #[trigger] nodes[i].children@[k] == (ChildRef { addr: r.addr, nrec: r.nrec })
        }
}

/// A node of a tree of records that is asked for has not been read, and is the root or a node
/// below one that was read.
pub proof fn lemma_record_node_needed(
    nodes: Seq<RecordNode>,
    r: NodeRef,
    f: RecordsView,
    a: NodeRef,
)
    requires
        f.need is None,
        records_in(nodes, r, f).need == Some(a),
    ensures
        !node_read(nodes, a),
        a == r || record_node_named(nodes, a),
    decreases r.depth, 0nat,
{
    lemma_position_is(nodes.len(), node_is(nodes, r));
    match node_of(nodes, r) {
        None => {
            assert forall|i: int| 0 <= i < nodes.len() implies (#[trigger] nodes[i]).node != r by {
                assert(!node_is(nodes, r)(i));
            }
        },
        Some(i) => {
            let g = RecordsView { bytes: f.bytes + nodes[i].records@, ..f };
            assert(node_is(nodes, r)(i));
            if r.depth > 0 {
                lemma_record_node_below(
                    nodes,
                    i,
                    (r.depth - 1) as u16,
                    nodes[i].children@.len(),
                    g,
                    a,
                );
            }
        },
    }
}

proof fn lemma_record_node_below(
    nodes: Seq<RecordNode>,
    i: int,
    depth: u16,
    k: nat,
    f: RecordsView,
    a: NodeRef,
)
    requires
        0 <= i < nodes.len(),
        nodes[i].node.depth == depth + 1,
        k <= nodes[i].children@.len(),
        f.need is None,
        records_below(nodes, nodes[i].children@, depth, k, f).need == Some(a),
    ensures
        !node_read(nodes, a),
        record_node_named(nodes, a),
    decreases depth, k,
{
    let c = nodes[i].children@;
    let g = records_below(nodes, c, depth, (k - 1) as nat, f);
    if g.need is Some {
        lemma_record_node_below(nodes, i, depth, (k - 1) as nat, f, a);
    } else {
        let r = NodeRef { addr: c[k - 1].addr, depth, nrec: c[k - 1].nrec };
        lemma_record_node_needed(nodes, r, g, a);
        assert(nodes[i].children@[k - 1] == (ChildRef { addr: r.addr, nrec: r.nrec }));
    }
}

/// The chunks of a dataset without filters are accepted if and only if every chunk that was
/// written says that it has the bytes of its shape, or does not say how many it has.
pub proof fn lemma_sizes_accepted(e: Seq<TreeChunkView>, chunk_bytes: u64)
    ensures
        position(e.len(), wrong_size(e, chunk_bytes)) is None <==> forall|i: int|
            0 <= i < e.len() ==> {
                let c = #[trigger] e[i];
                c.addr == UNDEF_ADDR || c.size == chunk_bytes || c.size == 0
            },
{
    lemma_position_is(e.len(), wrong_size(e, chunk_bytes));
    if position(e.len(), wrong_size(e, chunk_bytes)) is None {
        assert forall|i: int| 0 <= i < e.len() implies {
            let c = #[trigger] e[i];
            c.addr == UNDEF_ADDR || c.size == chunk_bytes || c.size == 0
        } by {
            assert(!wrong_size(e, chunk_bytes)(i));
        }
    }
}

} // verus!
