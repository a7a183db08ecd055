//! Walking B-trees.
//!
//! A walk works on the nodes that have been read so far. When it comes to one that has
//! not, it stops and says which.

use crate::format::messages::dataspace::copy_dims;
use crate::format::UNDEF_ADDR;
use crate::io::reader::chunked::ReadRange;
use crate::io::search::{is_at, lemma_no_position, lemma_position, lemma_position_is, position};
use crate::io::{invalid_state, IoErrorView, IoResult};
use crate::text::{decimal, Text};
use std::collections::{HashMap, HashSet};
use vstd::arithmetic::div_mod::lemma_fundamental_div_mod_converse;
use vstd::prelude::*;

verus! {

broadcast use vstd::std_specs::hash::group_hash_axioms;

/// How deep a tree is followed.
pub const MAX_TREE_DEPTH: usize = 256;

/// A node of the tree of names of a group.
#[derive(Debug)]
pub struct NameNode {
    /// Level; leaves have level 0.
    pub level: u8,
    /// Symbol nodes of a leaf, or the nodes below.
    pub children: Vec<u64>,
}

/// What a walk over a tree of names has found.
pub struct SymbolNodes {
    /// Addresses of the symbol nodes.
    pub addrs: Vec<u64>,
    /// Nodes that have been entered.
    pub visited: HashSet<u64>,
    /// The node that is missing.
    pub need: Option<u64>,
}

/// What a walk over a tree of names has found.
#[verifier::ext_equal]
pub struct SymbolNodesView {
    pub addrs: Seq<u64>,
    pub visited: Set<u64>,
    pub need: Option<u64>,
}

impl View for SymbolNodes {
    type V = SymbolNodesView;

    open spec fn view(&self) -> SymbolNodesView {
        SymbolNodesView { addrs: self.addrs@, visited: self.visited@, need: self.need }
    }
}

/// The symbol nodes of a tree. Each node is entered once.
pub open spec fn symbol_nodes(
    nodes: Map<u64, NameNode>,
    addr: u64,
    depth: nat,
    f: SymbolNodesView,
) -> SymbolNodesView
    decreases 258 - depth, 0nat,
{
    if depth > MAX_TREE_DEPTH || f.visited.contains(addr) {
        f
    } else if !nodes.contains_key(addr) {
        SymbolNodesView { need: Some(addr), ..f }
    } else {
        let g = SymbolNodesView { visited: f.visited.insert(addr), ..f };
        let c = nodes[addr].children@;
        if nodes[addr].level == 0 {
            SymbolNodesView { addrs: g.addrs + c, ..g }
        } else {
            symbol_nodes_below(nodes, c, depth + 1, c.len(), g)
        }
    }
}

/// The symbol nodes of the first `k` of a list of trees.
pub open spec fn symbol_nodes_below(
    nodes: Map<u64, NameNode>,
    c: Seq<u64>,
    depth: nat,
    k: nat,
    f: SymbolNodesView,
) -> SymbolNodesView
    decreases 258 - depth, k,
{
    if k == 0 || depth > MAX_TREE_DEPTH + 1 {
        f
    } else {
        let g = symbol_nodes_below(nodes, c, depth, (k - 1) as nat, f);
        if g.need is Some {
            g
        } else {
            symbol_nodes(nodes, c[k - 1], depth, g)
        }
    }
}

proof fn lemma_symbols_stop(
    nodes: Map<u64, NameNode>,
    c: Seq<u64>,
    depth: nat,
    k: nat,
    n: nat,
    f: SymbolNodesView,
)
    requires
        k <= n,
        symbol_nodes_below(nodes, c, depth, k, f).need is Some,
    ensures
        symbol_nodes_below(nodes, c, depth, n, f) == symbol_nodes_below(nodes, c, depth, k, f),
    decreases n,
{
    if k < n {
        lemma_symbols_stop(nodes, c, depth, k, (n - 1) as nat, f);
    }
}

fn walk_names(nodes: &HashMap<u64, NameNode>, addr: u64, depth: usize, found: &mut SymbolNodes)
    requires
        depth <= MAX_TREE_DEPTH + 1,
        old(found).need is None,
    ensures
        final(found)@ == symbol_nodes(nodes@, addr, depth as nat, old(found)@),
    decreases MAX_TREE_DEPTH + 2 - depth,
{
    if depth > MAX_TREE_DEPTH || found.visited.contains(&addr) {
        return;
    }
    match nodes.get(&addr) {
        None => {
            found.need = Some(addr);
        },
        Some(node) => {
            found.visited.insert(addr);
            let ghost start = found@;
            let ghost c = node.children@;
            let n: usize = node.children.len();
            let mut k: usize = 0;
            if node.level == 0 {
                while k < n
                    invariant
                        k <= n,
                        n == c.len(),
                        c == node.children@,
                        found@.visited == start.visited,
                        found@.need == start.need,
                        found@.addrs == start.addrs + c.take(k as int),
                    decreases n - k,
                {
                    found.addrs.push(node.children[k]);
                    k = k + 1;
                    assert(found@.addrs =~= start.addrs + c.take(k as int));
                }
                assert(c.take(n as int) =~= c);
            } else {
                while k < n
                    invariant
                        k <= n,
                        n == c.len(),
                        c == node.children@,
                        nodes@.contains_key(addr),
                        *node == nodes@[addr],
                        node.level != 0,
                        depth <= MAX_TREE_DEPTH,
                        !old(found)@.visited.contains(addr),
                        start == (SymbolNodesView {
                            visited: old(found)@.visited.insert(addr),
                            ..old(found)@
                        }),
                        found.need is None,
                        found@ == symbol_nodes_below(
                            nodes@,
                            c,
                            (depth + 1) as nat,
                            k as nat,
                            start,
                        ),
                    decreases n - k,
                {
                    walk_names(nodes, node.children[k], depth + 1, found);
                    k = k + 1;
                    if found.need.is_some() {
                        proof {
                            lemma_symbols_stop(
                                nodes@,
                                c,
                                (depth + 1) as nat,
                                k as nat,
                                n as nat,
                                start,
                            );
                        }
                        return;
                    }
                }
            }
        },
    }
}

/// A walk that has found nothing yet.
pub open spec fn no_symbols() -> SymbolNodesView {
    SymbolNodesView { addrs: Seq::empty(), visited: Set::empty(), need: None }
}

/// The symbol nodes of a group, from left to right.
pub fn collect_snod_addresses(nodes: &HashMap<u64, NameNode>, root: u64) -> (f: SymbolNodes)
    ensures
        f@ == symbol_nodes(nodes@, root, 0, no_symbols()),
{
    let mut f = SymbolNodes { addrs: Vec::new(), visited: HashSet::new(), need: None };
    assert(f@ =~= no_symbols());
    walk_names(nodes, root, 0, &mut f);
    f
}

/// An entry of a tree of chunks: a chunk in a leaf, or a node below.
#[derive(Debug)]
pub struct TreeChunk {
    /// Where the chunk begins in the dataset.
    pub offsets: Vec<u64>,
    /// Address of the chunk or the node.
    pub addr: u64,
    /// Bytes of the chunk.
    pub size: u64,
    /// Filters that were left out.
    pub filter_mask: u32,
}

/// An entry of a tree of chunks.
#[verifier::ext_equal]
pub struct TreeChunkView {
    pub offsets: Seq<u64>,
    pub addr: u64,
    pub size: u64,
    pub filter_mask: u32,
}

impl View for TreeChunk {
    type V = TreeChunkView;

    open spec fn view(&self) -> TreeChunkView {
        TreeChunkView {
            offsets: self.offsets@,
            addr: self.addr,
            size: self.size,
            filter_mask: self.filter_mask,
        }
    }
}

/// Entries of a tree of chunks.
pub open spec fn tree_chunks(v: Seq<TreeChunk>) -> Seq<TreeChunkView> {
    Seq::new(v.len(), |i: int| v[i]@)
}

impl Clone for TreeChunk {
    fn clone(&self) -> (c: Self)
        ensures
            c@ == self@,
    {
        TreeChunk {
            offsets: copy_dims(self.offsets.as_slice()),
            addr: self.addr,
            size: self.size,
            filter_mask: self.filter_mask,
        }
    }
}

/// A node of a tree of chunks.
#[derive(Debug)]
pub struct ChunkNode {
    /// Level; leaves have level 0.
    pub level: u8,
    /// Entries.
    pub entries: Vec<TreeChunk>,
}

/// Why a walk over a tree of chunks has stopped.
#[derive(Debug, Clone, Copy, PartialEq, Eq, Structural)]
pub enum TreeStop {
    /// The node at this address has not been read.
    Need(u64),
    /// The tree is too deep.
    TooDeep,
}

/// What a walk over a tree of chunks has found.
#[derive(Debug)]
pub struct ChunkTree {
    /// The chunks.
    pub chunks: Vec<TreeChunk>,
    /// Why it has stopped.
    pub stop: Option<TreeStop>,
}

/// What a walk over a tree of chunks has found.
#[verifier::ext_equal]
pub struct ChunkTreeView {
    pub chunks: Seq<TreeChunkView>,
    pub stop: Option<TreeStop>,
}

impl View for ChunkTree {
    type V = ChunkTreeView;

    open spec fn view(&self) -> ChunkTreeView {
        ChunkTreeView { chunks: tree_chunks(self.chunks@), stop: self.stop }
    }
}

/// Whether an address is within the file.
pub open spec fn in_file(addr: u64, file_size: u64) -> bool {
    addr != UNDEF_ADDR && addr < file_size
}

/// The chunks of a tree.
pub open spec fn chunks_in(
    nodes: Map<u64, ChunkNode>,
    addr: u64,
    file_size: u64,
    depth: nat,
    f: ChunkTreeView,
) -> ChunkTreeView
    decreases 258 - depth, 0nat,
{
    if depth > MAX_TREE_DEPTH {
        ChunkTreeView { stop: Some(TreeStop::TooDeep), ..f }
    } else if !in_file(addr, file_size) {
        f
    } else if !nodes.contains_key(addr) {
        ChunkTreeView { stop: Some(TreeStop::Need(addr)), ..f }
    } else {
        let e = nodes[addr].entries@;
        if nodes[addr].level == 0 {
            ChunkTreeView { chunks: f.chunks + tree_chunks(e), ..f }
        } else {
            chunks_below(nodes, e, file_size, depth + 1, e.len(), f)
        }
    }
}

/// The chunks of the first `k` of a list of trees. Trees outside the file are passed
/// over.
pub open spec fn chunks_below(
    nodes: Map<u64, ChunkNode>,
    e: Seq<TreeChunk>,
    file_size: u64,
    depth: nat,
    k: nat,
    f: ChunkTreeView,
) -> ChunkTreeView
    decreases 258 - depth, k,
{
    if k == 0 || depth > MAX_TREE_DEPTH + 1 {
        f
    } else {
        let g = chunks_below(nodes, e, file_size, depth, (k - 1) as nat, f);
        if g.stop is Some || !in_file(e[k - 1].addr, file_size) {
            g
        } else {
            chunks_in(nodes, e[k - 1].addr, file_size, depth, g)
        }
    }
}

proof fn lemma_chunks_stop(
    nodes: Map<u64, ChunkNode>,
    e: Seq<TreeChunk>,
    file_size: u64,
    depth: nat,
    k: nat,
    n: nat,
    f: ChunkTreeView,
)
    requires
        k <= n,
        chunks_below(nodes, e, file_size, depth, k, f).stop is Some,
    ensures
        chunks_below(nodes, e, file_size, depth, n, f) == chunks_below(
            nodes,
            e,
            file_size,
            depth,
            k,
            f,
        ),
    decreases n,
{
    if k < n {
        lemma_chunks_stop(nodes, e, file_size, depth, k, (n - 1) as nat, f);
    }
}

fn walk_chunks(
    nodes: &HashMap<u64, ChunkNode>,
    addr: u64,
    file_size: u64,
    depth: usize,
    found: &mut ChunkTree,
)
    requires
        depth <= MAX_TREE_DEPTH + 1,
        old(found).stop is None,
    ensures
        final(found)@ == chunks_in(nodes@, addr, file_size, depth as nat, old(found)@),
    decreases MAX_TREE_DEPTH + 2 - depth,
{
    if depth > MAX_TREE_DEPTH {
        found.stop = Some(TreeStop::TooDeep);
        return;
    }
    if addr == UNDEF_ADDR || addr >= file_size {
        return;
    }
    match nodes.get(&addr) {
        None => {
            found.stop = Some(TreeStop::Need(addr));
        },
        Some(node) => {
            let ghost start = found@;
            let ghost e = node.entries@;
            let n: usize = node.entries.len();
            let mut k: usize = 0;
            if node.level == 0 {
                assert(found@.chunks =~= start.chunks + tree_chunks(e).take(0));
                while k < n
                    invariant
                        k <= n,
                        n == e.len(),
                        e == node.entries@,
                        found@.stop == start.stop,
                        found@.chunks == start.chunks + tree_chunks(e).take(k as int),
                    decreases n - k,
                {
                    let ghost before = found@.chunks;
                    let one = node.entries[k].clone();
                    found.chunks.push(one);
                    proof {
                        assert(found@.chunks =~= before.push(one@));
                        assert(tree_chunks(e)[k as int] == one@);
                    }
                    k = k + 1;
                    assert(found@.chunks =~= start.chunks + tree_chunks(e).take(k as int));
                }
                assert(tree_chunks(e).take(n as int) =~= tree_chunks(e));
            } else {
                while k < n
                    invariant
                        k <= n,
                        n == e.len(),
                        e == node.entries@,
                        nodes@.contains_key(addr),
                        *node == nodes@[addr],
                        node.level != 0,
                        depth <= MAX_TREE_DEPTH,
                        in_file(addr, file_size),
                        start == old(found)@,
                        found.stop is None,
                        found@ == chunks_below(
                            nodes@,
                            e,
                            file_size,
                            (depth + 1) as nat,
                            k as nat,
                            start,
                        ),
                    decreases n - k,
                {
                    let child: u64 = node.entries[k].addr;
                    if child != UNDEF_ADDR && child < file_size {
                        walk_chunks(nodes, child, file_size, depth + 1, found);
                    }
                    k = k + 1;
                    if found.stop.is_some() {
                        proof {
                            lemma_chunks_stop(
                                nodes@,
                                e,
                                file_size,
                                (depth + 1) as nat,
                                k as nat,
                                n as nat,
                                start,
                            );
                        }
                        return;
                    }
                }
            }
        },
    }
}

/// The chunks of a dataset, or the node that has to be read first.
#[derive(Debug)]
pub enum ChunksFound {
    /// The chunks.
    All(Vec<TreeChunk>),
    /// The node at this address.
    Need(u64),
}

/// A walk that has found nothing yet.
pub open spec fn no_chunks() -> ChunkTreeView {
    ChunkTreeView { chunks: Seq::empty(), stop: None }
}

/// The chunks of a dataset that a version-1 B-tree indexes.
pub fn collect_btree_v1_chunks(nodes: &HashMap<u64, ChunkNode>, root: u64, file_size: u64) -> (r:
    IoResult<ChunksFound>)
    ensures
        ({
            let f = chunks_in(nodes@, root, file_size, 0, no_chunks());
            match f.stop {
                Some(TreeStop::TooDeep) => r matches Err(e) && e@ == IoErrorView::InvalidState(
                    "chunk B-tree v1 exceeds maximum depth"@,
                ),
                Some(TreeStop::Need(a)) => r matches Ok(ChunksFound::Need(x)) && x == a,
                None => r matches Ok(ChunksFound::All(v)) && tree_chunks(v@) == f.chunks,
            }
        }),
{
    let mut f = ChunkTree { chunks: Vec::new(), stop: None };
    assert(f@ =~= no_chunks());
    walk_chunks(nodes, root, file_size, 0, &mut f);
    match f.stop {
        Some(TreeStop::TooDeep) => Err(
            invalid_state(Text::new("chunk B-tree v1 exceeds maximum depth")),
        ),
        Some(TreeStop::Need(a)) => Ok(ChunksFound::Need(a)),
        None => Ok(ChunksFound::All(f.chunks)),
    }
}

/// Where a chunk stands in the grid of chunks. Chunks without extent stand at 0.
pub open spec fn scaled(offsets: Seq<u64>, cd: Seq<u64>) -> Seq<u64> {
    Seq::new(
        cd.len(),
        |d: int|
            if cd[d] == 0 {
                0
            } else {
                offsets[d] / cd[d]
            },
    )
}

/// Where a chunk stands in the grid of chunks.
pub fn scaled_offsets(offsets: &[u64], chunk_dims: &[u64]) -> (r: Vec<u64>)
    requires
        offsets@.len() >= chunk_dims@.len(),
    ensures
        r@ == scaled(offsets@, chunk_dims@),
{
    let mut r: Vec<u64> = Vec::new();
    let n: usize = chunk_dims.len();
    let mut d: usize = 0;
    while d < n
        invariant
            d <= n,
            n == chunk_dims@.len(),
            offsets@.len() >= n,
            r@.len() == d,
            forall|k: int| 0 <= k < d ==> #[trigger] r@[k] == scaled(offsets@, chunk_dims@)[k],
        decreases n - d,
    {
        let cd: u64 = chunk_dims[d];
        let c: u64 = if cd == 0 {
            0
        } else {
            offsets[d] / cd
        };
        r.push(c);
        d = d + 1;
    }
    assert(r@ =~= scaled(offsets@, chunk_dims@));
    r
}

/// A chunk that begins at a place of the grid is found at that place.
pub proof fn lemma_scaled(at: Seq<u64>, offsets: Seq<u64>, cd: Seq<u64>)
    requires
        at.len() == cd.len(),
        offsets.len() >= cd.len(),
        forall|d: int| 0 <= d < cd.len() ==> #[trigger] cd[d] > 0 && offsets[d] == at[d] * cd[d],
    ensures
        scaled(offsets, cd) == at,
{
    let got = scaled(offsets, cd);
    assert forall|d: int| 0 <= d < cd.len() implies got[d] == at[d] by {
        assert(cd[d] > 0);
        lemma_fundamental_div_mod_converse(offsets[d] as int, cd[d] as int, at[d] as int, 0);
    }
    assert(got =~= at);
}

/// A chunk to be read and its place in the grid of chunks.
#[derive(Debug)]
pub struct ChunkRead {
    /// Where the chunk stands in the file.
    pub range: ReadRange,
    /// Place in the grid of chunks.
    pub coords: Vec<u64>,
}

/// A chunk to be read and its place in the grid of chunks.
#[verifier::ext_equal]
pub struct ChunkReadView {
    pub range: ReadRange,
    pub coords: Seq<u64>,
}

impl View for ChunkRead {
    type V = ChunkReadView;

    open spec fn view(&self) -> ChunkReadView {
        ChunkReadView { range: self.range, coords: self.coords@ }
    }
}

/// Chunks to be read.
pub open spec fn chunk_reads(v: Seq<ChunkRead>) -> Seq<ChunkReadView> {
    Seq::new(v.len(), |i: int| v[i]@)
}

/// Whether there is something to read of a chunk.
pub open spec fn stored(c: TreeChunkView, file_size: u64) -> bool {
    in_file(c.addr, file_size) && 0 < c.size <= file_size
}

/// The first `n` of a list of chunks that are to be read.
pub open spec fn to_read(e: Seq<TreeChunkView>, cd: Seq<u64>, file_size: u64, n: nat) -> Seq<
    ChunkReadView,
>
    decreases n,
{
    if n == 0 {
        Seq::empty()
    } else {
        let before = to_read(e, cd, file_size, (n - 1) as nat);
        let c = e[n - 1];
        if stored(c, file_size) {
            before.push(
                ChunkReadView {
                    range: ReadRange { addr: c.addr, len: c.size, exact: true },
                    coords: scaled(c.offsets, cd),
                },
            )
        } else {
            before
        }
    }
}

/// The chunks of a version-1 B-tree that are to be read. Chunks that cannot be in the
/// file count as missing.
pub fn tree_reads(entries: &Vec<TreeChunk>, chunk_dims: &[u64], file_size: u64) -> (r: Vec<
    ChunkRead,
>)
    requires
        forall|i: int|
            0 <= i < entries@.len() ==> (#[trigger] entries@[i]).offsets@.len()
                >= chunk_dims@.len(),
    ensures
        chunk_reads(r@) == to_read(
            tree_chunks(entries@),
            chunk_dims@,
            file_size,
            entries@.len(),
        ),
{
    let ghost e = tree_chunks(entries@);
    let mut r: Vec<ChunkRead> = Vec::new();
    let mut i: usize = 0;
    assert(chunk_reads(r@) =~= to_read(e, chunk_dims@, file_size, 0));
    while i < entries.len()
        invariant
            i <= entries.len(),
            forall|i: int|
                0 <= i < entries@.len() ==> (#[trigger] entries@[i]).offsets@.len()
                    >= chunk_dims@.len(),
            e == tree_chunks(entries@),
            chunk_reads(r@) == to_read(e, chunk_dims@, file_size, i as nat),
        decreases entries.len() - i,
    {
        let c = &entries[i];
        assert(e[i as int] == c@);
        let ghost before = chunk_reads(r@);
        if c.addr != UNDEF_ADDR && c.addr < file_size && c.size != 0 && c.size <= file_size {
            let coords = scaled_offsets(c.offsets.as_slice(), chunk_dims);
            let one = ChunkRead {
                range: ReadRange { addr: c.addr, len: c.size, exact: true },
                coords,
            };
            r.push(one);
            assert(chunk_reads(r@) =~= before.push(one@));
        }
        i = i + 1;
    }
    r
}

/// Whether the size of a chunk without filters is not that of a chunk.
pub open spec fn wrong_size(e: Seq<TreeChunkView>, chunk_bytes: u64) -> spec_fn(int) -> bool {
    |i: int| e[i].addr != UNDEF_ADDR && e[i].size != chunk_bytes && e[i].size != 0
}

/// Check the sizes of chunks without filters.
pub fn check_chunk_sizes(entries: &Vec<TreeChunk>, chunk_bytes: u64) -> (r: IoResult<()>)
    ensures
        match position(entries@.len(), wrong_size(tree_chunks(entries@), chunk_bytes)) {
            Some(i) => r matches Err(e) && e@ == IoErrorView::InvalidState(
                "chunk B-tree v1: unfiltered chunk size "@ + decimal(entries@[i].size as nat)
                    + " != expected "@ + decimal(chunk_bytes as nat),
            ),
            None => r is Ok,
        },
{
    let ghost e = tree_chunks(entries@);
    let ghost f = wrong_size(e, chunk_bytes);
    let mut i: usize = 0;
    while i < entries.len()
        invariant
            i <= entries.len(),
            e == tree_chunks(entries@),
            f == wrong_size(e, chunk_bytes),
            forall|j: int| 0 <= j < i ==> !#[trigger] f(j),
        decreases entries.len() - i,
    {
        let c = &entries[i];
        assert(e[i as int] == c@);
        if c.addr != UNDEF_ADDR && c.size != chunk_bytes && c.size != 0 {
            proof {
                assert(f(i as int));
                lemma_position(entries@.len(), f, i as int);
            }
            return Err(
                invalid_state(
                    Text::new("chunk B-tree v1: unfiltered chunk size ").number(c.size).text(
                        " != expected ",
                    ).number(chunk_bytes),
                ),
            );
        }
        assert(!f(i as int));
        i = i + 1;
    }
    proof {
        lemma_no_position(entries@.len(), f);
    }
    Ok(())
}

/// The first `n` of a list of records that are to be read. The records of a version-2
/// B-tree give the place in the grid of chunks.
pub open spec fn records_to_read(e: Seq<TreeChunkView>, n: nat) -> Seq<ChunkReadView>
    decreases n,
{
    if n == 0 {
        Seq::empty()
    } else {
        let before = records_to_read(e, (n - 1) as nat);
        let c = e[n - 1];
        if c.addr != UNDEF_ADDR && c.size != 0 {
            before.push(
                ChunkReadView {
                    range: ReadRange { addr: c.addr, len: c.size, exact: true },
                    coords: c.offsets,
                },
            )
        } else {
            before
        }
    }
}

/// The chunks of a version-2 B-tree that are to be read.
pub fn record_reads(entries: &Vec<TreeChunk>) -> (r: Vec<ChunkRead>)
    ensures
        chunk_reads(r@) == records_to_read(tree_chunks(entries@), entries@.len()),
{
    let ghost e = tree_chunks(entries@);
    let mut r: Vec<ChunkRead> = Vec::new();
    let mut i: usize = 0;
    assert(chunk_reads(r@) =~= records_to_read(e, 0));
    while i < entries.len()
        invariant
            i <= entries.len(),
            e == tree_chunks(entries@),
            chunk_reads(r@) == records_to_read(e, i as nat),
        decreases entries.len() - i,
    {
        let c = &entries[i];
        assert(e[i as int] == c@);
        let ghost before = chunk_reads(r@);
        if c.addr != UNDEF_ADDR && c.size != 0 {
            let one = ChunkRead {
                range: ReadRange { addr: c.addr, len: c.size, exact: true },
                coords: copy_dims(c.offsets.as_slice()),
            };
            r.push(one);
            assert(chunk_reads(r@) =~= before.push(one@));
        }
        i = i + 1;
    }
    r
}

/// A node of a version-2 B-tree: its address, how far it is above the leaves, and how
/// many records it has.
#[derive(Debug, Clone, Copy, PartialEq, Eq, Structural)]
pub struct NodeRef {
    /// Address.
    pub addr: u64,
    /// Levels below.
    pub depth: u16,
    /// Number of records.
    pub nrec: u16,
}

/// The address and the number of records of a node below.
#[derive(Debug, Clone, Copy, PartialEq, Eq, Structural)]
pub struct ChildRef {
    /// Address.
    pub addr: u64,
    /// Number of records.
    pub nrec: u16,
}

/// A node of a version-2 B-tree that has been read.
#[derive(Debug)]
pub struct RecordNode {
    /// Which node it is.
    pub node: NodeRef,
    /// Bytes of its records.
    pub records: Vec<u8>,
    /// The nodes below.
    pub children: Vec<ChildRef>,
}

/// Whether the node at `i` is a given one.
pub open spec fn node_is(nodes: Seq<RecordNode>, r: NodeRef) -> spec_fn(int) -> bool {
    |i: int| nodes[i].node == r
}

/// Where a node is among those that have been read.
pub open spec fn node_of(nodes: Seq<RecordNode>, r: NodeRef) -> Option<int> {
    position(nodes.len(), node_is(nodes, r))
}

fn find_node(nodes: &Vec<RecordNode>, r: NodeRef) -> (k: Option<usize>)
    ensures
        is_at(k, node_of(nodes@, r)),
{
    let ghost f = node_is(nodes@, r);
    let mut i: usize = 0;
    while i < nodes.len()
        invariant
            i <= nodes.len(),
            f == node_is(nodes@, r),
            forall|j: int| 0 <= j < i ==> !#[trigger] f(j),
        decreases nodes.len() - i,
    {
        let n: NodeRef = nodes[i].node;
        if n == r {
            proof {
                assert(f(i as int));
                lemma_position(nodes@.len(), f, i as int);
            }
            return Some(i);
        }
        assert(!f(i as int));
        i = i + 1;
    }
    proof {
        lemma_no_position(nodes@.len(), f);
    }
    None
}

/// What a walk over a version-2 B-tree has found.
#[derive(Debug)]
pub struct Records {
    /// Bytes of the records.
    pub bytes: Vec<u8>,
    /// The node that is missing.
    pub need: Option<NodeRef>,
}

/// What a walk over a version-2 B-tree has found.
#[verifier::ext_equal]
pub struct RecordsView {
    pub bytes: Seq<u8>,
    pub need: Option<NodeRef>,
}

impl View for Records {
    type V = RecordsView;

    open spec fn view(&self) -> RecordsView {
        RecordsView { bytes: self.bytes@, need: self.need }
    }
}

/// The records of a tree: those of a node come before those of the nodes below.
pub open spec fn records_in(nodes: Seq<RecordNode>, r: NodeRef, f: RecordsView) -> RecordsView
    decreases r.depth, 0nat,
{
    match node_of(nodes, r) {
        None => RecordsView { need: Some(r), ..f },
        Some(i) => {
            let g = RecordsView { bytes: f.bytes + nodes[i].records@, ..f };
            let c = nodes[i].children@;
            if r.depth == 0 {
                g
            } else {
                records_below(nodes, c, (r.depth - 1) as u16, c.len(), g)
            }
        },
    }
}

/// The records of the first `k` of a list of trees.
pub open spec fn records_below(
    nodes: Seq<RecordNode>,
    c: Seq<ChildRef>,
    depth: u16,
    k: nat,
    f: RecordsView,
) -> RecordsView
    decreases depth, k,
{
    if k == 0 {
        f
    } else {
        let g = records_below(nodes, c, depth, (k - 1) as nat, f);
        if g.need is Some {
            g
        } else {
            records_in(nodes, NodeRef { addr: c[k - 1].addr, depth, nrec: c[k - 1].nrec }, g)
        }
    }
}

proof fn lemma_records_stop(
    nodes: Seq<RecordNode>,
    c: Seq<ChildRef>,
    depth: u16,
    k: nat,
    n: nat,
    f: RecordsView,
)
    requires
        k <= n,
        records_below(nodes, c, depth, k, f).need is Some,
    ensures
        records_below(nodes, c, depth, n, f) == records_below(nodes, c, depth, k, f),
    decreases n,
{
    if k < n {
        lemma_records_stop(nodes, c, depth, k, (n - 1) as nat, f);
    }
}

fn walk_records(nodes: &Vec<RecordNode>, r: NodeRef, found: &mut Records)
    requires
        old(found).need is None,
    ensures
        final(found)@ == records_in(nodes@, r, old(found)@),
    decreases r.depth,
{
    proof {
        lemma_position_is(nodes@.len(), node_is(nodes@, r));
    }
    match find_node(nodes, r) {
        None => {
            found.need = Some(r);
        },
        Some(i) => {
            found.bytes.extend_from_slice(nodes[i].records.as_slice());
            let ghost start = found@;
            let ghost c = nodes@[i as int].children@;
            assert(start.bytes =~= old(found)@.bytes + nodes@[i as int].records@);
            if r.depth == 0 {
                return;
            }
            let n: usize = nodes[i].children.len();
            let mut k: usize = 0;
            while k < n
                invariant
                    k <= n,
                    n == c.len(),
                    i < nodes@.len(),
                    c == nodes@[i as int].children@,
                    node_of(nodes@, r) == Some(i as int),
                    r.depth > 0,
                    start == (RecordsView {
                        bytes: old(found)@.bytes + nodes@[i as int].records@,
                        ..old(found)@
                    }),
                    found.need is None,
                    found@ == records_below(nodes@, c, (r.depth - 1) as u16, k as nat, start),
                decreases n - k,
            {
                let child: ChildRef = nodes[i].children[k];
                walk_records(
                    nodes,
                    NodeRef { addr: child.addr, depth: r.depth - 1, nrec: child.nrec },
                    found,
                );
                k = k + 1;
                if found.need.is_some() {
                    proof {
                        lemma_records_stop(
                            nodes@,
                            c,
                            (r.depth - 1) as u16,
                            k as nat,
                            n as nat,
                            start,
                        );
                    }
                    return;
                }
            }
        },
    }
}

/// The records of a version-2 B-tree.
pub fn collect_bt2_records(nodes: &Vec<RecordNode>, root: NodeRef) -> (f: Records)
    ensures
        f@ == records_in(nodes@, root, (RecordsView { bytes: Seq::empty(), need: None })),
{
    let mut f = Records { bytes: Vec::new(), need: None };
    walk_records(nodes, root, &mut f);
    f
}

/// How many records a number of bytes holds.
pub fn record_count(bytes: usize, record_size: u16) -> (n: usize)
    ensures
        n == if record_size > 0 {
            bytes as int / record_size as int
        } else {
            0
        },
{
    if record_size > 0 {
        bytes / record_size as usize
    } else {
        0
    }
}

} // verus!
