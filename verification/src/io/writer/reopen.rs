//! Opening a file to go on writing it.

use crate::format::chunk_index::extensible_array::{
    earray_valid, EaGeometry, EarrayParams, EA_CLS_FILT_CHUNK,
};
use crate::format::messages::attribute::AttributeView;
use crate::format::messages::data_layout::{ChunkIndexType, DataLayoutMessage, LayoutView};
use crate::format::messages::dataspace::copy_dims;
use crate::format::messages::MSG_LINK;
use crate::format::superblock::{
    detect_superblock_version, detected_version, parsed_v2v3, SuperblockV2V3,
};
use crate::format::{FormatContext, UNDEF_ADDR};
use crate::io::allocator::FileAllocator;
use crate::io::ea::{
    all_sized, sized_entries, vacant, vacant_entry, ChunkEntry, EaBlocks, EaIndexBlock,
    ExtensibleArrayHeader,
};
use crate::io::reader::chunked::saturating_byte_len;
use crate::io::reader::data::layout_ok;
use crate::io::reader::messages::{
    attribute_views, attributes_of, dataset_of, infos, layout_of, object_attributes,
    read_dataset_from_object_header, DatasetReadInfo, DecodedMessage, InfoView, ReadView,
};
use crate::io::reader::reads_back::read_of;
use crate::io::reader::walk::{join_path, path_of, Objects};
use crate::io::writer::catalog::texts;
use crate::io::writer::datasets::undefined;
use crate::io::writer::finish::{header_step, FinalStep};
use crate::io::writer::headers::{BodyView, MessageBody};
use crate::io::writer::regroup::{placed_groups, rebuild_groups, regrouped, shapes};
use crate::io::writer::state::{ChunkedDatasetInfo, DatasetInfo, Hdf5Writer};
use crate::io::{invalid_state, IoError, IoErrorView, IoResult};
use crate::text::Text;
use std::collections::{HashMap, HashSet};
use vstd::prelude::*;
use vstd::slice::slice_subrange;

verus! {

broadcast use vstd::std_specs::hash::group_hash_axioms;

/// How deep groups are followed.
pub const MAX_LINK_DEPTH: usize = 256;

/// The superblock of a file that can be appended to, or why it cannot be.
pub open spec fn appendable(buf: Seq<u8>) -> Result<SuperblockV2V3, IoErrorView> {
    if detected_version(buf) matches Ok(v) && v <= 1 {
        Err(
            IoErrorView::InvalidState(
                "cannot open this file for appending: it uses the classic (version-0/1 superblock) HDF5 format; re-create it with a newer library-version bound to append to it"@,
            ),
        )
    } else {
        match parsed_v2v3(buf) {
            Ok(s) => Ok(s),
            Err(e) => Err(IoErrorView::Format(e)),
        }
    }
}

/// Read the superblock of a file that is to be appended to. Only files of the newer
/// format can be.
pub fn check_appendable(buf: &[u8]) -> (r: IoResult<SuperblockV2V3>)
    ensures
        match appendable(buf@) {
            Ok(s) => r matches Ok(x) && x == s,
            Err(v) => r matches Err(e) && e@ == v,
        },
{
    match detect_superblock_version(buf) {
        Ok(v) => {
            if v <= 1 {
                return Err(
                    invalid_state(
                        Text::new(
                            "cannot open this file for appending: it uses the classic (version-0/1 superblock) HDF5 format; re-create it with a newer library-version bound to append to it",
                        ),
                    ),
                );
            }
        },
        Err(_) => {},
    }
    match SuperblockV2V3::decode(buf) {
        Ok(s) => Ok(s),
        Err(e) => Err(IoError::Format(e)),
    }
}

/// A name of an object.
#[derive(Debug)]
pub struct LinkEntry {
    /// Path of the link.
    pub name: String,
    /// Address of the object's header.
    pub addr: u64,
}

/// A name of an object.
#[verifier::ext_equal]
pub struct LinkView {
    pub name: Seq<char>,
    pub addr: u64,
}

impl View for LinkEntry {
    type V = LinkView;

    open spec fn view(&self) -> LinkView {
        LinkView { name: self.name@, addr: self.addr }
    }
}

/// Names of objects.
pub open spec fn link_views(v: Seq<LinkEntry>) -> Seq<LinkView> {
    Seq::new(v.len(), |i: int| v[i]@)
}

/// The names that a walk has collected.
pub struct Links {
    /// The names.
    pub links: Vec<LinkEntry>,
    /// Headers of the groups that have been entered.
    pub visited: HashSet<u64>,
    /// The object header that is missing.
    pub need: Option<u64>,
}

/// The names that a walk has collected.
#[verifier::ext_equal]
pub struct LinksView {
    pub links: Seq<LinkView>,
    pub visited: Set<u64>,
    pub need: Option<u64>,
}

impl View for Links {
    type V = LinksView;

    open spec fn view(&self) -> LinksView {
        LinksView { links: link_views(self.links@), visited: self.visited@, need: self.need }
    }
}

/// Whether a group has links in its header.
pub open spec fn links_inline(m: Seq<InfoView>) -> bool {
    exists|i: int| 0 <= i < m.len() && (#[trigger] m[i]).msg_type == MSG_LINK
}

/// The names in the first `k` messages of a group, and in the groups within it.
pub open spec fn collected(
    o: Objects,
    m: Seq<InfoView>,
    prefix: Seq<char>,
    depth: nat,
    k: nat,
    f: LinksView,
) -> LinksView
    decreases 258 - depth, k,
{
    if depth > MAX_LINK_DEPTH || k == 0 {
        f
    } else {
        let g = collected(o, m, prefix, depth, (k - 1) as nat, f);
        if g.need is Some || m[k - 1].msg_type != MSG_LINK {
            g
        } else {
            match m[k - 1].body {
                Some(BodyView::Link { name, addr }) => link_collected(
                    o,
                    path_of(prefix, name),
                    addr,
                    depth,
                    g,
                ),
                _ => g,
            }
        }
    }
}

/// A name, and those in the group that it is of. Each group is entered once.
pub open spec fn link_collected(
    o: Objects,
    path: Seq<char>,
    addr: u64,
    depth: nat,
    f: LinksView,
) -> LinksView
    decreases 258 - depth, 0nat,
{
    let g = LinksView { links: f.links.push(LinkView { name: path, addr }), ..f };
    if depth > MAX_LINK_DEPTH {
        g
    } else if !o.nodes@.contains_key(addr) {
        LinksView { need: Some(addr), ..g }
    } else {
        match o.nodes@[addr] {
            None => g,
            Some(node) => {
                let m = infos(node.messages@);
                if links_inline(m) && !g.visited.contains(addr) {
                    collected(
                        o,
                        m,
                        path,
                        depth + 1,
                        m.len(),
                        LinksView { visited: g.visited.insert(addr), ..g },
                    )
                } else {
                    g
                }
            },
        }
    }
}

proof fn lemma_collect_stops(
    o: Objects,
    m: Seq<InfoView>,
    prefix: Seq<char>,
    depth: nat,
    k: nat,
    n: nat,
    f: LinksView,
)
    requires
        k <= n,
        collected(o, m, prefix, depth, k, f).need is Some,
    ensures
        collected(o, m, prefix, depth, n, f) == collected(o, m, prefix, depth, k, f),
    decreases n,
{
    if k < n {
        lemma_collect_stops(o, m, prefix, depth, k, (n - 1) as nat, f);
    }
}

fn has_inline_links(m: &Vec<DecodedMessage>) -> (r: bool)
    ensures
        r == links_inline(infos(m@)),
{
    let ghost v = infos(m@);
    let mut i: usize = 0;
    while i < m.len()
        invariant
            i <= m.len(),
            v == infos(m@),
            forall|k: int| 0 <= k < i ==> (#[trigger] v[k]).msg_type != MSG_LINK,
        decreases m.len() - i,
    {
        assert(v[i as int].msg_type == m@[i as int].msg_type);
        if m[i].msg_type == MSG_LINK {
            return true;
        }
        i = i + 1;
    }
    false
}

fn collect_links_recursive(
    o: &Objects,
    messages: &Vec<DecodedMessage>,
    prefix: &str,
    depth: usize,
    found: &mut Links,
)
    requires
        depth <= MAX_LINK_DEPTH + 1,
        old(found).need is None,
    ensures
        final(found)@ == collected(
            *o,
            infos(messages@),
            prefix@,
            depth as nat,
            messages@.len(),
            old(found)@,
        ),
    decreases MAX_LINK_DEPTH + 2 - depth, messages@.len() + 1,
{
    if depth > MAX_LINK_DEPTH {
        return;
    }
    let ghost m = infos(messages@);
    let ghost start = found@;
    let n: usize = messages.len();
    let mut k: usize = 0;
    while k < n
        invariant
            k <= n,
            n == messages@.len(),
            m == infos(messages@),
            depth <= MAX_LINK_DEPTH,
            found.need is None,
            start == old(found)@,
            found@ == collected(*o, m, prefix@, depth as nat, k as nat, start),
        decreases n - k,
    {
        assert(m[k as int] == messages@[k as int]@);
        if messages[k].msg_type == MSG_LINK {
            match &messages[k].body {
                Some(MessageBody::Link { name, addr }) => {
                    let path = join_path(prefix, name.as_str());
                    collect_link(o, path, *addr, depth, found);
                    if found.need.is_some() {
                        proof {
                            lemma_collect_stops(
                                *o,
                                m,
                                prefix@,
                                depth as nat,
                                (k + 1) as nat,
                                n as nat,
                                start,
                            );
                        }
                        return;
                    }
                },
                _ => {},
            }
        }
        k = k + 1;
    }
}

fn collect_link(o: &Objects, path: String, addr: u64, depth: usize, found: &mut Links)
    requires
        depth <= MAX_LINK_DEPTH,
        old(found).need is None,
    ensures
        final(found)@ == link_collected(*o, path@, addr, depth as nat, old(found)@),
    decreases MAX_LINK_DEPTH + 2 - depth, 0nat,
{
    let ghost before = found@;
    let prefix = path.as_str().to_owned();
    let one = LinkEntry { name: path, addr };
    found.links.push(one);
    assert(found@.links =~= before.links.push(one@));
    match o.nodes.get(&addr) {
        None => {
            found.need = Some(addr);
        },
        Some(None) => {},
        Some(Some(node)) => {
            if has_inline_links(&node.messages) && !found.visited.contains(&addr) {
                found.visited.insert(addr);
                collect_links_recursive(o, &node.messages, prefix.as_str(), depth + 1, found);
            }
        },
    }
}

/// The names of a file.
pub open spec fn file_links(o: Objects, root: Seq<InfoView>) -> LinksView {
    collected(
        o,
        root,
        Seq::empty(),
        0,
        root.len(),
        LinksView { links: Seq::empty(), visited: Set::empty(), need: None },
    )
}

/// The index of a dataset, as it was read.
pub struct IndexImage {
    /// The header.
    pub header: ExtensibleArrayHeader,
    /// The index block, if there is one that can be decoded.
    pub block: Option<EaIndexBlock>,
}

/// A dataset of a file, and the address of its header.
#[verifier::ext_equal]
pub struct Stored {
    pub dataset: ReadView,
    pub addr: u64,
}

/// The datasets among the first `n` names.
pub open spec fn stored_datasets(o: Objects, links: Seq<LinkView>, n: nat) -> Seq<Stored>
    decreases n,
{
    if n == 0 {
        Seq::empty()
    } else {
        let before = stored_datasets(o, links, (n - 1) as nat);
        let l = links[n - 1];
        if !o.nodes@.contains_key(l.addr) {
            before
        } else {
            match o.nodes@[l.addr] {
                None => before,
                Some(node) => match dataset_of(infos(node.messages@), l.name) {
                    None => before,
                    Some(d) => before.push(Stored { dataset: d, addr: l.addr }),
                },
            }
        }
    }
}

/// The extensible array of a dataset: its parameters and the address of its header.
pub open spec fn array_of(layout: LayoutView) -> Option<(EarrayParams, u64)> {
    match layout {
        LayoutView::ChunkedV4 { index_address, index_type, earray_params, .. } => if index_type
            == ChunkIndexType::ExtensibleArray {
            match earray_params {
                Some(p) => Some((p, index_address)),
                None => None,
            }
        } else {
            None
        },
        _ => None,
    }
}

/// Why datasets cannot be restored yet, or at all.
#[derive(Debug, Clone, Copy, PartialEq, Eq, Structural)]
pub enum IndexStop {
    /// The parameters of an index do not describe one.
    Invalid,
    /// The index whose header is at this address has not been read.
    Need(u64),
}

/// Why one of the first `n` datasets cannot be restored.
pub open spec fn index_stop(s: Seq<Stored>, indexes: Map<u64, IndexImage>, n: nat) -> Option<
    IndexStop,
>
    decreases n,
{
    if n == 0 {
        None
    } else {
        let before = index_stop(s, indexes, (n - 1) as nat);
        if before is Some {
            before
        } else {
            match array_of(s[n - 1].dataset.layout) {
                None => None,
                Some((params, index)) => if !earray_valid(params) {
                    Some(IndexStop::Invalid)
                } else if !indexes.contains_key(index) {
                    Some(IndexStop::Need(index))
                } else {
                    None
                },
            }
        }
    }
}

/// Whether an index block has the shape of a geometry.
pub open spec fn block_fits(b: EaIndexBlock, g: EaGeometry) -> bool {
    &&& b.elements@.len() == g.idx_blk_elmts
    &&& b.dblk_addrs@.len() == g.ndblk_addrs
    &&& b.sblk_addrs@.len() == g.nsblk_addrs
}

/// Whether an index block has no chunks.
pub open spec fn block_empty(b: EaIndexBlock, g: EaGeometry) -> bool {
    &&& b.elements@ == Seq::new(g.idx_blk_elmts as nat, |i: int| vacant())
    &&& b.dblk_addrs@ == Seq::new(g.ndblk_addrs as nat, |i: int| UNDEF_ADDR)
    &&& b.sblk_addrs@ == Seq::new(g.nsblk_addrs as nat, |i: int| UNDEF_ADDR)
}

/// Whether an index block says what the block `b` of the file says, whose chunks without
/// filters have `chunk_bytes` bytes each.
pub open spec fn same_block(
    a: EaIndexBlock,
    b: EaIndexBlock,
    filtered: bool,
    chunk_bytes: u64,
) -> bool {
    &&& a.elements@ == all_sized(b.elements@, filtered, chunk_bytes)
    &&& a.dblk_addrs@ == b.dblk_addrs@
    &&& a.sblk_addrs@ == b.sblk_addrs@
}

/// Bytes of the size of a filtered chunk.
pub open spec fn width_of_size(h: ExtensibleArrayHeader, ctx: FormatContext) -> int {
    if h.class_id == EA_CLS_FILT_CHUNK {
        h.raw_elmt_size - ctx.sizeof_addr - 4
    } else {
        0
    }
}

/// Whether the index of a dataset has been restored from what was read. Without an
/// index block that can be used, the index begins empty.
pub open spec fn index_restored(
    c: ChunkedDatasetInfo,
    d: ReadView,
    params: EarrayParams,
    index: u64,
    image: IndexImage,
    ctx: FormatContext,
    chunk_bytes: u64,
) -> bool {
    &&& d.layout matches LayoutView::ChunkedV4 { chunk_dims, .. } && c.chunk_dims@
        == chunk_dims.drop_last()
    &&& c.max_dims@ == match d.dataspace.max_dims {
        Some(m) => m,
        None => d.dataspace.dims,
    }
    &&& c.earray_params == params
    &&& c.geo.wf()
    &&& c.geo.params == params
    &&& c.ea_header_addr == index
    &&& c.ea_header == image.header
    &&& c.ea_iblk_addr == image.header.idx_blk_addr
    &&& c.ndblk_addrs == c.geo.ndblk_addrs
    &&& match image.block {
        Some(b) => if block_fits(b, c.geo) {
            same_block(c.ea_iblk, b, c.filtered, chunk_bytes)
        } else {
            block_empty(c.ea_iblk, c.geo)
        },
        None => block_empty(c.ea_iblk, c.geo),
    }
    &&& !c.filtered ==> forall|i: int|
        0 <= i < c.ea_iblk.elements@.len() && (#[trigger] c.ea_iblk.elements@[i]).addr != UNDEF_ADDR
            ==> c.ea_iblk.elements@[i].nbytes == chunk_bytes
    &&& c.index().shaped(c.geo)
    &&& c.blocks.supers@ == Map::<u64, crate::io::ea::EaSuperBlock>::empty()
    &&& c.blocks.data@ == Map::<u64, Vec<ChunkEntry>>::empty()
    &&& c.blocks.pages@ == Map::<u64, Vec<ChunkEntry>>::empty()
    &&& c.chunks_written == 0
    &&& c.filtered == (image.header.class_id == EA_CLS_FILT_CHUNK)
    &&& c.chunk_size_len == width_of_size(image.header, ctx)
}

/// Whether a dataset has been restored from what was read. Datasets with other indexes
/// keep their place in the file, and nothing more.
pub open spec fn restored(
    d: DatasetInfo,
    s: Stored,
    ctx: FormatContext,
    indexes: Map<u64, IndexImage>,
) -> bool {
    let r = s.dataset;
    &&& d.name@ == r.name
    &&& d.datatype.message_view() == r.datatype
    &&& d.dataspace@ == r.dataspace
    &&& d.obj_header_addr == s.addr
    &&& d.obj_header_written_addr == Some(s.addr)
    &&& d.obj_header_encoded_size == 0
    &&& attribute_views(d.attributes@) == r.attributes
    &&& match d.filter_pipeline {
        Some(p) => r.filters == Some(p@),
        None => r.filters is None,
    }
    &&& match d.fill_value {
        Some(b) => r.fill_value == Some(b@),
        None => r.fill_value is None,
    }
    &&& d.append_buffer@.len() == 0
    &&& d.append_buffered_frames == 0
    &&& !d.deleted
    &&& d.fixed_array is None
    &&& d.btree_v2 is None
    &&& match r.layout {
        LayoutView::Contiguous { address, size } => d.data_addr == address && d.data_size == size,
        _ => d.data_addr == UNDEF_ADDR && d.data_size == 0,
    }
    &&& match d.kept_layout {
        Some(l) => l@ == r.layout && !(r.layout is Contiguous) && array_of(r.layout) is None,
        None => r.layout is Contiguous || array_of(r.layout) is Some,
    }
    &&& !d.header_changed
    &&& match array_of(r.layout) {
        Some((params, index)) => d.chunked matches Some(c) && index_restored(
            c,
            r,
            params,
            index,
            indexes[index],
            ctx,
            c.chunk_bytes(d.datatype.spec_element_size() as nat),
        ),
        None => d.chunked is None,
    }
}

fn vacant_entries(n: usize) -> (v: Vec<ChunkEntry>)
    ensures
        v@ == Seq::new(n as nat, |i: int| vacant()),
{
    let mut v: Vec<ChunkEntry> = Vec::new();
    let mut i: usize = 0;
    while i < n
        invariant
            i <= n,
            v@ == Seq::new(i as nat, |i: int| vacant()),
        decreases n - i,
    {
        v.push(vacant_entry());
        i = i + 1;
        assert(v@ =~= Seq::new(i as nat, |i: int| vacant()));
    }
    v
}

fn restore_block(image: &IndexImage, g: &EaGeometry, filtered: bool, chunk_bytes: u64) -> (b:
    EaIndexBlock)
    requires
        g.wf(),
    ensures
        match image.block {
            Some(x) => if block_fits(x, *g) {
                same_block(b, x, filtered, chunk_bytes)
            } else {
                block_empty(b, *g)
            },
            None => block_empty(b, *g),
        },
        block_fits(b, *g),
{
    match &image.block {
        Some(x) => {
            if x.elements.len() as u64 == g.idx_blk_elmts && x.dblk_addrs.len() == g.ndblk_addrs
                && x.sblk_addrs.len() == g.nsblk_addrs {
                return EaIndexBlock {
                    elements: sized_entries(&x.elements, filtered, chunk_bytes),
                    dblk_addrs: copy_dims(x.dblk_addrs.as_slice()),
                    sblk_addrs: copy_dims(x.sblk_addrs.as_slice()),
                };
            }
        },
        None => {},
    }
    EaIndexBlock {
        elements: vacant_entries(g.idx_blk_elmts as usize),
        dblk_addrs: undefined(g.ndblk_addrs),
        sblk_addrs: undefined(g.nsblk_addrs),
    }
}

/// Whether the widths of an index are those of the file.
pub open spec fn width_ok(image: IndexImage, ctx: FormatContext) -> bool {
    image.header.class_id == EA_CLS_FILT_CHUNK ==> image.header.raw_elmt_size >= ctx.sizeof_addr + 4
}

fn restore_index(
    d: &DatasetReadInfo,
    chunk_dims: &Vec<u64>,
    params: EarrayParams,
    index: u64,
    image: &IndexImage,
    ctx: &FormatContext,
) -> (r: IoResult<ChunkedDatasetInfo>)
    requires
        chunk_dims@.len() > 0,
        d.layout@ matches LayoutView::ChunkedV4 { chunk_dims: cd, .. } && cd == chunk_dims@,
        earray_valid(params),
        width_ok(*image, *ctx),
    ensures
        r matches Ok(c) && index_restored(
            c,
            d@,
            params,
            index,
            *image,
            *ctx,
            c.chunk_bytes(d.datatype.spec_element_size() as nat),
        ),
{
    match EaGeometry::new(&params) {
        Err(e) => Err(IoError::Format(e)),
        Ok(geo) => {
            let n: usize = chunk_dims.len();
            let cd = copy_dims(slice_subrange(chunk_dims.as_slice(), 0, n - 1));
            assert(cd@ =~= chunk_dims@.drop_last());
            let max_dims = match &d.dataspace.max_dims {
                Some(m) => copy_dims(m.as_slice()),
                None => copy_dims(d.dataspace.dims.as_slice()),
            };
            let filtered: bool = image.header.class_id == EA_CLS_FILT_CHUNK;
            let chunk_size_len: u8 = if filtered {
                image.header.raw_elmt_size - ctx.sizeof_addr - 4
            } else {
                0
            };
            let chunk_bytes: u64 = saturating_byte_len(
                cd.as_slice(),
                d.datatype.element_size() as u64,
            );
            let ea_iblk = restore_block(image, &geo, filtered, chunk_bytes);
            let ndblk_addrs: usize = geo.ndblk_addrs;
            let c = ChunkedDatasetInfo {
                chunk_dims: cd,
                max_dims,
                earray_params: params,
                geo,
                ea_header_addr: index,
                ea_iblk_addr: image.header.idx_blk_addr,
                ndblk_addrs,
                ea_header: image.header,
                ea_iblk,
                blocks: EaBlocks {
                    supers: HashMap::new(),
                    data: HashMap::new(),
                    pages: HashMap::new(),
                },
                chunks_written: 0,
                filtered,
                chunk_size_len,
            };
            Ok(c)
        },
    }
}

/// A dataset that has been restored, or the index that has to be read first.
enum Restoring {
    Done(DatasetInfo),
    Need(u64),
}

fn restore_dataset(
    d: DatasetReadInfo,
    addr: u64,
    ctx: &FormatContext,
    indexes: &HashMap<u64, IndexImage>,
) -> (r: IoResult<Restoring>)
    requires
        layout_ok(d.layout@),
        forall|a: u64| #[trigger]
            indexes@.contains_key(a) ==> width_ok(indexes@[a], *ctx),
    ensures
        match array_of(d.layout@) {
            Some((params, index)) => if !earray_valid(params) {
                r matches Err(IoError::Format(e)) && e.is_invalid(
                    "invalid extensible array parameters"@,
                )
            } else if !indexes@.contains_key(index) {
                r matches Ok(Restoring::Need(a)) && a == index
            } else {
                r matches Ok(Restoring::Done(x)) && restored(
                    x,
                    (Stored { dataset: d@, addr }),
                    *ctx,
                    indexes@,
                )
            },
            None => r matches Ok(Restoring::Done(x)) && restored(
                x,
                (Stored { dataset: d@, addr }),
                *ctx,
                indexes@,
            ),
        },
{
    let mut data_addr: u64 = UNDEF_ADDR;
    let mut data_size: u64 = 0;
    let mut chunked: Option<ChunkedDatasetInfo> = None;
    match &d.layout {
        DataLayoutMessage::Contiguous { address, size } => {
            data_addr = *address;
            data_size = *size;
        },
        DataLayoutMessage::ChunkedV4 {
            chunk_dims,
            index_address,
            index_type,
            earray_params,
            farray_params: _,
        } => {
            if *index_type == ChunkIndexType::ExtensibleArray {
                if let Some(params) = earray_params {
                    if let Err(e) = EaGeometry::new(params) {
                        return Err(IoError::Format(e));
                    }
                    let index: u64 = *index_address;
                    match indexes.get(&index) {
                        None => {
                            return Ok(Restoring::Need(index));
                        },
                        Some(image) => match restore_index(
                            &d,
                            chunk_dims,
                            *params,
                            index,
                            image,
                            ctx,
                        ) {
                            Err(e) => {
                                return Err(e);
                            },
                            Ok(c) => {
                                chunked = Some(c);
                            },
                        },
                    }
                }
            }
        },
        _ => {},
    }
    let known: bool = chunked.is_some() || match &d.layout {
        DataLayoutMessage::Contiguous { .. } => true,
        _ => false,
    };
    let kept_layout: Option<DataLayoutMessage> = if known {
        None
    } else {
        Some(d.layout.clone())
    };
    let x = DatasetInfo {
        name: d.name,
        datatype: d.datatype,
        dataspace: d.dataspace,
        obj_header_addr: addr,
        data_addr,
        data_size,
        chunked,
        fixed_array: None,
        btree_v2: None,
        attributes: d.attributes,
        obj_header_written_addr: Some(addr),
        obj_header_encoded_size: 0,
        filter_pipeline: d.filter_pipeline,
        append_buffer: Vec::new(),
        append_buffered_frames: 0,
        deleted: false,
        fill_value: d.fill_value,
        kept_layout,
        header_changed: false,
    };
    Ok(Restoring::Done(x))
}

/// A file that can be written on, or what has to be read first.
pub enum Reopened {
    /// The state of the file.
    Writer(Hdf5Writer),
    /// The object header at this address.
    NeedObject(u64),
    /// The index whose header is at this address.
    NeedIndex(u64),
}

/// The paths of datasets.
pub open spec fn stored_names(s: Seq<Stored>) -> Seq<Seq<char>> {
    Seq::new(s.len(), |i: int| s[i].dataset.name)
}

/// Whether a writer goes on with a file: it knows the datasets of the file, the groups
/// that their paths lead through and the attributes of the root group, and writes from
/// the end of the file on.
pub open spec fn goes_on(
    w: Hdf5Writer,
    s: Seq<Stored>,
    ctx: FormatContext,
    indexes: Map<u64, IndexImage>,
    attributes: Seq<AttributeView>,
    file_size: u64,
) -> bool {
    &&& w.wf()
    &&& w.ctx == ctx
    &&& w.allocator.spec_eof() == file_size
    &&& w.datasets@.len() == s.len()
    &&& forall|i: int| 0 <= i < s.len() ==> restored(#[trigger] w.datasets@[i], s[i], ctx, indexes)
    &&& shapes(w.groups@) == regrouped(stored_names(s), s.len())
    &&& placed_groups(w.groups@, s.len())
    &&& w.hard_links@.len() == 0
    &&& attribute_views(w.root_attributes@) == attributes
    &&& !w.closed
    &&& w.root_group_addr is None
    &&& w.root_group_encoded_size == 0
}

/// Whether the chunk dimensions of all datasets end with the size of an element.
pub open spec fn layouts_ok(o: Objects) -> bool {
    forall|a: u64| #[trigger]
        o.nodes@.contains_key(a) ==> (o.nodes@[a] matches Some(n) ==> (layout_of(
            infos(n.messages@),
            n.messages@.len(),
        ) matches Some(l) ==> layout_ok(l)))
}

/// The datasets that have been restored so far.
struct Progress {
    datasets: Vec<DatasetInfo>,
    names: Vec<String>,
}

proof fn lemma_index_stops(s: Seq<Stored>, indexes: Map<u64, IndexImage>, k: nat, n: nat)
    requires
        k <= n,
        index_stop(s, indexes, k) is Some,
    ensures
        index_stop(s, indexes, n) == index_stop(s, indexes, k),
    decreases n,
{
    if k < n {
        lemma_index_stops(s, indexes, k, (n - 1) as nat);
    }
}

/// What was stored under some names is a part of what is stored under more.
proof fn lemma_stored_prefix(o: Objects, links: Seq<LinkView>, k: nat, n: nat)
    requires
        k <= n,
    ensures
        stored_datasets(o, links, k).len() <= stored_datasets(o, links, n).len(),
        stored_datasets(o, links, n).take(stored_datasets(o, links, k).len() as int)
            == stored_datasets(o, links, k),
    decreases n,
{
    let a = stored_datasets(o, links, k);
    let b = stored_datasets(o, links, n);
    if k < n {
        lemma_stored_prefix(o, links, k, (n - 1) as nat);
        let m = stored_datasets(o, links, (n - 1) as nat);
        assert(b.take(a.len() as int) =~= m.take(a.len() as int));
    } else {
        assert(b.take(a.len() as int) =~= a);
    }
}

proof fn lemma_stop_of_part(
    a: Seq<Stored>,
    b: Seq<Stored>,
    indexes: Map<u64, IndexImage>,
    n: nat,
)
    requires
        n <= a.len() <= b.len(),
        b.take(a.len() as int) == a,
    ensures
        index_stop(a, indexes, n) == index_stop(b, indexes, n),
    decreases n,
{
    if n > 0 {
        lemma_stop_of_part(a, b, indexes, (n - 1) as nat);
        assert(b.take(a.len() as int)[n - 1] == b[n - 1]);
    }
}

fn restore_datasets(
    o: &Objects,
    links: &Vec<LinkEntry>,
    ctx: &FormatContext,
    indexes: &HashMap<u64, IndexImage>,
) -> (r: IoResult<Result<Progress, u64>>)
    requires
        layouts_ok(*o),
        forall|a: u64| #[trigger]
            indexes@.contains_key(a) ==> width_ok(indexes@[a], *ctx),
    ensures
        ({
            let s = stored_datasets(*o, link_views(links@), links@.len());
            match index_stop(s, indexes@, s.len()) {
                Some(IndexStop::Invalid) => r matches Err(IoError::Format(e)) && e.is_invalid(
                    "invalid extensible array parameters"@,
                ),
                Some(IndexStop::Need(a)) => r matches Ok(Err(x)) && x == a,
                None => r matches Ok(Ok(p)) && {
                    &&& p.datasets@.len() == s.len()
                    &&& texts(p.names@) == stored_names(s)
                    &&& forall|i: int|
                        0 <= i < s.len() ==> restored(
                            #[trigger] p.datasets@[i],
                            s[i],
                            *ctx,
                            indexes@,
                        )
                },
            }
        }),
{
    let ghost lv = link_views(links@);
    let ghost all = stored_datasets(*o, lv, links@.len());
    let n: usize = links.len();
    let mut p = Progress { datasets: Vec::new(), names: Vec::new() };
    let mut k: usize = 0;
    assert(texts(p.names@) =~= stored_names(Seq::empty()));
    while k < n
        invariant
            k <= n,
            n == links@.len(),
            lv == link_views(links@),
            all == stored_datasets(*o, lv, links@.len()),
            layouts_ok(*o),
            forall|a: u64| #[trigger]
                indexes@.contains_key(a) ==> width_ok(indexes@[a], *ctx),
            ({
                let s = stored_datasets(*o, lv, k as nat);
                &&& index_stop(s, indexes@, s.len()) is None
                &&& p.datasets@.len() == s.len()
                &&& texts(p.names@) == stored_names(s)
                &&& forall|i: int|
                    0 <= i < s.len() ==> restored(#[trigger] p.datasets@[i], s[i], *ctx, indexes@)
            }),
        decreases n - k,
    {
        let ghost s = stored_datasets(*o, lv, k as nat);
        let ghost next = stored_datasets(*o, lv, (k + 1) as nat);
        let ghost before = p;
        let l = &links[k];
        assert(lv[k as int] == l@);
        match o.nodes.get(&l.addr) {
            None => {},
            Some(None) => {},
            Some(Some(node)) => {
                match read_dataset_from_object_header(&node.messages, l.name.as_str()) {
                    None => {},
                    Some(d) => {
                        let ghost one = Stored { dataset: d@, addr: l.addr };
                        proof {
                            assert(infos(node.messages@).len() == node.messages@.len());
                            assert(o.nodes@.contains_key(l.addr));
                            assert(next == s.push(one));
                            assert(next[s.len() as int] == one);
                            assert(next.take(s.len() as int) =~= s);
                            lemma_stop_of_part(s, next, indexes@, s.len());
                            lemma_stored_prefix(*o, lv, (k + 1) as nat, n as nat);
                            lemma_stop_of_part(next, all, indexes@, next.len());
                        }
                        let name = d.name.as_str().to_owned();
                        match restore_dataset(d, l.addr, ctx, indexes) {
                            Err(e) => {
                                proof {
                                    lemma_index_stops(all, indexes@, next.len(), all.len());
                                }
                                return Err(e);
                            },
                            Ok(Restoring::Need(a)) => {
                                proof {
                                    lemma_index_stops(all, indexes@, next.len(), all.len());
                                }
                                return Ok(Err(a));
                            },
                            Ok(Restoring::Done(x)) => {
                                p.datasets.push(x);
                                p.names.push(name);
                                proof {
                                    assert(texts(p.names@) =~= texts(before.names@).push(name@));
                                    assert(stored_names(next) =~= stored_names(s).push(name@));
                                    assert forall|i: int| 0 <= i < next.len() implies restored(
                                        #[trigger] p.datasets@[i],
                                        next[i],
                                        *ctx,
                                        indexes@,
                                    ) by {
                                        if i < s.len() {
                                            assert(restored(
                                                before.datasets@[i],
                                                s[i],
                                                *ctx,
                                                indexes@,
                                            ));
                                        }
                                    }
                                }
                            },
                        }
                    },
                }
            },
        }
        k = k + 1;
    }
    Ok(Ok(p))
}

impl Hdf5Writer {
    /// Go on with a file of `file_size` bytes. `root` are the messages of the root group,
    /// `objects` and `indexes` what has been read of the file so far.
    pub fn open_append(
        sb: &SuperblockV2V3,
        file_size: u64,
        root: &Vec<DecodedMessage>,
        objects: &Objects,
        indexes: &HashMap<u64, IndexImage>,
    ) -> (r: IoResult<Reopened>)
        requires
            layouts_ok(*objects),
            forall|a: u64| #[trigger]
                indexes@.contains_key(a) ==> width_ok(
                    indexes@[a],
                    (FormatContext {
                        sizeof_addr: sb.sizeof_offsets,
                        sizeof_size: sb.sizeof_lengths,
                    }),
                ),
        ensures
            ({
                let ctx = FormatContext {
                    sizeof_addr: sb.sizeof_offsets,
                    sizeof_size: sb.sizeof_lengths,
                };
                let f = file_links(*objects, infos(root@));
                let s = stored_datasets(*objects, f.links, f.links.len());
                match f.need {
                    Some(a) => r matches Ok(Reopened::NeedObject(x)) && x == a,
                    None => match index_stop(s, indexes@, s.len()) {
                        Some(IndexStop::Invalid) => r matches Err(IoError::Format(e))
                            && e.is_invalid("invalid extensible array parameters"@),
                        Some(IndexStop::Need(a)) => r matches Ok(Reopened::NeedIndex(x)) && x == a,
                        None => r matches Ok(Reopened::Writer(w)) && goes_on(
                            w,
                            s,
                            ctx,
                            indexes@,
                            attributes_of(infos(root@), root@.len()),
                            file_size,
                        ),
                    },
                }
            }),
    {
        let ctx = FormatContext { sizeof_addr: sb.sizeof_offsets, sizeof_size: sb.sizeof_lengths };
        let mut found = Links { links: Vec::new(), visited: HashSet::new(), need: None };
        proof {
            reveal_strlit("");
            assert(""@ =~= Seq::<char>::empty());
            assert(found@ =~= (LinksView {
                links: Seq::empty(),
                visited: Set::empty(),
                need: None,
            }));
            assert(infos(root@).len() == root@.len());
        }
        collect_links_recursive(objects, root, "", 0, &mut found);
        if let Some(a) = found.need {
            return Ok(Reopened::NeedObject(a));
        }
        let root_attributes = object_attributes(root);
        assert(link_views(found.links@).len() == found.links@.len());
        match restore_datasets(objects, &found.links, &ctx, indexes) {
            Err(e) => Err(e),
            Ok(Err(a)) => Ok(Reopened::NeedIndex(a)),
            Ok(Ok(p)) => {
                assert(texts(p.names@).len() == p.names@.len());
                let groups = rebuild_groups(&p.names);
                let w = Hdf5Writer {
                    allocator: FileAllocator::new(file_size),
                    ctx,
                    datasets: p.datasets,
                    groups,
                    hard_links: Vec::new(),
                    root_attributes,
                    closed: false,
                    root_group_addr: None,
                    root_group_encoded_size: 0,
                };
                Ok(Reopened::Writer(w))
            },
        }
    }
}

/// Closing a file that was opened again leaves every header as it stands, of whatever
/// layout: each dataset that was not changed is found again as it was.
pub proof fn lemma_restored_kept(
    w: Hdf5Writer,
    i: int,
    s: Stored,
    ctx: FormatContext,
    indexes: Map<u64, IndexImage>,
)
    requires
        0 <= i < w.datasets@.len() <= usize::MAX,
        restored(w.datasets@[i], s, ctx, indexes),
    ensures
        header_step(w.datasets@, false, i) == FinalStep::KeepHeader(i as usize),
        w.datasets@[i].obj_header_written_addr == Some(s.addr),
{
}

/// A dataset that was written and restored is as it was written: its header would be
/// written again with the same type, shape, layout, filters, attributes and fill value.
pub proof fn lemma_restored_same(
    d: DatasetInfo,
    again: DatasetInfo,
    name: Seq<char>,
    addr: u64,
    ctx: FormatContext,
    indexes: Map<u64, IndexImage>,
)
    requires
        d.kept_layout is None,
        restored(again, (Stored { dataset: read_of(d, name), addr }), ctx, indexes),
    ensures
        again.name@ == name,
        again.obj_header_addr == addr,
        read_of(again, name) == read_of(d, name),
{
    let a = read_of(again, name);
    let b = read_of(d, name);
    assert(again.datatype.spec_element_size() == d.datatype.spec_element_size());
    match d.chunked {
        Some(c) => {
            let es = d.datatype.spec_element_size() as u64;
            assert(c.chunk_dims@.push(es).drop_last() =~= c.chunk_dims@);
        },
        None => {},
    }
    match again.filter_pipeline {
        Some(p) => {
            assert(p@.len() == p.filters@.len());
            let q = d.filter_pipeline->0;
            assert(q@.len() == q.filters@.len());
        },
        None => {},
    }
    assert(a.filters == b.filters);
    assert(a.layout == b.layout);
    assert(a =~= b);
}

} // verus!
