//! Opening a file for reading.

use crate::format::messages::{MSG_LINK, MSG_LINK_INFO};
use crate::format::superblock::{SuperblockV0V1, SuperblockV2V3};
use crate::format::FormatContext;
use crate::io::reader::catalog::Hdf5Reader;
use crate::io::reader::messages::{
    attribute_views, attributes_of, infos, object_attributes, DecodedMessage, InfoView,
};
use crate::io::reader::walk::{
    discover_datasets_from_btree, discover_datasets_from_links, group_views, linked, nothing,
    read_views, tabled, Found, FoundView, ObjectNode, Objects, ReadRequest,
};
use crate::io::writer::catalog::texts;
use vstd::prelude::*;

verus! {

/// A file that has been opened, or what has to be read first.
pub enum Opened {
    /// What is known of the file.
    Reader(Hdf5Reader),
    /// What has to be read.
    Need(ReadRequest),
}

/// Whether a reader knows what a walk has found.
pub open spec fn knows(r: Hdf5Reader, f: FoundView) -> bool {
    &&& read_views(r.datasets@) == f.datasets
    &&& group_views(r.group_attributes@) == f.groups
    &&& texts(r.group_paths@) == f.paths
}

/// Whether a group stores its objects as links.
pub open spec fn has_links(m: Seq<InfoView>) -> bool {
    exists|i: int| 0 <= i < m.len() && link_message((#[trigger] m[i]).msg_type)
}

/// Whether a message is one of a group that stores its objects as links.
pub open spec fn link_message(t: u8) -> bool {
    t == MSG_LINK || t == MSG_LINK_INFO
}

fn stores_links(m: &Vec<DecodedMessage>) -> (r: bool)
    ensures
        r == has_links(infos(m@)),
{
    let ghost v = infos(m@);
    let mut i: usize = 0;
    while i < m.len()
        invariant
            i <= m.len(),
            v == infos(m@),
            forall|k: int| 0 <= k < i ==> !link_message((#[trigger] v[k]).msg_type),
        decreases m.len() - i,
    {
        assert(v[i as int].msg_type == m@[i as int].msg_type);
        if m[i].msg_type == MSG_LINK || m[i].msg_type == MSG_LINK_INFO {
            return true;
        }
        i = i + 1;
    }
    false
}

/// What is found in a file with a superblock of version 0 or 1. The symbol table of the
/// root group is the one that the superblock knows, or that of the group's header. A
/// root group that stores its objects as links has no use for it.
pub open spec fn found_v0v1(sb: SuperblockV0V1, root: Option<ObjectNode>, o: Objects) -> FoundView {
    let ste = sb.root_symbol_table_entry;
    let addr = ste.obj_header_addr;
    match root {
        Some(n) => if has_links(infos(n.messages@)) {
            linked(o, infos(n.messages@), addr)
        } else if ste.cache_type == 1 {
            tabled(o, ste.btree_addr, ste.heap_addr, Seq::empty(), 0, nothing(addr))
        } else {
            tabled(o, n.btree, n.heap, Seq::empty(), 0, nothing(addr))
        },
        None => if ste.cache_type == 1 {
            tabled(o, ste.btree_addr, ste.heap_addr, Seq::empty(), 0, nothing(addr))
        } else {
            nothing(addr)
        },
    }
}

impl Hdf5Reader {
    /// Open a file with a superblock of version 2 or 3. `root` are the messages of the
    /// root group.
    pub fn open_v2v3(sb: &SuperblockV2V3, root: &Vec<DecodedMessage>, o: &Objects) -> (r: Opened)
        ensures
            ({
                let f = linked(*o, infos(root@), sb.root_group_object_header_address);
                match f.need {
                    Some(q) => r matches Opened::Need(x) && x == q,
                    None => r matches Opened::Reader(x) && {
                        &&& knows(x, f)
                        &&& x.ctx.sizeof_addr == sb.sizeof_offsets
                        &&& x.ctx.sizeof_size == sb.sizeof_lengths
                        &&& attribute_views(x.root_attributes@) == attributes_of(
                            infos(root@),
                            root@.len(),
                        )
                    },
                }
            }),
    {
        let ctx = FormatContext { sizeof_addr: sb.sizeof_offsets, sizeof_size: sb.sizeof_lengths };
        let found = discover_datasets_from_links(o, root, sb.root_group_object_header_address);
        let attributes = object_attributes(root);
        match found.need {
            Some(q) => Opened::Need(q),
            None => Opened::Reader(
                Hdf5Reader {
                    ctx,
                    datasets: found.datasets,
                    root_attributes: attributes,
                    group_attributes: found.group_attributes,
                    group_paths: found.group_paths,
                },
            ),
        }
    }

    /// Open a file with a superblock of version 0 or 1. `root` is the header of the root
    /// group, if it can be decoded.
    pub fn open_v0v1(sb: &SuperblockV0V1, root: Option<&ObjectNode>, o: &Objects) -> (r: Opened)
        ensures
            ({
                let known = match root {
                    Some(n) => Some(*n),
                    None => None,
                };
                let f = found_v0v1(*sb, known, *o);
                match f.need {
                    Some(q) => r matches Opened::Need(x) && x == q,
                    None => r matches Opened::Reader(x) && {
                        &&& knows(x, f)
                        &&& x.ctx.sizeof_addr == sb.sizeof_offsets
                        &&& x.ctx.sizeof_size == sb.sizeof_lengths
                        &&& attribute_views(x.root_attributes@) == match root {
                            Some(n) => attributes_of(infos(n.messages@), n.messages@.len()),
                            None => Seq::empty(),
                        }
                    },
                }
            }),
    {
        let ctx = FormatContext { sizeof_addr: sb.sizeof_offsets, sizeof_size: sb.sizeof_lengths };
        let ste = &sb.root_symbol_table_entry;
        let addr: u64 = ste.obj_header_addr;
        let cached: bool = ste.cache_type == 1;
        let attributes = match root {
            Some(n) => object_attributes(&n.messages),
            None => Vec::new(),
        };
        proof {
            if root is None {
                assert(attribute_views(attributes@) =~= Seq::empty());
            }
        }
        let found: Found = match root {
            Some(n) => {
                if stores_links(&n.messages) {
                    discover_datasets_from_links(o, &n.messages, addr)
                } else if cached {
                    discover_datasets_from_btree(o, ste.btree_addr, ste.heap_addr, addr)
                } else {
                    discover_datasets_from_btree(o, n.btree, n.heap, addr)
                }
            },
            None => {
                if cached {
                    discover_datasets_from_btree(o, ste.btree_addr, ste.heap_addr, addr)
                } else {
                    Found::new(addr)
                }
            },
        };
        match found.need {
            Some(q) => Opened::Need(q),
            None => Opened::Reader(
                Hdf5Reader {
                    ctx,
                    datasets: found.datasets,
                    root_attributes: attributes,
                    group_attributes: found.group_attributes,
                    group_paths: found.group_paths,
                },
            ),
        }
    }

    /// Look at the file again. What was known of the datasets and groups is replaced,
    /// unless something has to be read first; the attributes of the root group stay.
    pub fn refresh(&mut self, sb: &SuperblockV2V3, root: &Vec<DecodedMessage>, o: &Objects) -> (need:
        Option<ReadRequest>)
        ensures
            ({
                let f = linked(*o, infos(root@), sb.root_group_object_header_address);
                &&& need == f.need
                &&& match f.need {
                    Some(_) => *final(self) == *old(self),
                    None => {
                        &&& knows(*final(self), f)
                        &&& final(self).ctx.sizeof_addr == sb.sizeof_offsets
                        &&& final(self).ctx.sizeof_size == sb.sizeof_lengths
                        &&& final(self).root_attributes == old(self).root_attributes
                    },
                }
            }),
    {
        let found = discover_datasets_from_links(o, root, sb.root_group_object_header_address);
        if found.need.is_some() {
            return found.need;
        }
        self.ctx = FormatContext {
            sizeof_addr: sb.sizeof_offsets,
            sizeof_size: sb.sizeof_lengths,
        };
        self.datasets = found.datasets;
        self.group_attributes = found.group_attributes;
        self.group_paths = found.group_paths;
        None
    }
}

} // verus!
