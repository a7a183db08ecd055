//! Attributes and fill values.

use crate::format::messages::attribute::AttributeMessage;
use crate::format::messages::fill_value::{opt_bytes, tiled, tiled_fill};
use crate::format::UNDEF_ADDR;
use crate::io::search::{is_at, lemma_no_position, lemma_position, lemma_position_is, position};
use crate::io::writer::catalog::live_group;
use crate::io::writer::content::{has_chunks, is_chunked, lemma_same_catalog};
use crate::io::writer::state::{group_placed, link_placed, DatasetInfo, GroupInfo, Hdf5Writer};
use crate::io::writer::storage::same_others;
use crate::io::{invalid_state, not_found, IoErrorView, IoResult};
use crate::text::{decimal, Text};
use vstd::prelude::*;

verus! {

/// Whether attribute `i` has this name.
pub open spec fn attribute_named(attrs: Seq<AttributeMessage>, name: Seq<char>) -> spec_fn(
    int,
) -> bool {
    |i: int| attrs[i].name@ == name
}

/// The attribute of this name.
pub open spec fn attribute_at(attrs: Seq<AttributeMessage>, name: Seq<char>) -> Option<int> {
    position(attrs.len(), attribute_named(attrs, name))
}

/// Attributes with one added; it takes the place of an attribute of the same
/// name.
pub open spec fn with_attribute(attrs: Seq<AttributeMessage>, a: AttributeMessage) -> Seq<
    AttributeMessage,
> {
    match attribute_at(attrs, a.name@) {
        Some(i) => attrs.update(i, a),
        None => attrs.push(a),
    }
}

/// The attribute of this name.
pub fn find_attribute(attrs: &Vec<AttributeMessage>, name: &str) -> (r: Option<usize>)
    ensures
        is_at(r, attribute_at(attrs@, name@)),
{
    let ghost f = attribute_named(attrs@, name@);
    let wanted: String = name.to_owned();
    let mut i: usize = 0;
    while i < attrs.len()
        invariant
            i <= attrs.len(),
            wanted@ == name@,
            f == attribute_named(attrs@, name@),
            forall|j: int| 0 <= j < i ==> !#[trigger] f(j),
        decreases attrs.len() - i,
    {
        let hit: bool = attrs[i].name == wanted;
        assert(hit == f(i as int));
        if hit {
            proof {
                lemma_position(attrs@.len(), f, i as int);
            }
            return Some(i);
        }
        i = i + 1;
    }
    proof {
        lemma_no_position(attrs@.len(), f);
    }
    None
}

fn put_attribute(attrs: &mut Vec<AttributeMessage>, a: AttributeMessage)
    ensures
        final(attrs)@ == with_attribute(old(attrs)@, a),
{
    proof {
        lemma_position_is(attrs@.len(), attribute_named(attrs@, a.name@));
    }
    match find_attribute(attrs, a.name.as_str()) {
        Some(i) => {
            attrs.set(i, a);
        },
        None => {
            attrs.push(a);
        },
    }
}

/// An attribute that has been set is found again, and attributes of other names
/// are found as before.
pub proof fn lemma_attribute_set(attrs: Seq<AttributeMessage>, a: AttributeMessage)
    ensures
        ({
            let now = with_attribute(attrs, a);
            &&& attribute_at(now, a.name@) is Some
            &&& now[attribute_at(now, a.name@)->0] == a
            &&& forall|name: Seq<char>|
                name != a.name@ ==> #[trigger] attribute_at(now, name) == attribute_at(attrs, name)
            &&& forall|name: Seq<char>|
                name != a.name@ && #[trigger] attribute_at(attrs, name) is Some
                    ==> now[attribute_at(attrs, name)->0] == attrs[attribute_at(attrs, name)->0]
        }),
{
    let now = with_attribute(attrs, a);
    let f = attribute_named(attrs, a.name@);
    let g = attribute_named(now, a.name@);
    lemma_position_is(attrs.len(), f);
    match attribute_at(attrs, a.name@) {
        Some(i) => {
            assert forall|j: int| 0 <= j < i implies !#[trigger] g(j) by {
                assert(!f(j));
            }
            assert(g(i));
            lemma_position(now.len(), g, i);
        },
        None => {
            let i = attrs.len() as int;
            assert forall|j: int| 0 <= j < i implies !#[trigger] g(j) by {
                assert(!f(j));
            }
            assert(g(i));
            lemma_position(now.len(), g, i);
        },
    }
    assert forall|name: Seq<char>| name != a.name@ implies #[trigger] attribute_at(now, name)
        == attribute_at(attrs, name) by {
        let p = attribute_named(attrs, name);
        let q = attribute_named(now, name);
        lemma_position_is(attrs.len(), p);
        match attribute_at(attrs, name) {
            Some(k) => {
                assert(p(k));
                assert(attrs[k].name@ == name);
                assert(attribute_at(attrs, a.name@) != Some(k)) by {
                    if attribute_at(attrs, a.name@) == Some(k) {
                        assert(f(k));
                    }
                }
                assert(q(k));
                assert forall|j: int| 0 <= j < k implies !#[trigger] q(j) by {
                    assert(!p(j));
                }
                lemma_position(now.len(), q, k);
            },
            None => {
                assert forall|j: int| 0 <= j < now.len() implies !#[trigger] q(j) by {
                    if j < attrs.len() {
                        assert(!p(j));
                    }
                }
                lemma_no_position(now.len(), q);
            },
        }
    }
    assert forall|name: Seq<char>|
        name != a.name@ && #[trigger] attribute_at(attrs, name) is Some implies now[attribute_at(
        attrs,
        name,
    )->0] == attrs[attribute_at(attrs, name)->0] by {
        let p = attribute_named(attrs, name);
        lemma_position_is(attrs.len(), p);
        let k = attribute_at(attrs, name)->0;
        assert(p(k));
        if attribute_at(attrs, a.name@) == Some(k) {
            assert(f(k));
        }
    }
}

/// Bytes that go to one place in the file.
#[derive(Debug)]
pub struct BytesWrite {
    /// Address in the file.
    pub at: u64,
    /// The bytes.
    pub bytes: Vec<u8>,
}

/// Why a fill value cannot be set.
pub open spec fn fill_error(w: Hdf5Writer, i: int, len: nat) -> Option<IoErrorView> {
    if i >= w.datasets@.len() {
        Some(
            IoErrorView::InvalidState("dataset index "@ + decimal(i as nat) + " out of range"@),
        )
    } else if len != w.datasets@[i].datatype.spec_element_size() {
        Some(
            IoErrorView::InvalidState(
                "fill value is "@ + decimal(len) + " bytes but dataset element size is "@
                    + decimal(w.datasets@[i].datatype.spec_element_size() as nat),
            ),
        )
    } else {
        None
    }
}

impl Hdf5Writer {
    /// Add an attribute to the root group. An attribute of the same name is
    /// replaced.
    pub fn add_root_attribute(&mut self, attr: AttributeMessage)
        requires
            old(self).wf(),
        ensures
            final(self).wf(),
            final(self).root_attributes@ == with_attribute(old(self).root_attributes@, attr),
            final(self).allocator == old(self).allocator,
            final(self).ctx == old(self).ctx,
            final(self).datasets == old(self).datasets,
            final(self).groups == old(self).groups,
            final(self).hard_links == old(self).hard_links,
            final(self).closed == old(self).closed,
            final(self).root_group_addr == old(self).root_group_addr,
            final(self).root_group_encoded_size == old(self).root_group_encoded_size,
    {
        put_attribute(&mut self.root_attributes, attr);
    }

    /// Add an attribute to a dataset.
    pub fn add_dataset_attribute(&mut self, ds_index: usize, attr: AttributeMessage) -> (r:
        IoResult<()>)
        requires
            old(self).wf(),
        ensures
            final(self).wf(),
            final(self).allocator == old(self).allocator,
            if ds_index < old(self).datasets@.len() {
                &&& r is Ok
                &&& same_others(*old(self), *final(self), ds_index as int)
                &&& final(self).datasets@[ds_index as int] == (DatasetInfo {
                    attributes: final(self).datasets@[ds_index as int].attributes,
                    header_changed: true,
                    ..old(self).datasets@[ds_index as int]
                })
                &&& final(self).datasets@[ds_index as int].attributes@
                    == old(self).datasets@[ds_index as int].attributes@.push(attr)
            } else {
                &&& (r matches Err(e) && e@ == IoErrorView::InvalidState(
                    "dataset index "@ + decimal(ds_index as nat) + " out of range (have "@
                        + decimal(old(self).datasets@.len()) + ")"@,
                ))
                &&& *final(self) == *old(self)
            },
    {
        if ds_index >= self.datasets.len() {
            return Err(
                invalid_state(
                    Text::new("dataset index ").number(ds_index as u64).text(
                        " out of range (have ",
                    ).number(self.datasets.len() as u64).text(")"),
                ),
            );
        }
        let ghost before = *self;
        self.datasets[ds_index].attributes.push(attr);
        self.datasets[ds_index].header_changed = true;
        proof {
            lemma_same_catalog(before, *self);
        }
        Ok(())
    }

    /// Set an attribute of a dataset. An attribute of the same name is replaced.
    pub fn put_dataset_attribute(&mut self, ds_index: usize, attr: AttributeMessage) -> (r:
        IoResult<()>)
        requires
            old(self).wf(),
        ensures
            final(self).wf(),
            final(self).allocator == old(self).allocator,
            if ds_index < old(self).datasets@.len() {
                &&& r is Ok
                &&& dataset_attribute_set(*old(self), *final(self), ds_index as int, attr)
            } else {
                &&& (r matches Err(e) && e@ == no_dataset(ds_index as nat, *old(self)))
                &&& *final(self) == *old(self)
            },
    {
        if ds_index >= self.datasets.len() {
            return Err(
                invalid_state(
                    Text::new("dataset index ").number(ds_index as u64).text(
                        " out of range (have ",
                    ).number(self.datasets.len() as u64).text(")"),
                ),
            );
        }
        let ghost before = *self;
        put_attribute(&mut self.datasets[ds_index].attributes, attr);
        self.datasets[ds_index].header_changed = true;
        proof {
            lemma_same_catalog(before, *self);
        }
        Ok(())
    }

    /// Add an attribute to a group. An attribute of the same name is replaced.
    pub fn add_group_attribute(&mut self, group_path: &str, attr: AttributeMessage) -> (r: IoResult<
        (),
    >)
        requires
            old(self).wf(),
        ensures
            final(self).wf(),
            match old(self).group_index(group_path@) {
                Some(g) => {
                    &&& r is Ok
                    &&& group_attribute_set(*old(self), *final(self), g, attr)
                },
                None => {
                    &&& r matches Err(e) && e@ == IoErrorView::NotFound(
                        "group '"@ + group_path@ + "' not found"@,
                    )
                    &&& *final(self) == *old(self)
                },
            },
    {
        let g: usize = match self.find_group(group_path) {
            Some(g) => g,
            None => {
                return Err(
                    not_found(Text::new("group '").text(group_path).text("' not found")),
                );
            },
        };
        proof {
            lemma_position_is(self.groups@.len(), live_group(self.groups@, group_path@));
        }
        let ghost before = *self;
        put_attribute(&mut self.groups[g].attributes, attr);
        proof {
            assert forall|i: int| 0 <= i < self.groups@.len() implies #[trigger] group_placed(
                self.groups@[i],
                i,
                self.groups@.len(),
                self.datasets@.len(),
            ) by {
                assert(group_placed(
                    before.groups@[i],
                    i,
                    before.groups@.len(),
                    before.datasets@.len(),
                ));
            }
            assert forall|i: int| 0 <= i < self.hard_links@.len() implies #[trigger] link_placed(
                self.hard_links@[i],
                self.groups@.len(),
                self.datasets@.len(),
            ) by {
                assert(link_placed(
                    before.hard_links@[i],
                    before.groups@.len(),
                    before.datasets@.len(),
                ));
            }
        }
        Ok(())
    }

    /// Set the fill value of a dataset, one element wide. The space of a
    /// contiguous dataset is filled at once: the result tells with what, so the
    /// value has to be set before data are written.
    pub fn set_dataset_fill_value(&mut self, ds_index: usize, bytes: Vec<u8>) -> (r: IoResult<
        Option<BytesWrite>,
    >)
        requires
            old(self).wf(),
            ds_index < old(self).datasets@.len() ==> old(
                self,
            ).datasets@[ds_index as int].data_size <= usize::MAX,
        ensures
            final(self).wf(),
            final(self).allocator == old(self).allocator,
            match r {
                Ok(w) => {
                    let d = old(self).datasets@[ds_index as int];
                    &&& fill_error(*old(self), ds_index as int, bytes@.len()) is None
                    &&& same_others(*old(self), *final(self), ds_index as int)
                    &&& final(self).datasets@[ds_index as int] == (DatasetInfo {
                        fill_value: final(self).datasets@[ds_index as int].fill_value,
                        header_changed: true,
                        ..d
                    })
                    &&& final(self).datasets@[ds_index as int].fill_value is Some
                    &&& final(self).datasets@[ds_index as int].fill_value->0@ == bytes@
                    &&& if !is_chunked(d) && d.data_addr != UNDEF_ADDR && d.data_size > 0 {
                        w is Some && w->0.at == d.data_addr && w->0.bytes@ == tiled(
                            d.data_size as nat,
                            Some(bytes@),
                        )
                    } else {
                        w is None
                    }
                },
                Err(e) => {
                    &&& fill_error(*old(self), ds_index as int, bytes@.len()) == Some(e@)
                    &&& *final(self) == *old(self)
                },
            },
    {
        if ds_index >= self.datasets.len() {
            return Err(
                invalid_state(
                    Text::new("dataset index ").number(ds_index as u64).text(" out of range"),
                ),
            );
        }
        let es: u32 = self.datasets[ds_index].datatype.element_size();
        if bytes.len() as u64 != es as u64 {
            return Err(
                invalid_state(
                    Text::new("fill value is ").number(bytes.len() as u64).text(
                        " bytes but dataset element size is ",
                    ).number(es as u64),
                ),
            );
        }
        let ghost before = *self;
        let d = &self.datasets[ds_index];
        let write: Option<BytesWrite> = if !has_chunks(d) && d.data_addr != UNDEF_ADDR
            && d.data_size > 0 {
            Some(
                BytesWrite {
                    at: d.data_addr,
                    bytes: tiled_fill(d.data_size as usize, Some(bytes.as_slice())),
                },
            )
        } else {
            None
        };
        self.datasets[ds_index].fill_value = Some(bytes);
        self.datasets[ds_index].header_changed = true;
        proof {
            lemma_same_catalog(before, *self);
        }
        Ok(write)
    }

    /// A buffer for a chunk, filled with the fill value of the dataset, or with
    /// zeros without one.
    pub fn new_chunk_buffer(&self, ds_index: usize, chunk_bytes: usize) -> (v: Vec<u8>)
        requires
            ds_index < self.datasets@.len(),
        ensures
            v@ == tiled(chunk_bytes as nat, fill_of(self.datasets@[ds_index as int])),
    {
        match &self.datasets[ds_index].fill_value {
            Some(b) => tiled_fill(chunk_bytes, Some(b.as_slice())),
            None => tiled_fill(chunk_bytes, None),
        }
    }
}

/// The fill value of a dataset.
pub open spec fn fill_of(d: DatasetInfo) -> Option<Seq<u8>> {
    match d.fill_value {
        Some(b) => Some(b@),
        None => None,
    }
}

/// The fill value of a dataset.
pub fn fill_slice(d: &DatasetInfo) -> (r: Option<&[u8]>)
    ensures
        opt_bytes(r) == fill_of(*d),
{
    match &d.fill_value {
        Some(b) => Some(b.as_slice()),
        None => None,
    }
}

/// The error that there is no dataset of this number.
pub open spec fn no_dataset(i: nat, w: Hdf5Writer) -> IoErrorView {
    IoErrorView::InvalidState(
        "dataset index "@ + decimal(i) + " out of range (have "@ + decimal(w.datasets@.len())
            + ")"@,
    )
}

/// Whether only the attributes of a dataset have changed; its header has to be written
/// again.
pub open spec fn dataset_attribute_set(
    a: Hdf5Writer,
    b: Hdf5Writer,
    i: int,
    attr: AttributeMessage,
) -> bool {
    &&& same_others(a, b, i)
    &&& b.datasets@[i] == (DatasetInfo {
        attributes: b.datasets@[i].attributes,
        header_changed: true,
        ..a.datasets@[i]
    })
    &&& b.datasets@[i].attributes@ == with_attribute(a.datasets@[i].attributes@, attr)
}

/// Whether only the attributes of a group have changed.
pub open spec fn group_attribute_set(
    a: Hdf5Writer,
    b: Hdf5Writer,
    g: int,
    attr: AttributeMessage,
) -> bool {
    &&& b.allocator == a.allocator
    &&& b.ctx == a.ctx
    &&& b.datasets == a.datasets
    &&& b.hard_links == a.hard_links
    &&& b.root_attributes == a.root_attributes
    &&& b.closed == a.closed
    &&& b.root_group_addr == a.root_group_addr
    &&& b.root_group_encoded_size == a.root_group_encoded_size
    &&& b.groups@.len() == a.groups@.len()
    &&& forall|i: int|
        0 <= i < a.groups@.len() && i != g ==> #[trigger] b.groups@[i] == a.groups@[i]
    &&& b.groups@[g] == (GroupInfo { attributes: b.groups@[g].attributes, ..a.groups@[g] })
    &&& b.groups@[g].attributes@ == with_attribute(a.groups@[g].attributes@, attr)
}

} // verus!
