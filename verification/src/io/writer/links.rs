//! Hard links: additional names for objects.

use crate::io::names::{has_slash, is_root, trim_end, trim_start, trimmed, trimmed_start};
use crate::io::search::lemma_position_is;
use crate::io::writer::catalog::{
    emitted, link_path, live_dataset_at, live_group, live_group_at,
};
use crate::io::writer::state::{link_placed, HardLink, HardLinkTarget, Hdf5Writer};
use crate::io::{invalid_state, not_found, IoErrorView, IoResult};
use crate::text::Text;
use vstd::prelude::*;

verus! {

/// Whether two optional indexes are the same.
fn same_index(a: Option<usize>, b: Option<usize>) -> (r: bool)
    ensures
        r == (a == b),
{
    match (a, b) {
        (None, None) => true,
        (Some(x), Some(y)) => x == y,
        _ => false,
    }
}

impl Hdf5Writer {
    /// The group that holds a link: no group stands for the root group.
    pub open spec fn link_parent(self, path: Seq<char>) -> Option<int> {
        if path == seq!['/'] {
            None
        } else {
            self.group_index(path)
        }
    }

    /// The path of an object `name` in a group.
    pub open spec fn path_in(self, parent: Option<int>, name: Seq<char>) -> Seq<char> {
        match parent {
            None => name,
            Some(p) => trimmed_start(self.groups@[p].name@) + "/"@ + name,
        }
    }

    /// Whether a link of this name stands in the group.
    pub open spec fn has_link(self, parent: Option<int>, name: Seq<char>) -> bool {
        exists|i: int|
            0 <= i < self.hard_links@.len() && same_parent(
                (#[trigger] self.hard_links@[i]).parent,
                parent,
            ) && self.hard_links@[i].name@ == name
    }

    /// Whether a name is taken in a group.
    pub open spec fn taken(self, parent: Option<int>, name: Seq<char>) -> bool {
        let full = self.path_in(parent, name);
        self.dataset_at(full) is Some || self.group_at(full) is Some || self.has_link(parent, name)
    }

    /// The object with this path, datasets before groups.
    pub open spec fn target_at(self, path: Seq<char>) -> Option<HardLinkTarget> {
        match self.dataset_at(path) {
            Some(i) => Some(HardLinkTarget::Dataset(i as usize)),
            None => match self.group_at(path) {
                Some(i) => Some(HardLinkTarget::Group(i as usize)),
                None => None,
            },
        }
    }

    /// Why a hard link cannot be created.
    pub open spec fn link_error(
        self,
        parent: Seq<char>,
        name: Seq<char>,
        target: Seq<char>,
    ) -> Option<IoErrorView> {
        let at = self.link_parent(parent);
        if name.len() == 0 || name.contains('/') {
            Some(
                IoErrorView::InvalidState(
                    "hard link name '"@ + name + "' must be a non-empty leaf name"@,
                ),
            )
        } else if parent != seq!['/'] && at is None {
            Some(IoErrorView::NotFound("parent group '"@ + parent + "' not found"@))
        } else if trimmed(target).len() == 0 {
            Some(IoErrorView::InvalidState("cannot hard-link the root group"@))
        } else if self.target_at(trimmed(target)) is None {
            Some(IoErrorView::NotFound("hard link target '"@ + target + "' not found"@))
        } else if self.taken(at, name) {
            Some(
                IoErrorView::InvalidState(
                    "'"@ + self.path_in(at, name) + "' already exists in the file"@,
                ),
            )
        } else {
            None
        }
    }

    /// Whether a link of this name stands in the group.
    fn link_in(&self, parent: Option<usize>, name: &str) -> (r: bool)
        ensures
            r == self.has_link(
                match parent {
                    Some(p) => Some(p as int),
                    None => None,
                },
                name@,
            ),
    {
        let ghost at: Option<int> = match parent {
            Some(p) => Some(p as int),
            None => None,
        };
        let wanted: String = name.to_owned();
        let mut i: usize = 0;
        while i < self.hard_links.len()
            invariant
                i <= self.hard_links.len(),
                wanted@ == name@,
                at == (match parent {
                    Some(p) => Some(p as int),
                    None => None::<int>,
                }),
                forall|j: int|
                    0 <= j < i ==> !(same_parent((#[trigger] self.hard_links@[j]).parent, at)
                        && self.hard_links@[j].name@ == name@),
            decreases self.hard_links.len() - i,
        {
            let l = &self.hard_links[i];
            if same_index(l.parent, parent) && l.name == wanted {
                return true;
            }
            i = i + 1;
        }
        false
    }

    /// Create a hard link: an additional name for an object that already exists
    /// in the file. Nothing is copied.
    ///
    /// * `parent_group_path`: full path of the group that will hold the link
    ///   ("/" for the root group).
    /// * `link_name`: leaf name of the new link within that group.
    /// * `target_path`: full path of an existing dataset or group, with or
    ///   without a leading slash.
    pub fn create_hard_link(
        &mut self,
        parent_group_path: &str,
        link_name: &str,
        target_path: &str,
    ) -> (r: IoResult<()>)
        requires
            old(self).wf(),
        ensures
            final(self).wf(),
            final(self).allocator == old(self).allocator,
            final(self).ctx == old(self).ctx,
            final(self).datasets == old(self).datasets,
            final(self).groups == old(self).groups,
            final(self).root_attributes == old(self).root_attributes,
            final(self).closed == old(self).closed,
            final(self).root_group_addr == old(self).root_group_addr,
            final(self).root_group_encoded_size == old(self).root_group_encoded_size,
            match r {
                Ok(_) => {
                    let n = old(self).hard_links@.len() as int;
                    &&& old(self).link_error(parent_group_path@, link_name@, target_path@) is None
                    &&& final(self).hard_links@.len() == n + 1
                    &&& final(self).hard_links@.take(n) == old(self).hard_links@
                    &&& same_parent(
                        final(self).hard_links@[n].parent,
                        old(self).link_parent(parent_group_path@),
                    )
                    &&& final(self).hard_links@[n].name@ == link_name@
                    &&& old(self).target_at(trimmed(target_path@)) == Some(
                        final(self).hard_links@[n].target,
                    )
                },
                Err(e) => {
                    &&& old(self).link_error(parent_group_path@, link_name@, target_path@)
                        == Some(e@)
                    &&& *final(self) == *old(self)
                },
            },
    {
        if link_name.is_empty() || has_slash(link_name) {
            return Err(
                invalid_state(
                    Text::new("hard link name '").text(link_name).text(
                        "' must be a non-empty leaf name",
                    ),
                ),
            );
        }
        let mut parent: Option<usize> = None;
        if !is_root(parent_group_path) {
            parent = self.find_group(parent_group_path);
            proof {
                lemma_position_is(self.groups@.len(), live_group(self.groups@, parent_group_path@));
            }
            if parent.is_none() {
                return Err(
                    not_found(
                        Text::new("parent group '").text(parent_group_path).text("' not found"),
                    ),
                );
            }
        }
        let ghost at: Option<int> = match parent {
            Some(p) => Some(p as int),
            None => None,
        };
        assert(at == self.link_parent(parent_group_path@));
        let rel = trim_end(trim_start(target_path));
        if rel.is_empty() {
            return Err(invalid_state(Text::new("cannot hard-link the root group")));
        }
        proof {
            lemma_position_is(self.datasets@.len(), live_dataset_at(self.datasets@, rel@));
            lemma_position_is(self.groups@.len(), live_group_at(self.groups@, rel@));
        }
        let target: HardLinkTarget = match self.find_dataset_at(rel) {
            Some(i) => HardLinkTarget::Dataset(i),
            None => match self.find_group_at(rel) {
                Some(i) => HardLinkTarget::Group(i),
                None => {
                    return Err(
                        not_found(
                            Text::new("hard link target '").text(target_path).text("' not found"),
                        ),
                    );
                },
            },
        };
        let full: String = match parent {
            None => link_name.to_owned(),
            Some(p) => Text::new(trim_start(self.groups[p].name.as_str())).text("/").text(
                link_name,
            ).done(),
        };
        if self.find_dataset_at(full.as_str()).is_some() || self.find_group_at(
            full.as_str(),
        ).is_some() || self.link_in(parent, link_name) {
            return Err(
                invalid_state(
                    Text::new("'").text(full.as_str()).text("' already exists in the file"),
                ),
            );
        }
        let ghost before = *self;
        self.hard_links.push(HardLink { parent, name: link_name.to_owned(), target });
        proof {
            let n = before.hard_links@.len() as int;
            assert(self.hard_links@.take(n) =~= before.hard_links@);
            assert forall|i: int| 0 <= i < self.hard_links@.len() implies #[trigger] link_placed(
                self.hard_links@[i],
                self.groups@.len(),
                self.datasets@.len(),
            ) by {
                if i < n {
                    assert(link_placed(
                        before.hard_links@[i],
                        self.groups@.len(),
                        self.datasets@.len(),
                    ));
                }
            }
        }
        Ok(())
    }

    /// How many of the first `n` hard links lead to an object and will be in the
    /// file.
    pub open spec fn links_to(self, target: HardLinkTarget, n: nat) -> nat
        decreases n,
    {
        if n == 0 {
            0
        } else {
            let l = self.hard_links@[n - 1];
            self.links_to(target, (n - 1) as nat) + if emitted(l, self.datasets@, self.groups@)
                && l.target == target {
                1nat
            } else {
                0
            }
        }
    }

    /// Total number of links that lead to an object: its own link and every hard
    /// link to it that will be in the file.
    pub open spec fn link_count(self, target: HardLinkTarget) -> nat {
        1 + self.links_to(target, self.hard_links@.len())
    }

    /// Total number of links that lead to an object.
    pub fn object_link_count(&self, target: HardLinkTarget) -> (n: u32)
        requires
            self.wf(),
            self.link_count(target) <= u32::MAX,
        ensures
            n == self.link_count(target),
    {
        let mut n: u32 = 1;
        let mut i: usize = 0;
        while i < self.hard_links.len()
            invariant
                self.wf(),
                i <= self.hard_links.len(),
                n == 1 + self.links_to(target, i as nat),
                self.link_count(target) <= u32::MAX,
            decreases self.hard_links.len() - i,
        {
            let l = &self.hard_links[i];
            assert(link_placed(
                self.hard_links@[i as int],
                self.groups@.len(),
                self.datasets@.len(),
            ));
            proof {
                lemma_links_grow(*self, target, (i + 1) as nat);
            }
            if self.hard_link_emitted(l) && l.target == target {
                n = n + 1;
            }
            i = i + 1;
        }
        n
    }
}

/// Whether a parent index is `p`.
pub open spec fn same_parent(a: Option<usize>, p: Option<int>) -> bool {
    match a {
        Some(x) => p == Some(x as int),
        None => p is None,
    }
}

proof fn lemma_links_grow(w: Hdf5Writer, target: HardLinkTarget, n: nat)
    requires
        n <= w.hard_links@.len(),
    ensures
        w.links_to(target, n) <= w.links_to(target, w.hard_links@.len()),
    decreases w.hard_links@.len() - n,
{
    if n < w.hard_links@.len() {
        lemma_links_grow(w, target, n + 1);
    }
}

/// The first links count the same when a link is added behind them.
proof fn lemma_links_prefix(a: Hdf5Writer, b: Hdf5Writer, target: HardLinkTarget, n: nat)
    requires
        n <= a.hard_links@.len() <= b.hard_links@.len(),
        a.datasets == b.datasets,
        a.groups == b.groups,
        b.hard_links@.take(a.hard_links@.len() as int) == a.hard_links@,
    ensures
        a.links_to(target, n) == b.links_to(target, n),
    decreases n,
{
    if n > 0 {
        lemma_links_prefix(a, b, target, (n - 1) as nat);
        assert(b.hard_links@.take(a.hard_links@.len() as int)[n - 1] == b.hard_links@[n - 1]);
    }
}

/// A new hard link will be in the file, takes its path, and counts as one more
/// link to its target; it is no link to any other object.
pub proof fn lemma_new_link(
    a: Hdf5Writer,
    b: Hdf5Writer,
    parent: Seq<char>,
    name: Seq<char>,
    target: Seq<char>,
)
    requires
        a.wf(),
        a.link_error(parent, name, target) is None,
        a.datasets == b.datasets,
        a.groups == b.groups,
        b.hard_links@.len() == a.hard_links@.len() + 1,
        b.hard_links@.take(a.hard_links@.len() as int) == a.hard_links@,
        same_parent(b.hard_links@.last().parent, a.link_parent(parent)),
        b.hard_links@.last().name@ == name,
        a.target_at(trimmed(target)) == Some(b.hard_links@.last().target),
    ensures
        b.link_taken(a.path_in(a.link_parent(parent), name)),
        b.link_count(b.hard_links@.last().target) == a.link_count(b.hard_links@.last().target) + 1,
        forall|t: HardLinkTarget|
            t != b.hard_links@.last().target ==> #[trigger] b.link_count(t) == a.link_count(t),
{
    let n = a.hard_links@.len();
    let l = b.hard_links@[n as int];
    lemma_position_is(a.groups@.len(), live_group(a.groups@, parent));
    lemma_position_is(a.datasets@.len(), live_dataset_at(a.datasets@, trimmed(target)));
    lemma_position_is(a.groups@.len(), live_group_at(a.groups@, trimmed(target)));
    match a.dataset_at(trimmed(target)) {
        Some(i) => {
            assert(live_dataset_at(a.datasets@, trimmed(target))(i));
            assert(a.datasets.len() == a.datasets@.len());
        },
        None => {
            let i = a.group_at(trimmed(target))->0;
            assert(live_group_at(a.groups@, trimmed(target))(i));
            assert(a.groups.len() == a.groups@.len());
        },
    }
    if parent != seq!['/'] {
        let p = a.group_index(parent)->0;
        assert(live_group(a.groups@, parent)(p));
    }
    assert(emitted(l, b.datasets@, b.groups@));
    assert(link_path(l, b.groups@) == a.path_in(a.link_parent(parent), name));
    assert forall|t: HardLinkTarget| #[trigger] b.link_count(t) == a.link_count(t) + if t
        == l.target {
        1nat
    } else {
        0
    } by {
        lemma_links_prefix(a, b, t, n);
    }
}

} // verus!
