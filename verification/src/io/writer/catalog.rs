//! The catalog of a file being written: names, groups and hard links.

use crate::io::names::{same_text, trim_start, trimmed_start};
use crate::io::search::{is_at, lemma_no_position, lemma_position, position, without};
use crate::io::writer::state::{
    link_placed, DatasetInfo, GroupInfo, HardLink, HardLinkTarget, Hdf5Writer,
};
use crate::io::{invalid_state, IoErrorView, IoResult};
use crate::text::Text;
use vstd::prelude::*;

verus! {

/// Whether dataset `i` is live and has this name.
pub open spec fn live_dataset(ds: Seq<DatasetInfo>, name: Seq<char>) -> spec_fn(int) -> bool {
    |i: int| ds[i].name@ == name && !ds[i].deleted
}

/// Whether dataset `i` is live and has this path.
pub open spec fn live_dataset_at(ds: Seq<DatasetInfo>, path: Seq<char>) -> spec_fn(int) -> bool {
    |i: int| !ds[i].deleted && trimmed_start(ds[i].name@) == path
}

/// Whether group `i` is live and has this name.
pub open spec fn live_group(gs: Seq<GroupInfo>, name: Seq<char>) -> spec_fn(int) -> bool {
    |i: int| gs[i].name@ == name && !gs[i].deleted
}

/// Whether group `i` is live and has this path.
pub open spec fn live_group_at(gs: Seq<GroupInfo>, path: Seq<char>) -> spec_fn(int) -> bool {
    |i: int| !gs[i].deleted && trimmed_start(gs[i].name@) == path
}

impl Hdf5Writer {
    /// The live dataset of this name.
    pub open spec fn spec_dataset_index(self, name: Seq<char>) -> Option<int> {
        position(self.datasets@.len(), live_dataset(self.datasets@, name))
    }

    /// The live dataset with this path.
    pub open spec fn dataset_at(self, path: Seq<char>) -> Option<int> {
        position(self.datasets@.len(), live_dataset_at(self.datasets@, path))
    }

    /// The live group of this name.
    pub open spec fn group_index(self, name: Seq<char>) -> Option<int> {
        position(self.groups@.len(), live_group(self.groups@, name))
    }

    /// The live group with this path.
    pub open spec fn group_at(self, path: Seq<char>) -> Option<int> {
        position(self.groups@.len(), live_group_at(self.groups@, path))
    }

    /// Find a dataset index by name.
    pub fn dataset_index(&self, name: &str) -> (r: Option<usize>)
        ensures
            is_at(r, self.spec_dataset_index(name@)),
    {
        let ghost f = live_dataset(self.datasets@, name@);
        let wanted: String = name.to_owned();
        let mut i: usize = 0;
        while i < self.datasets.len()
            invariant
                i <= self.datasets.len(),
                wanted@ == name@,
                f == live_dataset(self.datasets@, name@),
                forall|j: int| 0 <= j < i ==> !#[trigger] f(j),
            decreases self.datasets.len() - i,
        {
            let hit: bool = self.datasets[i].name == wanted && !self.datasets[i].deleted;
            assert(hit == f(i as int));
            if hit {
                proof {
                    lemma_position(self.datasets@.len(), f, i as int);
                }
                return Some(i);
            }
            i = i + 1;
        }
        proof {
            lemma_no_position(self.datasets@.len(), f);
        }
        None
    }

    /// The live dataset with this path.
    pub fn find_dataset_at(&self, path: &str) -> (r: Option<usize>)
        ensures
            is_at(r, self.dataset_at(path@)),
    {
        let ghost f = live_dataset_at(self.datasets@, path@);
        let mut i: usize = 0;
        while i < self.datasets.len()
            invariant
                i <= self.datasets.len(),
                f == live_dataset_at(self.datasets@, path@),
                forall|j: int| 0 <= j < i ==> !#[trigger] f(j),
            decreases self.datasets.len() - i,
        {
            let hit: bool = !self.datasets[i].deleted && same_text(
                trim_start(self.datasets[i].name.as_str()),
                path,
            );
            assert(hit == f(i as int));
            if hit {
                proof {
                    lemma_position(self.datasets@.len(), f, i as int);
                }
                return Some(i);
            }
            i = i + 1;
        }
        proof {
            lemma_no_position(self.datasets@.len(), f);
        }
        None
    }

    /// The live group of this name.
    pub fn find_group(&self, name: &str) -> (r: Option<usize>)
        ensures
            is_at(r, self.group_index(name@)),
    {
        let ghost f = live_group(self.groups@, name@);
        let wanted: String = name.to_owned();
        let mut i: usize = 0;
        while i < self.groups.len()
            invariant
                i <= self.groups.len(),
                wanted@ == name@,
                f == live_group(self.groups@, name@),
                forall|j: int| 0 <= j < i ==> !#[trigger] f(j),
            decreases self.groups.len() - i,
        {
            let hit: bool = self.groups[i].name == wanted && !self.groups[i].deleted;
            assert(hit == f(i as int));
            if hit {
                proof {
                    lemma_position(self.groups@.len(), f, i as int);
                }
                return Some(i);
            }
            i = i + 1;
        }
        proof {
            lemma_no_position(self.groups@.len(), f);
        }
        None
    }

    /// The live group with this path.
    pub fn find_group_at(&self, path: &str) -> (r: Option<usize>)
        ensures
            is_at(r, self.group_at(path@)),
    {
        let ghost f = live_group_at(self.groups@, path@);
        let mut i: usize = 0;
        while i < self.groups.len()
            invariant
                i <= self.groups.len(),
                f == live_group_at(self.groups@, path@),
                forall|j: int| 0 <= j < i ==> !#[trigger] f(j),
            decreases self.groups.len() - i,
        {
            let hit: bool = !self.groups[i].deleted && same_text(
                trim_start(self.groups[i].name.as_str()),
                path,
            );
            assert(hit == f(i as int));
            if hit {
                proof {
                    lemma_position(self.groups@.len(), f, i as int);
                }
                return Some(i);
            }
            i = i + 1;
        }
        proof {
            lemma_no_position(self.groups@.len(), f);
        }
        None
    }
}

/// Whether a hard link will be in the finished file: neither its parent group nor
/// its target has been deleted.
pub open spec fn emitted(l: HardLink, ds: Seq<DatasetInfo>, gs: Seq<GroupInfo>) -> bool {
    &&& (l.parent matches Some(p) ==> !gs[p as int].deleted)
    &&& match l.target {
        HardLinkTarget::Dataset(i) => !ds[i as int].deleted,
        HardLinkTarget::Group(i) => !gs[i as int].deleted,
    }
}

/// The path of a hard link, without a slash at its start.
pub open spec fn link_path(l: HardLink, gs: Seq<GroupInfo>) -> Seq<char> {
    match l.parent {
        None => l.name@,
        Some(p) => trimmed_start(gs[p as int].name@) + "/"@ + l.name@,
    }
}

impl Hdf5Writer {
    /// Whether a hard link that will be in the file has this path.
    pub open spec fn link_taken(self, path: Seq<char>) -> bool {
        exists|i: int|
            0 <= i < self.hard_links@.len() && emitted(
                #[trigger] self.hard_links@[i],
                self.datasets@,
                self.groups@,
            ) && link_path(self.hard_links@[i], self.groups@) == path
    }

    /// Why a dataset of this name cannot be created.
    pub open spec fn name_error(self, name: Seq<char>) -> Option<IoErrorView> {
        if self.spec_dataset_index(name) is Some {
            Some(
                IoErrorView::InvalidState(
                    "a dataset named '"@ + name + "' already exists"@,
                ),
            )
        } else if self.link_taken(name) {
            Some(
                IoErrorView::InvalidState(
                    "a hard link named '"@ + name + "' already exists"@,
                ),
            )
        } else {
            None
        }
    }

    /// Whether a hard link will be in the finished file.
    pub fn hard_link_emitted(&self, link: &HardLink) -> (r: bool)
        requires
            link_placed(*link, self.groups@.len(), self.datasets@.len()),
        ensures
            r == emitted(*link, self.datasets@, self.groups@),
    {
        let parent_ok: bool = match link.parent {
            None => true,
            Some(p) => !self.groups[p].deleted,
        };
        let target_ok: bool = match link.target {
            HardLinkTarget::Dataset(i) => !self.datasets[i].deleted,
            HardLinkTarget::Group(i) => !self.groups[i].deleted,
        };
        parent_ok && target_ok
    }

    /// The path of a hard link, without a slash at its start.
    pub fn hard_link_full_path(&self, link: &HardLink) -> (s: String)
        requires
            link_placed(*link, self.groups@.len(), self.datasets@.len()),
        ensures
            s@ == link_path(*link, self.groups@),
    {
        match link.parent {
            None => link.name.clone(),
            Some(p) => Text::new(trim_start(self.groups[p].name.as_str())).text("/").text(
                link.name.as_str(),
            ).done(),
        }
    }

    /// Whether a hard link that will be in the file has this path.
    pub fn link_at(&self, path: &str) -> (r: bool)
        requires
            self.wf(),
        ensures
            r == self.link_taken(path@),
    {
        let mut i: usize = 0;
        while i < self.hard_links.len()
            invariant
                self.wf(),
                i <= self.hard_links.len(),
                forall|j: int|
                    0 <= j < i ==> !(emitted(
                        #[trigger] self.hard_links@[j],
                        self.datasets@,
                        self.groups@,
                    ) && link_path(self.hard_links@[j], self.groups@) == path@),
            decreases self.hard_links.len() - i,
        {
            let l = &self.hard_links[i];
            assert(link_placed(
                self.hard_links@[i as int],
                self.groups@.len(),
                self.datasets@.len(),
            ));
            if self.hard_link_emitted(l) && same_text(self.hard_link_full_path(l).as_str(), path) {
                return true;
            }
            i = i + 1;
        }
        false
    }

    /// Reject a dataset name that a live dataset or a hard link already has.
    pub fn ensure_unique_dataset_name(&self, name: &str) -> (r: IoResult<()>)
        requires
            self.wf(),
        ensures
            match r {
                Ok(_) => self.name_error(name@) is None,
                Err(e) => self.name_error(name@) == Some(e@),
            },
    {
        if self.dataset_index(name).is_some() {
            return Err(
                invalid_state(
                    Text::new("a dataset named '").text(name).text("' already exists"),
                ),
            );
        }
        if self.link_at(name) {
            return Err(
                invalid_state(
                    Text::new("a hard link named '").text(name).text("' already exists"),
                ),
            );
        }
        Ok(())
    }

    /// The names of the first `n` datasets that are live.
    pub open spec fn live_names(self, n: nat) -> Seq<Seq<char>>
        decreases n,
    {
        if n == 0 {
            Seq::empty()
        } else if self.datasets@[n - 1].deleted {
            self.live_names((n - 1) as nat)
        } else {
            self.live_names((n - 1) as nat).push(self.datasets@[n - 1].name@)
        }
    }

    /// Return the names of all live datasets.
    pub fn dataset_names(&self) -> (names: Vec<String>)
        ensures
            texts(names@) == self.live_names(self.datasets@.len()),
    {
        let mut names: Vec<String> = Vec::new();
        let mut i: usize = 0;
        assert(texts(names@) =~= Seq::<Seq<char>>::empty());
        while i < self.datasets.len()
            invariant
                i <= self.datasets.len(),
                texts(names@) == self.live_names(i as nat),
            decreases self.datasets.len() - i,
        {
            if !self.datasets[i].deleted {
                let ghost before = names@;
                names.push(self.datasets[i].name.clone());
                assert(texts(names@) =~= texts(before).push(self.datasets@[i as int].name@));
            }
            i = i + 1;
        }
        names
    }

    /// The paths of the first `n` groups that are live, without the leading `/`.
    pub open spec fn live_groups(self, n: nat) -> Seq<Seq<char>>
        decreases n,
    {
        if n == 0 {
            Seq::empty()
        } else if self.groups@[n - 1].deleted {
            self.live_groups((n - 1) as nat)
        } else {
            self.live_groups((n - 1) as nat).push(trimmed_start(self.groups@[n - 1].name@))
        }
    }

    /// Return the paths of all live groups, without the leading `/`.
    pub fn live_group_paths(&self) -> (names: Vec<String>)
        ensures
            texts(names@) == self.live_groups(self.groups@.len()),
    {
        let mut names: Vec<String> = Vec::new();
        let mut i: usize = 0;
        assert(texts(names@) =~= Seq::<Seq<char>>::empty());
        while i < self.groups.len()
            invariant
                i <= self.groups.len(),
                texts(names@) == self.live_groups(i as nat),
            decreases self.groups.len() - i,
        {
            if !self.groups[i].deleted {
                let ghost before = names@;
                let path = trim_start(self.groups[i].name.as_str()).to_owned();
                let ghost said = path@;
                names.push(path);
                assert(texts(names@) =~= texts(before).push(said));
            }
            i = i + 1;
        }
        names
    }

    /// Return the names of all groups, deleted ones included.
    pub fn group_names(&self) -> (names: Vec<String>)
        ensures
            names@.len() == self.groups@.len(),
            forall|i: int|
                0 <= i < names@.len() ==> #[trigger] names@[i]@ == self.groups@[i].name@,
    {
        let mut names: Vec<String> = Vec::new();
        let mut i: usize = 0;
        while i < self.groups.len()
            invariant
                i <= self.groups.len(),
                names@.len() == i,
                forall|j: int|
                    0 <= j < i ==> #[trigger] names@[j]@ == self.groups@[j].name@,
            decreases self.groups.len() - i,
        {
            names.push(self.groups[i].name.clone());
            i = i + 1;
        }
        names
    }
}

/// What texts say.
pub open spec fn texts(v: Seq<String>) -> Seq<Seq<char>> {
    Seq::new(v.len(), |i: int| v[i]@)
}

} // verus!
