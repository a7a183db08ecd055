//! Changes of the catalog: groups, hard links and deletions.

use crate::io::names::{child_path, is_root, join, trim_start, trimmed_start};
use crate::io::search::{lemma_position_is, lemma_without, remove_all, without};
use crate::io::writer::catalog::{live_dataset, live_group};
use crate::io::writer::state::{group_placed, link_placed, DatasetInfo, GroupInfo, Hdf5Writer};
use crate::io::{invalid_state, not_found, IoErrorView, IoResult};
use crate::text::Text;
use vstd::prelude::*;
use vstd::string::StrSliceExecFns;

verus! {

/// Whether two groups differ at most in their child datasets.
pub open spec fn group_but_datasets(a: GroupInfo, b: GroupInfo) -> bool {
    &&& a.name == b.name
    &&& a.parent == b.parent
    &&& a.child_groups == b.child_groups
    &&& a.obj_header_addr == b.obj_header_addr
    &&& a.deleted == b.deleted
    &&& a.attributes == b.attributes
}

/// Whether everything of a writer but the catalog of datasets and groups is the
/// same.
pub open spec fn same_rest(a: Hdf5Writer, b: Hdf5Writer) -> bool {
    &&& a.allocator == b.allocator
    &&& a.ctx == b.ctx
    &&& a.hard_links == b.hard_links
    &&& a.root_attributes == b.root_attributes
    &&& a.closed == b.closed
    &&& a.root_group_addr == b.root_group_addr
    &&& a.root_group_encoded_size == b.root_group_encoded_size
}

impl Hdf5Writer {
    /// Soft-delete a dataset by name. The dataset is left out of the finished
    /// file; its space is not reclaimed.
    pub fn delete_dataset(&mut self, name: &str) -> (r: IoResult<()>)
        requires
            old(self).wf(),
        ensures
            final(self).wf(),
            same_rest(*final(self), *old(self)),
            match old(self).spec_dataset_index(name@) {
                Some(i) => {
                    &&& r is Ok
                    &&& final(self).datasets@ == old(self).datasets@.update(
                        i,
                        DatasetInfo { deleted: true, ..old(self).datasets@[i] },
                    )
                    &&& final(self).groups@.len() == old(self).groups@.len()
                    &&& forall|g: int|
                        0 <= g < old(self).groups@.len() ==> group_but_datasets(
                            #[trigger] final(self).groups@[g],
                            old(self).groups@[g],
                        ) && final(self).groups@[g].child_datasets@ == without(
                            old(self).groups@[g].child_datasets@,
                            i as usize,
                        )
                },
                None => {
                    &&& r matches Err(e) && e@ == IoErrorView::NotFound(name@)
                    &&& *final(self) == *old(self)
                },
            },
    {
        let idx: usize = match self.dataset_index(name) {
            Some(i) => i,
            None => {
                return Err(not_found(Text::new(name)));
            },
        };
        proof {
            lemma_position_is(self.datasets@.len(), live_dataset(self.datasets@, name@));
        }
        self.datasets[idx].deleted = true;
        let mut g: usize = 0;
        while g < self.groups.len()
            invariant
                g <= self.groups.len(),
                idx < self.datasets@.len(),
                self.groups@.len() == old(self).groups@.len(),
                self.datasets@ == old(self).datasets@.update(
                    idx as int,
                    DatasetInfo { deleted: true, ..old(self).datasets@[idx as int] },
                ),
                same_rest(*self, *old(self)),
                old(self).wf(),
                forall|k: int| g <= k < self.groups@.len() ==> self.groups@[k]
                    == old(self).groups@[k],
                forall|k: int|
                    0 <= k < g ==> group_but_datasets(
                        #[trigger] self.groups@[k],
                        old(self).groups@[k],
                    ) && self.groups@[k].child_datasets@ == without(
                        old(self).groups@[k].child_datasets@,
                        idx,
                    ),
            decreases self.groups.len() - g,
        {
            let kept = remove_all(&self.groups[g].child_datasets, idx);
            self.groups[g].child_datasets = kept;
            g = g + 1;
        }
        proof {
            assert forall|i: int| 0 <= i < self.groups@.len() implies #[trigger] group_placed(
                self.groups@[i],
                i,
                self.groups@.len(),
                self.datasets@.len(),
            ) by {
                let was = old(self).groups@[i];
                assert(group_placed(was, i, self.groups@.len(), self.datasets@.len()));
                lemma_without(was.child_datasets@, idx);
                assert forall|k: int| 0 <= k < self.groups@[i].child_datasets@.len() implies
                    #[trigger] self.groups@[i].child_datasets@[k] < self.datasets@.len() by {
                    let x = self.groups@[i].child_datasets@[k];
                    assert(without(was.child_datasets@, idx).contains(x));
                    assert(was.child_datasets@.contains(x));
                }
            }
        }
        Ok(())
    }
}

/// Whether group `x` is group `g` or lies below it.
pub open spec fn within(gs: Seq<GroupInfo>, g: int, x: int) -> bool
    decreases gs.len() - g,
{
    x == g || exists|k: int|
        0 <= k < gs[g].child_groups@.len() && g < #[trigger] gs[g].child_groups@[k] < gs.len()
            && within(gs, gs[g].child_groups@[k] as int, x)
}

/// Whether dataset `d` is a child of group `g` or of a group below it.
pub open spec fn dataset_within(gs: Seq<GroupInfo>, g: int, d: int) -> bool {
    exists|x: int|
        0 <= x < gs.len() && #[trigger] within(gs, g, x) && gs[x].child_datasets@.contains(
            d as usize,
        )
}

/// Whether two lists of groups have the same children.
pub open spec fn same_tree(a: Seq<GroupInfo>, b: Seq<GroupInfo>) -> bool {
    &&& a.len() == b.len()
    &&& forall|i: int|
        0 <= i < a.len() ==> #[trigger] a[i].child_groups == b[i].child_groups
            && a[i].child_datasets == b[i].child_datasets
}

proof fn lemma_within_same(a: Seq<GroupInfo>, b: Seq<GroupInfo>, g: int, x: int)
    requires
        same_tree(a, b),
        0 <= g < a.len(),
    ensures
        within(a, g, x) == within(b, g, x),
    decreases a.len() - g,
{
    assert(a[g].child_groups == b[g].child_groups);
    let c = a[g].child_groups@;
    assert forall|k: int| 0 <= k < c.len() && g < #[trigger] c[k] < a.len() implies within(
        a,
        c[k] as int,
        x,
    ) == within(b, c[k] as int, x) by {
        lemma_within_same(a, b, c[k] as int, x);
    }
    if within(a, g, x) && x != g {
        let k = choose|k: int|
            0 <= k < c.len() && g < #[trigger] c[k] < a.len() && within(a, c[k] as int, x);
        assert(within(b, b[g].child_groups@[k] as int, x));
    }
    if within(b, g, x) && x != g {
        let k = choose|k: int|
            0 <= k < c.len() && g < #[trigger] c[k] < a.len() && within(b, c[k] as int, x);
        assert(within(a, a[g].child_groups@[k] as int, x));
    }
}

/// Whether group `x` is `g` or lies below one of its first `n` children.
spec fn below_first(gs: Seq<GroupInfo>, g: int, n: int, x: int) -> bool {
    x == g || exists|k: int|
        0 <= k < n && #[trigger] within(gs, gs[g].child_groups@[k] as int, x)
}

spec fn dataset_below_first(gs: Seq<GroupInfo>, g: int, n: int, d: int) -> bool {
    exists|x: int|
        0 <= x < gs.len() && #[trigger] below_first(gs, g, n, x)
            && gs[x].child_datasets@.contains(d as usize)
}

proof fn lemma_below_all(gs: Seq<GroupInfo>, g: int, x: int)
    requires
        0 <= g < gs.len(),
        forall|k: int|
            0 <= k < gs[g].child_groups@.len() ==> g < #[trigger] gs[g].child_groups@[k]
                < gs.len(),
    ensures
        below_first(gs, g, gs[g].child_groups@.len() as int, x) == within(gs, g, x),
{
    let n = gs[g].child_groups@.len() as int;
    if below_first(gs, g, n, x) && x != g {
        let k = choose|k: int|
            0 <= k < n && #[trigger] within(gs, gs[g].child_groups@[k] as int, x);
        assert(g < gs[g].child_groups@[k] < gs.len());
    }
    if within(gs, g, x) && x != g {
        let k = choose|k: int|
            0 <= k < n && g < #[trigger] gs[g].child_groups@[k] < gs.len() && within(
                gs,
                gs[g].child_groups@[k] as int,
                x,
            );
        assert(within(gs, gs[g].child_groups@[k] as int, x));
    }
}

/// The groups after group `g` and all below it are deleted.
pub open spec fn groups_deleted(gs: Seq<GroupInfo>, g: int) -> Seq<GroupInfo> {
    Seq::new(
        gs.len(),
        |x: int| GroupInfo { deleted: gs[x].deleted || within(gs, g, x), ..gs[x] },
    )
}

/// The datasets after group `g` and all below it are deleted.
pub open spec fn datasets_deleted(
    ds: Seq<DatasetInfo>,
    gs: Seq<GroupInfo>,
    g: int,
) -> Seq<DatasetInfo> {
    Seq::new(
        ds.len(),
        |d: int| DatasetInfo { deleted: ds[d].deleted || dataset_within(gs, g, d), ..ds[d] },
    )
}

impl Hdf5Writer {
    /// Soft-delete a group with its datasets and all groups below it.
    pub fn delete_group_recursive(&mut self, gidx: usize)
        requires
            old(self).wf(),
            gidx < old(self).groups@.len(),
        ensures
            final(self).wf(),
            same_rest(*final(self), *old(self)),
            final(self).groups@ == groups_deleted(old(self).groups@, gidx as int),
            final(self).datasets@ == datasets_deleted(
                old(self).datasets@,
                old(self).groups@,
                gidx as int,
            ),
        decreases old(self).groups@.len() - gidx,
    {
        let ghost gs = self.groups@;
        let ghost ds = self.datasets@;
        let ghost g = gidx as int;
        assert(group_placed(gs[g], g, gs.len(), ds.len()));
        self.groups[gidx].deleted = true;
        let ndatasets: usize = self.groups[gidx].child_datasets.len();
        let mut k: usize = 0;
        while k < ndatasets
            invariant
                ndatasets == gs[g].child_datasets@.len(),
                gs.len() == self.groups@.len(),
                gidx < self.groups@.len(),
                g == gidx,
                old(self).wf(),
                gs == old(self).groups@,
                ds == old(self).datasets@,
                group_placed(gs[g], g, gs.len(), ds.len()),
                same_rest(*self, *old(self)),
                self.groups@ == gs.update(g, GroupInfo { deleted: true, ..gs[g] }),
                k <= gs[g].child_datasets@.len(),
                self.datasets.len() == ds.len(),
                forall|d: int|
                    0 <= d < ds.len() ==> #[trigger] self.datasets@[d] == (DatasetInfo {
                        deleted: ds[d].deleted || gs[g].child_datasets@.take(k as int).contains(
                            d as usize,
                        ),
                        ..ds[d]
                    }),
            decreases gs[g].child_datasets@.len() - k,
        {
            let di: usize = self.groups[gidx].child_datasets[k];
            assert(gs[g].child_datasets@[k as int] < ds.len());
            let ghost before = self.datasets@;
            self.datasets[di].deleted = true;
            proof {
                let c = gs[g].child_datasets@;
                let c1 = c.take(k + 1);
                assert(c1 =~= c.take(k as int).push(di));
                assert forall|d: int| 0 <= d < ds.len() implies #[trigger] self.datasets@[d] == (
                DatasetInfo {
                    deleted: ds[d].deleted || c1.contains(d as usize),
                    ..ds[d]
                }) by {
                    assert(before[d] == (DatasetInfo {
                        deleted: ds[d].deleted || c.take(k as int).contains(d as usize),
                        ..ds[d]
                    }));
                    if c1.contains(d as usize) {
                        let j = choose|j: int| 0 <= j < c1.len() && c1[j] == d as usize;
                        if j < k {
                            assert(c.take(k as int)[j] == d as usize);
                        }
                    }
                    if c.take(k as int).contains(d as usize) {
                        let j = choose|j: int|
                            0 <= j < c.take(k as int).len() && c.take(k as int)[j] == d as usize;
                        assert(c1[j] == d as usize);
                    }
                    if d == di {
                        assert(c1[k as int] == d as usize);
                    }
                }
            }
            k = k + 1;
        }
        let ghost all = gs[g].child_datasets@;
        proof {
            assert(all.take(all.len() as int) =~= all);
            assert forall|d: int| 0 <= d < ds.len() implies dataset_below_first(gs, g, 0, d)
                == all.contains(d as usize) by {
                if all.contains(d as usize) {
                    assert(below_first(gs, g, 0, g));
                }
            }
            assert(same_tree(self.groups@, gs));
            assert forall|x: int| 0 <= x < gs.len() implies below_first(gs, g, 0, x) == (x
                == g) by {}
        }
        let ngroups: usize = self.groups[gidx].child_groups.len();
        let mut j: usize = 0;
        while j < ngroups
            invariant
                ngroups == gs[g].child_groups@.len(),
                gidx < self.groups@.len(),
                g == gidx,
                old(self).wf(),
                gs == old(self).groups@,
                ds == old(self).datasets@,
                group_placed(gs[g], g, gs.len(), ds.len()),
                same_rest(*self, *old(self)),
                same_tree(self.groups@, gs),
                j <= gs[g].child_groups@.len(),
                self.datasets.len() == ds.len(),
                forall|x: int|
                    0 <= x < gs.len() ==> #[trigger] self.groups@[x] == (GroupInfo {
                        deleted: gs[x].deleted || below_first(gs, g, j as int, x),
                        ..gs[x]
                    }),
                forall|d: int|
                    0 <= d < ds.len() ==> #[trigger] self.datasets@[d] == (DatasetInfo {
                        deleted: ds[d].deleted || dataset_below_first(gs, g, j as int, d),
                        ..ds[d]
                    }),
            decreases gs[g].child_groups@.len() - j,
        {
            assert(self.groups@[g].child_groups == gs[g].child_groups);
            let gi: usize = self.groups[gidx].child_groups[j];
            let ghost mid = *self;
            assert(gs[g].child_groups@[j as int] == gi);
            proof {
                lemma_same_wf(*self, *old(self));
            }
            self.delete_group_recursive(gi);
            proof {
                assert forall|x: int| 0 <= x < gs.len() implies below_first(gs, g, j + 1, x) == (
                below_first(gs, g, j as int, x) || within(mid.groups@, gi as int, x)) by {
                    lemma_within_same(mid.groups@, gs, gi as int, x);
                    lemma_below_step(gs, g, j as int, x);
                }
                assert forall|x: int| 0 <= x < gs.len() implies #[trigger] self.groups@[x] == (
                GroupInfo { deleted: gs[x].deleted || below_first(gs, g, j + 1, x), ..gs[x] }) by {
                    assert(mid.groups@[x] == (GroupInfo {
                        deleted: gs[x].deleted || below_first(gs, g, j as int, x),
                        ..gs[x]
                    }));
                }
                assert forall|d: int| 0 <= d < ds.len() implies #[trigger] self.datasets@[d] == (
                DatasetInfo {
                    deleted: ds[d].deleted || dataset_below_first(gs, g, j + 1, d),
                    ..ds[d]
                }) by {
                    assert(mid.datasets@[d] == (DatasetInfo {
                        deleted: ds[d].deleted || dataset_below_first(gs, g, j as int, d),
                        ..ds[d]
                    }));
                    lemma_dataset_step(gs, mid.groups@, g, j as int, d);
                }
            }
            j = j + 1;
        }
        proof {
            let n = gs[g].child_groups@.len() as int;
            assert forall|x: int| 0 <= x < gs.len() implies below_first(gs, g, n, x) == within(
                gs,
                g,
                x,
            ) by {
                lemma_below_all(gs, g, x);
            }
            assert forall|d: int| 0 <= d < ds.len() implies dataset_below_first(gs, g, n, d)
                == dataset_within(gs, g, d) by {
                if dataset_below_first(gs, g, n, d) {
                    let x = choose|x: int|
                        0 <= x < gs.len() && #[trigger] below_first(gs, g, n, x)
                            && gs[x].child_datasets@.contains(d as usize);
                    assert(within(gs, g, x));
                }
                if dataset_within(gs, g, d) {
                    let x = choose|x: int|
                        0 <= x < gs.len() && #[trigger] within(gs, g, x)
                            && gs[x].child_datasets@.contains(d as usize);
                    assert(below_first(gs, g, n, x));
                }
            }
            assert(self.groups@ =~= groups_deleted(gs, g));
            assert(self.datasets@ =~= datasets_deleted(ds, gs, g));
            lemma_same_wf(*self, *old(self));
        }
    }
}

proof fn lemma_below_step(gs: Seq<GroupInfo>, g: int, j: int, x: int)
    requires
        0 <= j < gs[g].child_groups@.len(),
    ensures
        below_first(gs, g, j + 1, x) == (below_first(gs, g, j, x) || within(
            gs,
            gs[g].child_groups@[j] as int,
            x,
        )),
{
    if below_first(gs, g, j + 1, x) && x != g {
        let k = choose|k: int|
            0 <= k < j + 1 && #[trigger] within(gs, gs[g].child_groups@[k] as int, x);
        if k < j {
            assert(below_first(gs, g, j, x));
        }
    }
    if below_first(gs, g, j, x) && x != g {
        let k = choose|k: int|
            0 <= k < j && #[trigger] within(gs, gs[g].child_groups@[k] as int, x);
        assert(0 <= k < j + 1);
    }
}

proof fn lemma_dataset_step(gs: Seq<GroupInfo>, mid: Seq<GroupInfo>, g: int, j: int, d: int)
    requires
        same_tree(mid, gs),
        0 <= g < gs.len(),
        0 <= j < gs[g].child_groups@.len(),
        0 <= gs[g].child_groups@[j] < gs.len(),
    ensures
        dataset_below_first(gs, g, j + 1, d) == (dataset_below_first(gs, g, j, d)
            || dataset_within(mid, gs[g].child_groups@[j] as int, d)),
{
    let c = gs[g].child_groups@[j] as int;
    if dataset_below_first(gs, g, j + 1, d) {
        let x = choose|x: int|
            0 <= x < gs.len() && #[trigger] below_first(gs, g, j + 1, x)
                && gs[x].child_datasets@.contains(d as usize);
        lemma_below_step(gs, g, j, x);
        lemma_within_same(mid, gs, c, x);
        assert(mid[x].child_groups == gs[x].child_groups);
        if !below_first(gs, g, j, x) {
            assert(within(mid, c, x));
        }
    }
    if dataset_below_first(gs, g, j, d) {
        let x = choose|x: int|
            0 <= x < gs.len() && #[trigger] below_first(gs, g, j, x)
                && gs[x].child_datasets@.contains(d as usize);
        lemma_below_step(gs, g, j, x);
        assert(below_first(gs, g, j + 1, x));
    }
    if dataset_within(mid, c, d) {
        let x = choose|x: int|
            0 <= x < mid.len() && #[trigger] within(mid, c, x)
                && mid[x].child_datasets@.contains(d as usize);
        lemma_within_same(mid, gs, c, x);
        lemma_below_step(gs, g, j, x);
        assert(mid[x].child_groups == gs[x].child_groups);
        assert(below_first(gs, g, j + 1, x));
    }
}

/// A change that keeps parents and children keeps the catalog well-formed.
proof fn lemma_same_wf(a: Hdf5Writer, b: Hdf5Writer)
    requires
        b.wf(),
        same_tree(a.groups@, b.groups@),
        forall|i: int| 0 <= i < a.groups@.len() ==> #[trigger] a.groups@[i].parent
            == b.groups@[i].parent,
        a.datasets@.len() == b.datasets@.len(),
        same_rest(a, b),
    ensures
        a.wf(),
{
    assert forall|i: int| 0 <= i < a.groups@.len() implies #[trigger] group_placed(
        a.groups@[i],
        i,
        a.groups@.len(),
        a.datasets@.len(),
    ) by {
        assert(group_placed(b.groups@[i], i, b.groups@.len(), b.datasets@.len()));
        assert(a.groups@[i].child_groups == b.groups@[i].child_groups);
        assert(a.groups@[i].parent == b.groups@[i].parent);
    }
    assert forall|i: int| 0 <= i < a.hard_links@.len() implies #[trigger] link_placed(
        a.hard_links@[i],
        a.groups@.len(),
        a.datasets@.len(),
    ) by {
        assert(link_placed(b.hard_links@[i], b.groups@.len(), b.datasets@.len()));
    }
}

/// A group name with a slash at its start.
pub open spec fn absolute(name: Seq<char>) -> Seq<char> {
    if name.len() > 0 && name[0] == '/' {
        name
    } else {
        "/"@ + name
    }
}

fn absolute_name(name: &str) -> (s: String)
    ensures
        s@ == absolute(name@),
{
    if name.unicode_len() > 0 && name.get_char(0) == '/' {
        name.to_owned()
    } else {
        Text::new("/").text(name).done()
    }
}

/// The groups after group `g` is no longer a child of its parent.
pub open spec fn unlisted(gs: Seq<GroupInfo>, now: Seq<GroupInfo>, g: int) -> bool {
    &&& now.len() == gs.len()
    &&& forall|x: int|
        0 <= x < gs.len() && gs[g].parent != Some(x as usize) ==> #[trigger] now[x] == gs[x]
    &&& (gs[g].parent matches Some(p) ==> {
        &&& now[p as int].child_groups@ == without(gs[p as int].child_groups@, g as usize)
        &&& now[p as int].name == gs[p as int].name
        &&& now[p as int].parent == gs[p as int].parent
        &&& now[p as int].child_datasets == gs[p as int].child_datasets
        &&& now[p as int].obj_header_addr == gs[p as int].obj_header_addr
        &&& now[p as int].deleted == gs[p as int].deleted
        &&& now[p as int].attributes == gs[p as int].attributes
    })
}

/// Whether two groups differ at most in their child groups.
pub open spec fn group_but_groups(a: GroupInfo, b: GroupInfo) -> bool {
    &&& a.name == b.name
    &&& a.parent == b.parent
    &&& a.child_datasets == b.child_datasets
    &&& a.obj_header_addr == b.obj_header_addr
    &&& a.deleted == b.deleted
    &&& a.attributes == b.attributes
}

/// A change of the children of one group keeps the catalog well-formed, if the
/// new children come after the group and are groups of the file.
proof fn lemma_children_wf(a: Hdf5Writer, b: Hdf5Writer)
    requires
        b.wf(),
        a.groups@.len() == b.groups@.len(),
        a.datasets@.len() == b.datasets@.len(),
        same_rest(a, b),
        forall|i: int|
            0 <= i < a.groups@.len() ==> {
                &&& (#[trigger] a.groups@[i]).parent == b.groups@[i].parent
                &&& forall|k: int|
                    0 <= k < a.groups@[i].child_groups@.len() ==> i
                        < #[trigger] a.groups@[i].child_groups@[k] < a.groups@.len()
                &&& forall|k: int|
                    0 <= k < a.groups@[i].child_datasets@.len() ==> #[trigger]
                        a.groups@[i].child_datasets@[k] < a.datasets@.len()
            },
    ensures
        a.wf(),
{
    assert forall|i: int| 0 <= i < a.groups@.len() implies #[trigger] group_placed(
        a.groups@[i],
        i,
        a.groups@.len(),
        a.datasets@.len(),
    ) by {
        assert(group_placed(b.groups@[i], i, b.groups@.len(), b.datasets@.len()));
        assert(a.groups@[i].parent == b.groups@[i].parent);
    }
    assert forall|i: int| 0 <= i < a.hard_links@.len() implies #[trigger] link_placed(
        a.hard_links@[i],
        a.groups@.len(),
        a.datasets@.len(),
    ) by {
        assert(link_placed(b.hard_links@[i], b.groups@.len(), b.datasets@.len()));
    }
}

impl Hdf5Writer {
    /// Soft-delete a group with its datasets and all groups below it. File space
    /// is not reclaimed.
    pub fn delete_group(&mut self, name: &str) -> (r: IoResult<()>)
        requires
            old(self).wf(),
        ensures
            final(self).wf(),
            same_rest(*final(self), *old(self)),
            match old(self).group_index(absolute(name@)) {
                Some(g) => {
                    &&& r is Ok
                    &&& final(self).datasets@ == datasets_deleted(
                        old(self).datasets@,
                        old(self).groups@,
                        g,
                    )
                    &&& unlisted(groups_deleted(old(self).groups@, g), final(self).groups@, g)
                },
                None => {
                    &&& r matches Err(e) && e@ == IoErrorView::NotFound(absolute(name@))
                    &&& *final(self) == *old(self)
                },
            },
    {
        let full: String = absolute_name(name);
        let g: usize = match self.find_group(full.as_str()) {
            Some(g) => g,
            None => {
                return Err(not_found(Text::new(full.as_str())));
            },
        };
        proof {
            lemma_position_is(self.groups@.len(), live_group(self.groups@, full@));
        }
        self.delete_group_recursive(g);
        let ghost mid = *self;
        assert(group_placed(
            self.groups@[g as int],
            g as int,
            self.groups@.len(),
            self.datasets@.len(),
        ));
        if let Some(p) = self.groups[g].parent {
            let kept = remove_all(&self.groups[p].child_groups, g);
            self.groups[p].child_groups = kept;
            proof {
                let c = mid.groups@[p as int].child_groups@;
                lemma_without(c, g);
                assert forall|i: int| 0 <= i < self.groups@.len() implies {
                    &&& (#[trigger] self.groups@[i]).parent == mid.groups@[i].parent
                    &&& forall|k: int|
                        0 <= k < self.groups@[i].child_groups@.len() ==> i
                            < #[trigger] self.groups@[i].child_groups@[k] < self.groups@.len()
                    &&& forall|k: int|
                        0 <= k < self.groups@[i].child_datasets@.len() ==> #[trigger]
                            self.groups@[i].child_datasets@[k] < self.datasets@.len()
                } by {
                    assert(group_placed(
                        mid.groups@[i],
                        i,
                        mid.groups@.len(),
                        mid.datasets@.len(),
                    ));
                    if i == p {
                        assert forall|k: int|
                            0 <= k < self.groups@[i].child_groups@.len() implies i
                            < #[trigger] self.groups@[i].child_groups@[k] < self.groups@.len() by {
                            let x = self.groups@[i].child_groups@[k];
                            assert(without(c, g).contains(x));
                            assert(c.contains(x));
                            let j = choose|j: int| 0 <= j < c.len() && c[j] == x;
                            assert(i < mid.groups@[i].child_groups@[j]);
                        }
                    } else {
                        assert(self.groups@[i] == mid.groups@[i]);
                    }
                }
                lemma_children_wf(*self, mid);
            }
        }
        Ok(())
    }

    /// Why a group of this name cannot be created in the group at `parent`.
    pub open spec fn group_error(self, parent: Seq<char>, name: Seq<char>) -> Option<IoErrorView> {
        let full = child_path(parent, name);
        if self.group_index(full) is Some {
            Some(IoErrorView::InvalidState("group '"@ + full + "' already exists"@))
        } else if self.link_taken(trimmed_start(full)) {
            Some(IoErrorView::InvalidState("a hard link named '"@ + full + "' already exists"@))
        } else if parent != seq!['/'] && self.group_index(parent) is None {
            Some(IoErrorView::NotFound("parent group '"@ + parent + "' not found"@))
        } else {
            None
        }
    }

    /// Create a group in the file hierarchy.
    ///
    /// `parent_path` is the full path of the parent group ("/" for the root
    /// group), `name` the name of the new group within it. Returns the index of
    /// the group.
    pub fn create_group(&mut self, parent_path: &str, name: &str) -> (r: IoResult<usize>)
        requires
            old(self).wf(),
            old(self).groups@.len() < usize::MAX,
        ensures
            final(self).wf(),
            same_rest(*final(self), *old(self)),
            final(self).datasets == old(self).datasets,
            match r {
                Ok(i) => {
                    let parent = if parent_path@ == seq!['/'] {
                        None
                    } else {
                        old(self).group_index(parent_path@)
                    };
                    &&& old(self).group_error(parent_path@, name@) is None
                    &&& i == old(self).groups@.len()
                    &&& final(self).groups@.len() == i + 1
                    &&& new_group(
                        final(self).groups@[i as int],
                        child_path(parent_path@, name@),
                        parent,
                    )
                    &&& forall|x: int|
                        0 <= x < i && parent != Some(x) ==> #[trigger] final(self).groups@[x]
                            == old(self).groups@[x]
                    &&& (parent matches Some(p) ==> group_but_groups(
                        final(self).groups@[p],
                        old(self).groups@[p],
                    ) && final(self).groups@[p].child_groups@
                        == old(self).groups@[p].child_groups@.push(i))
                },
                Err(e) => {
                    &&& old(self).group_error(parent_path@, name@) == Some(e@)
                    &&& *final(self) == *old(self)
                },
            },
    {
        let full: String = join(parent_path, name);
        if self.find_group(full.as_str()).is_some() {
            return Err(
                invalid_state(Text::new("group '").text(full.as_str()).text("' already exists")),
            );
        }
        if self.link_at(trim_start(full.as_str())) {
            return Err(
                invalid_state(
                    Text::new("a hard link named '").text(full.as_str()).text("' already exists"),
                ),
            );
        }
        let mut parent: Option<usize> = None;
        if !is_root(parent_path) {
            parent = self.find_group(parent_path);
            proof {
                lemma_position_is(self.groups@.len(), live_group(self.groups@, parent_path@));
            }
            if parent.is_none() {
                return Err(
                    not_found(Text::new("parent group '").text(parent_path).text("' not found")),
                );
            }
        }
        let i: usize = self.groups.len();
        let ghost before = *self;
        self.groups.push(
            GroupInfo {
                name: full,
                parent,
                child_datasets: Vec::new(),
                child_groups: Vec::new(),
                obj_header_addr: 0,
                deleted: false,
                attributes: Vec::new(),
            },
        );
        if let Some(p) = parent {
            self.groups[p].child_groups.push(i);
        }
        proof {
            assert forall|x: int| 0 <= x < self.groups@.len() implies #[trigger] group_placed(
                self.groups@[x],
                x,
                self.groups@.len(),
                self.datasets@.len(),
            ) by {
                if x < i {
                    assert(group_placed(
                        before.groups@[x],
                        x,
                        before.groups@.len(),
                        before.datasets@.len(),
                    ));
                }
            }
            assert forall|x: int| 0 <= x < self.hard_links@.len() implies #[trigger] link_placed(
                self.hard_links@[x],
                self.groups@.len(),
                self.datasets@.len(),
            ) by {
                assert(link_placed(
                    before.hard_links@[x],
                    before.groups@.len(),
                    before.datasets@.len(),
                ));
            }
        }
        Ok(i)
    }

    /// Register a dataset as belonging to a group.
    pub fn assign_dataset_to_group(&mut self, group_path: &str, ds_index: usize) -> (r: IoResult<
        (),
    >)
        requires
            old(self).wf(),
            ds_index < old(self).datasets@.len(),
        ensures
            final(self).wf(),
            same_rest(*final(self), *old(self)),
            final(self).datasets == old(self).datasets,
            match old(self).group_index(group_path@) {
                Some(g) => {
                    &&& r is Ok
                    &&& final(self).groups@.len() == old(self).groups@.len()
                    &&& forall|x: int|
                        0 <= x < old(self).groups@.len() && x != g
                            ==> #[trigger] final(self).groups@[x] == old(self).groups@[x]
                    &&& group_but_datasets(final(self).groups@[g], old(self).groups@[g])
                    &&& final(self).groups@[g].child_datasets@
                        == old(self).groups@[g].child_datasets@.push(ds_index)
                },
                None => {
                    &&& r matches Err(e) && e@ == IoErrorView::NotFound(
                        "group '"@ + group_path@ + "' not found"@,
                    )
                    &&& *final(self) == *old(self)
                },
            },
    {
        let g: usize = match self.find_group(group_path) {
            Some(g) => g,
            None => {
                return Err(
                    not_found(Text::new("group '").text(group_path).text("' not found")),
                );
            },
        };
        proof {
            lemma_position_is(self.groups@.len(), live_group(self.groups@, group_path@));
        }
        let ghost before = *self;
        self.groups[g].child_datasets.push(ds_index);
        proof {
            assert forall|i: int| 0 <= i < self.groups@.len() implies {
                &&& (#[trigger] self.groups@[i]).parent == before.groups@[i].parent
                &&& forall|k: int|
                    0 <= k < self.groups@[i].child_groups@.len() ==> i
                        < #[trigger] self.groups@[i].child_groups@[k] < self.groups@.len()
                &&& forall|k: int|
                    0 <= k < self.groups@[i].child_datasets@.len() ==> #[trigger]
                        self.groups@[i].child_datasets@[k] < self.datasets@.len()
            } by {
                assert(group_placed(
                    before.groups@[i],
                    i,
                    before.groups@.len(),
                    before.datasets@.len(),
                ));
            }
            lemma_children_wf(*self, before);
        }
        Ok(())
    }
}

/// What is known of a new group.
pub open spec fn new_group(g: GroupInfo, name: Seq<char>, parent: Option<int>) -> bool {
    &&& g.name@ == name
    &&& match parent {
        Some(p) => g.parent == Some(p as usize) && p <= usize::MAX,
        None => g.parent is None,
    }
    &&& g.child_datasets@.len() == 0
    &&& g.child_groups@.len() == 0
    &&& g.obj_header_addr == 0
    &&& !g.deleted
    &&& g.attributes@.len() == 0
}

} // verus!
