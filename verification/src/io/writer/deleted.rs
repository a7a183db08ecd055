//! What the deletion of a group takes along.

use crate::io::writer::edits::{
    absolute, dataset_within, datasets_deleted, groups_deleted, within,
};
use crate::io::writer::state::{DatasetInfo, GroupInfo};
use vstd::prelude::*;

verus! {

/// Whether a descent leads from group `g` down to group `x`, from each group to one of its
/// child groups.
pub open spec fn leads_down(gs: Seq<GroupInfo>, way: Seq<int>, g: int, x: int) -> bool {
    &&& way.len() > 0
    &&& way[0] == g
    &&& way.last() == x
    &&& forall|i: int| 0 <= i < way.len() ==> 0 <= #[trigger] way[i] < gs.len()
    &&& forall|i: int|
        0 <= i < way.len() - 1 ==> gs[#[trigger] way[i]].child_groups@.contains(
            way[i + 1] as usize,
        )
}

/// Whether child groups come after their parents.
pub open spec fn parents_first(gs: Seq<GroupInfo>) -> bool {
    &&& gs.len() <= usize::MAX
    &&& forall|g: int, k: int|
        0 <= g < gs.len() && 0 <= k < gs[g].child_groups@.len() ==> g
            < #[trigger] gs[g].child_groups@[k] < gs.len()
}

proof fn lemma_down(gs: Seq<GroupInfo>, way: Seq<int>, g: int, x: int)
    requires
        parents_first(gs),
        leads_down(gs, way, g, x),
    ensures
        within(gs, g, x),
    decreases way.len(),
{
    if way.len() > 1 {
        let rest = way.skip(1);
        let z = 0int;
        assert(gs[way[z]].child_groups@.contains(way[z + 1] as usize));
        let k = choose|k: int|
            0 <= k < gs[g].child_groups@.len() && gs[g].child_groups@[k] == way[1] as usize;
        assert(0 <= way[1] < gs.len());
        assert(gs[g].child_groups@[k] == way[1]);
        assert forall|i: int| 0 <= i < rest.len() implies 0 <= #[trigger] rest[i] < gs.len() by {
            assert(rest[i] == way[i + 1]);
        }
        assert forall|i: int| 0 <= i < rest.len() - 1 implies gs[#[trigger] rest[i]].child_groups@.contains(
            rest[i + 1] as usize,
        ) by {
            assert(rest[i] == way[i + 1]);
            assert(rest[i + 1] == way[i + 1 + 1]);
        }
        lemma_down(gs, rest, way[1], x);
        assert(g < gs[g].child_groups@[k] < gs.len());
    }
}

proof fn lemma_way(gs: Seq<GroupInfo>, g: int, x: int) -> (way: Seq<int>)
    requires
        parents_first(gs),
        0 <= g < gs.len(),
        within(gs, g, x),
    ensures
        leads_down(gs, way, g, x),
    decreases gs.len() - g,
{
    if x == g {
        seq![g]
    } else {
        let k = choose|k: int|
            0 <= k < gs[g].child_groups@.len() && g < #[trigger] gs[g].child_groups@[k] < gs.len()
                && within(gs, gs[g].child_groups@[k] as int, x);
        let c = gs[g].child_groups@[k] as int;
        let rest = lemma_way(gs, c, x);
        let way = seq![g] + rest;
        assert(way.last() == rest.last());
        assert forall|i: int| 0 <= i < way.len() implies 0 <= #[trigger] way[i] < gs.len() by {
            if i > 0 {
                assert(way[i] == rest[i - 1]);
            }
        }
        assert forall|i: int| 0 <= i < way.len() - 1 implies gs[#[trigger] way[i]].child_groups@.contains(
            way[i + 1] as usize,
        ) by {
            if i == 0 {
                assert(way[1] == rest[0]);
                assert(gs[g].child_groups@[k] == way[1] as usize);
            } else {
                assert(way[i] == rest[i - 1]);
                assert(way[i + 1] == rest[i - 1 + 1]);
            }
        }
        way
    }
}

/// Deleting a group deletes it, every group that a descent from it leads to, and the datasets
/// of all of these; no other group or dataset changes.
pub proof fn lemma_group_deleted(
    gs: Seq<GroupInfo>,
    ds: Seq<DatasetInfo>,
    g: int,
    x: int,
    d: int,
)
    requires
        parents_first(gs),
        0 <= g < gs.len(),
        0 <= x < gs.len(),
        0 <= d < ds.len(),
    ensures
        groups_deleted(gs, g).len() == gs.len(),
        datasets_deleted(ds, gs, g).len() == ds.len(),
        if exists|way: Seq<int>| #[trigger] leads_down(gs, way, g, x) {
            groups_deleted(gs, g)[x] == (GroupInfo { deleted: true, ..gs[x] })
        } else {
            groups_deleted(gs, g)[x] == gs[x]
        },
        if exists|way: Seq<int>, y: int| #[trigger]
            leads_down(gs, way, g, y) && gs[y].child_datasets@.contains(d as usize) {
            datasets_deleted(ds, gs, g)[d] == (DatasetInfo { deleted: true, ..ds[d] })
        } else {
            datasets_deleted(ds, gs, g)[d] == ds[d]
        },
{
    if exists|way: Seq<int>| #[trigger] leads_down(gs, way, g, x) {
        let way = choose|way: Seq<int>| #[trigger] leads_down(gs, way, g, x);
        lemma_down(gs, way, g, x);
    } else if within(gs, g, x) {
        let way = lemma_way(gs, g, x);
        assert(leads_down(gs, way, g, x));
    }
    if exists|way: Seq<int>, y: int| #[trigger]
        leads_down(gs, way, g, y) && gs[y].child_datasets@.contains(d as usize) {
        let (way, y) = choose|way: Seq<int>, y: int| #[trigger]
            leads_down(gs, way, g, y) && gs[y].child_datasets@.contains(d as usize);
        lemma_down(gs, way, g, y);
        assert(way[way.len() - 1] == y);
        assert(dataset_within(gs, g, d));
    } else if dataset_within(gs, g, d) {
        let y = choose|y: int|
            0 <= y < gs.len() && #[trigger] within(gs, g, y) && gs[y].child_datasets@.contains(
                d as usize,
            );
        let way = lemma_way(gs, g, y);
        assert(leads_down(gs, way, g, y) && gs[y].child_datasets@.contains(d as usize));
    }
}

/// A group can be named with its first slash or without.
pub proof fn lemma_absolute(name: Seq<char>)
    ensures
        absolute(seq!['/'] + name) == seq!['/'] + name,
        (name.len() == 0 || name[0] != '/') ==> absolute(name) == seq!['/'] + name,
{
    reveal_strlit("/");
    assert("/"@ =~= seq!['/']);
    assert((seq!['/'] + name)[0] == '/');
}

} // verus!
