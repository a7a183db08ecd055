//! Nothing is left out when a file is flushed or closed.

use crate::io::names::{child_path, trimmed_start};
use crate::io::search::lemma_position_is;
use crate::io::stream::closing_writes;
use crate::io::streamed::{lemma_last_band, streaming, StreamShape};
use crate::io::swmr::{
    band_of, flush_steps, header_flushes, index_flushes, FlushStep, LastBandView, SwmrWriter,
};
use crate::io::tiles::byte_views;
use crate::io::writer::attributes::fill_of;
use crate::io::writer::catalog::{
    emitted, link_path, live_dataset, live_dataset_at, live_group, live_group_at,
};
use crate::io::writer::finish::{final_steps, header_step, index_steps, FinalStep};
use crate::io::writer::links::same_parent;
use crate::io::writer::state::{DatasetInfo, HardLink, HardLinkTarget, Hdf5Writer};
use vstd::prelude::*;

verus! {

/// The chunks of the frames that wait in buffer `k`.
spec fn last_of(w: SwmrWriter, k: int) -> LastBandView {
    let b = w.bands@[k];
    let d = w.writer.datasets@[b.ds_index as int];
    LastBandView {
        ds_index: b.ds_index,
        writes: b.writes(
            byte_views(b.frames@),
            fill_of(d),
            d.dataspace.dims@[0] as int / b.frames_per_chunk as int,
        ),
    }
}

proof fn lemma_unfinished(w: SwmrWriter, n: nat, k: int)
    requires
        n <= w.bands@.len(),
        0 <= k < n,
    ensures
        w.bands@[k].frames@.len() > 0 ==> w.unfinished(n).contains(last_of(w, k)),
    decreases n,
{
    let before = w.unfinished((n - 1) as nat);
    let all = w.unfinished(n);
    if k == n - 1 {
        if w.bands@[k].frames@.len() > 0 {
            assert(all[before.len() as int] == last_of(w, k));
        }
    } else {
        lemma_unfinished(w, (n - 1) as nat, k);
        if w.bands@[k].frames@.len() > 0 {
            let j = choose|j: int| 0 <= j < before.len() && before[j] == last_of(w, k);
            assert(all[j] == last_of(w, k));
        }
    }
}

proof fn lemma_unfinished_only(w: SwmrWriter, n: nat, j: int) -> (k: int)
    requires
        n <= w.bands@.len(),
        0 <= j < w.unfinished(n).len(),
    ensures
        0 <= k < n,
        w.bands@[k].frames@.len() > 0,
        w.unfinished(n)[j] == last_of(w, k),
    decreases n,
{
    let before = w.unfinished((n - 1) as nat);
    if j < before.len() {
        lemma_unfinished_only(w, (n - 1) as nat, j)
    } else {
        n - 1
    }
}

/// Closing a file writes the frames of a stream that do not fill a chunk yet: they become the
/// last chunks of the stream. A stream whose frames all stand in chunks has none to write.
pub proof fn lemma_stream_closed(w: SwmrWriter, i: int, s: StreamShape, frames: Seq<Seq<u8>>, j: int)
    requires
        w.wf(),
        s.wf(),
        streaming(w, i, s, frames),
    ensures
        ({
            let last = w.unfinished(w.bands@.len());
            let writes = closing_writes(frames, s.p, s.fd, s.td, s.es as int, s.fill);
            &&& frames.len() as int % s.p as int != 0 ==> last.contains(
                LastBandView { ds_index: i as usize, writes },
            )
            &&& 0 <= j < last.len() && last[j].ds_index == i ==> {
                &&& frames.len() as int % s.p as int != 0
                &&& last[j].writes == writes
            }
        }),
{
    let n = frames.len() as int;
    let last = w.unfinished(w.bands@.len());
    lemma_last_band(w, i, s, frames);
    vstd::arithmetic::div_mod::lemma_mod_bound(n, s.p as int);
    lemma_position_is(w.bands@.len(), band_of(w.bands@, i));
    if n % s.p as int != 0 {
        let k = w.band(i)->0;
        assert(byte_views(w.bands@[k].frames@).len() == n % s.p as int);
        lemma_unfinished(w, w.bands@.len(), k);
    }
    if 0 <= j < last.len() && last[j].ds_index == i {
        let k = lemma_unfinished_only(w, w.bands@.len(), j);
        assert(band_of(w.bands@, i)(k));
        let m = w.band(i)->0;
        assert(w.bands@[m].ds_index == i);
        assert(m == k);
        assert(byte_views(w.bands@[k].frames@).len() == w.bands@[k].frames@.len());
    }
}

proof fn lemma_index_flushed(ds: Seq<DatasetInfo>, n: nat, i: int)
    requires
        0 <= i < n <= ds.len(),
        n <= usize::MAX,
    ensures
        index_flushes(ds, n).contains(FlushStep::Index(i as usize)) <==> ds[i].chunked is Some,
        header_flushes(ds, n).contains(FlushStep::Header(i as usize))
            <==> ds[i].obj_header_written_addr is Some,
    decreases n,
{
    lemma_index_below(ds, (n - 1) as nat);
    let m = (n - 1) as nat;
    let a = index_flushes(ds, m);
    let b = index_flushes(ds, n);
    let c = header_flushes(ds, m);
    let d = header_flushes(ds, n);
    if i < m {
        lemma_index_flushed(ds, m, i);
        if a.contains(FlushStep::Index(i as usize)) {
            let k = choose|k: int| 0 <= k < a.len() && a[k] == FlushStep::Index(i as usize);
            assert(b[k] == a[k]);
        }
        if b.contains(FlushStep::Index(i as usize)) {
            let k = choose|k: int| 0 <= k < b.len() && b[k] == FlushStep::Index(i as usize);
            if k < a.len() {
                assert(a[k] == b[k]);
            }
        }
        if c.contains(FlushStep::Header(i as usize)) {
            let k = choose|k: int| 0 <= k < c.len() && c[k] == FlushStep::Header(i as usize);
            assert(d[k] == c[k]);
        }
        if d.contains(FlushStep::Header(i as usize)) {
            let k = choose|k: int| 0 <= k < d.len() && d[k] == FlushStep::Header(i as usize);
            if k < c.len() {
                assert(c[k] == d[k]);
            }
        }
    } else {
        if ds[i].chunked is Some {
            assert(b[a.len() as int] == FlushStep::Index(i as usize));
        }
        if ds[i].obj_header_written_addr is Some {
            assert(d[c.len() as int] == FlushStep::Header(i as usize));
        }
    }
}

proof fn lemma_index_below(ds: Seq<DatasetInfo>, n: nat)
    requires
        n <= ds.len(),
        n <= usize::MAX,
    ensures
        forall|k: int|
            0 <= k < index_flushes(ds, n).len() ==> (#[trigger] index_flushes(ds, n)[k] matches
                FlushStep::Index(x) && x < n),
        forall|k: int|
            0 <= k < header_flushes(ds, n).len() ==> (#[trigger] header_flushes(ds, n)[k] matches
                FlushStep::Header(x) && x < n),
    decreases n,
{
    if n > 0 {
        lemma_index_below(ds, (n - 1) as nat);
    }
}

/// A flush writes the index of every dataset that has one, and, once others read, the header of
/// every dataset that has been written; it ends on disk.
pub proof fn lemma_all_flushed(w: SwmrWriter, i: int)
    requires
        0 <= i < w.writer.datasets@.len() <= usize::MAX,
    ensures
        w.writer.datasets@[i].chunked is Some ==> flush_steps(w).contains(
            FlushStep::Index(i as usize),
        ),
        w.swmr_active && w.writer.datasets@[i].obj_header_written_addr is Some ==> flush_steps(
            w,
        ).contains(FlushStep::Header(i as usize)),
        !w.swmr_active ==> !flush_steps(w).contains(FlushStep::Header(i as usize)),
        flush_steps(w).last() == FlushStep::Sync,
{
    let ds = w.writer.datasets@;
    let s = flush_steps(w);
    let a = index_flushes(ds, ds.len());
    let c = header_flushes(ds, ds.len());
    lemma_index_flushed(ds, ds.len(), i);
    lemma_index_below(ds, ds.len());
    if ds[i].chunked is Some {
        let k = choose|k: int| 0 <= k < a.len() && a[k] == FlushStep::Index(i as usize);
        assert(s[k] == a[k]);
    }
    if w.swmr_active && ds[i].obj_header_written_addr is Some {
        let k = choose|k: int| 0 <= k < c.len() && c[k] == FlushStep::Header(i as usize);
        assert(s[a.len() + 1 + k] == c[k]);
    }
    if !w.swmr_active && s.contains(FlushStep::Header(i as usize)) {
        let k = choose|k: int| 0 <= k < s.len() && s[k] == FlushStep::Header(i as usize);
        if k < a.len() {
            assert(s[k] == a[k]);
        }
    }
}

proof fn lemma_index_step(ds: Seq<DatasetInfo>, all: bool, n: nat, i: int)
    requires
        0 <= i < n <= ds.len(),
    ensures
        (ds[i].chunked is Some || ds[i].fixed_array is Some || ds[i].btree_v2 is Some) && (all
            || ds[i].obj_header_written_addr is None || (ds[i].chunked matches Some(c)
            && c.chunks_written > 0)) ==> index_steps(ds, all, n).contains(
            FinalStep::FlushIndex(i as usize),
        ),
    decreases n,
{
    let before = index_steps(ds, all, (n - 1) as nat);
    let now = index_steps(ds, all, n);
    if i < n - 1 {
        lemma_index_step(ds, all, (n - 1) as nat, i);
        if before.contains(FinalStep::FlushIndex(i as usize)) {
            let k = choose|k: int|
                0 <= k < before.len() && before[k] == FinalStep::FlushIndex(i as usize);
            assert(now[k] == before[k]);
        }
    } else if now.len() > before.len() {
        assert(now[before.len() as int] == FinalStep::FlushIndex(i as usize));
    }
}

/// Finishing a file writes every index that has changed, the header of every dataset that is
/// new or has changed, and the headers of all groups, once each has its place; the headers of
/// other datasets stay.
pub proof fn lemma_all_written(w: Hdf5Writer, all: bool, flags: u8, i: int, g: int)
    requires
        0 <= i < w.datasets@.len(),
        0 <= g < w.groups@.len(),
    ensures
        ({
            let s = final_steps(w, all, flags);
            let d = w.datasets@[i];
            let unwritten = d.obj_header_written_addr is None || (d.chunked matches Some(c)
                && c.chunks_written > 0);
            &&& (d.chunked is Some || d.fixed_array is Some || d.btree_v2 is Some) && (all
                || unwritten) ==> s.contains(FinalStep::FlushIndex(i as usize))
            &&& all || unwritten || d.header_changed ==> s.contains(
                FinalStep::DatasetHeader(i as usize),
            )
            &&& !(all || unwritten || d.header_changed) ==> s.contains(
                FinalStep::KeepHeader(i as usize),
            )
            &&& s.contains(FinalStep::GroupAddress(g as usize))
            &&& s.contains(FinalStep::GroupHeader(g as usize))
            &&& s.contains(FinalStep::RootHeader)
            &&& s.contains(FinalStep::Superblock(flags))
        }),
{
    let s = final_steps(w, all, flags);
    let nd = w.datasets@.len();
    let ng = w.groups@.len();
    let a = index_steps(w.datasets@, all, nd);
    let n = a.len() as int;
    lemma_index_step(w.datasets@, all, nd, i);
    if a.contains(FinalStep::FlushIndex(i as usize)) {
        let k = choose|k: int| 0 <= k < a.len() && a[k] == FinalStep::FlushIndex(i as usize);
        assert(s[k] == a[k]);
    }
    assert(s[n + i] == header_step(w.datasets@, all, i));
    assert(s[n + nd + g] == FinalStep::GroupAddress(g as usize));
    assert(s[n + nd + ng + g] == FinalStep::GroupHeader(g as usize));
    assert(s[n + nd + ng + ng] == FinalStep::RootHeader);
    assert(s[n + nd + ng + ng + 1] == FinalStep::Superblock(flags));
}

/// Whether a link leads to an object of the finished file from a group of it.
pub open spec fn counts(w: Hdf5Writer, l: HardLink, target: HardLinkTarget) -> bool {
    &&& l.target == target
    &&& match target {
        HardLinkTarget::Dataset(i) => !w.datasets@[i as int].deleted,
        HardLinkTarget::Group(i) => !w.groups@[i as int].deleted,
    }
    &&& match l.parent {
        Some(p) => !w.groups@[p as int].deleted,
        None => true,
    }
}

/// An object has one link more than there are hard links to it in the finished file: `which`
/// are those links, each once.
pub proof fn lemma_links_counted(w: Hdf5Writer, target: HardLinkTarget, n: nat) -> (which: Seq<int>)
    requires
        n <= w.hard_links@.len(),
    ensures
        w.links_to(target, n) == which.len(),
        forall|k: int|
            0 <= k < which.len() ==> 0 <= #[trigger] which[k] < n && counts(
                w,
                w.hard_links@[which[k]],
                target,
            ),
        forall|k: int, l: int| 0 <= k < l < which.len() ==> #[trigger] which[k] < #[trigger] which[l],
        forall|i: int|
            0 <= i < n && counts(w, #[trigger] w.hard_links@[i], target) ==> which.contains(i),
        w.link_count(target) == 1 + w.links_to(target, w.hard_links@.len()),
    decreases n,
{
    if n == 0 {
        Seq::empty()
    } else {
        let before = lemma_links_counted(w, target, (n - 1) as nat);
        let l = w.hard_links@[n - 1];
        assert(counts(w, l, target) == (emitted(l, w.datasets@, w.groups@) && l.target == target));
        if counts(w, l, target) {
            let which = before.push(n - 1);
            assert(which[before.len() as int] == n - 1);
            assert forall|i: int|
                0 <= i < n && counts(w, #[trigger] w.hard_links@[i], target) implies which.contains(
                i,
            ) by {
                if i < n - 1 {
                    let k = choose|k: int| 0 <= k < before.len() && before[k] == i;
                    assert(which[k] == i);
                }
            }
            which
        } else {
            before
        }
    }
}

/// A name is taken in a group if and only if a dataset or a group that has not been deleted has
/// it there, or a hard link of the group.
pub proof fn lemma_name_taken(w: Hdf5Writer, parent: Option<int>, name: Seq<char>)
    ensures
        ({
            let full = match parent {
                None => name,
                Some(p) => trimmed_start(w.groups@[p].name@) + seq!['/'] + name,
            };
            w.taken(parent, name) <==> {
                ||| exists|i: int|
                    0 <= i < w.datasets@.len() && !(#[trigger] w.datasets@[i]).deleted
                        && trimmed_start(w.datasets@[i].name@) == full
                ||| exists|i: int|
                    0 <= i < w.groups@.len() && !(#[trigger] w.groups@[i]).deleted && trimmed_start(
                        w.groups@[i].name@,
                    ) == full
                ||| exists|i: int|
                    0 <= i < w.hard_links@.len() && (#[trigger] w.hard_links@[i]).name@ == name
                        && (match w.hard_links@[i].parent {
                        Some(p) => parent == Some(p as int),
                        None => parent is None,
                    })
            }
        }),
{
    reveal_strlit("/");
    assert("/"@ =~= seq!['/']);
    let full = w.path_in(parent, name);
    lemma_position_is(w.datasets@.len(), live_dataset_at(w.datasets@, full));
    lemma_position_is(w.groups@.len(), live_group_at(w.groups@, full));
    assert forall|i: int| 0 <= i < w.datasets@.len() implies live_dataset_at(w.datasets@, full)(i)
        == (!(#[trigger] w.datasets@[i]).deleted && trimmed_start(w.datasets@[i].name@) == full) by {}
    assert forall|i: int| 0 <= i < w.groups@.len() implies live_group_at(w.groups@, full)(i) == (!(
    #[trigger] w.groups@[i]).deleted && trimmed_start(w.groups@[i].name@) == full) by {}
    assert forall|i: int| 0 <= i < w.hard_links@.len() implies same_parent(
        (#[trigger] w.hard_links@[i]).parent,
        parent,
    ) == (match w.hard_links@[i].parent {
        Some(p) => parent == Some(p as int),
        None => parent is None,
    }) by {}
}

/// Whether a hard link of the finished file has this path, which begins with no slash: the path
/// of its group, a slash and its name.
pub open spec fn linked_at(w: Hdf5Writer, path: Seq<char>) -> bool {
    exists|i: int|
        0 <= i < w.hard_links@.len() && counts(
            w,
            #[trigger] w.hard_links@[i],
            w.hard_links@[i].target,
        ) && path == (match w.hard_links@[i].parent {
            None => w.hard_links@[i].name@,
            Some(p) => trimmed_start(w.groups@[p as int].name@) + seq!['/']
                + w.hard_links@[i].name@,
        })
}

proof fn lemma_link_taken(w: Hdf5Writer, path: Seq<char>)
    ensures
        w.link_taken(path) == linked_at(w, path),
{
    reveal_strlit("/");
    assert("/"@ =~= seq!['/']);
    assert forall|i: int| 0 <= i < w.hard_links@.len() implies emitted(
        #[trigger] w.hard_links@[i],
        w.datasets@,
        w.groups@,
    ) == counts(w, w.hard_links@[i], w.hard_links@[i].target) by {}
    if w.link_taken(path) {
        let i = choose|i: int|
            0 <= i < w.hard_links@.len() && emitted(
                #[trigger] w.hard_links@[i],
                w.datasets@,
                w.groups@,
            ) && link_path(w.hard_links@[i], w.groups@) == path;
        assert(counts(w, w.hard_links@[i], w.hard_links@[i].target));
    }
    if linked_at(w, path) {
        let i = choose|i: int|
            0 <= i < w.hard_links@.len() && counts(
                w,
                #[trigger] w.hard_links@[i],
                w.hard_links@[i].target,
            ) && path == (match w.hard_links@[i].parent {
                None => w.hard_links@[i].name@,
                Some(p) => trimmed_start(w.groups@[p as int].name@) + seq!['/']
                    + w.hard_links@[i].name@,
            });
        assert(emitted(w.hard_links@[i], w.datasets@, w.groups@));
    }
}

/// Whether a group that has not been deleted has this name.
pub open spec fn group_there(w: Hdf5Writer, name: Seq<char>) -> bool {
    exists|i: int|
        0 <= i < w.groups@.len() && !(#[trigger] w.groups@[i]).deleted && w.groups@[i].name@ == name
}

proof fn lemma_group_there(w: Hdf5Writer, name: Seq<char>)
    ensures
        w.group_index(name) is Some == group_there(w, name),
{
    lemma_position_is(w.groups@.len(), live_group(w.groups@, name));
    assert forall|i: int| 0 <= i < w.groups@.len() implies live_group(w.groups@, name)(i) == (!(
    #[trigger] w.groups@[i]).deleted && w.groups@[i].name@ == name) by {}
}

/// A dataset can be created under a name if and only if no dataset that has not been deleted
/// has the name, and no hard link of the finished file leads there.
pub proof fn lemma_name_accepted(w: Hdf5Writer, name: Seq<char>)
    ensures
        w.name_error(name) is None <==> {
            &&& !linked_at(w, name)
            &&& forall|i: int|
                0 <= i < w.datasets@.len() && !(#[trigger] w.datasets@[i]).deleted
                    ==> w.datasets@[i].name@ != name
        },
{
    lemma_link_taken(w, name);
    lemma_position_is(w.datasets@.len(), live_dataset(w.datasets@, name));
    assert forall|i: int| 0 <= i < w.datasets@.len() implies live_dataset(w.datasets@, name)(i) == (
    !(#[trigger] w.datasets@[i]).deleted && w.datasets@[i].name@ == name) by {}
}

/// A group can be created in another if and only if that one is there or is the root group, and
/// neither a group nor a hard link has the path.
pub proof fn lemma_group_accepted(w: Hdf5Writer, parent: Seq<char>, name: Seq<char>)
    ensures
        ({
            let full = if parent == seq!['/'] {
                seq!['/'] + name
            } else {
                parent + seq!['/'] + name
            };
            w.group_error(parent, name) is None <==> {
                &&& parent == seq!['/'] || group_there(w, parent)
                &&& !group_there(w, full)
                &&& !linked_at(w, trimmed_start(full))
            }
        }),
{
    let full = child_path(parent, name);
    lemma_group_there(w, full);
    lemma_group_there(w, parent);
    lemma_link_taken(w, trimmed_start(full));
}

} // verus!
