//! A file that was opened again and closed holds what it held.

use crate::format::messages::attribute::AttributeView;
use crate::format::FormatContext;
use crate::io::finished::{finished, lemma_finished, orderly, same_dataset, seen, Run};
use crate::io::names::{lemma_leaf_of, trimmed_start};
use crate::io::reader::messages::{attributes_of, dataset_of};
use crate::io::reader::paths::messages_at;
use crate::io::reader::reads_back::as_read;
use crate::io::reader::walk::{path_of, Objects, MAX_GROUP_DEPTH};
use crate::io::reader::written::{
    dataset_read, filed, found, lemma_grouped_dataset_found, lemma_root_attributes,
    lemma_root_dataset_found, level,
    readable, rooted, titled, unlinked,
};
use crate::io::search::lemma_position_is;
use crate::io::writer::regroup::{
    at_path, bare_group, group_at, hangs, last_slash, lemma_last_slash, lemma_regrouped,
    lemma_regrouped_distinct, lemma_regrouped_shapes, path_upto, proper, regrouped, shape_of,
    shapes, slash_ok,
};
use crate::io::writer::reopen::{goes_on, restored, stored_names, IndexImage, Stored};
use crate::io::writer::state::Hdf5Writer;
use vstd::prelude::*;

verus! {

/// The groups of a file that was opened again are in order, when no path of a dataset has
/// an empty part.
pub proof fn lemma_orderly_reopened(
    w: Hdf5Writer,
    s: Seq<Stored>,
    ctx: FormatContext,
    indexes: Map<u64, IndexImage>,
    attributes: Seq<AttributeView>,
    file_size: u64,
)
    requires
        goes_on(w, s, ctx, indexes, attributes, file_size),
        forall|i: int| 0 <= i < s.len() ==> proper((#[trigger] s[i]).dataset.name),
    ensures
        orderly(w),
        unchanged(w, s),
{
    assert(w.groups.len() == w.groups@.len());
    assert(w.datasets.len() == w.datasets@.len());
    assert forall|g: int| 0 <= g < w.groups@.len() implies !(#[trigger] w.groups@[g]).deleted by {
        assert(bare_group(w.groups@[g]));
    }
    assert forall|i: int| 0 <= i < s.len() implies {
        &&& (#[trigger] w.datasets@[i]).name@ == s[i].dataset.name
        &&& w.datasets@[i].obj_header_addr == s[i].addr
        &&& !w.datasets@[i].deleted
    } by {
        assert(restored(w.datasets@[i], s[i], ctx, indexes));
    }
    lemma_reopened_groups(w, s);
    let gs = regrouped(stored_names(s), s.len());
    lemma_regrouped_distinct(stored_names(s), s.len());
    assert forall|g: int, h: int|
        0 <= g < h < w.groups@.len() && !(#[trigger] w.groups@[g]).deleted && !(
        #[trigger] w.groups@[h]).deleted implies w.groups@[g].name@ != w.groups@[h].name@ by {
        assert(shapes(w.groups@)[g] == gs[g]);
        assert(shapes(w.groups@)[h] == gs[h]);
        assert(gs[g].name != gs[h].name);
    }
}

/// A file that was opened again and closed shows every dataset under its path and as it was,
/// of whatever layout: opening it again gives a writer that keeps every header, and where
/// those stand nothing has been written. Datasets with an empty part in their path are left
/// out, and those that lie deeper than a reader follows groups.
pub proof fn lemma_reopened_closed_found(
    w: Hdf5Writer,
    s: Seq<Stored>,
    ctx: FormatContext,
    indexes: Map<u64, IndexImage>,
    attributes: Seq<AttributeView>,
    file_size: u64,
    run: Run,
    o: Objects,
    i: int,
)
    requires
        goes_on(w, s, ctx, indexes, attributes, file_size),
        forall|j: int| 0 <= j < s.len() ==> proper((#[trigger] s[j]).dataset.name),
        finished(w, run),
        forall|j: int|
            0 <= j < s.len() ==> (#[trigger] run.last.datasets@[j]).obj_header_addr == s[j].addr,
        seen(run, o),
        forall|g: int| 0 <= g < w.groups@.len() ==> #[trigger] level(w, g) <= MAX_GROUP_DEPTH,
        0 <= i < s.len(),
        dataset_of(messages_at(o, s[i].addr), s[i].dataset.name) == Some(s[i].dataset),
    ensures
        found(run.last, o, run.root).datasets.contains(s[i].dataset),
        attributes_of(as_read(run.last.root_items()), run.last.root_items().len()) == attributes,
{
    let z = run.last;
    lemma_orderly_reopened(w, s, ctx, indexes, attributes, file_size);
    lemma_finished(w, run);
    lemma_root_attributes(z);
    assert(shapes(z.groups@) =~= shapes(w.groups@)) by {
        assert forall|g: int| 0 <= g < w.groups@.len() implies shape_of(#[trigger] z.groups@[g])
            == shape_of(w.groups@[g]) by {}
    }
    assert forall|j: int| 0 <= j < s.len() implies {
        &&& (#[trigger] z.datasets@[j]).name@ == s[j].dataset.name
        &&& z.datasets@[j].obj_header_addr == s[j].addr
        &&& !z.datasets@[j].deleted
    } by {
        assert(same_dataset(w.datasets@[j], z.datasets@[j]));
        assert(restored(w.datasets@[j], s[j], ctx, indexes));
    }
    assert(unchanged(z, s)) by {
        assert forall|g: int| 0 <= g < z.groups@.len() implies !(
        #[trigger] z.groups@[g]).deleted by {
            assert(bare_group(w.groups@[g]));
        }
    }
    assert forall|g: int| 0 <= g < z.groups@.len() implies #[trigger] level(z, g)
        <= MAX_GROUP_DEPTH by {
        assert(bare_group(w.groups@[g]));
        assert(rooted(w, g));
        assert(level(z, g) == level(w, g));
    }
    lemma_reopened_found(z, o, run.root, s, i);
}

/// Whether a writer has gone on with the datasets of a file, and has changed nothing: their
/// headers stand where they stood.
pub open spec fn unchanged(w: Hdf5Writer, s: Seq<Stored>) -> bool {
    &&& shapes(w.groups@) == regrouped(stored_names(s), s.len())
    &&& forall|g: int| 0 <= g < w.groups@.len() ==> !(#[trigger] w.groups@[g]).deleted
    &&& w.datasets@.len() == s.len()
    &&& forall|i: int|
        0 <= i < s.len() ==> {
            &&& (#[trigger] w.datasets@[i]).name@ == s[i].dataset.name
            &&& w.datasets@[i].obj_header_addr == s[i].addr
            &&& !w.datasets@[i].deleted
        }
    &&& w.hard_links@.len() == 0
}

/// The groups of a file that was opened again hang on the root group.
pub proof fn lemma_reopened_groups(w: Hdf5Writer, s: Seq<Stored>)
    requires
        w.groups@.len() <= usize::MAX,
        s.len() <= usize::MAX,
        unchanged(w, s),
        forall|i: int| 0 <= i < s.len() ==> proper((#[trigger] s[i]).dataset.name),
    ensures
        filed(w),
        forall|g: int| 0 <= g < w.groups@.len() ==> #[trigger] rooted(w, g),
{
    let names = stored_names(s);
    let gs = regrouped(names, s.len());
    assert forall|i: int| 0 <= i < names.len() implies proper(#[trigger] names[i]) by {
        assert(proper(s[i].dataset.name));
    }
    assert(gs.len() == w.groups@.len());
    lemma_regrouped_shapes(names, s.len());
    assert forall|g: int| 0 <= g < w.groups@.len() implies shape_of(#[trigger] w.groups@[g])
        == gs[g] by {
        assert(shapes(w.groups@)[g] == gs[g]);
    }
    assert forall|g: int| 0 <= g < w.groups@.len() implies #[trigger] titled(w, g) by {
        assert(hangs(gs, g));
        assert(shape_of(w.groups@[g]) == gs[g]);
        match gs[g].parent {
            Some(p) => {
                assert(shape_of(w.groups@[p as int]) == gs[p as int]);
            },
            None => {},
        }
    }
    assert forall|p: int, k: int|
        0 <= p < w.groups@.len() && 0 <= k < w.groups@[p].child_groups@.len() implies w.groups@[(
    #[trigger] w.groups@[p].child_groups@[k]) as int].parent == Some(p as usize) by {
        assert(shape_of(w.groups@[p]) == gs[p]);
        let h = gs[p].child_groups[k];
        assert(shape_of(w.groups@[h as int]) == gs[h as int]);
    }
    assert forall|g: int| 0 <= g < w.groups@.len() implies #[trigger] rooted(w, g) by {
        lemma_hangs_rooted(w, s, g);
    }
}

proof fn lemma_hangs_rooted(w: Hdf5Writer, s: Seq<Stored>, g: int)
    requires
        unchanged(w, s),
        forall|x: int|
            0 <= x < w.groups@.len() ==> #[trigger] hangs(
                regrouped(stored_names(s), s.len()),
                x,
            ),
        0 <= g < w.groups@.len(),
    ensures
        rooted(w, g),
    decreases g,
{
    let gs = regrouped(stored_names(s), s.len());
    assert(hangs(gs, g));
    assert(shapes(w.groups@)[g] == gs[g]);
    match w.groups@[g].parent {
        Some(p) => {
            assert(shapes(w.groups@)[p as int] == gs[p as int]);
            lemma_hangs_rooted(w, s, p as int);
        },
        None => {},
    }
}

/// A file that was opened again and closed shows every dataset under its path and as it
/// was: with its type, shape, layout, filters, attributes and fill value, of whatever
/// layout. Its data are where they were. Datasets with an empty part in their path are left
/// out.
pub proof fn lemma_reopened_found(
    w: Hdf5Writer,
    o: Objects,
    root: u64,
    s: Seq<Stored>,
    i: int,
)
    requires
        readable(w, o, root),
        unchanged(w, s),
        0 <= i < s.len(),
        forall|j: int| 0 <= j < s.len() ==> proper((#[trigger] s[j]).dataset.name),
        forall|g: int| 0 <= g < w.groups@.len() ==> #[trigger] level(w, g) <= MAX_GROUP_DEPTH,
        dataset_of(messages_at(o, s[i].addr), s[i].dataset.name) == Some(s[i].dataset),
    ensures
        found(w, o, root).datasets.contains(s[i].dataset),
{
    let names = stored_names(s);
    let gs = regrouped(names, s.len());
    let name = s[i].dataset.name;
    let d = w.datasets@[i];
    assert(dataset_read(w, o, i));
    lemma_reopened_groups(w, s);
    assert forall|j: int| 0 <= j < names.len() implies proper(#[trigger] names[j]) by {
        assert(proper(s[j].dataset.name));
    }
    assert(gs.len() == w.groups@.len());
    lemma_regrouped_shapes(names, s.len());
    lemma_regrouped(names, s.len(), i);
    lemma_last_slash(name, name.len());
    assert(names[i] == name);
    match last_slash(name, name.len()) {
        None => {
            assert(!w.in_subgroup(i as usize)) by {
                if w.in_subgroup(i as usize) {
                    let g = choose|g: int|
                        0 <= g < w.groups@.len() && !(#[trigger] w.groups@[g]).deleted
                            && w.groups@[g].child_datasets@.contains(i as usize);
                    assert(shapes(w.groups@)[g] == gs[g]);
                    assert(gs[g].child_datasets.contains(i as usize));
                }
            }
            lemma_root_dataset_found(w, o, root, i);
        },
        Some(j) => {
            let up = path_upto(name, j);
            lemma_position_is(gs.len(), at_path(gs, up));
            let g = group_at(gs, up)->0;
            assert(at_path(gs, up)(g));
            assert(shapes(w.groups@)[g] == gs[g]);
            lemma_no_links(w, g);
            lemma_grouped_dataset_found(w, o, root, g, i as usize);
            assert(slash_ok(name, j));
            assert(slash_ok(name, 0));
            let front = name.take(j);
            let b = name.subrange(j + 1, name.len() as int);
            assert(!b.contains('/')) by {
                if b.contains('/') {
                    let x = choose|x: int| 0 <= x < b.len() && b[x] == '/';
                    assert(name[j + 1 + x] != '/');
                }
            }
            lemma_leaf_of(front, b);
            assert(front + seq!['/'] + b =~= name);
            assert(up.skip(1) =~= front);
            reveal_with_fuel(trimmed_start, 2);
            assert(trimmed_start(up) == front);
            reveal_strlit("/");
            assert("/"@ =~= seq!['/']);
            assert(path_of(front, b) == name);
        },
    }
}

proof fn lemma_no_links(w: Hdf5Writer, g: int)
    requires
        w.hard_links@.len() == 0,
    ensures
        unlinked(w, g),
    decreases g,
{
    match w.groups@[g].parent {
        Some(p) => if 0 <= p < g {
            lemma_no_links(w, p as int);
        },
        None => {},
    }
}

} // verus!
