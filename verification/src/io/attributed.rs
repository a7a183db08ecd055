//! Attributes that have been set are found again.

use crate::format::messages::attribute::{text_attribute, AttributeMessage, AttributeView};
use crate::group::group_attributes;
use crate::io::finished::{
    finished, lemma_finished, lemma_orderly_kept, orderly, same_content, seen, Run,
};
use crate::io::names::trimmed_start;
use crate::io::reader::catalog::{
    attribute_of, group_of, lemma_text_attribute, string_value, StringValueView,
};
use crate::io::reader::messages::{attribute_views, attributes_of, dataset_of};
use crate::io::reader::open::knows;
use crate::io::reader::reads_back::{as_read, lemma_dataset_reads_back, read_of};
use crate::io::reader::walk::{group_views, GroupView, Objects, MAX_GROUP_DEPTH};
use crate::io::reader::written::{
    found, lemma_group_found, lemma_root_attributes, level, no_group_links, rooted,
};
use crate::io::reader::Hdf5Reader;
use crate::io::search::{lemma_no_position, lemma_position, lemma_position_is};
use crate::io::writer::attributes::{
    attribute_at, attribute_named, dataset_attribute_set, group_attribute_set,
    lemma_attribute_set, with_attribute, BytesWrite,
};
use crate::io::writer::catalog::{emitted, live_group};
use crate::io::writer::content::dims_set;
use crate::io::writer::finish::{header_step, FinalStep};
use crate::io::writer::state::{link_placed, HardLinkTarget, Hdf5Writer};
use crate::io::IoResult;
use crate::swmr::groups::{lemma_attribute_once, lemma_unlike, once_each, same_tree};
use crate::swmr::{fill_put, group_attribute_put};
use vstd::prelude::*;
use vstd::utf8::encode_utf8;

verus! {

/// The attributes of the group at a path; the root group is "/".
pub open spec fn held(w: Hdf5Writer, path: Seq<char>) -> Seq<AttributeMessage> {
    if path == seq!['/'] {
        w.root_attributes@
    } else {
        w.groups@[w.group_index(path)->0].attributes@
    }
}

/// Whether the file of a run has been opened to be read.
pub open spec fn opened(r: Hdf5Reader, run: Run, o: Objects) -> bool {
    &&& knows(r, found(run.last, o, run.root))
    &&& attribute_views(r.root_attributes@) == attributes_of(
        as_read(run.last.root_items()),
        run.last.root_items().len(),
    )
}

/// Whether a group can be found under its own path: it is the root group, or there are no
/// second names of groups and it lies no deeper than a reader follows groups.
pub open spec fn in_reach(w: Hdf5Writer, path: Seq<char>) -> bool {
    path == seq!['/'] || {
        &&& w.group_index(path) is Some
        &&& no_group_links(w)
        &&& level(w, w.group_index(path)->0) <= MAX_GROUP_DEPTH + 1
    }
}

proof fn lemma_no_group_links_kept(a: Hdf5Writer, b: Hdf5Writer)
    requires
        a.wf(),
        same_content(a, b),
        no_group_links(a),
    ensures
        no_group_links(b),
{
    assert forall|l: int|
        0 <= l < b.hard_links@.len() && emitted(
            #[trigger] b.hard_links@[l],
            b.datasets@,
            b.groups@,
        ) implies b.hard_links@[l].target is Dataset by {
        let x = a.hard_links@[l];
        assert(link_placed(x, a.groups@.len(), a.datasets@.len()));
        match x.target {
            HardLinkTarget::Dataset(_) => {},
            HardLinkTarget::Group(i) => {
                assert(b.groups@[i as int].deleted == a.groups@[i as int].deleted);
                match x.parent {
                    Some(p) => {
                        assert(b.groups@[p as int].deleted == a.groups@[p as int].deleted);
                    },
                    None => {},
                }
                assert(emitted(a.hard_links@[l], a.datasets@, a.groups@));
            },
        }
    }
}

/// The attributes of a group, the root group or another, are found again when the file has
/// been closed and is read.
pub proof fn lemma_attributes_found(
    w: Hdf5Writer,
    run: Run,
    o: Objects,
    r: Hdf5Reader,
    path: Seq<char>,
)
    requires
        orderly(w),
        finished(w, run),
        seen(run, o),
        opened(r, run, o),
        in_reach(w, path),
    ensures
        attribute_views(group_attributes(r, path)) == attribute_views(held(w, path)),
{
    let z = run.last;
    lemma_finished(w, run);
    if path == seq!['/'] {
        lemma_root_attributes(z);
    } else {
        let g = w.group_index(path)->0;
        lemma_position_is(w.groups@.len(), live_group(w.groups@, path));
        assert(live_group(w.groups@, path)(g));
        assert(rooted(w, g));
        assert(level(z, g) == level(w, g));
        assert(!z.groups@[g].deleted);
        assert(z.groups@[g].attributes == w.groups@[g].attributes);
        lemma_no_group_links_kept(w, z);
        lemma_unlike(z);
        lemma_group_found(z, o, run.root, g);
        let f = found(z, o, run.root);
        let p = trimmed_start(path);
        let is = group_of(r.group_attributes@, p);
        let n = r.group_attributes@.len();
        assert(n == f.groups.len());
        assert forall|i: int| 0 <= i < n implies (#[trigger] f.groups[i]).path
            == r.group_attributes@[i].path@ && f.groups[i].attributes == attribute_views(
            r.group_attributes@[i].attributes@,
        ) by {
            assert(group_views(r.group_attributes@)[i] == f.groups[i]);
        }
        lemma_position_is(n, is);
        match r.group_entry(p) {
            Some(i) => {
                assert(is(i));
                assert(f.groups[i].path == p);
            },
            None => {
                if w.groups@[g].attributes@.len() > 0 {
                    let v = GroupView {
                        path: p,
                        attributes: attribute_views(w.groups@[g].attributes@),
                    };
                    let i = choose|i: int| 0 <= i < f.groups.len() && f.groups[i] == v;
                    assert(f.groups[i].path == p);
                    assert(is(i));
                }
                assert(attribute_views(group_attributes(r, path)) =~= attribute_views(
                    held(w, path),
                ));
            },
        }
    }
}

/// Attributes that say the same are looked up with the same result.
proof fn lemma_same_views(a: Seq<AttributeMessage>, b: Seq<AttributeMessage>, name: Seq<char>)
    requires
        attribute_views(a) == attribute_views(b),
    ensures
        attribute_at(a, name) == attribute_at(b, name),
        attribute_at(a, name) matches Some(i) ==> a[i]@ == b[i]@,
{
    let f = attribute_named(a, name);
    let g = attribute_named(b, name);
    assert(attribute_views(a).len() == a.len());
    assert(attribute_views(b).len() == b.len());
    assert forall|i: int| 0 <= i < a.len() implies (#[trigger] a[i])@ == b[i]@ by {
        assert(attribute_views(a)[i] == attribute_views(b)[i]);
    }
    lemma_position_is(a.len(), f);
    match attribute_at(a, name) {
        Some(i) => {
            assert(f(i));
            assert(a[i]@ == b[i]@);
            assert(g(i));
            assert forall|j: int| 0 <= j < i implies !#[trigger] g(j) by {
                assert(!f(j));
                assert(a[j]@ == b[j]@);
            }
            lemma_position(b.len(), g, i);
        },
        None => {
            assert forall|j: int| 0 <= j < b.len() implies !#[trigger] g(j) by {
                assert(!f(j));
                assert(a[j]@ == b[j]@);
            }
            lemma_no_position(b.len(), g);
        },
    }
}

/// What setting an attribute does to the attributes of the group.
proof fn lemma_put(
    a: Hdf5Writer,
    b: Hdf5Writer,
    r: IoResult<()>,
    path: Seq<char>,
    v: AttributeView,
) -> (m: AttributeMessage)
    requires
        group_attribute_put(a, b, r, path, v),
        path == seq!['/'] || a.group_index(path) is Some,
    ensures
        m@ == v,
        held(b, path) == with_attribute(held(a, path), m),
        path != seq!['/'] ==> b.group_index(path) == a.group_index(path),
        same_tree(a, b),
        b.hard_links == a.hard_links,
{
    if path == seq!['/'] {
        choose|m: AttributeMessage|
            m@ == v && #[trigger] with_attribute(a.root_attributes@, m) == b.root_attributes@
    } else {
        let g = a.group_index(path)->0;
        let m = choose|m: AttributeMessage|
            m@ == v && #[trigger] group_attribute_set(a, b, g, m);
        let f = live_group(a.groups@, path);
        let h = live_group(b.groups@, path);
        lemma_position_is(a.groups@.len(), f);
        assert(f(g));
        assert(h(g));
        assert forall|j: int| 0 <= j < g implies !#[trigger] h(j) by {
            assert(!f(j));
            assert(b.groups@[j] == a.groups@[j]);
        }
        lemma_position(b.groups@.len(), h, g);
        m
    }
}

/// An attribute that has been set twice is found once when the file has been closed and is
/// read, with the value that was set last; attributes of other names are found as they were.
/// This holds of the root group and of other groups.
pub proof fn lemma_attribute_set_twice(
    a: Hdf5Writer,
    b: Hdf5Writer,
    c: Hdf5Writer,
    r1: IoResult<()>,
    r2: IoResult<()>,
    path: Seq<char>,
    v1: AttributeView,
    v2: AttributeView,
    run: Run,
    o: Objects,
    r: Hdf5Reader,
)
    requires
        path == seq!['/'] || a.group_index(path) is Some,
        once_each(held(a, path)),
        group_attribute_put(a, b, r1, path, v1),
        group_attribute_put(b, c, r2, path, v2),
        v1.name == v2.name,
        orderly(a),
        c.wf(),
        finished(c, run),
        seen(run, o),
        opened(r, run, o),
        in_reach(c, path),
    ensures
        ({
            let attrs = group_attributes(r, path);
            &&& attribute_of(attrs, v2.name) matches Some(x) && x@ == v2
            &&& once_each(attrs)
            &&& forall|n: Seq<char>|
                n != v2.name ==> match #[trigger] attribute_of(held(a, path), n) {
                    Some(x) => attribute_of(attrs, n) matches Some(y) && y@ == x@,
                    None => attribute_of(attrs, n) is None,
                }
        }),
{
    let m1 = lemma_put(a, b, r1, path, v1);
    let m2 = lemma_put(b, c, r2, path, v2);
    let x = held(a, path);
    let y = with_attribute(x, m1);
    let z = with_attribute(y, m2);
    let attrs = group_attributes(r, path);
    lemma_orderly_kept(a, c);
    lemma_attributes_found(c, run, o, r, path);
    lemma_attribute_once(x, m1);
    lemma_attribute_once(y, m2);
    lemma_attribute_set(x, m1);
    lemma_attribute_set(y, m2);
    assert(attribute_views(attrs) == attribute_views(z));
    lemma_same_views(attrs, z, v2.name);
    assert(attribute_views(attrs).len() == attrs.len());
    assert(attribute_views(z).len() == z.len());
    assert forall|i: int, j: int| 0 <= i < j < attrs.len() implies (#[trigger] attrs[i]).name@ != (
    #[trigger] attrs[j]).name@ by {
        assert(attribute_views(attrs)[i] == attribute_views(z)[i]);
        assert(attribute_views(attrs)[j] == attribute_views(z)[j]);
        assert(attrs[i]@ == z[i]@ && attrs[j]@ == z[j]@);
        assert(z[i].name@ != z[j].name@);
    }
    assert forall|n: Seq<char>| n != v2.name implies match #[trigger] attribute_of(x, n) {
        Some(p) => attribute_of(attrs, n) matches Some(q) && q@ == p@,
        None => attribute_of(attrs, n) is None,
    } by {
        lemma_same_views(attrs, z, n);
        assert(attribute_at(y, n) == attribute_at(x, n));
        assert(attribute_at(z, n) == attribute_at(y, n));
    }
}

/// A text that has been set as an attribute twice is read as the text that was set last. A
/// text with a zero byte is left out: it ends there.
pub proof fn lemma_text_set_twice(
    a: Hdf5Writer,
    b: Hdf5Writer,
    c: Hdf5Writer,
    r1: IoResult<()>,
    r2: IoResult<()>,
    path: Seq<char>,
    name: Seq<char>,
    first: Seq<char>,
    second: Seq<char>,
    run: Run,
    o: Objects,
    r: Hdf5Reader,
)
    requires
        path == seq!['/'] || a.group_index(path) is Some,
        once_each(held(a, path)),
        group_attribute_put(a, b, r1, path, text_attribute(name, first)),
        group_attribute_put(b, c, r2, path, text_attribute(name, second)),
        !encode_utf8(second).contains(0u8),
        orderly(a),
        c.wf(),
        finished(c, run),
        seen(run, o),
        opened(r, run, o),
        in_reach(c, path),
    ensures
        attribute_of(group_attributes(r, path), name) matches Some(x) && string_value(x@, r.ctx)
            == StringValueView::Here(second),
        once_each(group_attributes(r, path)),
{
    lemma_attribute_set_twice(
        a,
        b,
        c,
        r1,
        r2,
        path,
        text_attribute(name, first),
        text_attribute(name, second),
        run,
        o,
        r,
    );
    lemma_text_attribute(name, second, r.ctx);
}

/// The header of a dataset that has changed is written when the file is finished, also in a
/// file that was opened again, and reads back as the dataset.
pub proof fn lemma_change_written(w: Hdf5Writer, i: int, all: bool, name: Seq<char>)
    requires
        0 <= i < w.datasets@.len() <= usize::MAX,
        w.datasets@[i].header_changed,
    ensures
        header_step(w.datasets@, all, i) == FinalStep::DatasetHeader(i as usize),
        dataset_of(as_read(w.dataset_items(i)), name) == Some(read_of(w.datasets@[i], name)),
{
    lemma_dataset_reads_back(w, i, name);
}

/// An attribute that has been set on a dataset is written when the file is finished, and is
/// found again.
pub proof fn lemma_dataset_attribute_written(
    a: Hdf5Writer,
    b: Hdf5Writer,
    i: int,
    m: AttributeMessage,
    all: bool,
    name: Seq<char>,
)
    requires
        0 <= i < a.datasets@.len() <= usize::MAX,
        dataset_attribute_set(a, b, i, m),
    ensures
        header_step(b.datasets@, all, i) == FinalStep::DatasetHeader(i as usize),
        dataset_of(as_read(b.dataset_items(i)), name) matches Some(d) && d.attributes
            == attribute_views(with_attribute(a.datasets@[i].attributes@, m))
            && d.attributes.contains(m@),
{
    lemma_change_written(b, i, all, name);
    let attrs = a.datasets@[i].attributes@;
    let now = with_attribute(attrs, m);
    lemma_attribute_set(attrs, m);
    let k = attribute_at(now, m.name@)->0;
    lemma_position_is(now.len(), attribute_named(now, m.name@));
    assert(attribute_views(now)[k] == m@);
}

/// A shape that has been set is written when the file is finished, and is found again.
pub proof fn lemma_shape_written(
    a: Hdf5Writer,
    b: Hdf5Writer,
    i: int,
    dims: Seq<u64>,
    all: bool,
    name: Seq<char>,
)
    requires
        0 <= i < a.datasets@.len() <= usize::MAX,
        dims_set(a, b, i, dims),
    ensures
        header_step(b.datasets@, all, i) == FinalStep::DatasetHeader(i as usize),
        dataset_of(as_read(b.dataset_items(i)), name) matches Some(d) && d.dataspace.dims == dims,
{
    lemma_change_written(b, i, all, name);
}

/// A fill value that has been set is written when the file is finished, and is found again.
pub proof fn lemma_fill_written(
    a: Hdf5Writer,
    b: Hdf5Writer,
    r: IoResult<Option<BytesWrite>>,
    i: int,
    bytes: Seq<u8>,
    all: bool,
    name: Seq<char>,
)
    requires
        0 <= i < a.datasets@.len() <= usize::MAX,
        fill_put(a, b, r, i, bytes),
        r is Ok,
    ensures
        header_step(b.datasets@, all, i) == FinalStep::DatasetHeader(i as usize),
        dataset_of(as_read(b.dataset_items(i)), name) matches Some(d) && d.fill_value == Some(
            bytes,
        ),
{
    lemma_change_written(b, i, all, name);
}

} // verus!
