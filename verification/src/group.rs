//! Groups: containers for datasets and other groups, which form the hierarchy of a
//! file.

pub mod listing;
pub mod strings;

use crate::format::global_heap::reference_size;
use crate::format::messages::attribute::{
    scalar_attribute, text_attribute, AttributeMessage, AttributeView,
};
use crate::format::messages::dataspace::SpaceView;
use crate::format::messages::datatype::DatatypeMessage;
use crate::format::messages::filter::FilterPipeline;
use crate::format::UNDEF_ADDR;
use crate::io::allocator::align8;
use crate::io::names::{
    child_path, first_name, first_part, has_slash, is_root, join, strip_prefix, trim_start,
    trimmed_start,
};
use crate::io::reader::catalog::{attribute_of, names_of, string_value, Hdf5Reader, StringValue};
use crate::io::writer::append::{append_fits, appended, buffer_ok, AppendPlan};
use crate::io::writer::catalog::{live_dataset, texts};
use crate::io::writer::datasets::{
    added, bare_dataset, ea_element_size, ea_eof, new_chunked, size_width,
};
use crate::io::writer::state::Hdf5Writer;
use crate::io::writer::storage::{chunk_shape, same_others};
use crate::io::writer::vlen::{appendable_width, contents, references, HeapImage, VlenPlan};
use crate::io::{invalid_state, not_found, IoError, IoErrorView, IoResult};
use crate::swmr::{dataset_listed, group_attribute_put, group_made, link_made, strings_added};
use crate::text::Text;
use crate::types::H5Type;
use vstd::prelude::*;
use vstd::string::{StrSliceExecFns, StringExecFns};
use vstd::utf8::encode_utf8;

verus! {

/// A file as a group sees it.
pub enum FileState {
    /// Being written.
    Writer(Hdf5Writer),
    /// Being read.
    Reader(Hdf5Reader),
    /// No longer open.
    Closed,
}

/// A group of a file.
#[derive(Debug)]
pub struct H5Group {
    /// The absolute path of the group, "/" for the root group.
    name: String,
}

/// A dataset to be created in a group.
#[derive(Debug)]
pub struct DatasetBuilder {
    /// Path of the group.
    pub group: String,
    /// Type of the elements.
    pub datatype: DatatypeMessage,
}

impl View for H5Group {
    type V = Seq<char>;

    closed spec fn view(&self) -> Seq<char> {
        self.name@
    }
}

/// The name of a dataset in a group, as the catalog has it: without a slash at its
/// start.
pub open spec fn dataset_path(group: Seq<char>, name: Seq<char>) -> Seq<char> {
    if group == seq!['/'] {
        name
    } else {
        trimmed_start(group) + "/"@ + name
    }
}

/// What the paths of everything in a group begin with.
pub open spec fn inner_prefix(group: Seq<char>) -> Seq<char> {
    if group == seq!['/'] {
        Seq::empty()
    } else {
        trimmed_start(group) + "/"@
    }
}

/// The path of something in a group as seen from the group.
pub open spec fn seen_from(group: Seq<char>, path: Seq<char>) -> Option<Seq<char>> {
    let p = inner_prefix(group);
    if p.is_prefix_of(path) {
        Some(path.skip(p.len() as int))
    } else {
        None
    }
}

/// The names of the first `n` objects that stand directly in a group.
pub open spec fn direct(group: Seq<char>, all: Seq<Seq<char>>, n: nat) -> Seq<Seq<char>>
    decreases n,
{
    if n == 0 {
        Seq::empty()
    } else {
        let before = direct(group, all, (n - 1) as nat);
        match seen_from(group, all[n - 1]) {
            Some(s) => if s.contains('/') {
                before
            } else {
                before.push(s)
            },
            None => before,
        }
    }
}

/// Whether a path leads to a group `child` within a group. A path of a dataset leads
/// to a group only if something follows.
pub open spec fn leads_to(group: Seq<char>, path: Seq<char>, child: Seq<char>, dataset: bool) -> bool {
    match seen_from(group, path) {
        Some(s) => child == first_part(s) && if dataset {
            s.contains('/')
        } else {
            s.len() > 0
        },
        None => false,
    }
}

/// Whether one of the first `n` paths leads to a group `child` within a group.
pub open spec fn has_child(
    group: Seq<char>,
    all: Seq<Seq<char>>,
    child: Seq<char>,
    dataset: bool,
    n: int,
) -> bool {
    exists|i: int| 0 <= i < n && #[trigger] leads_to(group, all[i], child, dataset)
}

/// Alphabetical order.
pub open spec fn before(a: Seq<char>, b: Seq<char>) -> bool
    decreases a.len(),
{
    if b.len() == 0 {
        false
    } else if a.len() == 0 {
        true
    } else if a[0] == b[0] {
        before(a.skip(1), b.skip(1))
    } else {
        (a[0] as u32) < (b[0] as u32)
    }
}

/// Whether names are in alphabetical order, each once.
pub open spec fn in_order(names: Seq<Seq<char>>) -> bool {
    forall|i: int, j: int|
        0 <= i < j < names.len() ==> before(#[trigger] names[i], #[trigger] names[j])
}

/// One name comes first, or they are the same.
proof fn lemma_before_total(a: Seq<char>, b: Seq<char>)
    ensures
        before(a, b) || before(b, a) || a == b,
        !(before(a, b) && before(b, a)),
        a == b ==> !before(a, b),
    decreases a.len(),
{
    if a.len() > 0 && b.len() > 0 {
        if a[0] == b[0] {
            lemma_before_total(a.skip(1), b.skip(1));
            if a.skip(1) == b.skip(1) {
                assert(a =~= seq![a[0]] + a.skip(1));
                assert(b =~= seq![b[0]] + b.skip(1));
            }
        } else {
            vstd::utf8::char_u32_cast(a[0], a[0] as u32);
            vstd::utf8::char_u32_cast(b[0], b[0] as u32);
        }
    } else if a.len() == 0 && b.len() == 0 {
        assert(a =~= b);
    }
}

proof fn lemma_before_trans(a: Seq<char>, b: Seq<char>, c: Seq<char>)
    requires
        before(a, b),
        before(b, c),
    ensures
        before(a, c),
    decreases a.len(),
{
    if a.len() > 0 && a[0] == b[0] && b[0] == c[0] {
        lemma_before_trans(a.skip(1), b.skip(1), c.skip(1));
    }
}

/// The first place at which two texts differ decides.
proof fn lemma_before_at(a: Seq<char>, b: Seq<char>, i: int)
    requires
        0 <= i <= a.len(),
        i <= b.len(),
        a.take(i) == b.take(i),
        i == a.len() || i == b.len() || a[i] != b[i],
    ensures
        before(a, b) == (i < b.len() && (i == a.len() || (a[i] as u32) < (b[i] as u32))),
    decreases i,
{
    if i > 0 {
        assert(a[0] == a.take(i)[0]);
        assert(b[0] == b.take(i)[0]);
        assert(a.skip(1).take(i - 1) =~= a.take(i).skip(1));
        assert(b.skip(1).take(i - 1) =~= b.take(i).skip(1));
        lemma_before_at(a.skip(1), b.skip(1), i - 1);
    }
}

/// Whether one text comes before another in alphabetical order.
fn comes_before(a: &str, b: &str) -> (r: bool)
    ensures
        r == before(a@, b@),
{
    let n: usize = a.unicode_len();
    let m: usize = b.unicode_len();
    let mut i: usize = 0;
    assert(a@.take(0) =~= b@.take(0));
    while i < n && i < m && a.get_char(i) == b.get_char(i)
        invariant
            n == a@.len(),
            m == b@.len(),
            i <= n,
            i <= m,
            a@.take(i as int) == b@.take(i as int),
        decreases n - i,
    {
        assert(a@.take(i + 1) =~= a@.take(i as int).push(a@[i as int]));
        assert(b@.take(i + 1) =~= b@.take(i as int).push(b@[i as int]));
        i = i + 1;
    }
    proof {
        lemma_before_at(a@, b@, i as int);
    }
    if i >= m {
        false
    } else if i >= n {
        true
    } else {
        (a.get_char(i) as u32) < (b.get_char(i) as u32)
    }
}

/// Put a name into a list in alphabetical order, unless it is there.
pub fn put_name(names: &mut Vec<String>, s: String)
    requires
        in_order(texts(old(names)@)),
    ensures
        in_order(texts(final(names)@)),
        forall|x: Seq<char>|
            #[trigger] texts(final(names)@).contains(x) <==> (texts(old(names)@).contains(x) || x
                == s@),
{
    let n: usize = names.len();
    let mut i: usize = 0;
    let ghost was = texts(names@);
    while i < n && comes_before(names[i].as_str(), s.as_str())
        invariant
            n == names@.len(),
            i <= n,
            names@ == old(names)@,
            was == texts(names@),
            in_order(was),
            forall|k: int| 0 <= k < i ==> before(#[trigger] was[k], s@),
        decreases n - i,
    {
        i = i + 1;
    }
    if i < n && names[i] == s {
        proof {
            assert(was[i as int] == s@);
        }
        return;
    }
    let ghost text = s@;
    names.insert(i, s);
    proof {
        let now = texts(names@);
        assert(now =~= was.insert(i as int, text));
        if i < n {
            lemma_before_total(was[i as int], text);
        }
        assert forall|a: int, b: int| 0 <= a < b < now.len() implies before(
            #[trigger] now[a],
            #[trigger] now[b],
        ) by {
            if b < i {
                assert(now[a] == was[a] && now[b] == was[b]);
            } else if b == i {
                assert(now[a] == was[a]);
            } else if a < i {
                assert(now[a] == was[a] && now[b] == was[b - 1]);
            } else if a == i {
                assert(now[b] == was[b - 1]);
                if b - 1 > i {
                    lemma_before_trans(text, was[i as int], was[b - 1]);
                }
            } else {
                assert(now[a] == was[a - 1] && now[b] == was[b - 1]);
            }
        }
        assert forall|x: Seq<char>| #[trigger] now.contains(x) <==> (was.contains(x) || x == text) by {
            if was.contains(x) {
                let k = choose|k: int| 0 <= k < was.len() && was[k] == x;
                if k < i {
                    assert(now[k] == x);
                } else {
                    assert(now[k + 1] == x);
                }
            }
            if x == text {
                assert(now[i as int] == x);
            }
            if now.contains(x) {
                let k = choose|k: int| 0 <= k < now.len() && now[k] == x;
                if k < i {
                    assert(was[k] == x);
                } else if k > i {
                    assert(was[k - 1] == x);
                }
            }
        }
    }
}

/// The path of something in a group as seen from the group.
fn strip<'a>(group: &str, path: &'a str) -> (r: Option<&'a str>)
    ensures
        match r {
            Some(s) => seen_from(group@, path@) == Some(s@),
            None => seen_from(group@, path@) is None,
        },
{
    if is_root(group) {
        assert(path@.skip(0) =~= path@);
        assert(Seq::<char>::empty().is_prefix_of(path@));
        Some(path)
    } else {
        let p: String = trim_start(group).to_owned().concat("/");
        let r = strip_prefix(path, p.as_str());
        proof {
            match r {
                Some(t) => {
                    assert(p@.is_prefix_of(path@)) by {
                        assert(p@ =~= path@.subrange(0, p@.len() as int));
                    }
                    assert(t@ =~= path@.skip(p@.len() as int));
                },
                None => {},
            }
        }
        r
    }
}

/// The names that stand directly in a group.
fn direct_names(group: &str, all: &Vec<String>) -> (names: Vec<String>)
    ensures
        texts(names@) == direct(group@, texts(all@), all@.len()),
{
    let mut names: Vec<String> = Vec::new();
    let mut i: usize = 0;
    assert(texts(names@) =~= Seq::<Seq<char>>::empty());
    while i < all.len()
        invariant
            i <= all.len(),
            texts(names@) == direct(group@, texts(all@), i as nat),
        decreases all.len() - i,
    {
        let ghost was = names@;
        assert(texts(all@)[i as int] == all@[i as int]@);
        match strip(group, all[i].as_str()) {
            Some(s) => {
                if !has_slash(s) {
                    names.push(s.to_owned());
                    assert(texts(names@) =~= texts(was).push(s@));
                }
            },
            None => {},
        }
        i = i + 1;
    }
    names
}

/// Add the groups within a group to which paths lead, in alphabetical order.
fn add_children(group: &str, all: &Vec<String>, dataset: bool, names: &mut Vec<String>)
    requires
        in_order(texts(old(names)@)),
    ensures
        in_order(texts(final(names)@)),
        forall|x: Seq<char>|
            #[trigger] texts(final(names)@).contains(x) <==> texts(old(names)@).contains(x)
                || has_child(group@, texts(all@), x, dataset, all@.len() as int),
{
    let mut i: usize = 0;
    let ghost paths = texts(all@);
    let ghost first = texts(names@);
    while i < all.len()
        invariant
            i <= all.len(),
            paths == texts(all@),
            in_order(texts(names@)),
            forall|x: Seq<char>|
                #[trigger] texts(names@).contains(x) <==> first.contains(x) || has_child(
                    group@,
                    paths,
                    x,
                    dataset,
                    i as int,
                ),
        decreases all.len() - i,
    {
        assert(paths[i as int] == all@[i as int]@);
        let ghost was = texts(names@);
        let ghost mut added: Option<Seq<char>> = None;
        match strip(group, all[i].as_str()) {
            Some(s) => {
                let wanted: bool = if dataset {
                    has_slash(s)
                } else {
                    s.unicode_len() > 0
                };
                if wanted {
                    let child = first_name(s);
                    proof {
                        added = Some(child@);
                    }
                    put_name(names, child.to_owned());
                }
            },
            None => {},
        }
        proof {
            let now = texts(names@);
            assert forall|x: Seq<char>| #[trigger]
                now.contains(x) <==> first.contains(x) || has_child(
                group@,
                paths,
                x,
                dataset,
                i + 1,
            ) by {
                assert(leads_to(group@, paths[i as int], x, dataset) == (added == Some(x)));
                if was.contains(x) && !first.contains(x) {
                    let k = choose|k: int|
                        0 <= k < i && #[trigger] leads_to(group@, paths[k], x, dataset);
                    assert(leads_to(group@, paths[k], x, dataset));
                }
                if has_child(group@, paths, x, dataset, i + 1) {
                    let k = choose|k: int|
                        0 <= k < i + 1 && #[trigger] leads_to(group@, paths[k], x, dataset);
                    if k < i {
                        assert(has_child(group@, paths, x, dataset, i as int));
                    }
                }
            }
        }
        i = i + 1;
    }
}

/// The error that a file of this state does not allow the operation.
pub open spec fn refused(f: FileState, read_mode: Seq<char>) -> Option<IoErrorView> {
    match f {
        FileState::Writer(_) => None,
        FileState::Reader(_) => Some(IoErrorView::InvalidState(read_mode)),
        FileState::Closed => Some(IoErrorView::InvalidState("file is closed"@)),
    }
}

/// The file being written.
pub open spec fn written(f: FileState) -> Hdf5Writer {
    f->Writer_0
}

/// Whether strings in compressed chunks have been added to the file.
pub open spec fn strings_chunked(
    a: Hdf5Writer,
    b: Hdf5Writer,
    p: VlenPlan,
    name: Seq<char>,
    strings: Seq<Seq<char>>,
    chunk_size: usize,
    pipeline: FilterPipeline,
    heap: HeapImage,
) -> bool {
    let eof = a.allocator.spec_eof() as int;
    let n = strings.len() as u64;
    let csl = Some(size_width(chunk_size as nat * reference_size(a.ctx)) as u8);
    let d = b.datasets@[p.index as int];
    &&& p.index == a.datasets@.len()
    &&& added(a, b)
    &&& p.heap_addr == align8(eof)
    &&& p.data_addr == UNDEF_ADDR
    &&& p.raw@ == references(strings, heap.indices@, p.heap_addr, a.ctx)
    &&& bare_dataset(
        d,
        name,
        DatatypeMessage::VarLenString { size: 16 },
        SpaceView { dims: seq![n], max_dims: Some(seq![n]) },
    )
    &&& d.filter_pipeline == Some(pipeline)
    &&& new_chunked(
        d,
        a.ctx,
        csl,
        p.heap_addr + heap.size,
        seq![n],
        seq![chunk_size as u64],
    )
    &&& b.allocator.spec_eof() == ea_eof(
        a.ctx,
        ea_element_size(a.ctx, csl),
        p.heap_addr + heap.size,
    )
}

/// Whether there is room for strings in compressed chunks.
pub open spec fn strings_room(w: Hdf5Writer, chunk_size: usize, heap: HeapImage) -> bool {
    let csl = Some(size_width(chunk_size as nat * reference_size(w.ctx)) as u8);
    let raw = ea_element_size(w.ctx, csl);
    &&& w.datasets@.len() < usize::MAX
    &&& w.allocator.spec_eof() + 8 + heap.size <= u64::MAX
    &&& chunk_size * reference_size(w.ctx) <= u64::MAX
    &&& raw <= 255
    &&& ea_eof(w.ctx, raw, align8(w.allocator.spec_eof() as int) + heap.size) <= u64::MAX
}

/// Whether an empty dataset of strings that can be appended to has been added.
pub open spec fn appendable_added(
    a: Hdf5Writer,
    b: Hdf5Writer,
    name: Seq<char>,
    chunk_size: usize,
    pipeline: Option<FilterPipeline>,
) -> bool {
    let eof = a.allocator.spec_eof() as int;
    let csl = appendable_width(chunk_size, pipeline);
    let d = b.datasets@[a.datasets@.len() as int];
    &&& added(a, b)
    &&& bare_dataset(
        d,
        name,
        DatatypeMessage::VarLenString { size: 16 },
        SpaceView { dims: seq![0u64], max_dims: Some(seq![u64::MAX]) },
    )
    &&& d.filter_pipeline == pipeline
    &&& new_chunked(d, a.ctx, csl, eof, seq![u64::MAX], seq![chunk_size as u64])
    &&& b.allocator.spec_eof() == ea_eof(a.ctx, ea_element_size(a.ctx, csl), eof)
}

/// What appending strings to a dataset comes to.
pub open spec fn strings_appended(
    a: Hdf5Writer,
    b: Hdf5Writer,
    i: int,
    strings: Seq<Seq<char>>,
    heap: HeapImage,
    r: IoResult<Option<AppendPlan>>,
) -> bool {
    let d = a.datasets@[i];
    let fb = reference_size(a.ctx);
    let at = align8(a.allocator.spec_eof() as int);
    if strings.len() == 0 {
        r == Ok::<Option<AppendPlan>, IoError>(None) && b == a
    } else {
        &&& b.allocator.spec_eof() == at + heap.size
        &&& same_others(a, b, i)
        &&& if chunk_shape(d) is None {
            &&& (r matches Err(e) && e@ == IoErrorView::InvalidState("not a chunked dataset"@))
            &&& b.datasets@[i] == d
        } else {
            r matches Ok(Some(p)) && p.heap_addr == at && appended(
                d,
                b.datasets@[i],
                references(strings, heap.indices@, at as u64, a.ctx),
                strings.len(),
                fb,
                p,
            )
        }
    }
}

/// Whether a new dataset has been listed in its group. Datasets of the root group
/// are not listed.
pub open spec fn placed_in(
    a: Hdf5Writer,
    b: Hdf5Writer,
    r: IoResult<()>,
    group: Seq<char>,
    i: usize,
) -> bool {
    if group == seq!['/'] {
        r is Ok && b == a
    } else {
        dataset_listed(a, b, r, group, i)
    }
}

/// Whether the outcome of an operation is that of its last step.
pub open spec fn ends_with<T>(r: IoResult<T>, last: IoResult<()>) -> bool {
    match last {
        Ok(_) => r is Ok,
        Err(x) => r matches Err(e) && e@ == x@,
    }
}

/// List a dataset in its group.
fn place_dataset(w: &mut Hdf5Writer, group: &str, i: usize) -> (r: IoResult<()>)
    requires
        old(w).wf(),
        i < old(w).datasets@.len(),
    ensures
        final(w).wf(),
        placed_in(*old(w), *final(w), r, group@, i),
{
    if is_root(group) {
        Ok(())
    } else {
        w.assign_dataset_to_group(group, i)
    }
}

impl FileState {
    /// The catalog of a file being written is in order.
    pub open spec fn wf(self) -> bool {
        self matches FileState::Writer(w) ==> w.wf()
    }
}

impl H5Group {
    /// The root group of a file.
    pub fn root() -> (g: Self)
        ensures
            g@ == seq!['/'],
    {
        proof {
            reveal_strlit("/");
            assert("/"@ =~= seq!['/']);
        }
        H5Group { name: "/".to_owned() }
    }

    /// The path of the group.
    pub fn name(&self) -> (s: &str)
        ensures
            s@ == self@,
    {
        self.name.as_str()
    }

    /// The name in the catalog of a dataset of this group.
    fn dataset_name(&self, name: &str) -> (s: String)
        ensures
            s@ == dataset_path(self@, name@),
    {
        if is_root(self.name.as_str()) {
            name.to_owned()
        } else {
            trim_start(self.name.as_str()).to_owned().concat("/").concat(name)
        }
    }

    /// Begin a dataset in this group.
    pub fn new_dataset<T: H5Type>(&self) -> (b: DatasetBuilder)
        ensures
            b.group@ == self@,
            b.datatype.message_view() == T::type_view(),
    {
        DatasetBuilder { group: self.name.clone(), datatype: T::hdf5_type() }
    }

    /// Create a group within this group.
    pub fn create_group(&self, file: &mut FileState, name: &str) -> (r: IoResult<H5Group>)
        requires
            old(file).wf(),
            *old(file) matches FileState::Writer(w) ==> w.groups@.len() < usize::MAX,
        ensures
            final(file).wf(),
            match refused(*old(file), "cannot create groups in read mode"@) {
                Some(x) => (r matches Err(e) && e@ == x) && *final(file) == *old(file),
                None => {
                    &&& *final(file) is Writer
                    &&& match r {
                        Ok(g) => g@ == child_path(self@, name@) && group_made(
                            written(*old(file)),
                            written(*final(file)),
                            self@,
                            name@,
                        ),
                        Err(e) => written(*old(file)).group_error(self@, name@) == Some(e@)
                            && *final(file) == *old(file),
                    }
                },
            },
    {
        match file {
            FileState::Writer(w) => match w.create_group(self.name.as_str(), name) {
                Ok(_) => Ok(H5Group { name: join(self.name.as_str(), name) }),
                Err(e) => Err(e),
            },
            FileState::Reader(_) => Err(
                invalid_state(Text::new("cannot create groups in read mode")),
            ),
            FileState::Closed => Err(invalid_state(Text::new("file is closed"))),
        }
    }

    /// Create a hard link in this group: an additional name for the object at
    /// `target_path`.
    pub fn link(&self, file: &mut FileState, link_name: &str, target_path: &str) -> (r: IoResult<()>)
        requires
            old(file).wf(),
        ensures
            final(file).wf(),
            match refused(*old(file), "cannot create hard links in read mode"@) {
                Some(x) => (r matches Err(e) && e@ == x) && *final(file) == *old(file),
                None => {
                    &&& *final(file) is Writer
                    &&& match r {
                        Ok(_) => link_made(
                            written(*old(file)),
                            written(*final(file)),
                            self@,
                            link_name@,
                            target_path@,
                        ),
                        Err(e) => written(*old(file)).link_error(
                            self@,
                            link_name@,
                            target_path@,
                        ) == Some(e@) && *final(file) == *old(file),
                    }
                },
            },
    {
        match file {
            FileState::Writer(w) => w.create_hard_link(self.name.as_str(), link_name, target_path),
            FileState::Reader(_) => Err(
                invalid_state(Text::new("cannot create hard links in read mode")),
            ),
            FileState::Closed => Err(invalid_state(Text::new("file is closed"))),
        }
    }

    /// Open a group within this group. While a file is read, the group has to be
    /// there.
    pub fn group(&self, file: &FileState, name: &str) -> (r: IoResult<H5Group>)
        ensures
            ({
                let full = child_path(self@, name@);
                let path = trimmed_start(full);
                let missing = file matches FileState::Reader(x) && path.len() != 0 && !texts(
                    x.group_paths@,
                ).contains(path);
                if missing {
                    r matches Err(e) && e@ == IoErrorView::NotFound(full)
                } else {
                    r matches Ok(g) && g@ == full
                }
            }),
    {
        let full = join(self.name.as_str(), name);
        match file {
            FileState::Reader(x) => {
                if !x.has_group(trim_start(full.as_str())) {
                    return Err(not_found(Text::new(full.as_str())));
                }
            },
            _ => {},
        }
        Ok(H5Group { name: full })
    }

    /// The names of the datasets directly in this group.
    pub fn dataset_names(&self, file: &FileState) -> (names: Vec<String>)
        ensures
            texts(names@) == (match *file {
                FileState::Reader(x) => direct(self@, read_names(x), x.datasets@.len()),
                FileState::Writer(w) => {
                    let all = w.live_names(w.datasets@.len());
                    direct(self@, all, all.len())
                },
                FileState::Closed => Seq::empty(),
            }),
    {
        match file {
            FileState::Reader(x) => {
                let all = x.dataset_names();
                assert(texts(all@) =~= read_names(*x));
                direct_names(self.name.as_str(), &all)
            },
            FileState::Writer(w) => {
                let all = w.dataset_names();
                assert(texts(all@).len() == all@.len());
                direct_names(self.name.as_str(), &all)
            },
            FileState::Closed => {
                let names: Vec<String> = Vec::new();
                assert(texts(names@) =~= Seq::empty());
                names
            },
        }
    }

    /// Create a dataset of strings in this group and write it.
    pub fn write_vlen_strings(
        &self,
        file: &mut FileState,
        name: &str,
        strings: &[&str],
        heap: &HeapImage,
    ) -> (r: IoResult<VlenPlan>)
        requires
            old(file).wf(),
            heap.indices@.len() == strings@.len(),
            *old(file) matches FileState::Writer(w) ==> {
                &&& w.datasets@.len() < usize::MAX
                &&& w.allocator.spec_eof() + 16 + heap.size + strings@.len() * reference_size(w.ctx)
                    <= u64::MAX
            },
        ensures
            final(file).wf(),
            match refused(*old(file), "cannot write in read mode"@) {
                Some(x) => (r matches Err(e) && e@ == x) && *final(file) == *old(file),
                None => match written(*old(file)).name_error(dataset_path(self@, name@)) {
                    Some(x) => (r matches Err(e) && e@ == x) && *final(file) == *old(file),
                    None => {
                    &&& *final(file) is Writer
                    &&& exists|mid: Hdf5Writer, p: VlenPlan, last: IoResult<()>|
                        {
                            &&& #[trigger] strings_added(
                                written(*old(file)),
                                mid,
                                p,
                                dataset_path(self@, name@),
                                contents(strings@),
                                *heap,
                            )
                            &&& #[trigger] placed_in(
                                mid,
                                written(*final(file)),
                                last,
                                self@,
                                p.index,
                            )
                            &&& ends_with(r, last)
                            &&& (r matches Ok(x) ==> x == p)
                        }
                    },
                },
            },
    {
        let full = self.dataset_name(name);
        match file {
            FileState::Writer(w) => {
                let ghost before = *w;
                match w.create_vlen_string_dataset(full.as_str(), strings, heap) {
                    Err(e) => Err(e),
                    Ok(plan) => {
                        let ghost mid = *w;
                        let index: usize = plan.index;
                        let ghost p = plan;
                        let last = place_dataset(w, self.name.as_str(), index);
                        proof {
                            assert(strings_added(
                                before,
                                mid,
                                p,
                                dataset_path(self@, name@),
                                contents(strings@),
                                *heap,
                            ));
                            assert(placed_in(mid, *w, last, self@, p.index));
                        }
                        match last {
                            Ok(_) => Ok(plan),
                            Err(e) => Err(e),
                        }
                    },
                }
            },
            FileState::Reader(_) => Err(invalid_state(Text::new("cannot write in read mode"))),
            FileState::Closed => Err(invalid_state(Text::new("file is closed"))),
        }
    }

    /// Create a dataset of strings in compressed chunks in this group.
    pub fn write_vlen_strings_compressed(
        &self,
        file: &mut FileState,
        name: &str,
        strings: &[&str],
        chunk_size: usize,
        pipeline: FilterPipeline,
        heap: &HeapImage,
    ) -> (r: IoResult<VlenPlan>)
        requires
            old(file).wf(),
            heap.indices@.len() == strings@.len(),
            *old(file) matches FileState::Writer(w) ==> strings_room(w, chunk_size, *heap),
        ensures
            final(file).wf(),
            match refused(*old(file), "cannot write in read mode"@) {
                Some(x) => (r matches Err(e) && e@ == x) && *final(file) == *old(file),
                None => match written(*old(file)).name_error(dataset_path(self@, name@)) {
                    Some(x) => (r matches Err(e) && e@ == x) && *final(file) == *old(file),
                    None => {
                    &&& *final(file) is Writer
                    &&& exists|mid: Hdf5Writer, p: VlenPlan, last: IoResult<()>|
                        {
                            &&& #[trigger] strings_chunked(
                                written(*old(file)),
                                mid,
                                p,
                                dataset_path(self@, name@),
                                contents(strings@),
                                chunk_size,
                                pipeline,
                                *heap,
                            )
                            &&& #[trigger] placed_in(
                                mid,
                                written(*final(file)),
                                last,
                                self@,
                                p.index,
                            )
                            &&& ends_with(r, last)
                            &&& (r matches Ok(x) ==> x == p)
                        }
                    },
                },
            },
    {
        let full = self.dataset_name(name);
        match file {
            FileState::Writer(w) => {
                let ghost before = *w;
                match w.create_vlen_string_dataset_compressed(
                    full.as_str(),
                    strings,
                    chunk_size,
                    pipeline,
                    heap,
                ) {
                    Err(e) => Err(e),
                    Ok(plan) => {
                        let ghost mid = *w;
                        let index: usize = plan.index;
                        let ghost p = plan;
                        let last = place_dataset(w, self.name.as_str(), index);
                        proof {
                            assert(strings_chunked(
                                before,
                                mid,
                                p,
                                dataset_path(self@, name@),
                                contents(strings@),
                                chunk_size,
                                pipeline,
                                *heap,
                            ));
                            assert(placed_in(mid, *w, last, self@, p.index));
                        }
                        match last {
                            Ok(_) => Ok(plan),
                            Err(e) => Err(e),
                        }
                    },
                }
            },
            FileState::Reader(_) => Err(invalid_state(Text::new("cannot write in read mode"))),
            FileState::Closed => Err(invalid_state(Text::new("file is closed"))),
        }
    }

    /// Create an empty dataset of strings in this group, ready for appending.
    pub fn create_appendable_vlen_dataset(
        &self,
        file: &mut FileState,
        name: &str,
        chunk_size: usize,
        pipeline: Option<FilterPipeline>,
    ) -> (r: IoResult<()>)
        requires
            old(file).wf(),
            chunk_size * 16 <= u64::MAX,
            *old(file) matches FileState::Writer(w) ==> w.index_room(
                appendable_width(chunk_size, pipeline),
            ),
        ensures
            final(file).wf(),
            match refused(*old(file), "cannot write in read mode"@) {
                Some(x) => (r matches Err(e) && e@ == x) && *final(file) == *old(file),
                None => {
                    let a = written(*old(file));
                    let full = dataset_path(self@, name@);
                    &&& *final(file) is Writer
                    &&& match a.name_error(full) {
                        Some(x) => (r matches Err(e) && e@ == x) && *final(file) == *old(file),
                        None => exists|mid: Hdf5Writer|
                            {
                                &&& #[trigger] appendable_added(
                                    a,
                                    mid,
                                    full,
                                    chunk_size,
                                    pipeline,
                                )
                                &&& placed_in(
                                    mid,
                                    written(*final(file)),
                                    r,
                                    self@,
                                    a.datasets@.len() as usize,
                                )
                            },
                    }
                },
            },
    {
        let full = self.dataset_name(name);
        match file {
            FileState::Writer(w) => {
                let ghost before = *w;
                match w.create_appendable_vlen_string_dataset(full.as_str(), chunk_size, pipeline) {
                    Err(e) => Err(e),
                    Ok(index) => {
                        let ghost mid = *w;
                        let last = place_dataset(w, self.name.as_str(), index);
                        proof {
                            assert(appendable_added(
                                before,
                                mid,
                                dataset_path(self@, name@),
                                chunk_size,
                                pipeline,
                            ));
                        }
                        last
                    },
                }
            },
            FileState::Reader(_) => Err(invalid_state(Text::new("cannot write in read mode"))),
            FileState::Closed => Err(invalid_state(Text::new("file is closed"))),
        }
    }

    /// Append strings to a dataset of this group.
    pub fn append_vlen_strings(
        &self,
        file: &mut FileState,
        name: &str,
        strings: &[&str],
        heap: &HeapImage,
    ) -> (r: IoResult<Option<AppendPlan>>)
        requires
            old(file).wf(),
            heap.indices@.len() == strings@.len(),
            *old(file) matches FileState::Writer(w) ==> {
                &&& w.allocator.spec_eof() + 8 + heap.size <= u64::MAX
                &&& match w.spec_dataset_index(dataset_path(self@, name@)) {
                    Some(i) => chunk_shape(w.datasets@[i]) is Some ==> buffer_ok(
                        w.datasets@[i],
                        reference_size(w.ctx),
                    ) && append_fits(w.datasets@[i], reference_size(w.ctx), strings@.len()),
                    None => true,
                }
            },
        ensures
            final(file).wf(),
            match refused(*old(file), "cannot write in read mode"@) {
                Some(x) => (r matches Err(e) && e@ == x) && *final(file) == *old(file),
                None => {
                    let a = written(*old(file));
                    let full = dataset_path(self@, name@);
                    &&& *final(file) is Writer
                    &&& match a.spec_dataset_index(full) {
                        Some(i) => strings_appended(
                            a,
                            written(*final(file)),
                            i,
                            contents(strings@),
                            *heap,
                            r,
                        ),
                        None => (r matches Err(e) && e@ == IoErrorView::NotFound(full))
                            && *final(file) == *old(file),
                    }
                },
            },
    {
        let full = self.dataset_name(name);
        match file {
            FileState::Writer(w) => {
                proof {
                    crate::io::search::lemma_position_is(
                        w.datasets@.len(),
                        live_dataset(w.datasets@, full@),
                    );
                }
                match w.dataset_index(full.as_str()) {
                    None => Err(not_found(Text::new(full.as_str()))),
                    Some(i) => w.append_vlen_strings(i, strings, heap),
                }
            },
            FileState::Reader(_) => Err(invalid_state(Text::new("cannot write in read mode"))),
            FileState::Closed => Err(invalid_state(Text::new("file is closed"))),
        }
    }

    /// The names of the groups directly in this group, in alphabetical order. While a
    /// file is written, the paths of its datasets lead to groups as well.
    pub fn group_names(&self, file: &FileState) -> (names: Vec<String>)
        ensures
            in_order(texts(names@)),
            forall|x: Seq<char>|
                #[trigger] texts(names@).contains(x) <==> (match *file {
                    FileState::Reader(f) => has_child(
                        self@,
                        texts(f.group_paths@),
                        x,
                        false,
                        f.group_paths@.len() as int,
                    ),
                    FileState::Writer(w) => {
                        let groups = w.live_groups(w.groups@.len());
                        let all = w.live_names(w.datasets@.len());
                        has_child(self@, groups, x, false, groups.len() as int) || has_child(
                            self@,
                            all,
                            x,
                            true,
                            all.len() as int,
                        )
                    },
                    FileState::Closed => false,
                }),
    {
        let mut names: Vec<String> = Vec::new();
        assert(texts(names@) =~= Seq::empty());
        match file {
            FileState::Reader(f) => {
                add_children(self.name.as_str(), &f.group_paths, false, &mut names);
            },
            FileState::Writer(w) => {
                let groups = w.live_group_paths();
                assert(texts(groups@).len() == groups@.len());
                add_children(self.name.as_str(), &groups, false, &mut names);
                let all = w.dataset_names();
                assert(texts(all@).len() == all@.len());
                add_children(self.name.as_str(), &all, true, &mut names);
            },
            FileState::Closed => {},
        }
        names
    }

    /// Set an attribute of this group.
    fn add_attr(&self, file: &mut FileState, attr: AttributeMessage) -> (r: IoResult<()>)
        requires
            old(file).wf(),
        ensures
            final(file).wf(),
            attribute_outcome(*old(file), *final(file), r, self@, attr@),
    {
        match file {
            FileState::Writer(w) => {
                if is_root(self.name.as_str()) {
                    w.add_root_attribute(attr);
                    Ok(())
                } else {
                    w.add_group_attribute(self.name.as_str(), attr)
                }
            },
            FileState::Reader(_) => Err(
                invalid_state(Text::new("cannot write attributes in read mode")),
            ),
            FileState::Closed => Err(invalid_state(Text::new("file is closed"))),
        }
    }

    /// Set a string attribute of this group, in place of one of the same name.
    pub fn set_attr_string(&self, file: &mut FileState, name: &str, value: &str) -> (r: IoResult<()>)
        requires
            old(file).wf(),
            encode_utf8(value@).len() <= u32::MAX,
        ensures
            final(file).wf(),
            attribute_outcome(
                *old(file),
                *final(file),
                r,
                self@,
                text_attribute(name@, value@),
            ),
    {
        self.add_attr(file, AttributeMessage::scalar_string(name, value))
    }

    /// Set a numeric attribute of this group, in place of one of the same name.
    pub fn set_attr_numeric<T: H5Type>(&self, file: &mut FileState, name: &str, value: &T) -> (r:
        IoResult<()>)
        requires
            old(file).wf(),
        ensures
            final(file).wf(),
            attribute_outcome(
                *old(file),
                *final(file),
                r,
                self@,
                scalar_attribute(name@, T::type_view(), value.bytes()),
            ),
    {
        self.add_attr(
            file,
            AttributeMessage::scalar_numeric(name, T::hdf5_type(), value.to_bytes()),
        )
    }

    /// The names of this group's attributes, while a file is read.
    pub fn attr_names(&self, file: &FileState) -> (r: IoResult<Vec<String>>)
        ensures
            match *file {
                FileState::Reader(f) => r matches Ok(v) && texts(v@) == names_of(
                    group_attributes(f, self@),
                ),
                _ => r matches Err(e) && e@ == IoErrorView::InvalidState(
                    "attr_names is only available in read mode"@,
                ),
            },
    {
        match file {
            FileState::Reader(f) => {
                if is_root(self.name.as_str()) {
                    Ok(f.root_attr_names())
                } else {
                    Ok(f.group_attr_names(trim_start(self.name.as_str())))
                }
            },
            _ => Err(invalid_state(Text::new("attr_names is only available in read mode"))),
        }
    }

    /// One of this group's attributes as a string, while a file is read: the value,
    /// or the place of the value in a heap.
    pub fn attr_string(&self, file: &FileState, name: &str) -> (r: IoResult<StringValue>)
        requires
            file matches FileState::Reader(f) ==> f.ctx.sizeof_addr <= 8,
        ensures
            match *file {
                FileState::Reader(f) => match attribute_of(group_attributes(f, self@), name@) {
                    Some(a) => r matches Ok(v) && v@ == string_value(a@, f.ctx),
                    None => r matches Err(e) && e@ == IoErrorView::NotFound(name@),
                },
                _ => r matches Err(e) && e@ == IoErrorView::InvalidState(
                    "attr_string is only available in read mode"@,
                ),
            },
    {
        match file {
            FileState::Reader(f) => {
                let found = if is_root(self.name.as_str()) {
                    f.root_attr(name)
                } else {
                    f.group_attr(trim_start(self.name.as_str()), name)
                };
                match found {
                    Some(a) => Ok(f.attr_string_value(a)),
                    None => Err(not_found(Text::new(name))),
                }
            },
            _ => Err(invalid_state(Text::new("attr_string is only available in read mode"))),
        }
    }
}

/// The names of a reader's datasets.
pub open spec fn read_names(f: Hdf5Reader) -> Seq<Seq<char>> {
    Seq::new(f.datasets@.len(), |i: int| f.datasets@[i].name@)
}

/// The attributes of the group at a path.
pub open spec fn group_attributes(f: Hdf5Reader, group: Seq<char>) -> Seq<AttributeMessage> {
    if group == seq!['/'] {
        f.root_attributes@
    } else {
        f.attributes_in(trimmed_start(group))
    }
}

/// What setting an attribute comes to.
pub open spec fn attribute_outcome(
    a: FileState,
    b: FileState,
    r: IoResult<()>,
    group: Seq<char>,
    v: AttributeView,
) -> bool {
    match refused(a, "cannot write attributes in read mode"@) {
        Some(x) => (r matches Err(e) && e@ == x) && b == a,
        None => b is Writer && group_attribute_put(written(a), written(b), r, group, v),
    }
}

} // verus!
