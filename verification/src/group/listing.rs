//! What a group lists.

use crate::group::{before, dataset_path, direct, has_child, leads_to, seen_from};
use crate::io::names::{first_part, lemma_first_part, lemma_trimmed_start, trimmed_start};
use crate::io::writer::state::Hdf5Writer;
use vstd::prelude::*;

verus! {

/// Whether a path is that of `inner` in a group: `inner` alone in the root group, and
/// the path of the group without its first slash, a slash and `inner` in any other.
pub open spec fn stands_in(group: Seq<char>, path: Seq<char>, inner: Seq<char>) -> bool {
    if group == seq!['/'] {
        path == inner
    } else {
        path == group.skip(1) + seq!['/'] + inner
    }
}

/// Whether a path is that of a group: a slash, and then, but for the root group, a name
/// that begins with none.
pub open spec fn absolute(group: Seq<char>) -> bool {
    &&& group.len() > 0
    &&& group[0] == '/'
    &&& group.len() == 1 || group[1] != '/'
}

proof fn lemma_group_prefix(group: Seq<char>)
    requires
        absolute(group),
        group != seq!['/'],
    ensures
        group.len() > 1,
        trimmed_start(group) + "/"@ == group.skip(1) + seq!['/'],
{
    reveal_strlit("/");
    assert("/"@ =~= seq!['/']);
    if group.len() == 1 {
        assert(group =~= seq!['/']);
    }
    lemma_trimmed_start(group, 1);
    assert(group.subrange(1, group.len() as int) =~= group.skip(1));
}

/// The path that a dataset of a group gets is that of its name in the group, and the
/// group sees the dataset under its name.
pub proof fn lemma_path_in_group(group: Seq<char>, name: Seq<char>)
    requires
        absolute(group),
    ensures
        stands_in(group, dataset_path(group, name), name),
        seen_from(group, dataset_path(group, name)) == Some(name),
{
    if group != seq!['/'] {
        lemma_group_prefix(group);
    }
    lemma_seen(group, dataset_path(group, name), name);
}

/// A group sees exactly what stands in it.
pub proof fn lemma_seen(group: Seq<char>, path: Seq<char>, inner: Seq<char>)
    requires
        absolute(group),
    ensures
        seen_from(group, path) == Some(inner) <==> stands_in(group, path, inner),
{
    if group == seq!['/'] {
        let p = Seq::<char>::empty();
        assert(p.is_prefix_of(path));
        assert(path.skip(0) =~= path);
    } else {
        lemma_group_prefix(group);
        let p = group.skip(1) + seq!['/'];
        if p.is_prefix_of(path) {
            assert(path =~= p + path.skip(p.len() as int));
            if path == p + inner {
                assert(path.skip(p.len() as int) =~= inner);
            }
        } else if path == p + inner {
            assert(path.take(p.len() as int) =~= p);
            assert(p.is_prefix_of(path));
        }
    }
}

proof fn lemma_listed(group: Seq<char>, all: Seq<Seq<char>>, n: nat, name: Seq<char>)
    requires
        absolute(group),
        n <= all.len(),
    ensures
        direct(group, all, n).contains(name) <==> !name.contains('/') && exists|i: int|
            0 <= i < n && #[trigger] stands_in(group, all[i], name),
    decreases n,
{
    if n > 0 {
        let was = direct(group, all, (n - 1) as nat);
        let now = direct(group, all, n);
        let path = all[n - 1];
        lemma_listed(group, all, (n - 1) as nat, name);
        lemma_seen(group, path, name);
        match seen_from(group, path) {
            Some(s) => {
                if !s.contains('/') {
                    assert(now[was.len() as int] == s);
                    assert forall|x: Seq<char>| was.contains(x) implies now.contains(x) by {
                        let i = choose|i: int| 0 <= i < was.len() && was[i] == x;
                        assert(now[i] == x);
                    }
                    if now.contains(name) {
                        let i = choose|i: int| 0 <= i < now.len() && now[i] == name;
                        if i < was.len() {
                            assert(was[i] == name);
                        }
                    }
                }
            },
            None => {},
        }
        if exists|i: int| 0 <= i < n && #[trigger] stands_in(group, all[i], name) {
            let i = choose|i: int| 0 <= i < n && #[trigger] stands_in(group, all[i], name);
            if i == n - 1 {
                assert(seen_from(group, path) == Some(name));
            }
        }
        if was.contains(name) {
            let i = choose|i: int|
                0 <= i < n - 1 && #[trigger] stands_in(group, all[i], name);
            assert(stands_in(group, all[i], name));
        }
        if seen_from(group, path) == Some(name) {
            assert(stands_in(group, all[n - 1], name));
        }
    }
}

/// A group lists exactly the datasets that stand directly in it: a name without slashes
/// is listed if and only if the file has a dataset of that name in the group.
pub proof fn lemma_datasets_listed(group: Seq<char>, all: Seq<Seq<char>>, name: Seq<char>)
    requires
        absolute(group),
    ensures
        direct(group, all, all.len()).contains(name) <==> !name.contains('/') && exists|i: int|
            0 <= i < all.len() && #[trigger] stands_in(group, all[i], name),
{
    lemma_listed(group, all, all.len(), name);
}

/// Datasets are listed in the order of the file: what comes first stays first, and
/// each dataset is listed once.
pub proof fn lemma_listed_in_turn(group: Seq<char>, all: Seq<Seq<char>>, more: Seq<Seq<char>>, n: nat)
    requires
        n <= more.len(),
    ensures
        direct(group, all + more, all.len() + n) == direct(group, all, all.len()) + direct(
            group,
            more,
            n,
        ),
        direct(group, more, n).len() <= n,
    decreases n,
{
    let both = all + more;
    if n == 0 {
        lemma_listed_start(group, all, more, all.len());
        assert(direct(group, all, all.len()) + direct(group, more, 0) =~= direct(
            group,
            all,
            all.len(),
        ));
    } else {
        lemma_listed_in_turn(group, all, more, (n - 1) as nat);
        assert(both[all.len() + n - 1] == more[n - 1]);
        assert(direct(group, both, all.len() + n) =~= direct(group, all, all.len()) + direct(
            group,
            more,
            n,
        ));
    }
}

proof fn lemma_listed_start(group: Seq<char>, all: Seq<Seq<char>>, more: Seq<Seq<char>>, n: nat)
    requires
        n <= all.len(),
    ensures
        direct(group, all + more, n) == direct(group, all, n),
    decreases n,
{
    if n > 0 {
        lemma_listed_start(group, all, more, (n - 1) as nat);
        assert((all + more)[n - 1] == all[n - 1]);
    }
}

proof fn lemma_first(s: Seq<char>, child: Seq<char>)
    requires
        !child.contains('/'),
    ensures
        child == first_part(s) <==> s == child || exists|rest: Seq<char>|
            s == #[trigger] (child + seq!['/'] + rest),
{
    let n = child.len() as int;
    assert forall|k: int| 0 <= k < n implies child[k] != '/' by {
        assert(child.contains(child[k]));
    }
    if s == child {
        lemma_first_part(s, n);
        assert(s.subrange(0, n) =~= child);
    } else if exists|rest: Seq<char>| s == #[trigger] (child + seq!['/'] + rest) {
        let rest = choose|rest: Seq<char>| s == #[trigger] (child + seq!['/'] + rest);
        assert(s[n] == '/');
        assert forall|k: int| 0 <= k < n implies s[k] != '/' by {
            assert(s[k] == child[k]);
        }
        lemma_first_part(s, n);
        assert(s.subrange(0, n) =~= child);
    } else if child == first_part(s) {
        lemma_first_is(s, 0);
        let rest = s.skip(n + 1);
        if n < s.len() {
            assert(s =~= child + seq!['/'] + rest);
        } else {
            assert(s =~= child);
        }
    }
}

proof fn lemma_first_is(s: Seq<char>, i: int)
    requires
        0 <= i <= s.len(),
        forall|k: int| 0 <= k < i ==> s[k] != '/',
    ensures
        ({
            let n = first_part(s).len() as int;
            &&& i <= n <= s.len()
            &&& first_part(s) == s.subrange(0, n)
            &&& n < s.len() ==> s[n] == '/'
        }),
    decreases s.len() - i,
{
    if i == s.len() || s[i] == '/' {
        lemma_first_part(s, i);
    } else {
        lemma_first_is(s, i + 1);
    }
}

/// Whether a path is that of `child` in a group, or goes on behind it. The path of a
/// dataset has to go on.
pub open spec fn passes(group: Seq<char>, path: Seq<char>, child: Seq<char>, dataset: bool) -> bool {
    ||| !dataset && stands_in(group, path, child)
    ||| exists|rest: Seq<char>| #[trigger] stands_in(group, path, child + seq!['/'] + rest)
}

/// A group lists a group of its own under a name without slashes if and only if the file
/// has a path that leads there: that of the group itself, or that of anything further
/// inside.
pub proof fn lemma_groups_listed(
    group: Seq<char>,
    all: Seq<Seq<char>>,
    child: Seq<char>,
    dataset: bool,
)
    requires
        absolute(group),
        !child.contains('/'),
        child.len() > 0,
    ensures
        has_child(group, all, child, dataset, all.len() as int) <==> exists|i: int|
            0 <= i < all.len() && #[trigger] passes(group, all[i], child, dataset),
{
    if has_child(group, all, child, dataset, all.len() as int) {
        let i = choose|i: int|
            0 <= i < all.len() && #[trigger] leads_to(group, all[i], child, dataset);
        lemma_leads(group, all[i], child, dataset);
        assert(passes(group, all[i], child, dataset));
    }
    if exists|i: int| 0 <= i < all.len() && #[trigger] passes(group, all[i], child, dataset) {
        let i = choose|i: int|
            0 <= i < all.len() && #[trigger] passes(group, all[i], child, dataset);
        lemma_leads(group, all[i], child, dataset);
        assert(leads_to(group, all[i], child, dataset));
    }
}

proof fn lemma_leads(group: Seq<char>, path: Seq<char>, child: Seq<char>, dataset: bool)
    requires
        absolute(group),
        !child.contains('/'),
        child.len() > 0,
    ensures
        leads_to(group, path, child, dataset) <==> passes(group, path, child, dataset),
{
    match seen_from(group, path) {
        Some(s) => {
            lemma_seen(group, path, s);
            lemma_first(s, child);
            lemma_seen(group, path, child);
            if exists|rest: Seq<char>| s == #[trigger] (child + seq!['/'] + rest) {
                let rest = choose|rest: Seq<char>| s == #[trigger] (child + seq!['/'] + rest);
                assert(stands_in(group, path, child + seq!['/'] + rest));
                assert(s[child.len() as int] == '/');
                assert(s.contains('/'));
            }
            if exists|rest: Seq<char>| #[trigger]
                stands_in(group, path, child + seq!['/'] + rest) {
                let rest = choose|rest: Seq<char>| #[trigger]
                    stands_in(group, path, child + seq!['/'] + rest);
                lemma_seen(group, path, child + seq!['/'] + rest);
                assert(s == child + seq!['/'] + rest);
                assert(s[child.len() as int] == '/');
                assert(s.contains('/'));
            }
        },
        None => {
            lemma_seen(group, path, child);
            assert forall|rest: Seq<char>| !(#[trigger] stands_in(
                group,
                path,
                child + seq!['/'] + rest,
            )) by {
                lemma_seen(group, path, child + seq!['/'] + rest);
            }
        },
    }
}

/// A name comes before another if it is only its beginning, or if at the first character
/// in which they differ it has the smaller one.
pub proof fn lemma_alphabetical(a: Seq<char>, b: Seq<char>, n: int)
    requires
        0 <= n <= a.len(),
        n <= b.len(),
        a.take(n) == b.take(n),
        n < a.len() && n < b.len() ==> a[n] != b[n],
    ensures
        before(a, b) == if n == b.len() {
            false
        } else if n == a.len() {
            true
        } else {
            (a[n] as u32) < (b[n] as u32)
        },
    decreases n,
{
    if n > 0 {
        assert(a[0] == a.take(n)[0] && b[0] == b.take(n)[0]);
        assert(a.skip(1).take(n - 1) =~= a.take(n).skip(1));
        assert(b.skip(1).take(n - 1) =~= b.take(n).skip(1));
        lemma_alphabetical(a.skip(1), b.skip(1), n - 1);
    }
}

/// The names of the datasets of a file being written are those of the datasets that have
/// not been deleted.
pub proof fn lemma_live_names(w: Hdf5Writer, n: nat, name: Seq<char>)
    requires
        n <= w.datasets@.len(),
    ensures
        w.live_names(n).contains(name) <==> exists|i: int|
            0 <= i < n && !(#[trigger] w.datasets@[i]).deleted && w.datasets@[i].name@ == name,
    decreases n,
{
    if n > 0 {
        let was = w.live_names((n - 1) as nat);
        let now = w.live_names(n);
        let d = w.datasets@[n - 1];
        lemma_live_names(w, (n - 1) as nat, name);
        if !d.deleted {
            lemma_pushed(was, d.name@, name);
        }
    }
}

/// The groups of a file being written are those that have not been deleted, without the
/// slashes at the start of their paths.
pub proof fn lemma_live_groups(w: Hdf5Writer, n: nat, path: Seq<char>)
    requires
        n <= w.groups@.len(),
    ensures
        w.live_groups(n).contains(path) <==> exists|i: int|
            0 <= i < n && !(#[trigger] w.groups@[i]).deleted && trimmed_start(w.groups@[i].name@)
                == path,
    decreases n,
{
    if n > 0 {
        let was = w.live_groups((n - 1) as nat);
        let g = w.groups@[n - 1];
        lemma_live_groups(w, (n - 1) as nat, path);
        if !g.deleted {
            lemma_pushed(was, trimmed_start(g.name@), path);
        }
    }
}

proof fn lemma_pushed(was: Seq<Seq<char>>, x: Seq<char>, y: Seq<char>)
    ensures
        was.push(x).contains(y) <==> was.contains(y) || x == y,
{
    let now = was.push(x);
    assert(now[was.len() as int] == x);
    if was.contains(y) {
        let i = choose|i: int| 0 <= i < was.len() && was[i] == y;
        assert(now[i] == y);
    }
    if now.contains(y) {
        let i = choose|i: int| 0 <= i < now.len() && now[i] == y;
        if i < was.len() {
            assert(was[i] == y);
        }
    }
}

} // verus!
