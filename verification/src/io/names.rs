//! Names and paths of objects.

use vstd::prelude::*;
use vstd::string::{StrSliceExecFns, StringExecFns};

verus! {

/// A name without the slashes at its start.
pub open spec fn trimmed_start(s: Seq<char>) -> Seq<char>
    decreases s.len(),
{
    if s.len() > 0 && s[0] == '/' {
        trimmed_start(s.skip(1))
    } else {
        s
    }
}

/// A name without the slashes at its end.
pub open spec fn trimmed_end(s: Seq<char>) -> Seq<char>
    decreases s.len(),
{
    if s.len() > 0 && s.last() == '/' {
        trimmed_end(s.drop_last())
    } else {
        s
    }
}

/// A name without the slashes at either end.
pub open spec fn trimmed(s: Seq<char>) -> Seq<char> {
    trimmed_end(trimmed_start(s))
}

/// The part of a path after its last slash.
pub open spec fn leaf(s: Seq<char>) -> Seq<char>
    decreases s.len(),
{
    if s.len() == 0 || s.last() == '/' {
        Seq::empty()
    } else {
        leaf(s.drop_last()).push(s.last())
    }
}

/// What stands behind the last slash of a path is its last part.
pub proof fn lemma_leaf_of(a: Seq<char>, b: Seq<char>)
    requires
        !b.contains('/'),
    ensures
        leaf(a + seq!['/'] + b) == b,
    decreases b.len(),
{
    let s = a + seq!['/'] + b;
    if b.len() == 0 {
        assert(s.last() == '/');
    } else {
        let c = b.drop_last();
        assert(s.last() == b.last());
        assert(b.contains(b.last())) by {
            assert(b[b.len() - 1] == b.last());
        }
        assert(s.drop_last() =~= a + seq!['/'] + c);
        assert(!c.contains('/')) by {
            if c.contains('/') {
                let k = choose|k: int| 0 <= k < c.len() && c[k] == '/';
                assert(b[k] == '/');
            }
        }
        lemma_leaf_of(a, c);
        assert(c.push(b.last()) =~= b);
    }
}

/// The part of a path before its first slash.
pub open spec fn first_part(s: Seq<char>) -> Seq<char>
    decreases s.len(),
{
    if s.len() == 0 || s[0] == '/' {
        Seq::empty()
    } else {
        seq![s[0]] + first_part(s.skip(1))
    }
}

/// The name of `name` within the group at `group`, which is written with a slash
/// at its start.
pub open spec fn child_path(group: Seq<char>, name: Seq<char>) -> Seq<char> {
    if group == seq!['/'] {
        seq!['/'] + name
    } else {
        group + seq!['/'] + name
    }
}

/// Whether two texts are the same.
pub fn same_text(a: &str, b: &str) -> (r: bool)
    ensures
        r == (a@ == b@),
{
    let x: String = a.to_owned();
    let y: String = b.to_owned();
    x == y
}

/// Whether the text is a single slash.
pub fn is_root(s: &str) -> (r: bool)
    ensures
        r == (s@ == seq!['/']),
{
    proof {
        reveal_strlit("/");
        assert("/"@ =~= seq!['/']);
    }
    same_text(s, "/")
}

/// Whether a name has a slash in it.
pub fn has_slash(s: &str) -> (r: bool)
    ensures
        r == s@.contains('/'),
{
    let n: usize = s.unicode_len();
    let mut i: usize = 0;
    while i < n
        invariant
            n == s@.len(),
            i <= n,
            forall|k: int| 0 <= k < i ==> s@[k] != '/',
        decreases n - i,
    {
        if s.get_char(i) == '/' {
            assert(s@[i as int] == '/');
            return true;
        }
        i = i + 1;
    }
    false
}

/// The slashes at the start of a name are cut off, and nothing else.
pub proof fn lemma_trimmed_start(s: Seq<char>, i: int)
    requires
        0 <= i <= s.len(),
        forall|k: int| 0 <= k < i ==> s[k] == '/',
        i == s.len() || s[i] != '/',
    ensures
        trimmed_start(s) == s.subrange(i, s.len() as int),
    decreases i,
{
    if i > 0 {
        assert(s.skip(1)[i - 1] == s[i] || i == s.len());
        lemma_trimmed_start(s.skip(1), i - 1);
        assert(s.skip(1).subrange(i - 1, s.len() - 1) =~= s.subrange(i, s.len() as int));
    } else {
        assert(s.subrange(0, s.len() as int) =~= s);
    }
}

/// The slashes at the end of a name are cut off, and nothing else.
pub proof fn lemma_trimmed_end(s: Seq<char>, i: int)
    requires
        0 <= i <= s.len(),
        forall|k: int| i <= k < s.len() ==> s[k] == '/',
        i == 0 || s[i - 1] != '/',
    ensures
        trimmed_end(s) == s.subrange(0, i),
    decreases s.len() - i,
{
    if i < s.len() {
        lemma_trimmed_end(s.drop_last(), i);
        assert(s.drop_last().subrange(0, i) =~= s.subrange(0, i));
    } else {
        assert(s.subrange(0, s.len() as int) =~= s);
    }
}

/// What stands behind the last slash of a path is its last part; a path without
/// slashes is all of it.
pub proof fn lemma_leaf(s: Seq<char>, i: int)
    requires
        0 <= i <= s.len(),
        forall|k: int| i <= k < s.len() ==> s[k] != '/',
        i == 0 || s[i - 1] == '/',
    ensures
        leaf(s) == s.subrange(i, s.len() as int),
    decreases s.len(),
{
    if i < s.len() {
        lemma_leaf(s.drop_last(), i);
        assert(s.drop_last().subrange(i, s.len() - 1).push(s.last()) =~= s.subrange(
            i,
            s.len() as int,
        ));
    } else {
        assert(s.subrange(i, s.len() as int) =~= Seq::<char>::empty());
    }
}

/// What stands before the first slash of a path is its first part; a path without
/// slashes is all of it.
pub proof fn lemma_first_part(s: Seq<char>, i: int)
    requires
        0 <= i <= s.len(),
        forall|k: int| 0 <= k < i ==> s[k] != '/',
        i == s.len() || s[i] == '/',
    ensures
        first_part(s) == s.subrange(0, i),
    decreases i,
{
    if i > 0 {
        assert(i == s.len() || s.skip(1)[i - 1] == s[i]);
        lemma_first_part(s.skip(1), i - 1);
        assert(seq![s[0]] + s.skip(1).subrange(0, i - 1) =~= s.subrange(0, i));
    } else {
        assert(s.subrange(0, 0) =~= Seq::<char>::empty());
    }
}

/// A name without the slashes at its start.
pub fn trim_start(s: &str) -> (r: &str)
    ensures
        r@ == trimmed_start(s@),
{
    let n: usize = s.unicode_len();
    let mut i: usize = 0;
    while i < n
        invariant_except_break
            n == s@.len(),
            i <= n,
            forall|k: int| 0 <= k < i ==> s@[k] == '/',
        ensures
            i <= n,
            forall|k: int| 0 <= k < i ==> s@[k] == '/',
            i == n || s@[i as int] != '/',
        decreases n - i,
    {
        if s.get_char(i) != '/' {
            break;
        }
        i = i + 1;
    }
    proof {
        lemma_trimmed_start(s@, i as int);
    }
    s.substring_char(i, n)
}

/// A name without the slashes at its end.
pub fn trim_end(s: &str) -> (r: &str)
    ensures
        r@ == trimmed_end(s@),
{
    let mut i: usize = s.unicode_len();
    while i > 0
        invariant_except_break
            i <= s@.len(),
            forall|k: int| i <= k < s@.len() ==> s@[k] == '/',
        ensures
            i <= s@.len(),
            forall|k: int| i <= k < s@.len() ==> s@[k] == '/',
            i == 0 || s@[i - 1] != '/',
        decreases i,
    {
        if s.get_char(i - 1) != '/' {
            break;
        }
        i = i - 1;
    }
    proof {
        lemma_trimmed_end(s@, i as int);
    }
    s.substring_char(0, i)
}

/// The part of a path after its last slash.
pub fn leaf_name(s: &str) -> (r: &str)
    ensures
        r@ == leaf(s@),
{
    let n: usize = s.unicode_len();
    let mut i: usize = n;
    while i > 0
        invariant_except_break
            n == s@.len(),
            i <= n,
            forall|k: int| i <= k < n ==> s@[k] != '/',
        ensures
            i <= n,
            forall|k: int| i <= k < n ==> s@[k] != '/',
            i == 0 || s@[i - 1] == '/',
        decreases i,
    {
        if s.get_char(i - 1) == '/' {
            break;
        }
        i = i - 1;
    }
    proof {
        lemma_leaf(s@, i as int);
    }
    s.substring_char(i, n)
}

/// The part of a path before its first slash.
pub fn first_name(s: &str) -> (r: &str)
    ensures
        r@ == first_part(s@),
{
    let n: usize = s.unicode_len();
    let mut i: usize = 0;
    while i < n
        invariant_except_break
            n == s@.len(),
            i <= n,
            forall|k: int| 0 <= k < i ==> s@[k] != '/',
        ensures
            i <= n,
            forall|k: int| 0 <= k < i ==> s@[k] != '/',
            i == n || s@[i as int] == '/',
        decreases n - i,
    {
        if s.get_char(i) == '/' {
            break;
        }
        i = i + 1;
    }
    proof {
        lemma_first_part(s@, i as int);
    }
    s.substring_char(0, i)
}

/// The name of `name` within the group at `group`.
pub fn join(group: &str, name: &str) -> (r: String)
    ensures
        r@ == child_path(group@, name@),
{
    proof {
        reveal_strlit("/");
        assert("/"@ =~= seq!['/']);
    }
    if is_root(group) {
        "/".to_owned().concat(name)
    } else {
        group.to_owned().concat("/").concat(name)
    }
}

/// What follows `prefix` in `s`, if `s` begins with it.
pub fn strip_prefix<'a>(s: &'a str, prefix: &str) -> (r: Option<&'a str>)
    ensures
        match r {
            Some(t) => prefix@ + t@ == s@,
            None => !prefix@.is_prefix_of(s@),
        },
{
    let n: usize = s.unicode_len();
    let m: usize = prefix.unicode_len();
    if m > n {
        return None;
    }
    if !same_text(s.substring_char(0, m), prefix) {
        return None;
    }
    let t = s.substring_char(m, n);
    assert(prefix@ + t@ =~= s@);
    Some(t)
}

} // verus!
