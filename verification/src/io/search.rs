//! First position with a property.

use vstd::prelude::*;

verus! {

/// The first of `n` positions at which `f` holds.
pub open spec fn position(n: nat, f: spec_fn(int) -> bool) -> Option<int>
    decreases n,
{
    if n == 0 {
        None
    } else {
        match position((n - 1) as nat, f) {
            Some(i) => Some(i),
            None =>
                if f(n - 1) {
                    Some(n - 1)
                } else {
                    None
                },
        }
    }
}

/// A position before which `f` does not hold is the first.
pub proof fn lemma_position(n: nat, f: spec_fn(int) -> bool, i: int)
    requires
        0 <= i < n,
        f(i),
        forall|j: int| 0 <= j < i ==> !#[trigger] f(j),
    ensures
        position(n, f) == Some(i),
    decreases n,
{
    if i < n - 1 {
        lemma_position((n - 1) as nat, f, i);
    } else {
        lemma_no_position((n - 1) as nat, f);
    }
}

/// Where `f` holds nowhere, there is no first position.
pub proof fn lemma_no_position(n: nat, f: spec_fn(int) -> bool)
    requires
        forall|j: int| 0 <= j < n ==> !#[trigger] f(j),
    ensures
        position(n, f) is None,
    decreases n,
{
    if n > 0 {
        lemma_no_position((n - 1) as nat, f);
    }
}

/// What a first position is.
pub proof fn lemma_position_is(n: nat, f: spec_fn(int) -> bool)
    ensures
        match position(n, f) {
            Some(i) => 0 <= i < n && f(i) && forall|j: int| 0 <= j < i ==> !#[trigger] f(j),
            None => forall|j: int| 0 <= j < n ==> !#[trigger] f(j),
        },
    decreases n,
{
    if n > 0 {
        lemma_position_is((n - 1) as nat, f);
    }
}

/// Whether an index found by a search is `p`.
pub open spec fn is_at(r: Option<usize>, p: Option<int>) -> bool {
    match r {
        Some(i) => p == Some(i as int),
        None => p is None,
    }
}

/// A list without the entries that are `x`.
pub open spec fn without(s: Seq<usize>, x: usize) -> Seq<usize>
    decreases s.len(),
{
    if s.len() == 0 {
        Seq::empty()
    } else if s.last() == x {
        without(s.drop_last(), x)
    } else {
        without(s.drop_last(), x).push(s.last())
    }
}

/// A list without the entries that are `x`.
pub fn remove_all(v: &Vec<usize>, x: usize) -> (r: Vec<usize>)
    ensures
        r@ == without(v@, x),
{
    let mut r: Vec<usize> = Vec::new();
    let mut i: usize = 0;
    while i < v.len()
        invariant
            i <= v.len(),
            r@ == without(v@.take(i as int), x),
        decreases v.len() - i,
    {
        assert(v@.take(i + 1).drop_last() =~= v@.take(i as int));
        if v[i] != x {
            r.push(v[i]);
        }
        i = i + 1;
    }
    assert(v@.take(v@.len() as int) =~= v@);
    r
}

/// The entries that stay are entries of the list.
pub proof fn lemma_without(s: Seq<usize>, x: usize)
    ensures
        forall|y: usize| without(s, x).contains(y) <==> s.contains(y) && y != x,
    decreases s.len(),
{
    if s.len() > 0 {
        let t = s.drop_last();
        lemma_without(t, x);
        assert(s =~= t.push(s.last()));
        assert forall|y: usize| without(s, x).contains(y) <==> s.contains(y) && y != x by {
            if without(s, x).contains(y) {
                let k = choose|k: int| 0 <= k < without(s, x).len() && without(s, x)[k] == y;
                if s.last() == x {
                    assert(without(t, x).contains(y));
                } else if k < without(t, x).len() {
                    assert(without(t, x)[k] == y);
                    assert(without(t, x).contains(y));
                } else {
                    assert(s[s.len() - 1] == y);
                }
                if t.contains(y) {
                    let j = choose|j: int| 0 <= j < t.len() && t[j] == y;
                    assert(s[j] == y);
                }
            }
            if s.contains(y) && y != x {
                let j = choose|j: int| 0 <= j < s.len() && s[j] == y;
                if j < t.len() {
                    assert(t[j] == y);
                    assert(t.contains(y));
                    assert(without(t, x).contains(y));
                    let k = choose|k: int| 0 <= k < without(t, x).len() && without(t, x)[k] == y;
                    assert(without(s, x)[k] == y);
                } else {
                    assert(without(s, x)[without(s, x).len() - 1] == y);
                }
            }
        }
    }
}

} // verus!
