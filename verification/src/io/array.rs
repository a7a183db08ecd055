//! Arrays in row-major order: places of elements, selections and chunks.

use vstd::arithmetic::div_mod::{
    lemma_fundamental_div_mod, lemma_fundamental_div_mod_converse, lemma_mod_bound,
};
use vstd::prelude::*;

verus! {

/// Number of elements of an array.
pub open spec fn volume(dims: Seq<u64>) -> nat
    decreases dims.len(),
{
    if dims.len() == 0 {
        1
    } else {
        volume(dims.drop_last()) * dims.last() as nat
    }
}

/// Whether `c` is the place of an element.
pub open spec fn inside(c: Seq<int>, dims: Seq<u64>) -> bool {
    &&& c.len() == dims.len()
    &&& forall|d: int| 0 <= d < c.len() ==> 0 <= #[trigger] c[d] < dims[d]
}

/// The number of the element at place `c`.
pub open spec fn linear(c: Seq<int>, dims: Seq<u64>) -> int
    decreases dims.len(),
{
    if dims.len() == 0 {
        0
    } else {
        linear(c.drop_last(), dims.drop_last()) * dims.last() + c.last()
    }
}

/// The place of element `i`.
pub open spec fn place(i: int, dims: Seq<u64>) -> Seq<int>
    decreases dims.len(),
{
    if dims.len() == 0 {
        Seq::empty()
    } else {
        place(i / dims.last() as int, dims.drop_last()).push(i % dims.last() as int)
    }
}

pub proof fn lemma_place_len(i: int, dims: Seq<u64>)
    ensures
        place(i, dims).len() == dims.len(),
    decreases dims.len(),
{
    if dims.len() > 0 {
        lemma_place_len(i / dims.last() as int, dims.drop_last());
    }
}

/// An element's number is below the number of elements.
pub proof fn lemma_linear_bound(c: Seq<int>, dims: Seq<u64>)
    requires
        inside(c, dims),
    ensures
        0 <= linear(c, dims) < volume(dims),
    decreases dims.len(),
{
    if dims.len() > 0 {
        let n = dims.last() as int;
        let front = dims.drop_last();
        let cf = c.drop_last();
        assert(inside(cf, front)) by {
            assert forall|d: int| 0 <= d < cf.len() implies 0 <= #[trigger] cf[d] < front[d] by {
                assert(cf[d] == c[d]);
            }
        }
        lemma_linear_bound(cf, front);
        let l = linear(cf, front);
        let v = volume(front) as int;
        assert(c.last() == c[c.len() - 1]);
        assert(0 <= l * n && l * n + n <= v * n) by (nonlinear_arith)
            requires
                0 <= l,
                l + 1 <= v,
                n >= 0,
        ;
    }
}

/// Numbering the places and placing the numbers undo each other.
pub proof fn lemma_place_of_linear(c: Seq<int>, dims: Seq<u64>)
    requires
        inside(c, dims),
    ensures
        place(linear(c, dims), dims) == c,
    decreases dims.len(),
{
    if dims.len() > 0 {
        let n = dims.last() as int;
        let front = dims.drop_last();
        let cf = c.drop_last();
        assert(inside(cf, front)) by {
            assert forall|d: int| 0 <= d < cf.len() implies 0 <= #[trigger] cf[d] < front[d] by {
                assert(cf[d] == c[d]);
            }
        }
        lemma_place_of_linear(cf, front);
        assert(c.last() == c[c.len() - 1]);
        let q = linear(cf, front);
        lemma_fundamental_div_mod_converse(q * n + c.last(), n, q, c.last());
        assert(place(linear(c, dims), dims) =~= c);
    } else {
        assert(place(linear(c, dims), dims) =~= c);
    }
}

/// Numbering the places and placing the numbers undo each other.
pub proof fn lemma_linear_of_place(i: int, dims: Seq<u64>)
    requires
        0 <= i < volume(dims),
    ensures
        inside(place(i, dims), dims),
        linear(place(i, dims), dims) == i,
    decreases dims.len(),
{
    lemma_place_len(i, dims);
    if dims.len() > 0 {
        let n = dims.last() as int;
        let front = dims.drop_last();
        let v = volume(front) as int;
        assert(n > 0) by (nonlinear_arith)
            requires
                0 < v * n,
                v >= 0,
                n >= 0,
        ;
        lemma_fundamental_div_mod(i, n);
        lemma_mod_bound(i, n);
        let q = i / n;
        assert(0 <= q < v) by (nonlinear_arith)
            requires
                i == n * q + i % n,
                0 <= i % n < n,
                0 <= i < v * n,
        ;
        lemma_linear_of_place(q, front);
        lemma_place_len(q, front);
        let c = place(i, dims);
        let cf = place(q, front);
        assert(c.drop_last() =~= cf);
        assert forall|d: int| 0 <= d < c.len() implies 0 <= #[trigger] c[d] < dims[d] by {
            if d < cf.len() {
                assert(c[d] == cf[d]);
                assert(dims[d] == front[d]);
            }
        }
        assert(q * n == n * q) by (nonlinear_arith);
    }
}

/// The volume of a part of the dimensions is at most that of all, if none is
/// zero.
pub proof fn lemma_prefix_volume(dims: Seq<u64>, k: int)
    requires
        0 <= k <= dims.len(),
        forall|d: int| 0 <= d < dims.len() ==> #[trigger] dims[d] > 0,
    ensures
        0 < volume(dims.take(k)) <= volume(dims),
    decreases dims.len(),
{
    if dims.len() == 0 {
        assert(dims.take(k) =~= dims);
    } else {
        let front = dims.drop_last();
        assert forall|d: int| 0 <= d < front.len() implies #[trigger] front[d] > 0 by {
            assert(front[d] == dims[d]);
        }
        let n = dims.last();
        assert(n == dims[dims.len() - 1]);
        if k == dims.len() {
            assert(dims.take(k) =~= dims);
            lemma_prefix_volume(front, front.len() as int);
            assert(front.take(front.len() as int) =~= front);
        } else {
            lemma_prefix_volume(front, k);
            assert(front.take(k) =~= dims.take(k));
        }
        let v = volume(front);
        assert(v <= v * n && 0 < v * n) by (nonlinear_arith)
            requires
                v > 0,
                n >= 1,
        ;
    }
}

/// Number of elements, `None` if it does not fit in 64 bits.
pub fn element_count(dims: &[u64]) -> (r: Option<u64>)
    ensures
        match r {
            Some(n) => n == volume(dims@),
            None => volume(dims@) > u64::MAX,
        },
{
    // A dimension without extent makes the array empty, however large the
    // others are.
    let mut d: usize = 0;
    while d < dims.len()
        invariant
            d <= dims@.len(),
            forall|k: int| 0 <= k < d ==> #[trigger] dims@[k] > 0,
        decreases dims@.len() - d,
    {
        if dims[d] == 0 {
            proof {
                lemma_zero_volume(dims@, d as int);
            }
            return Some(0);
        }
        d = d + 1;
    }
    let mut n: u64 = 1;
    let mut i: usize = 0;
    while i < dims.len()
        invariant
            i <= dims@.len(),
            forall|k: int| 0 <= k < dims@.len() ==> #[trigger] dims@[k] > 0,
            n == volume(dims@.take(i as int)),
        decreases dims@.len() - i,
    {
        proof {
            let t = dims@.take(i + 1);
            assert(t.drop_last() =~= dims@.take(i as int));
            assert(t.last() == dims@[i as int]);
            lemma_prefix_volume(dims@, i + 1);
        }
        match n.checked_mul(dims[i]) {
            Some(m) => {
                n = m;
            },
            None => {
                return None;
            },
        }
        i = i + 1;
    }
    assert(dims@.take(i as int) =~= dims@);
    Some(n)
}

pub proof fn lemma_zero_volume(dims: Seq<u64>, d: int)
    requires
        0 <= d < dims.len(),
        dims[d] == 0,
    ensures
        volume(dims) == 0,
    decreases dims.len(),
{
    let v = volume(dims.drop_last());
    let n = dims.last() as nat;
    if d < dims.len() - 1 {
        lemma_zero_volume(dims.drop_last(), d);
    }
    assert(v * n == 0) by (nonlinear_arith)
        requires
            v == 0 || n == 0,
    ;
}

/// Every dimension of an array with elements has extent.
pub proof fn lemma_dims_positive(dims: Seq<u64>)
    requires
        volume(dims) > 0,
    ensures
        forall|d: int| 0 <= d < dims.len() ==> #[trigger] dims[d] > 0,
{
    assert forall|d: int| 0 <= d < dims.len() implies #[trigger] dims[d] > 0 by {
        if dims[d] == 0 {
            lemma_zero_volume(dims, d);
        }
    }
}

/// Places as a sequence of numbers.
pub open spec fn ints(c: Seq<u64>) -> Seq<int> {
    Seq::new(c.len(), |d: int| c[d] as int)
}

/// The place of a number is a place, also for numbers beyond the elements.
pub proof fn lemma_place_inside(i: int, dims: Seq<u64>)
    requires
        0 <= i,
        forall|d: int| 0 <= d < dims.len() ==> #[trigger] dims[d] > 0,
    ensures
        inside(place(i, dims), dims),
    decreases dims.len(),
{
    lemma_place_len(i, dims);
    if dims.len() > 0 {
        let n = dims.last() as int;
        let front = dims.drop_last();
        assert(n == dims[dims.len() - 1]);
        assert forall|d: int| 0 <= d < front.len() implies #[trigger] front[d] > 0 by {
            assert(front[d] == dims[d]);
        }
        lemma_fundamental_div_mod(i, n);
        lemma_mod_bound(i, n);
        let q = i / n;
        assert(0 <= q) by (nonlinear_arith)
            requires
                i == n * q + i % n,
                0 <= i % n < n,
                0 <= i,
        ;
        lemma_place_inside(q, front);
        lemma_place_len(q, front);
        let c = place(i, dims);
        let cf = place(q, front);
        assert forall|d: int| 0 <= d < c.len() implies 0 <= #[trigger] c[d] < dims[d] by {
            if d < cf.len() {
                assert(c[d] == cf[d]);
                assert(dims[d] == front[d]);
            }
        }
    }
}

/// The place of element `i`.
pub fn place_of(i: u64, dims: &[u64]) -> (c: Vec<u64>)
    requires
        volume(dims@) > 0,
    ensures
        ints(c@) == place(i as int, dims@),
        inside(ints(c@), dims@),
        i < volume(dims@) ==> linear(ints(c@), dims@) == i,
{
    let n: usize = dims.len();
    let mut c: Vec<u64> = Vec::with_capacity(n);
    let mut k: usize = 0;
    while k < n
        invariant
            k <= n,
            c@.len() == k,
        decreases n - k,
    {
        c.push(0);
        k = k + 1;
    }
    let mut rest: u64 = i;
    let mut d: usize = n;
    proof {
        lemma_dims_positive(dims@);
        lemma_place_inside(i as int, dims@);
        if i < volume(dims@) {
            lemma_linear_of_place(i as int, dims@);
        }
        assert(dims@.take(d as int) =~= dims@);
    }
    while d > 0
        invariant
            d <= n,
            n == dims@.len(),
            c@.len() == n,
            forall|k: int| 0 <= k < n ==> #[trigger] dims@[k] > 0,
            place(i as int, dims@).len() == n,
            place(rest as int, dims@.take(d as int)) == place(i as int, dims@).take(d as int),
            forall|k: int| d <= k < n ==> #[trigger] c@[k] == place(i as int, dims@)[k],
        decreases d,
    {
        let m: u64 = dims[d - 1];
        proof {
            let t = dims@.take(d as int);
            assert(t.last() == m);
            assert(t.drop_last() =~= dims@.take(d - 1));
            let p = place(rest as int, t);
            lemma_place_len(rest as int / m as int, t.drop_last());
            assert(p == place(rest as int / m as int, t.drop_last()).push(rest as int % m as int));
            assert(p.last() == rest as int % m as int);
            assert(p[d - 1] == place(i as int, dims@).take(d as int)[d - 1]);
            assert(p.take(d - 1) =~= place(rest as int / m as int, t.drop_last()));
            assert(p.take(d - 1) =~= place(i as int, dims@).take(d - 1));
        }
        c.set(d - 1, rest % m);
        rest = rest / m;
        d = d - 1;
    }
    assert(ints(c@) =~= place(i as int, dims@));
    c
}

/// The number of the element at place `c`.
pub fn linear_of(c: &[u64], dims: &[u64]) -> (i: u64)
    requires
        inside(ints(c@), dims@),
        volume(dims@) <= u64::MAX,
    ensures
        i == linear(ints(c@), dims@),
        i < volume(dims@),
{
    let ghost cs = ints(c@);
    let n: usize = dims.len();
    let mut i: u64 = 0;
    let mut d: usize = 0;
    proof {
        assert(volume(dims@.take(0)) == 1);
        assert forall|k: int| 0 <= k < n implies #[trigger] dims@[k] > 0 by {
            assert(0 <= cs[k] < dims@[k]);
        }
    }
    while d < n
        invariant
            d <= n,
            n == dims@.len(),
            n == c@.len(),
            cs == ints(c@),
            inside(cs, dims@),
            volume(dims@) <= u64::MAX,
            forall|k: int| 0 <= k < n ==> #[trigger] dims@[k] > 0,
            i == linear(cs.take(d as int), dims@.take(d as int)),
            i < volume(dims@.take(d as int)),
        decreases n - d,
    {
        proof {
            let t = dims@.take(d + 1);
            let tc = cs.take(d + 1);
            assert(t.drop_last() =~= dims@.take(d as int));
            assert(tc.drop_last() =~= cs.take(d as int));
            assert(t.last() == dims@[d as int]);
            assert(tc.last() == cs[d as int]);
            assert(inside(tc, t)) by {
                assert forall|k: int| 0 <= k < tc.len() implies 0 <= #[trigger] tc[k] < t[k] by {
                    assert(tc[k] == cs[k]);
                }
            }
            lemma_linear_bound(tc, t);
            lemma_prefix_volume(dims@, d + 1);
            assert(0 <= i * dims@[d as int]) by (nonlinear_arith)
                requires
                    i >= 0,
            ;
        }
        i = i * dims[d] + c[d];
        d = d + 1;
    }
    proof {
        assert(dims@.take(n as int) =~= dims@);
        assert(cs.take(n as int) =~= cs);
    }
    i
}

} // verus!
