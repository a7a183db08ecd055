//! Dataspace messages.

use vstd::prelude::*;

verus! {

/// The shape of a dataset.
#[derive(Debug, PartialEq, Eq)]
pub struct DataspaceMessage {
    /// Extent along each dimension; none for a scalar.
    pub dims: Vec<u64>,
    /// Largest extent along each dimension, where the largest number stands for
    /// no limit.
    pub max_dims: Option<Vec<u64>>,
}

/// What a dataspace says.
#[verifier::ext_equal]
pub struct SpaceView {
    pub dims: Seq<u64>,
    pub max_dims: Option<Seq<u64>>,
}

impl View for DataspaceMessage {
    type V = SpaceView;

    open spec fn view(&self) -> SpaceView {
        SpaceView {
            dims: self.dims@,
            max_dims: match self.max_dims {
                Some(m) => Some(m@),
                None => None,
            },
        }
    }
}

/// A copy of numbers.
pub fn copy_dims(dims: &[u64]) -> (v: Vec<u64>)
    ensures
        v@ == dims@,
{
    let mut v: Vec<u64> = Vec::new();
    let mut i: usize = 0;
    while i < dims.len()
        invariant
            i <= dims.len(),
            v@ == dims@.take(i as int),
        decreases dims.len() - i,
    {
        v.push(dims[i]);
        assert(v@ =~= dims@.take(i + 1));
        i = i + 1;
    }
    assert(dims@.take(dims@.len() as int) =~= dims@);
    v
}

impl DataspaceMessage {
    /// The shape of a single element.
    pub fn scalar() -> (s: Self)
        ensures
            s@ == (SpaceView { dims: Seq::empty(), max_dims: None }),
    {
        DataspaceMessage { dims: Vec::new(), max_dims: None }
    }

    /// A shape that does not change.
    pub fn simple(dims: &[u64]) -> (s: Self)
        ensures
            s@ == (SpaceView { dims: dims@, max_dims: None }),
    {
        DataspaceMessage { dims: copy_dims(dims), max_dims: None }
    }

    /// A shape that may grow up to `max_dims`.
    pub fn extensible(dims: &[u64], max_dims: &[u64]) -> (s: Self)
        ensures
            s@ == (SpaceView { dims: dims@, max_dims: Some(max_dims@) }),
    {
        DataspaceMessage { dims: copy_dims(dims), max_dims: Some(copy_dims(max_dims)) }
    }
}

impl Clone for DataspaceMessage {
    fn clone(&self) -> (r: Self)
        ensures
            r@ == self@,
    {
        DataspaceMessage {
            dims: copy_dims(self.dims.as_slice()),
            max_dims: match &self.max_dims {
                Some(m) => Some(copy_dims(m.as_slice())),
                None => None,
            },
        }
    }
}

} // verus!
