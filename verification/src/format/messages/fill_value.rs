//! Fill value messages.

use vstd::prelude::*;

verus! {

/// What elements hold that were never written.
#[derive(Debug, PartialEq, Eq)]
pub struct FillValueMessage {
    /// When storage is allocated: 1 early, 2 late, 3 incrementally.
    pub alloc_time: u8,
    /// When the fill value is written: 0 on allocation.
    pub fill_write_time: u8,
    /// 0 undefined, 1 default (zeros), 2 defined by the user.
    pub fill_defined: u8,
    /// One element.
    pub fill_value: Option<Vec<u8>>,
}

/// What a fill value message says.
#[verifier::ext_equal]
pub struct FillView {
    pub alloc_time: u8,
    pub fill_write_time: u8,
    pub fill_defined: u8,
    pub fill_value: Option<Seq<u8>>,
}

impl View for FillValueMessage {
    type V = FillView;

    open spec fn view(&self) -> FillView {
        FillView {
            alloc_time: self.alloc_time,
            fill_write_time: self.fill_write_time,
            fill_defined: self.fill_defined,
            fill_value: match self.fill_value {
                Some(b) => Some(b@),
                None => None,
            },
        }
    }
}

/// What bytes hold, if there are any.
pub open spec fn opt_bytes(fv: Option<&[u8]>) -> Option<Seq<u8>> {
    match fv {
        Some(b) => Some(b@),
        None => None,
    }
}

/// `total` bytes of a fill value, element after element; zeros without one.
pub open spec fn tiled(total: nat, fv: Option<Seq<u8>>) -> Seq<u8> {
    Seq::new(
        total,
        |i: int|
            match fv {
                Some(b) =>
                    if b.len() > 0 {
                        b[i % b.len() as int]
                    } else {
                        0
                    },
                None => 0,
            },
    )
}

/// `total` bytes of a fill value, element after element; zeros without one.
pub fn tiled_fill(total: usize, fill_value: Option<&[u8]>) -> (v: Vec<u8>)
    ensures
        v@ == tiled(total as nat, opt_bytes(fill_value)),
{
    let mut v: Vec<u8> = Vec::new();
    let mut i: usize = 0;
    let ghost fv = opt_bytes(fill_value);
    while i < total
        invariant
            i <= total,
            v@ == tiled(i as nat, fv),
            fv == opt_bytes(fill_value),
        decreases total - i,
    {
        let b: u8 = match fill_value {
            Some(b) => {
                if b.len() > 0 {
                    b[i % b.len()]
                } else {
                    0
                }
            },
            None => 0,
        };
        v.push(b);
        assert(v@ =~= tiled((i + 1) as nat, fv));
        i = i + 1;
    }
    v
}

} // verus!
