//! The parameter list of the N-bit filter.
//!
//! The list describes the datatype of an element as a tree, in prefix order.
//! Walking it yields the pieces of the element.

use crate::format::nbit_scaleoffset::pieces::{moved, repeated, Piece};
use crate::format::{invalid_data, FormatError};
use crate::text::{append_decimal, decimal};
use vstd::prelude::*;
use vstd::string::StringExecFns;

verus! {

pub const NBIT_ATOMIC: u32 = 1;

pub const NBIT_ARRAY: u32 = 2;

pub const NBIT_COMPOUND: u32 = 3;

pub const NBIT_NOOPTYPE: u32 = 4;

pub const NBIT_ORDER_LE: u32 = 0;

pub const NBIT_ORDER_BE: u32 = 1;

/// What can be wrong with a parameter list.
pub enum Fault {
    /// The list ends too early.
    Truncated,
    /// A number whose significant bits do not lie within it.
    BadAtomic { size: u32, precision: u32, offset: u32 },
    /// An array of an unknown class.
    BadBase(u32),
    /// A member of an unknown class.
    BadMember(u32),
}

/// The message about a fault.
pub open spec fn fault_message(f: Fault) -> Seq<char> {
    match f {
        Fault::Truncated => "nbit: parameter list truncated"@,
        Fault::BadAtomic { size, precision, offset } => "nbit: invalid atomic datatype (size="@
            + decimal(size as nat) + ", precision="@ + decimal(precision as nat) + ", offset="@
            + decimal(offset as nat) + ")"@,
        Fault::BadBase(c) => "nbit: bad base class "@ + decimal(c as nat),
        Fault::BadMember(c) => "nbit: bad member class "@ + decimal(c as nat),
    }
}

/// The message about a stream that ends too early.
pub open spec fn short_message() -> Seq<char> {
    "nbit: buffer too short"@
}

pub fn truncated() -> (e: FormatError)
    ensures
        e.is_invalid(fault_message(Fault::Truncated)),
{
    invalid_data("nbit: parameter list truncated")
}

pub fn bad_base(c: u32) -> (e: FormatError)
    ensures
        e.is_invalid(fault_message(Fault::BadBase(c))),
{
    let mut s = "nbit: bad base class ".to_owned();
    append_decimal(&mut s, c as u64);
    FormatError::InvalidData(s)
}

pub fn bad_member(c: u32) -> (e: FormatError)
    ensures
        e.is_invalid(fault_message(Fault::BadMember(c))),
{
    let mut s = "nbit: bad member class ".to_owned();
    append_decimal(&mut s, c as u64);
    FormatError::InvalidData(s)
}

/// How a walk over the parameter list ends.
pub enum WalkEnd {
    /// Behind the subtree, at this index.
    Done(nat),
    /// On a fault.
    Fail(Fault),
    /// On a subtree without a size, or with size zero.
    Stuck,
}

/// A walk over a subtree: the pieces met and how it ended.
pub struct Walk {
    pub pieces: Seq<Piece>,
    pub end: WalkEnd,
}

/// The pieces of an element, every one moved by `off`.
pub open spec fn walk_moved(w: Walk, off: nat) -> Walk {
    Walk { pieces: moved(w.pieces, off), end: w.end }
}

/// A number of `size` bytes.
pub open spec fn atomic_piece(size: u32, order: u32, precision: u32, offset: u32) -> Piece {
    Piece {
        at: 0,
        size: size as nat,
        little: order == NBIT_ORDER_LE,
        precision: precision as nat,
        shift: offset as nat,
    }
}

/// `size` bytes of which every bit counts.
pub open spec fn plain_piece(size: u32) -> Piece {
    Piece { at: 0, size: size as nat, little: false, precision: 8 * size as nat, shift: 0 }
}

/// Whether the significant bits of a number lie within it.
pub open spec fn atomic_ok(size: u32, precision: u32, offset: u32) -> bool {
    &&& size > 0
    &&& precision > 0
    &&& 8 * size <= u32::MAX
    &&& precision + offset <= 8 * size
}

/// The number described at `idx`.
pub open spec fn walk_atomic(parms: Seq<u32>, idx: nat) -> Walk {
    if idx + 4 > parms.len() {
        Walk { pieces: Seq::empty(), end: WalkEnd::Fail(Fault::Truncated) }
    } else {
        let i = idx as int;
        if atomic_ok(parms[i], parms[i + 2], parms[i + 3]) {
            Walk {
                pieces: seq![atomic_piece(parms[i], parms[i + 1], parms[i + 2], parms[i + 3])],
                end: WalkEnd::Done(idx + 4),
            }
        } else {
            Walk {
                pieces: Seq::empty(),
                end: WalkEnd::Fail(
                    Fault::BadAtomic {
                        size: parms[i],
                        precision: parms[i + 2],
                        offset: parms[i + 3],
                    },
                ),
            }
        }
    }
}

/// `n` copies of what `w` met, each `step` bytes behind the one before; a fault
/// is met in the first copy.
pub open spec fn walk_repeated(w: Walk, start: nat, n: nat, step: nat) -> Walk {
    if n == 0 {
        Walk { pieces: Seq::empty(), end: WalkEnd::Done(start) }
    } else if w.end is Done {
        Walk { pieces: repeated(w.pieces, n, step), end: w.end }
    } else {
        w
    }
}

/// A measure that falls as the index grows.
pub open spec fn left(parms: Seq<u32>, idx: nat) -> int {
    if idx > parms.len() {
        0
    } else {
        parms.len() - idx + 1
    }
}

/// The array described at `idx`.
pub open spec fn walk_array(parms: Seq<u32>, idx: nat) -> Walk
    decreases left(parms, idx), 0nat,
{
    if idx + 2 > parms.len() {
        Walk { pieces: Seq::empty(), end: WalkEnd::Fail(Fault::Truncated) }
    } else {
        let total = parms[idx as int];
        let class = parms[idx as int + 1];
        let i = idx + 2;
        if class == NBIT_ATOMIC {
            let w = walk_atomic(parms, i);
            if w.end is Done {
                Walk {
                    pieces: repeated(
                        w.pieces,
                        (total / parms[i as int]) as nat,
                        parms[i as int] as nat,
                    ),
                    end: w.end,
                }
            } else {
                w
            }
        } else if class == NBIT_ARRAY || class == NBIT_COMPOUND {
            if i >= parms.len() || parms[i as int] == 0 {
                Walk { pieces: Seq::empty(), end: WalkEnd::Stuck }
            } else {
                let step = parms[i as int];
                walk_repeated(
                    if class == NBIT_ARRAY {
                        walk_array(parms, i)
                    } else {
                        walk_compound(parms, i)
                    },
                    i,
                    (total / step) as nat,
                    step as nat,
                )
            }
        } else if class == NBIT_NOOPTYPE {
            Walk { pieces: seq![plain_piece(total)], end: WalkEnd::Done(i + 1) }
        } else {
            Walk { pieces: Seq::empty(), end: WalkEnd::Fail(Fault::BadBase(class)) }
        }
    }
}

/// The compound described at `idx`.
pub open spec fn walk_compound(parms: Seq<u32>, idx: nat) -> Walk
    decreases left(parms, idx), 0nat,
{
    if idx + 2 > parms.len() {
        Walk { pieces: Seq::empty(), end: WalkEnd::Fail(Fault::Truncated) }
    } else {
        walk_members(parms, idx + 2, parms[idx as int + 1] as nat)
    }
}

/// One member, of class `class`, described at `i`.
pub open spec fn walk_member(parms: Seq<u32>, i: nat, class: u32) -> Walk
    decreases left(parms, i), 1nat,
{
    if class == NBIT_ATOMIC {
        walk_atomic(parms, i)
    } else if class == NBIT_ARRAY {
        walk_array(parms, i)
    } else if class == NBIT_COMPOUND {
        walk_compound(parms, i)
    } else if class == NBIT_NOOPTYPE {
        if i >= parms.len() {
            Walk { pieces: Seq::empty(), end: WalkEnd::Stuck }
        } else {
            Walk { pieces: seq![plain_piece(parms[i as int])], end: WalkEnd::Done(i + 1) }
        }
    } else {
        Walk { pieces: Seq::empty(), end: WalkEnd::Fail(Fault::BadMember(class)) }
    }
}

/// The next `n` members.
pub open spec fn walk_members(parms: Seq<u32>, idx: nat, n: nat) -> Walk
    decreases left(parms, idx), 2nat,
{
    if n == 0 {
        Walk { pieces: Seq::empty(), end: WalkEnd::Done(idx) }
    } else if idx + 2 > parms.len() {
        Walk { pieces: Seq::empty(), end: WalkEnd::Fail(Fault::Truncated) }
    } else {
        let w = walk_moved(
            walk_member(parms, idx + 2, parms[idx as int + 1]),
            parms[idx as int] as nat,
        );
        match w.end {
            WalkEnd::Done(next) => if next > idx {
                let rest = walk_members(parms, next, (n - 1) as nat);
                Walk { pieces: w.pieces + rest.pieces, end: rest.end }
            } else {
                w
            },
            _ => w,
        }
    }
}

/// A walk that ends behind a subtree has moved on.
pub proof fn lemma_walk_array_next(parms: Seq<u32>, idx: nat)
    ensures
        walk_array(parms, idx).end matches WalkEnd::Done(next) ==> next >= idx + 2,
    decreases left(parms, idx), 0nat,
{
    if idx + 2 <= parms.len() && idx + 2 < parms.len() {
        lemma_walk_array_next(parms, idx + 2);
        lemma_walk_compound_next(parms, idx + 2);
    }
}

pub proof fn lemma_walk_compound_next(parms: Seq<u32>, idx: nat)
    ensures
        walk_compound(parms, idx).end matches WalkEnd::Done(next) ==> next >= idx + 2,
    decreases left(parms, idx), 0nat,
{
    if idx + 2 <= parms.len() {
        lemma_walk_members_next(parms, idx + 2, parms[idx as int + 1] as nat);
    }
}

pub proof fn lemma_walk_members_next(parms: Seq<u32>, idx: nat, n: nat)
    ensures
        walk_members(parms, idx, n).end matches WalkEnd::Done(next) ==> next >= idx,
    decreases left(parms, idx), 2nat,
{
    if n > 0 && idx + 2 <= parms.len() {
        lemma_walk_member_next(parms, idx + 2, parms[idx as int + 1]);
        let w = walk_member(parms, idx + 2, parms[idx as int + 1]);
        match w.end {
            WalkEnd::Done(next) => {
                lemma_walk_members_next(parms, next, (n - 1) as nat);
            },
            _ => {},
        }
    }
}

pub proof fn lemma_walk_member_next(parms: Seq<u32>, i: nat, class: u32)
    ensures
        walk_member(parms, i, class).end matches WalkEnd::Done(next) ==> next >= i,
    decreases left(parms, i), 1nat,
{
    lemma_walk_array_next(parms, i);
    lemma_walk_compound_next(parms, i);
}

/// An atomic parameter group.
#[derive(Clone, Copy)]
pub struct NbitAtomic {
    pub size: u32,
    pub order: u32,
    pub precision: u32,
    pub offset: u32,
}

/// Read the atomic parameter group at `idx`: size, order, precision, offset.
pub fn read_atomic(parms: &[u32], idx: usize) -> (r: Result<NbitAtomic, FormatError>)
    ensures
        match walk_atomic(parms@, idx as nat).end {
            WalkEnd::Done(next) => r matches Ok(p) && {
                &&& next == idx + 4
                &&& idx + 4 <= parms@.len()
                &&& p.size == parms@[idx as int]
                &&& p.order == parms@[idx as int + 1]
                &&& p.precision == parms@[idx as int + 2]
                &&& p.offset == parms@[idx as int + 3]
                &&& atomic_ok(p.size, p.precision, p.offset)
                &&& walk_atomic(parms@, idx as nat).pieces == seq![
                    atomic_piece(p.size, p.order, p.precision, p.offset),
                ]
            },
            WalkEnd::Fail(f) => r matches Err(e) && e.is_invalid(fault_message(f)),
            WalkEnd::Stuck => false,
        },
{
    if parms.len() < 4 || idx > parms.len() - 4 {
        return Err(truncated());
    }
    let p = NbitAtomic {
        size: parms[idx],
        order: parms[idx + 1],
        precision: parms[idx + 2],
        offset: parms[idx + 3],
    };
    if p.size > 0 && p.precision > 0 && 8 * p.size as u64 <= 0xffff_ffff && p.precision as u64
        + p.offset as u64 <= 8 * p.size as u64 {
        Ok(p)
    } else {
        let mut s = "nbit: invalid atomic datatype (size=".to_owned();
        append_decimal(&mut s, p.size as u64);
        s.append(", precision=");
        append_decimal(&mut s, p.precision as u64);
        s.append(", offset=");
        append_decimal(&mut s, p.offset as u64);
        s.append(")");
        Err(FormatError::InvalidData(s))
    }
}

} // verus!
