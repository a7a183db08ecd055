//! The unit-delay predictor: samples become mapped prediction residuals and
//! back.
//!
//! A residual is folded to a non-negative number: small differences to the
//! previous sample alternate between up and down, and a difference that can go
//! only one way is stored as the distance from the end of the range.

use vstd::prelude::*;

verus! {

/// `x` modulo `2^32`.
pub open spec fn wrap32(x: int) -> u32 {
    (x % 0x1_0000_0000) as u32
}

/// Whether `x` is a run of low one bits.
pub open spec fn is_mask(x: u32) -> bool {
    x & (x >> 1u32) == x >> 1u32
}

/// Residual of `y` after `x` when samples lie in `0..=xmax`.
pub open spec fn residual(x: u32, y: u32, xmax: u32) -> u32 {
    if y >= x {
        if y - x <= x {
            (2 * (y - x)) as u32
        } else {
            y
        }
    } else if x - y <= xmax - x {
        (2 * (x - y) - 1) as u32
    } else {
        (xmax - y) as u32
    }
}

/// The residuals of an unsigned sample sequence. The first sample has none: it
/// is stored as a reference.
pub open spec fn residuals(raw: Seq<u32>, xmax: u32) -> Seq<u32> {
    Seq::new(
        raw.len(),
        |i: int|
            if i == 0 {
                0u32
            } else {
                residual(raw[i - 1], raw[i], xmax)
            },
    )
}

/// One step of `d` up (even) or down (odd) from `data`.
pub open spec fn unfold(data: u32, d: u32) -> u32 {
    if d % 2 == 0 {
        wrap32(data + d / 2)
    } else {
        wrap32(data - d / 2 - 1)
    }
}

/// The sample that follows `data` when its residual is `d`.
pub open spec fn restore(data: u32, d: u32, xmax: u32) -> u32 {
    let high = data >= xmax / 2 + 1;
    let room = if high {
        xmax ^ data
    } else {
        data
    };
    if d / 2 + d % 2 <= room {
        unfold(data, d)
    } else if high {
        xmax ^ d
    } else {
        d
    }
}

/// Sample `i` restored from a reference and residuals.
pub open spec fn restored(buf: Seq<u32>, xmax: u32, i: int) -> u32
    decreases i,
{
    if i <= 0 {
        buf[0]
    } else {
        restore(restored(buf, xmax, i - 1), buf[i], xmax)
    }
}

/// The unsigned samples that a reference and its residuals stand for.
pub open spec fn restored_samples(buf: Seq<u32>, xmax: u32) -> Seq<u32> {
    Seq::new(buf.len(), |i: int| restored(buf, xmax, i))
}

/// The value of a `w`-bit two's complement sample, `m` being `2^(w - 1)`.
pub open spec fn signed_value(raw: u32, m: int) -> int {
    if raw < m {
        raw as int
    } else {
        raw - 2 * m
    }
}

/// Residual of the signed value `y` after `x` in a range that ends at `xmax`.
pub open spec fn signed_residual(x: int, y: int, xmax: int) -> u32 {
    if y < x {
        wrap32(2 * (x - y) - 1)
    } else if y - x <= x + xmax + 1 {
        wrap32(2 * (y - x))
    } else {
        wrap32(y + xmax + 1)
    }
}

/// The residuals of a signed sample sequence.
pub open spec fn signed_residuals(raw: Seq<u32>, xmax: u32) -> Seq<u32> {
    Seq::new(
        raw.len(),
        |i: int|
            if i == 0 {
                0u32
            } else {
                signed_residual(
                    signed_value(raw[i - 1], xmax + 1),
                    signed_value(raw[i], xmax + 1),
                    xmax as int,
                )
            },
    )
}

/// The signed sample, kept modulo `2^32`, that follows `data`.
pub open spec fn signed_restore(data: u32, d: u32, xmax: u32) -> u32 {
    let negative = data >= 0x8000_0000;
    let room = if negative {
        wrap32(xmax + data + 1)
    } else {
        wrap32(xmax - data)
    };
    if d / 2 + d % 2 <= room {
        unfold(data, d)
    } else if negative {
        wrap32(d - xmax - 1)
    } else {
        wrap32(xmax - d)
    }
}

/// Signed sample `i` restored from a reference and residuals.
pub open spec fn signed_restored(buf: Seq<u32>, xmax: u32, i: int) -> u32
    decreases i,
{
    if i <= 0 {
        wrap32(signed_value(buf[0], xmax + 1))
    } else {
        signed_restore(signed_restored(buf, xmax, i - 1), buf[i], xmax)
    }
}

/// The signed samples that a reference and its residuals stand for.
pub open spec fn signed_restored_samples(buf: Seq<u32>, xmax: u32) -> Seq<u32> {
    Seq::new(buf.len(), |i: int| signed_restored(buf, xmax, i))
}

proof fn lemma_mask_xor(xmax: u32, x: u32)
    by (bit_vector)
    requires
        xmax & (xmax >> 1u32) == xmax >> 1u32,
        x <= xmax,
    ensures
        xmax ^ x == xmax - x,
        xmax > 0 ==> xmax % 2 == 1,
{
}

/// The residual of a sample restores it.
pub proof fn lemma_restore_residual(x: u32, y: u32, xmax: u32)
    requires
        is_mask(xmax),
        xmax > 0,
        x <= xmax,
        y <= xmax,
    ensures
        restore(x, residual(x, y, xmax), xmax) == y,
        residual(x, y, xmax) <= xmax,
{
    lemma_mask_xor(xmax, x);
    lemma_mask_xor(xmax, (xmax - y) as u32);
}

/// Storing the first sample as a reference and the rest as residuals loses
/// nothing.
pub proof fn lemma_predictor_roundtrip(raw: Seq<u32>, xmax: u32)
    requires
        is_mask(xmax),
        xmax > 0,
        raw.len() > 0,
        forall|i: int| 0 <= i < raw.len() ==> raw[i] <= xmax,
    ensures
        restored_samples(residuals(raw, xmax).update(0, raw[0]), xmax) == raw,
{
    let buf = residuals(raw, xmax).update(0, raw[0]);
    assert forall|i: int| 0 <= i < raw.len() implies restored(buf, xmax, i) == raw[i] by {
        lemma_restored_prefix(raw, xmax, i);
    }
    assert(restored_samples(buf, xmax) =~= raw);
}

proof fn lemma_restored_prefix(raw: Seq<u32>, xmax: u32, i: int)
    requires
        is_mask(xmax),
        xmax > 0,
        0 <= i < raw.len(),
        forall|i: int| 0 <= i < raw.len() ==> raw[i] <= xmax,
    ensures
        restored(residuals(raw, xmax).update(0, raw[0]), xmax, i) == raw[i],
    decreases i,
{
    if i > 0 {
        lemma_restored_prefix(raw, xmax, i - 1);
        lemma_restore_residual(raw[i - 1], raw[i], xmax);
    }
}

/// Compute the residuals of unsigned samples.
pub fn preprocess_unsigned(raw: &[u32], xmax: u32) -> (d: Vec<u32>)
    requires
        raw@.len() > 0,
        forall|i: int| 0 <= i < raw@.len() ==> raw@[i] <= xmax,
    ensures
        d@ == residuals(raw@, xmax),
{
    let n: usize = raw.len();
    let mut d: Vec<u32> = Vec::with_capacity(n);
    d.push(0);
    let mut i: usize = 1;
    while i < n
        invariant
            n == raw@.len(),
            1 <= i <= n,
            d@.len() == i,
            forall|j: int| 0 <= j < n ==> raw@[j] <= xmax,
            forall|j: int| 0 <= j < i ==> d@[j] == residuals(raw@, xmax)[j],
        decreases n - i,
    {
        let x: u32 = raw[i - 1];
        let y: u32 = raw[i];
        if y >= x {
            let diff: u32 = y - x;
            if diff <= x {
                d.push(2 * diff);
            } else {
                d.push(y);
            }
        } else {
            let diff: u32 = x - y;
            if diff <= xmax - x {
                d.push(2 * diff - 1);
            } else {
                d.push(xmax - y);
            }
        }
        i = i + 1;
    }
    assert(d@ =~= residuals(raw@, xmax));
    d
}

/// Compute the residuals of signed samples.
pub fn preprocess_signed(raw: &[u32], xmax: u32) -> (d: Vec<u32>)
    requires
        raw@.len() > 0,
        xmax < 0x8000_0000,
        forall|i: int| 0 <= i < raw@.len() ==> raw@[i] <= 2 * xmax + 1,
    ensures
        d@ == signed_residuals(raw@, xmax),
{
    let n: usize = raw.len();
    let m: i64 = xmax as i64 + 1;
    let mut d: Vec<u32> = Vec::with_capacity(n);
    d.push(0);
    let mut i: usize = 1;
    while i < n
        invariant
            n == raw@.len(),
            1 <= i <= n,
            d@.len() == i,
            m == xmax + 1,
            xmax < 0x8000_0000,
            forall|j: int| 0 <= j < n ==> raw@[j] <= 2 * xmax + 1,
            forall|j: int| 0 <= j < i ==> d@[j] == signed_residuals(raw@, xmax)[j],
        decreases n - i,
    {
        let cur: i64 = sign_extend(raw[i - 1], m);
        let nxt: i64 = sign_extend(raw[i], m);
        if nxt < cur {
            let diff: u32 = (cur - nxt) as u32;
            d.push(diff.wrapping_mul(2).wrapping_sub(1));
        } else {
            let diff: i64 = nxt - cur;
            if diff <= cur + m {
                d.push((2 * diff) as u32);
            } else {
                d.push((nxt + m) as u32);
            }
        }
        i = i + 1;
    }
    assert(d@ =~= signed_residuals(raw@, xmax));
    d
}

fn sign_extend(raw: u32, m: i64) -> (v: i64)
    requires
        0 < m <= 0x8000_0000,
    ensures
        v == signed_value(raw, m as int),
{
    if (raw as i64) < m {
        raw as i64
    } else {
        raw as i64 - 2 * m
    }
}

fn apply_unfold(data: u32, d: u32) -> (r: u32)
    ensures
        r == unfold(data, d),
{
    if d % 2 == 0 {
        data.wrapping_add(d / 2)
    } else {
        data.wrapping_sub(d / 2 + 1)
    }
}

/// Restore unsigned samples from a reference and residuals.
pub fn postprocess_unsigned(rsi_buf: &[u32], xmax: u32) -> (out: Vec<u32>)
    ensures
        out@ == restored_samples(rsi_buf@, xmax),
{
    let n: usize = rsi_buf.len();
    let mut out: Vec<u32> = Vec::with_capacity(n);
    if n == 0 {
        assert(out@ =~= restored_samples(rsi_buf@, xmax));
        return out;
    }
    let med: u32 = xmax / 2 + 1;
    let mut data: u32 = rsi_buf[0];
    out.push(data);
    let mut i: usize = 1;
    while i < n
        invariant
            n == rsi_buf@.len(),
            1 <= i <= n,
            med == xmax / 2 + 1,
            out@.len() == i,
            data == restored(rsi_buf@, xmax, i - 1),
            forall|j: int| 0 <= j < i ==> out@[j] == restored(rsi_buf@, xmax, j),
        decreases n - i,
    {
        let d: u32 = rsi_buf[i];
        let half_d: u32 = d / 2 + d % 2;
        let room: u32 = if data >= med {
            xmax ^ data
        } else {
            data
        };
        data = if half_d <= room {
            apply_unfold(data, d)
        } else if data >= med {
            xmax ^ d
        } else {
            d
        };
        out.push(data);
        i = i + 1;
    }
    assert(out@ =~= restored_samples(rsi_buf@, xmax));
    out
}

fn apply_signed_restore(data: u32, d: u32, xmax: u32) -> (r: u32)
    ensures
        r == signed_restore(data, d, xmax),
{
    let half_d: u32 = d / 2 + d % 2;
    if data >= 0x8000_0000 {
        let room: u32 = xmax.wrapping_add(data).wrapping_add(1);
        assert(room == wrap32(xmax + data + 1));
        if half_d <= room {
            apply_unfold(data, d)
        } else {
            let r: u32 = d.wrapping_sub(xmax).wrapping_sub(1);
            assert(r == wrap32(d - xmax - 1));
            r
        }
    } else {
        let room: u32 = xmax.wrapping_sub(data);
        if half_d <= room {
            apply_unfold(data, d)
        } else {
            xmax.wrapping_sub(d)
        }
    }
}

/// Restore signed samples from a reference and residuals.
pub fn postprocess_signed(rsi_buf: &[u32], xmax: u32) -> (out: Vec<u32>)
    requires
        xmax < 0x8000_0000,
    ensures
        out@ == signed_restored_samples(rsi_buf@, xmax),
{
    let n: usize = rsi_buf.len();
    let mut out: Vec<u32> = Vec::with_capacity(n);
    if n == 0 {
        assert(out@ =~= signed_restored_samples(rsi_buf@, xmax));
        return out;
    }
    let m: i64 = xmax as i64 + 1;
    let first: i64 = sign_extend(rsi_buf[0], m);
    let mut data: u32 = if first >= 0 {
        first as u32
    } else {
        (first + 0x1_0000_0000) as u32
    };
    out.push(data);
    let mut i: usize = 1;
    while i < n
        invariant
            n == rsi_buf@.len(),
            1 <= i <= n,
            out@.len() == i,
            data == signed_restored(rsi_buf@, xmax, i - 1),
            forall|j: int| 0 <= j < i ==> out@[j] == signed_restored(rsi_buf@, xmax, j),
        decreases n - i,
    {
        let d: u32 = rsi_buf[i];
        data = apply_signed_restore(data, d, xmax);
        out.push(data);
        i = i + 1;
    }
    assert(out@ =~= signed_restored_samples(rsi_buf@, xmax));
    out
}

} // verus!
