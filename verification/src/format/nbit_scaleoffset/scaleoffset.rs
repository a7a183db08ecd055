//! The scale-offset filter, in the direction of reading.
//!
//! A chunk starts with a header that gives the number of bits per element and
//! the smallest value. Behind it stand the differences to the smallest value,
//! packed. Integers are restored here. Numbers scaled by a power of ten are
//! handed out as differences, for a caller that has floating-point arithmetic,
//! and laid out as bytes again by [`DecimalScaled::encode`].

use crate::format::bitstream::{bit_at, lemma_read_bits_bound, read_bits, stream_of};
use crate::format::bytes::{
    copy_range, le_value, lemma_pow256_grows, lemma_pow256_is_pow2, lemma_pow256_values,
    numbers_bytes, pow256, power_of_two, push_number, read_le_at,
};
use crate::format::nbit_scaleoffset::pieces::stream_bit;
use crate::format::{invalid_data, FormatError, FormatResult};
use crate::text::{append_decimal, decimal};
use vstd::arithmetic::power2::{
    lemma2_to64, lemma2_to64_rest, lemma_pow2_strictly_increases, lemma_pow2_unfold, pow2,
};
use vstd::prelude::*;
use vstd::slice::slice_subrange;

verus! {

pub const SO_PARM_SCALETYPE: usize = 0;

pub const SO_PARM_SCALEFACTOR: usize = 1;

pub const SO_PARM_NELMTS: usize = 2;

pub const SO_PARM_CLASS: usize = 3;

pub const SO_PARM_SIZE: usize = 4;

pub const SO_PARM_ORDER: usize = 6;

pub const SO_PARM_FILAVAIL: usize = 7;

pub const SO_PARM_FILVAL: usize = 8;

pub const SO_CLS_INTEGER: u32 = 0;

pub const SO_CLS_FLOAT: u32 = 1;

pub const SO_ORDER_LE: u32 = 0;

pub const SO_FILL_DEFINED: u32 = 1;

pub const SO_FLOAT_DSCALE: u32 = 0;

/// Bytes of the header in front of every chunk.
pub const SO_BUF_OFFSET: usize = 21;

/// A difference to the smallest value, or the mark of a missing value.
#[derive(Debug, Clone, Copy, PartialEq, Eq, Structural)]
pub enum Scaled {
    /// A missing value: the bits of the fill value.
    Fill(u64),
    /// The difference to the smallest value, scaled by the power of ten.
    Difference(u64),
}

/// Elements scaled by a power of ten.
#[derive(Debug)]
pub struct DecimalScaled {
    /// Bytes of an element.
    pub size: usize,
    /// Whether elements are little-endian.
    pub little: bool,
    /// Exponent of the power of ten.
    pub scale_factor: i32,
    /// The bits of the smallest value.
    pub minimum: u64,
    /// The elements.
    pub elements: Vec<Scaled>,
}

/// What a chunk holds.
#[derive(Debug)]
pub enum Unscaled {
    /// The elements as bytes.
    Bytes(Vec<u8>),
    /// Elements that floating-point arithmetic has to restore.
    Decimal(DecimalScaled),
}

/// The bits that stand for an element when `number` is the bits of its value.
pub open spec fn element_bits(e: Scaled, number: nat) -> nat {
    match e {
        Scaled::Fill(f) => f as nat,
        Scaled::Difference(_) => number,
    }
}

impl DecimalScaled {
    /// The elements as bytes, where `numbers` holds the bits of the restored
    /// values. Missing values become the fill value.
    pub fn encode(&self, numbers: &[u64]) -> (out: Vec<u8>)
        requires
            self.size <= 8,
            numbers@.len() == self.elements@.len(),
        ensures
            out@ == numbers_bytes(
                Seq::new(
                    numbers@.len(),
                    |i: int| element_bits(self.elements@[i], numbers@[i] as nat),
                ),
                self.size as nat,
                self.little,
            ),
    {
        let ghost vals = Seq::new(
            numbers@.len(),
            |i: int| element_bits(self.elements@[i], numbers@[i] as nat),
        );
        let mut out: Vec<u8> = Vec::new();
        let mut i: usize = 0;
        while i < numbers.len()
            invariant
                i <= numbers@.len(),
                self.size <= 8,
                numbers@.len() == self.elements@.len(),
                vals == Seq::new(
                    numbers@.len(),
                    |i: int| element_bits(self.elements@[i], numbers@[i] as nat),
                ),
                out@ == numbers_bytes(vals.take(i as int), self.size as nat, self.little),
            decreases numbers@.len() - i,
        {
            proof {
                let t = vals.take(i + 1);
                assert(t.drop_last() =~= vals.take(i as int));
                assert(t.last() == vals[i as int]);
            }
            let v: u64 = match self.elements[i] {
                Scaled::Fill(f) => f,
                Scaled::Difference(_) => numbers[i],
            };
            push_number(&mut out, v, self.size, self.little);
            i = i + 1;
        }
        assert(vals.take(i as int) =~= vals);
        out
    }
}

/// Bytes of an element.
pub open spec fn so_size(cd: Seq<u32>) -> nat {
    cd[4] as nat
}

/// Number of elements.
pub open spec fn so_count(cd: Seq<u32>) -> nat {
    cd[2] as nat
}

/// Whether elements are little-endian.
pub open spec fn so_little(cd: Seq<u32>) -> bool {
    cd[6] == SO_ORDER_LE
}

/// The scale factor, a two's complement number.
pub open spec fn so_scale_factor(cd: Seq<u32>) -> int {
    if cd[1] < 0x8000_0000 {
        cd[1] as int
    } else {
        cd[1] - 0x1_0000_0000
    }
}

/// Whether a fill value is defined.
pub open spec fn so_has_fill(cd: Seq<u32>) -> bool {
    cd[7] == SO_FILL_DEFINED
}

/// How many parameters hold the fill value.
pub open spec fn so_fill_words(cd: Seq<u32>) -> nat {
    if so_size(cd) <= 4 {
        1
    } else {
        2
    }
}

/// The fill value: the low bytes of its words, low word first.
pub open spec fn so_fill(cd: Seq<u32>) -> nat {
    (cd[8] + if so_size(cd) <= 4 {
        0
    } else {
        cd[9] * 0x1_0000_0000
    }) as nat % pow256(so_size(cd))
}

/// Bits per element, from the header.
pub open spec fn so_minbits(data: Seq<u8>) -> nat {
    le_value(data.subrange(0, 4))
}

/// The smallest value, from the header.
pub open spec fn so_minval(data: Seq<u8>) -> nat {
    le_value(data.subrange(5, 5 + if data[4] < 8 { data[4] as int } else { 8 }))
}

/// The packed differences.
pub open spec fn so_payload(data: Seq<u8>) -> Seq<u8> {
    data.subrange(21, data.len() as int)
}

/// Element `i` of the packed differences.
pub open spec fn so_raw(data: Seq<u8>, i: int) -> nat {
    read_bits(stream_of(so_payload(data)), i * so_minbits(data), so_minbits(data))
}

/// Whether element `i` is marked as missing: all its bits are one.
pub open spec fn so_missing(data: Seq<u8>, cd: Seq<u32>, i: int) -> bool {
    so_has_fill(cd) && so_raw(data, i) == pow2(so_minbits(data)) - 1
}

/// The integer that element `i` stands for.
pub open spec fn so_integer(data: Seq<u8>, cd: Seq<u32>, i: int) -> nat {
    if so_missing(data, cd, i) {
        so_fill(cd)
    } else {
        (so_raw(data, i) + so_minval(data)) % pow256(so_size(cd))
    }
}

/// Element `i` before the floating-point arithmetic.
pub open spec fn so_scaled(data: Seq<u8>, cd: Seq<u32>, i: int) -> Scaled {
    if so_missing(data, cd, i) {
        Scaled::Fill(so_fill(cd) as u64)
    } else {
        Scaled::Difference(so_raw(data, i) as u64)
    }
}

/// Whether the payload is stored as it is.
pub open spec fn so_verbatim(cd: Seq<u32>) -> bool {
    cd[3] == SO_CLS_INTEGER && so_scale_factor(cd) == 8 * so_size(cd)
}

/// The payload as it is.
pub open spec fn so_copied(data: Seq<u8>, cd: Seq<u32>, r: FormatResult<Unscaled>) -> bool {
    let total = so_count(cd) * so_size(cd);
    if data.len() < 21 + total {
        r matches Err(e) && e.is_invalid("scaleoffset: buffer too short"@)
    } else {
        r matches Ok(Unscaled::Bytes(out)) && out@ == data.subrange(21, (21 + total) as int)
    }
}

/// The elements restored from the packed differences.
pub open spec fn so_restored(data: Seq<u8>, cd: Seq<u32>, r: FormatResult<Unscaled>) -> bool {
    let n = so_count(cd);
    let size = so_size(cd);
    if n * so_minbits(data) > 8 * so_payload(data).len() {
        r matches Err(e) && e.is_invalid("scaleoffset: buffer too short"@)
    } else if cd[3] == SO_CLS_INTEGER {
        r matches Ok(Unscaled::Bytes(out)) && out@ == numbers_bytes(
            Seq::new(n, |i: int| so_integer(data, cd, i)),
            size,
            so_little(cd),
        )
    } else if size == 4 || size == 8 {
        r matches Ok(Unscaled::Decimal(d)) && {
            &&& d.size == size
            &&& d.little == so_little(cd)
            &&& d.scale_factor == so_scale_factor(cd)
            &&& d.minimum == so_minval(data)
            &&& d.elements@ == Seq::new(n, |i: int| so_scaled(data, cd, i))
        }
    } else {
        r matches Ok(Unscaled::Bytes(out)) && out@ == numbers_bytes(
            Seq::new(n, |i: int| so_raw(data, i)),
            size,
            so_little(cd),
        )
    }
}

/// What reversing the filter returns.
pub open spec fn so_result(data: Seq<u8>, cd: Seq<u32>, r: FormatResult<Unscaled>) -> bool {
    if cd.len() < 8 {
        r matches Err(e) && e.is_invalid("scaleoffset: cd_values too short"@)
    } else if so_size(cd) == 0 || so_size(cd) > 8 {
        r matches Err(e) && e.is_invalid(
            "scaleoffset: unsupported datatype size "@ + decimal(so_size(cd)),
        )
    } else if so_has_fill(cd) && cd.len() < 8 + so_fill_words(cd) {
        r matches Err(e) && e.is_invalid("scaleoffset: cd_values missing fill value"@)
    } else if cd[3] == SO_CLS_FLOAT && cd[0] != SO_FLOAT_DSCALE {
        r matches Err(FormatError::UnsupportedFeature(m)) && m@
            == "scaleoffset E-scaling method is not supported"@
    } else if so_verbatim(cd) {
        so_copied(data, cd, r)
    } else if data.len() < 21 {
        r matches Err(e) && e.is_invalid("scaleoffset: buffer too short for header"@)
    } else if so_minbits(data) > 8 * so_size(cd) {
        r matches Err(e) && e.is_invalid("scaleoffset: minbits exceeds datatype size"@)
    } else if so_minbits(data) == 8 * so_size(cd) {
        so_copied(data, cd, r)
    } else {
        so_restored(data, cd, r)
    }
}

/// Read the number in the `n` bits from `pos` on.
fn read_number(data: &[u8], pos: u64, n: u32) -> (v: u64)
    requires
        n <= 64,
        8 * data@.len() <= u64::MAX,
        pos + n <= u64::MAX,
    ensures
        v == read_bits(stream_of(data@), pos as int, n as nat),
        v < pow2(n as nat),
{
    let ghost s = stream_of(data@);
    let mut v: u64 = 0;
    let mut i: u32 = 0;
    proof {
        lemma2_to64();
    }
    while i < n
        invariant
            i <= n <= 64,
            8 * data@.len() <= u64::MAX,
            pos + n <= u64::MAX,
            s == stream_of(data@),
            v == read_bits(s, pos as int, i as nat),
            v < pow2(i as nat),
        decreases n - i,
    {
        let bit: bool = stream_bit(data, pos + i as u64);
        proof {
            lemma2_to64_rest();
            lemma_pow2_unfold((i + 1) as nat);
            if i + 1 < 64 {
                lemma_pow2_strictly_increases((i + 1) as nat, 64);
            }
            assert(bit_at(s, pos + (i + 1) - 1) == bit);
        }
        v = 2 * v + if bit {
            1
        } else {
            0
        };
        i = i + 1;
    }
    v
}

proof fn lemma_bits_in_bytes(minbits: nat, size: nat)
    requires
        minbits < 8 * size,
        size <= 8,
    ensures
        pow2(minbits) < pow256(size),
        pow256(size) <= 0x1_0000_0000_0000_0000,
{
    lemma_pow256_is_pow2(size);
    lemma_pow2_strictly_increases(minbits, 8 * size);
    lemma_pow256_values();
    lemma_pow256_grows(size, 8);
}

fn short() -> (e: FormatError)
    ensures
        e.is_invalid("scaleoffset: buffer too short"@),
{
    invalid_data("scaleoffset: buffer too short")
}

fn copied(data: &[u8], cd: &[u32]) -> (r: FormatResult<Unscaled>)
    requires
        cd@.len() >= 8,
        so_count(cd@) * so_size(cd@) + 21 <= usize::MAX,
    ensures
        so_copied(data@, cd@, r),
{
    let total: usize = cd[SO_PARM_NELMTS] as usize * cd[SO_PARM_SIZE] as usize;
    if data.len() < SO_BUF_OFFSET + total {
        return Err(short());
    }
    Ok(Unscaled::Bytes(copy_range(data, SO_BUF_OFFSET, SO_BUF_OFFSET + total)))
}

/// The sum of two numbers, in `size` bytes.
fn wrapping_sum(a: u64, b: u64, size: usize) -> (c: u64)
    requires
        0 < size <= 8,
    ensures
        c == (a + b) as nat % pow256(size as nat),
{
    proof {
        lemma_pow256_is_pow2(size as nat);
    }
    let sum: u128 = a as u128 + b as u128;
    let modulus: u128 = power_of_two(8 * size as u32);
    (sum % modulus) as u64
}

/// Restore integers.
fn postdecompress(data: &[u8], cd: &[u32], minbits: u32, minval: u64, fill: Option<u64>) -> (out:
    Vec<u8>)
    requires
        cd@.len() >= 8,
        data@.len() >= 21,
        8 * data@.len() <= u64::MAX,
        0 < so_size(cd@) <= 8,
        minbits == so_minbits(data@),
        minbits < 8 * so_size(cd@),
        so_count(cd@) * minbits <= 8 * so_payload(data@).len(),
        minval == so_minval(data@),
        so_has_fill(cd@) ==> (fill matches Some(f) && f == so_fill(cd@)),
        !so_has_fill(cd@) ==> fill is None,
    ensures
        out@ == numbers_bytes(
            Seq::new(so_count(cd@), |i: int| so_integer(data@, cd@, i)),
            so_size(cd@),
            so_little(cd@),
        ),
{
    let n: u32 = cd[SO_PARM_NELMTS];
    let size: usize = cd[SO_PARM_SIZE] as usize;
    let little: bool = cd[SO_PARM_ORDER] == SO_ORDER_LE;
    let payload = slice_subrange(data, SO_BUF_OFFSET, data.len());
    let ghost vals = Seq::new(n as nat, |i: int| so_integer(data@, cd@, i));
    proof {
        lemma_bits_in_bytes(minbits as nat, size as nat);
    }
    let sentinel: u64 = (power_of_two(minbits) - 1) as u64;
    let mut out: Vec<u8> = Vec::new();
    let mut i: u32 = 0;
    while i < n
        invariant
            i <= n,
            n == so_count(cd@),
            size == so_size(cd@),
            0 < size <= 8,
            little == so_little(cd@),
            8 * payload@.len() <= u64::MAX,
            payload@ == so_payload(data@),
            minbits == so_minbits(data@),
            minbits < 64,
            n * minbits <= 8 * payload@.len(),
            minval == so_minval(data@),
            so_has_fill(cd@) ==> (fill matches Some(f) && f == so_fill(cd@)),
            !so_has_fill(cd@) ==> fill is None,
            sentinel == pow2(minbits as nat) - 1,
            vals == Seq::new(n as nat, |i: int| so_integer(data@, cd@, i)),
            out@ == numbers_bytes(vals.take(i as int), size as nat, little),
        decreases n - i,
    {
        proof {
            let t = vals.take(i + 1);
            assert(t.drop_last() =~= vals.take(i as int));
            assert(t.last() == vals[i as int]);
            assert(i * minbits + minbits <= n * minbits) by (nonlinear_arith)
                requires
                    i + 1 <= n,
            ;
        }
        let raw: u64 = read_number(payload, i as u64 * minbits as u64, minbits);
        let v: u64 = match fill {
            Some(f) if raw == sentinel => f,
            _ => wrapping_sum(raw, minval, size),
        };
        push_number(&mut out, v, size, little);
        i = i + 1;
    }
    assert(vals.take(i as int) =~= vals);
    out
}

/// Take the differences apart.
fn differences(data: &[u8], cd: &[u32], minbits: u32, fill: Option<u64>) -> (out: Vec<Scaled>)
    requires
        cd@.len() >= 8,
        data@.len() >= 21,
        8 * data@.len() <= u64::MAX,
        0 < so_size(cd@) <= 8,
        minbits == so_minbits(data@),
        minbits < 8 * so_size(cd@),
        so_count(cd@) * minbits <= 8 * so_payload(data@).len(),
        so_has_fill(cd@) ==> (fill matches Some(f) && f == so_fill(cd@)),
        !so_has_fill(cd@) ==> fill is None,
    ensures
        out@ == Seq::new(so_count(cd@), |i: int| so_scaled(data@, cd@, i)),
{
    let n: u32 = cd[SO_PARM_NELMTS];
    let payload = slice_subrange(data, SO_BUF_OFFSET, data.len());
    let sentinel: u64 = (power_of_two(minbits) - 1) as u64;
    let mut out: Vec<Scaled> = Vec::new();
    let mut i: u32 = 0;
    while i < n
        invariant
            i <= n,
            n == so_count(cd@),
            8 * payload@.len() <= u64::MAX,
            payload@ == so_payload(data@),
            minbits == so_minbits(data@),
            minbits < 64,
            n * minbits <= 8 * payload@.len(),
            so_has_fill(cd@) ==> (fill matches Some(f) && f == so_fill(cd@)),
            !so_has_fill(cd@) ==> fill is None,
            sentinel == pow2(minbits as nat) - 1,
            out@ == Seq::new(i as nat, |i: int| so_scaled(data@, cd@, i)),
        decreases n - i,
    {
        proof {
            assert(i * minbits + minbits <= n * minbits) by (nonlinear_arith)
                requires
                    i + 1 <= n,
            ;
        }
        let raw: u64 = read_number(payload, i as u64 * minbits as u64, minbits);
        let e = match fill {
            Some(f) if raw == sentinel => Scaled::Fill(f),
            _ => Scaled::Difference(raw),
        };
        assert(e == so_scaled(data@, cd@, i as int));
        out.push(e);
        i = i + 1;
        assert(out@ =~= Seq::new(i as nat, |i: int| so_scaled(data@, cd@, i)));
    }
    out
}

/// The differences as bytes.
fn raw_bytes(data: &[u8], cd: &[u32], minbits: u32) -> (out: Vec<u8>)
    requires
        cd@.len() >= 8,
        data@.len() >= 21,
        8 * data@.len() <= u64::MAX,
        0 < so_size(cd@) <= 8,
        minbits == so_minbits(data@),
        minbits < 8 * so_size(cd@),
        so_count(cd@) * minbits <= 8 * so_payload(data@).len(),
    ensures
        out@ == numbers_bytes(
            Seq::new(so_count(cd@), |i: int| so_raw(data@, i)),
            so_size(cd@),
            so_little(cd@),
        ),
{
    let n: u32 = cd[SO_PARM_NELMTS];
    let size: usize = cd[SO_PARM_SIZE] as usize;
    let little: bool = cd[SO_PARM_ORDER] == SO_ORDER_LE;
    let payload = slice_subrange(data, SO_BUF_OFFSET, data.len());
    let ghost vals = Seq::new(n as nat, |i: int| so_raw(data@, i));
    let mut out: Vec<u8> = Vec::new();
    let mut i: u32 = 0;
    while i < n
        invariant
            i <= n,
            n == so_count(cd@),
            size == so_size(cd@),
            0 < size <= 8,
            little == so_little(cd@),
            8 * payload@.len() <= u64::MAX,
            payload@ == so_payload(data@),
            minbits == so_minbits(data@),
            minbits < 64,
            n * minbits <= 8 * payload@.len(),
            vals == Seq::new(n as nat, |i: int| so_raw(data@, i)),
            out@ == numbers_bytes(vals.take(i as int), size as nat, little),
        decreases n - i,
    {
        proof {
            let t = vals.take(i + 1);
            assert(t.drop_last() =~= vals.take(i as int));
            assert(t.last() == vals[i as int]);
            assert(i * minbits + minbits <= n * minbits) by (nonlinear_arith)
                requires
                    i + 1 <= n,
            ;
        }
        let raw: u64 = read_number(payload, i as u64 * minbits as u64, minbits);
        push_number(&mut out, raw, size, little);
        i = i + 1;
    }
    assert(vals.take(i as int) =~= vals);
    out
}

/// The fill value in the parameters.
fn fill_value(cd: &[u32]) -> (v: u64)
    requires
        cd@.len() >= 8 + so_fill_words(cd@),
        0 < so_size(cd@) <= 8,
    ensures
        v == so_fill(cd@),
{
    let size: usize = cd[SO_PARM_SIZE] as usize;
    let low: u64 = cd[SO_PARM_FILVAL] as u64;
    let high: u64 = if size <= 4 {
        0
    } else {
        cd[SO_PARM_FILVAL + 1] as u64 * 0x1_0000_0000
    };
    wrapping_sum(low, high, size)
}

/// The scale factor in the parameters.
fn scale_factor(v: u32) -> (f: i32)
    ensures
        f == if v < 0x8000_0000 {
            v as int
        } else {
            v - 0x1_0000_0000
        },
{
    if v < 0x8000_0000 {
        v as i32
    } else {
        (v as i64 - 0x1_0000_0000) as i32
    }
}

/// Reverse the HDF5 scale-offset filter (decompress only).
///
/// `cd_values` holds the parameters, the fill value from its ninth entry on.
/// The elements are in the byte order of the dataset's datatype.
pub fn reverse_scaleoffset(data: &[u8], cd_values: &[u32]) -> (r: FormatResult<Unscaled>)
    requires
        cd_values@.len() >= 8 ==> so_count(cd_values@) * so_size(cd_values@) + 21 <= usize::MAX,
        8 * data@.len() <= u64::MAX,
    ensures
        so_result(data@, cd_values@, r),
{
    if cd_values.len() < 8 {
        return Err(invalid_data("scaleoffset: cd_values too short"));
    }
    let size: usize = cd_values[SO_PARM_SIZE] as usize;
    if size == 0 || size > 8 {
        let mut s = "scaleoffset: unsupported datatype size ".to_owned();
        append_decimal(&mut s, size as u64);
        return Err(FormatError::InvalidData(s));
    }
    let has_fill: bool = cd_values[SO_PARM_FILAVAIL] == SO_FILL_DEFINED;
    let fill: Option<u64> = if has_fill {
        let words: usize = if size <= 4 {
            1
        } else {
            2
        };
        if cd_values.len() < SO_PARM_FILVAL + words {
            return Err(invalid_data("scaleoffset: cd_values missing fill value"));
        }
        Some(fill_value(cd_values))
    } else {
        None
    };
    let class: u32 = cd_values[SO_PARM_CLASS];
    if class == SO_CLS_FLOAT && cd_values[SO_PARM_SCALETYPE] != SO_FLOAT_DSCALE {
        return Err(
            FormatError::UnsupportedFeature(
                "scaleoffset E-scaling method is not supported".to_owned(),
            ),
        );
    }
    let factor: i32 = scale_factor(cd_values[SO_PARM_SCALEFACTOR]);
    if class == SO_CLS_INTEGER && factor as i64 == 8 * size as i64 {
        return copied(data, cd_values);
    }
    if data.len() < SO_BUF_OFFSET {
        return Err(invalid_data("scaleoffset: buffer too short for header"));
    }
    proof {
        lemma_pow256_values();
    }
    let minbits: u32 = read_le_at(data, 0, 4) as u32;
    if minbits as usize > size * 8 {
        return Err(invalid_data("scaleoffset: minbits exceeds datatype size"));
    }
    let width: usize = if data[4] < 8 {
        data[4] as usize
    } else {
        8
    };
    let minval: u64 = read_le_at(data, 5, width);
    if minbits as usize == size * 8 {
        return copied(data, cd_values);
    }
    let n: u64 = cd_values[SO_PARM_NELMTS] as u64;
    let payload_len: u64 = (data.len() - SO_BUF_OFFSET) as u64;
    proof {
        assert(n * minbits <= 0xffff_ffff * 64) by (nonlinear_arith)
            requires
                n <= 0xffff_ffff,
                minbits <= 64,
        ;
    }
    if n * minbits as u64 > 8 * payload_len {
        return Err(short());
    }
    if class == SO_CLS_INTEGER {
        Ok(Unscaled::Bytes(postdecompress(data, cd_values, minbits, minval, fill)))
    } else if size == 4 || size == 8 {
        Ok(
            Unscaled::Decimal(
                DecimalScaled {
                    size,
                    little: cd_values[SO_PARM_ORDER] == SO_ORDER_LE,
                    scale_factor: factor,
                    minimum: minval,
                    elements: differences(data, cd_values, minbits, fill),
                },
            ),
        )
    } else {
        Ok(Unscaled::Bytes(raw_bytes(data, cd_values, minbits)))
    }
}

/// A difference never has the top bit of an element set: it reads the same as
/// a signed and as an unsigned number.
pub proof fn lemma_differences_not_negative(data: Seq<u8>, cd: Seq<u32>, i: int)
    requires
        data.len() >= 21,
        0 < so_size(cd) <= 8,
        so_minbits(data) < 8 * so_size(cd),
    ensures
        so_raw(data, i) < pow2((8 * so_size(cd) - 1) as nat),
{
    lemma_read_bits_bound(
        stream_of(so_payload(data)),
        i * so_minbits(data),
        so_minbits(data),
    );
    let top = (8 * so_size(cd) - 1) as nat;
    if so_minbits(data) < top {
        lemma_pow2_strictly_increases(so_minbits(data), top);
    }
}

/// A chunk without difference bits and without a fill value holds the smallest
/// value in every element.
pub proof fn lemma_constant_chunk(data: Seq<u8>, cd: Seq<u32>, i: int)
    requires
        so_minbits(data) == 0,
        !so_has_fill(cd),
        0 <= i < so_count(cd),
    ensures
        so_integer(data, cd, i) == so_minval(data) % pow256(so_size(cd)),
{
}

} // verus!
