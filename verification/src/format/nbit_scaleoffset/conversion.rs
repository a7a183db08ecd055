//! Conversion of numbers with a bit layout of their own to plain numbers.

use crate::format::bytes::{
    lemma_numbers_bytes_len, lemma_pow256_is_pow2, number_value, numbers_bytes, pow256,
    power_of_two, push_number, read_number_at,
};
use crate::format::messages::datatype::{ieee_double, ieee_single, ByteOrder, DatatypeMessage};
use crate::format::{invalid_data, FormatError, FormatResult};
use crate::text::{append_decimal, decimal};
use vstd::arithmetic::div_mod::{
    lemma_div_multiples_vanish, lemma_fundamental_div_mod, lemma_small_mod,
};
use vstd::arithmetic::power2::{
    lemma_pow2_pos, lemma_pow2_strictly_increases, lemma_pow2_unfold, pow2,
};
use vstd::prelude::*;
use vstd::string::StringExecFns;

verus! {

/// Whether `dt` is a floating-point number in one of the two IEEE-754 layouts,
/// in either byte order.
pub open spec fn standard_float(dt: DatatypeMessage) -> bool {
    match dt {
        DatatypeMessage::FloatingPoint {
            size,
            sign_location,
            bit_offset,
            bit_precision,
            exponent_location,
            exponent_size,
            mantissa_location,
            mantissa_size,
            exponent_bias,
            ..
        } => {
            let little = DatatypeMessage::FloatingPoint {
                size,
                byte_order: ByteOrder::LittleEndian,
                sign_location,
                bit_offset,
                bit_precision,
                exponent_location,
                exponent_size,
                mantissa_location,
                mantissa_size,
                exponent_bias,
            };
            little == ieee_single() || little == ieee_double()
        },
        _ => false,
    }
}

/// Whether elements of `dt` have to be converted before use.
pub open spec fn needs_conversion(dt: DatatypeMessage) -> bool {
    match dt {
        DatatypeMessage::FixedPoint { size, bit_offset, bit_precision, .. } => bit_offset != 0
            || bit_precision < 8 * size,
        DatatypeMessage::FloatingPoint { .. } => !standard_float(dt),
        _ => false,
    }
}

/// The significant bits of a number.
pub open spec fn field(v: nat, offset: nat, precision: nat) -> nat {
    v / pow2(offset) % pow2(precision)
}

/// The number in `size` bytes that the significant bits stand for.
pub open spec fn widened(f: nat, precision: nat, size: nat, signed: bool) -> nat {
    if signed && f >= pow2((precision - 1) as nat) {
        (f + pow256(size) - pow2(precision)) as nat
    } else {
        f
    }
}

/// What conversion does to a buffer.
pub enum Conversion {
    /// The buffer holds these bytes.
    Bytes(Seq<u8>),
    /// The datatype or the buffer is refused, with this message.
    Refused(Seq<char>),
}

/// The elements of `buf`, converted.
pub open spec fn converted(
    buf: Seq<u8>,
    size: nat,
    little: bool,
    signed: bool,
    offset: nat,
    precision: nat,
) -> Seq<u8> {
    numbers_bytes(
        Seq::new(
            buf.len() / size,
            |i: int|
                widened(
                    field(
                        number_value(buf.subrange(i * size, i * size + size), little),
                        offset,
                        precision,
                    ),
                    precision,
                    size,
                    signed,
                ),
        ),
        size,
        little,
    )
}

/// What conversion of a buffer of elements of `dt` does.
pub open spec fn conversion(dt: DatatypeMessage, buf: Seq<u8>) -> Conversion {
    match dt {
        DatatypeMessage::FixedPoint { size, byte_order, signed, bit_offset, bit_precision } => {
            if bit_offset == 0 && bit_precision == 8 * size {
                Conversion::Bytes(buf)
            } else if size == 0 || size > 8 {
                Conversion::Refused(
                    "datatype conversion: unsupported FixedPoint size "@ + decimal(size as nat),
                )
            } else if bit_precision == 0 || bit_offset + bit_precision > 8 * size {
                Conversion::Refused(
                    "datatype conversion: invalid bit layout (offset "@ + decimal(bit_offset as nat)
                        + ", precision "@ + decimal(bit_precision as nat) + ", size "@ + decimal(
                        size as nat,
                    ) + ")"@,
                )
            } else if buf.len() % size as nat != 0 {
                Conversion::Refused(
                    "datatype conversion: buffer length "@ + decimal(buf.len())
                        + " not a multiple of element size "@ + decimal(size as nat),
                )
            } else {
                Conversion::Bytes(
                    converted(
                        buf,
                        size as nat,
                        byte_order == ByteOrder::LittleEndian,
                        signed,
                        bit_offset as nat,
                        bit_precision as nat,
                    ),
                )
            }
        },
        DatatypeMessage::FloatingPoint { .. } => if standard_float(dt) {
            Conversion::Bytes(buf)
        } else {
            Conversion::Refused(
                "datatype conversion: non-standard floating-point bit layout cannot be converted"@,
            )
        },
        _ => Conversion::Bytes(buf),
    }
}

/// Whether `dt` is IEEE-754 single or double precision.
fn is_standard_ieee_float(dt: &DatatypeMessage) -> (r: bool)
    ensures
        r == standard_float(*dt),
{
    match dt {
        DatatypeMessage::FloatingPoint {
            size,
            sign_location,
            bit_offset,
            bit_precision,
            exponent_location,
            exponent_size,
            mantissa_location,
            mantissa_size,
            exponent_bias,
            ..
        } => {
            let single: bool = *size == 4 && *bit_offset == 0 && *bit_precision == 32
                && *sign_location == 31 && *exponent_location == 23 && *exponent_size == 8
                && *mantissa_location == 0 && *mantissa_size == 23 && *exponent_bias == 127;
            let double: bool = *size == 8 && *bit_offset == 0 && *bit_precision == 64
                && *sign_location == 63 && *exponent_location == 52 && *exponent_size == 11
                && *mantissa_location == 0 && *mantissa_size == 52 && *exponent_bias == 1023;
            single || double
        },
        _ => false,
    }
}

/// True if elements of `dt`, as they come out of the filter pipeline, need a
/// conversion before their values are usable.
///
/// An integer needs one when its significant bits do not fill it. A
/// floating-point number needs one when it is in no IEEE-754 layout;
/// [`apply_datatype_conversion`] refuses such a type.
pub fn datatype_needs_bit_conversion(dt: &DatatypeMessage) -> (r: bool)
    requires
        8 * dt.spec_element_size() <= u32::MAX,
    ensures
        r == needs_conversion(*dt),
{
    match dt {
        DatatypeMessage::FixedPoint { size, bit_offset, bit_precision, .. } => {
            *bit_offset != 0 || (*bit_precision as u32) < *size * 8
        },
        DatatypeMessage::FloatingPoint { .. } => !is_standard_ieee_float(dt),
        _ => false,
    }
}

/// The number that the significant bits of `raw` stand for.
fn convert_number(raw: u64, offset: u32, precision: u32, size: u32, signed: bool) -> (v: u64)
    requires
        0 < size <= 8,
        0 < precision,
        offset + precision <= 8 * size,
    ensures
        v == widened(
            field(raw as nat, offset as nat, precision as nat),
            precision as nat,
            size as nat,
            signed,
        ),
{
    let shift: u128 = power_of_two(offset);
    let modulus: u128 = power_of_two(precision);
    let half: u128 = power_of_two(precision - 1);
    let full: u128 = power_of_two(8 * size);
    let f: u128 = raw as u128 / shift % modulus;
    proof {
        lemma_pow256_is_pow2(size as nat);
        assert(f == field(raw as nat, offset as nat, precision as nat));
        if precision < 8 * size {
            lemma_pow2_strictly_increases(precision as nat, (8 * size) as nat);
        }
    }
    if signed && f >= half {
        (f + (full - modulus)) as u64
    } else {
        f as u64
    }
}

/// Convert the elements of a buffer in place.
///
/// The significant bits of every integer of `dt` are moved to the bottom of
/// the element, and extended by the sign bit if the type is signed. Other
/// types and integers whose significant bits fill them are left alone;
/// floating-point numbers in no IEEE-754 layout are refused.
pub fn apply_datatype_conversion(buffer: &mut [u8], dt: &DatatypeMessage) -> (r: FormatResult<()>)
    ensures
        match conversion(*dt, old(buffer)@) {
            Conversion::Bytes(b) => r is Ok && final(buffer)@ == b,
            Conversion::Refused(m) => final(buffer)@ == old(buffer)@ && (r matches Err(e)
                && e.is_invalid(m)),
        },
{
    match dt {
        DatatypeMessage::FixedPoint { size, byte_order, signed, bit_offset, bit_precision } => {
            let size: u32 = *size;
            let offset: u32 = *bit_offset as u32;
            let precision: u32 = *bit_precision as u32;
            if offset == 0 && precision as u64 == 8 * size as u64 {
                return Ok(());
            }
            if size == 0 || size > 8 {
                let mut s = "datatype conversion: unsupported FixedPoint size ".to_owned();
                append_decimal(&mut s, size as u64);
                return Err(FormatError::InvalidData(s));
            }
            if precision == 0 || offset + precision > 8 * size {
                let mut s = "datatype conversion: invalid bit layout (offset ".to_owned();
                append_decimal(&mut s, offset as u64);
                s.append(", precision ");
                append_decimal(&mut s, precision as u64);
                s.append(", size ");
                append_decimal(&mut s, size as u64);
                s.append(")");
                return Err(FormatError::InvalidData(s));
            }
            if buffer.len() % size as usize != 0 {
                let mut s = "datatype conversion: buffer length ".to_owned();
                append_decimal(&mut s, buffer.len() as u64);
                s.append(" not a multiple of element size ");
                append_decimal(&mut s, size as u64);
                return Err(FormatError::InvalidData(s));
            }
            let little: bool = match byte_order {
                ByteOrder::LittleEndian => true,
                ByteOrder::BigEndian => false,
            };
            let out = convert_elements(buffer, size, little, *signed, offset, precision);
            let mut i: usize = 0;
            while i < buffer.len()
                invariant
                    i <= buffer@.len(),
                    out@.len() == buffer@.len(),
                    forall|k: int| 0 <= k < i ==> buffer@[k] == out@[k],
                decreases buffer@.len() - i,
            {
                buffer[i] = out[i];
                i = i + 1;
            }
            assert(buffer@ =~= out@);
            Ok(())
        },
        DatatypeMessage::FloatingPoint { .. } => {
            if is_standard_ieee_float(dt) {
                Ok(())
            } else {
                Err(
                    invalid_data(
                        "datatype conversion: non-standard floating-point bit layout cannot be converted",
                    ),
                )
            }
        },
        _ => Ok(()),
    }
}

/// The elements of `buffer`, converted.
fn convert_elements(
    buffer: &[u8],
    size: u32,
    little: bool,
    signed: bool,
    offset: u32,
    precision: u32,
) -> (out: Vec<u8>)
    requires
        0 < size <= 8,
        0 < precision,
        offset + precision <= 8 * size,
        buffer@.len() % size as nat == 0,
    ensures
        out@.len() == buffer@.len(),
        out@ == converted(
            buffer@,
            size as nat,
            little,
            signed,
            offset as nat,
            precision as nat,
        ),
{
    let ghost sz = size as nat;
    let ghost vals = Seq::new(
        buffer@.len() / sz,
        |i: int|
            widened(
                field(
                    number_value(buffer@.subrange(i * sz, i * sz + sz), little),
                    offset as nat,
                    precision as nat,
                ),
                precision as nat,
                sz,
                signed,
            ),
    );
    let n: usize = buffer.len() / size as usize;
    proof {
        lemma_fundamental_div_mod(buffer@.len() as int, size as int);
        assert(n * size == buffer@.len()) by (nonlinear_arith)
            requires
                buffer@.len() == size * n,
        ;
    }
    let mut out: Vec<u8> = Vec::new();
    let mut i: usize = 0;
    while i < n
        invariant
            i <= n,
            sz == size,
            n == buffer@.len() / sz,
            n * size == buffer.len(),
            0 < size <= 8,
            0 < precision,
            offset + precision <= 8 * size,
            vals == Seq::new(
                buffer@.len() / sz,
                |i: int|
                    widened(
                        field(
                            number_value(buffer@.subrange(i * sz, i * sz + sz), little),
                            offset as nat,
                            precision as nat,
                        ),
                        precision as nat,
                        sz,
                        signed,
                    ),
            ),
            out@ == numbers_bytes(vals.take(i as int), sz, little),
        decreases n - i,
    {
        proof {
            let t = vals.take(i + 1);
            assert(t.drop_last() =~= vals.take(i as int));
            assert(t.last() == vals[i as int]);
            assert(i * size + size <= n * size) by (nonlinear_arith)
                requires
                    i + 1 <= n,
            ;
        }
        let raw: u64 = read_number_at(buffer, i * size as usize, size as usize, little);
        let v: u64 = convert_number(raw, offset, precision, size, signed);
        push_number(&mut out, v, size as usize, little);
        i = i + 1;
    }
    assert(vals.take(i as int) =~= vals);
    proof {
        lemma_numbers_bytes_len(vals, sz, little);
    }
    out
}

/// A type that needs no conversion is not changed by it, unless its precision
/// exceeds its size.
pub proof fn lemma_conversion_not_needed(dt: DatatypeMessage, buf: Seq<u8>)
    requires
        !needs_conversion(dt),
        dt matches DatatypeMessage::FixedPoint { size, bit_precision, .. } ==> bit_precision <= 8
            * size,
    ensures
        conversion(dt, buf) == Conversion::Bytes(buf),
{
}

/// Conversion reads an unsigned number that was placed at a bit offset.
pub proof fn lemma_conversion_reads_unsigned(x: nat, offset: nat, precision: nat, size: nat)
    requires
        x < pow2(precision),
    ensures
        widened(field(x * pow2(offset), offset, precision), precision, size, false) == x,
{
    lemma_pow2_pos(offset);
    lemma_div_multiples_vanish(x as int, pow2(offset) as int);
    assert(pow2(offset) * x == x * pow2(offset)) by (nonlinear_arith);
    lemma_small_mod(x, pow2(precision));
}

/// Conversion reads a signed number that was placed at a bit offset in two's
/// complement.
pub proof fn lemma_conversion_reads_signed(x: int, offset: nat, precision: nat, size: nat)
    requires
        0 < precision <= 8 * size,
        -pow2((precision - 1) as nat) <= x < pow2((precision - 1) as nat),
    ensures
        ({
            let stored = if x < 0 {
                (x + pow2(precision)) as nat
            } else {
                x as nat
            };
            widened(field(stored * pow2(offset), offset, precision), precision, size, true) == if x
                < 0 {
                (x + pow256(size)) as nat
            } else {
                x as nat
            }
        }),
{
    let stored = if x < 0 {
        (x + pow2(precision)) as nat
    } else {
        x as nat
    };
    lemma_pow2_unfold(precision);
    lemma_conversion_reads_unsigned(stored, offset, precision, size);
    lemma_pow256_is_pow2(size);
    if precision < 8 * size {
        lemma_pow2_strictly_increases(precision, 8 * size);
    }
}

} // verus!
