//! What the elements of a type hold.

use crate::format::bytes::{
    le_value, lemma_le_bytes_len, lemma_le_roundtrip_exact, lemma_pow256_values,
};
use crate::format::messages::datatype::{ByteOrder, DatatypeMessage, DatatypeView};
use crate::format::nbit_scaleoffset::conversion::{conversion, Conversion};
use crate::types::{Complex32, Complex64, Double, H5Type, Single};
use vstd::arithmetic::power2::{lemma2_to64, pow2};
use vstd::prelude::*;

verus! {

/// Whether a datatype is that of whole numbers that fill their `size` bytes, the lowest byte
/// first.
pub open spec fn whole_number(v: DatatypeView, size: nat, signed: bool) -> bool {
    v matches DatatypeView::Simple(
        DatatypeMessage::FixedPoint { size: z, byte_order, signed: s, bit_offset, bit_precision },
    ) && {
        &&& z == size
        &&& byte_order == ByteOrder::LittleEndian
        &&& s == signed
        &&& bit_offset == 0
        &&& bit_precision == 8 * size
    }
}

/// Elements of unsigned types hold the number itself, and their datatype says so.
pub proof fn lemma_unsigned_elements(a: u8, b: u16, c: u32, d: u64)
    ensures
        a.bytes().len() == 1 && le_value(a.bytes()) == a,
        b.bytes().len() == 2 && le_value(b.bytes()) == b,
        c.bytes().len() == 4 && le_value(c.bytes()) == c,
        d.bytes().len() == 8 && le_value(d.bytes()) == d,
        whole_number(u8::type_view(), 1, false),
        whole_number(u16::type_view(), 2, false),
        whole_number(u32::type_view(), 4, false),
        whole_number(u64::type_view(), 8, false),
{
    lemma_pow256_values();
    lemma_le_bytes_len(a as nat, 1);
    lemma_le_bytes_len(b as nat, 2);
    lemma_le_bytes_len(c as nat, 4);
    lemma_le_bytes_len(d as nat, 8);
    lemma_le_roundtrip_exact(a as nat, 1);
    lemma_le_roundtrip_exact(b as nat, 2);
    lemma_le_roundtrip_exact(c as nat, 4);
    lemma_le_roundtrip_exact(d as nat, 8);
}

/// Elements of signed types hold the number in two's complement, and their datatype says so.
pub proof fn lemma_signed_elements(a: i8, b: i16, c: i32, d: i64)
    ensures
        a.bytes().len() == 1 && le_value(a.bytes()) == if a < 0 {
            a + 0x100
        } else {
            a as int
        },
        b.bytes().len() == 2 && le_value(b.bytes()) == if b < 0 {
            b + 0x1_0000
        } else {
            b as int
        },
        c.bytes().len() == 4 && le_value(c.bytes()) == if c < 0 {
            c + 0x1_0000_0000
        } else {
            c as int
        },
        d.bytes().len() == 8 && le_value(d.bytes()) == if d < 0 {
            d + 0x1_0000_0000_0000_0000
        } else {
            d as int
        },
        whole_number(i8::type_view(), 1, true),
        whole_number(i16::type_view(), 2, true),
        whole_number(i32::type_view(), 4, true),
        whole_number(i64::type_view(), 8, true),
{
    lemma_unsigned_elements(a as u8, b as u16, c as u32, d as u64);
    assert((a as u8) == if a < 0 {
        a + 0x100
    } else {
        a as int
    }) by (bit_vector);
    assert((b as u16) == if b < 0 {
        b + 0x1_0000
    } else {
        b as int
    }) by (bit_vector);
    assert((c as u32) == if c < 0 {
        c + 0x1_0000_0000
    } else {
        c as int
    }) by (bit_vector);
    assert((d as u64) == if d < 0 {
        d + 0x1_0000_0000_0000_0000
    } else {
        d as int
    }) by (bit_vector);
}

/// Whether a datatype has two members, `r` and `i`, which stand in an element where its parts
/// stand.
pub open spec fn in_parts(v: DatatypeView, element: Seq<u8>, re: Seq<u8>, im: Seq<u8>) -> bool {
    v matches DatatypeView::Compound { size, members } && {
        &&& size == element.len()
        &&& members.len() == 2
        &&& members[0].name == seq!['r']
        &&& members[1].name == seq!['i']
        &&& members[0].offset + re.len() <= size
        &&& members[1].offset + im.len() <= size
        &&& element.subrange(members[0].offset as int, members[0].offset + re.len()) == re
        &&& element.subrange(members[1].offset as int, members[1].offset + im.len()) == im
        &&& members[0].datatype == members[1].datatype
    }
}

/// A complex number is a compound of its real part and its imaginary part.
pub proof fn lemma_complex_elements(a: Complex32, b: Complex64)
    ensures
        in_parts(Complex32::type_view(), a.bytes(), a.re.bytes(), a.im.bytes()),
        in_parts(Complex64::type_view(), b.bytes(), b.re.bytes(), b.im.bytes()),
        Complex32::type_view()->members[0].datatype == Single::type_view(),
        Complex64::type_view()->members[0].datatype == Double::type_view(),
{
    reveal_strlit("r");
    reveal_strlit("i");
    assert("r"@ =~= seq!['r']);
    assert("i"@ =~= seq!['i']);
    lemma_le_bytes_len(a.re.bits as nat, 4);
    lemma_le_bytes_len(a.im.bits as nat, 4);
    lemma_le_bytes_len(b.re.bits as nat, 8);
    lemma_le_bytes_len(b.im.bits as nat, 8);
    assert(a.bytes().subrange(0, 4) =~= a.re.bytes());
    assert(a.bytes().subrange(4, 8) =~= a.im.bytes());
    assert(b.bytes().subrange(0, 8) =~= b.re.bytes());
    assert(b.bytes().subrange(8, 16) =~= b.im.bytes());
}

/// Whether a datatype is that of floating-point numbers that fill their bytes: the mantissa in
/// the lowest bits, the exponent behind it, the sign in the highest bit, and a bias that puts
/// zero in the middle of the exponents.
pub open spec fn ieee_layout(v: DatatypeView, size: nat, exponent: nat) -> bool {
    v matches DatatypeView::Simple(
        DatatypeMessage::FloatingPoint {
            size: z,
            sign_location,
            bit_offset,
            bit_precision,
            exponent_location,
            exponent_size,
            mantissa_location,
            mantissa_size,
            exponent_bias,
            ..
        },
    ) && {
        &&& z == size
        &&& bit_offset == 0
        &&& bit_precision == 8 * size
        &&& mantissa_location == 0
        &&& exponent_size == exponent
        &&& exponent_location == mantissa_size
        &&& mantissa_size + exponent_size == sign_location
        &&& sign_location == 8 * size - 1
        &&& exponent_bias == pow2((exponent - 1) as nat) - 1
    }
}

/// Elements of the floating-point types hold the bits of the number in one of the two layouts
/// of IEEE 754. Numbers in these layouts are used as they stand, in either byte order; in any
/// other layout they are refused.
pub proof fn lemma_float_elements(a: Single, b: Double, dt: DatatypeMessage, buf: Seq<u8>)
    ensures
        a.bytes().len() == 4 && le_value(a.bytes()) == a.bits,
        b.bytes().len() == 8 && le_value(b.bytes()) == b.bits,
        ieee_layout(Single::type_view(), 4, 8),
        ieee_layout(Double::type_view(), 8, 11),
        dt is FloatingPoint ==> (conversion(dt, buf) == Conversion::Bytes(buf) <==> ieee_layout(
            DatatypeView::Simple(dt),
            4,
            8,
        ) || ieee_layout(DatatypeView::Simple(dt), 8, 11)),
{
    lemma_pow256_values();
    lemma2_to64();
    lemma_le_bytes_len(a.bits as nat, 4);
    lemma_le_bytes_len(b.bits as nat, 8);
    lemma_le_roundtrip_exact(a.bits as nat, 4);
    lemma_le_roundtrip_exact(b.bits as nat, 8);
}

} // verus!
