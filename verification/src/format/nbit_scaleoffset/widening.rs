//! Numbers of reduced precision that are widened to their elements.

use crate::format::bytes::{
    lemma_numbers_bytes_len, lemma_pow256_is_pow2, number_bytes, number_value, pow256,
};
use crate::format::messages::datatype::{ByteOrder, DatatypeMessage};
use crate::format::nbit_scaleoffset::conversion::{conversion, field, widened, Conversion};
use crate::format::nbit_scaleoffset::offsets::{lemma_numbers_at, word};
use vstd::arithmetic::div_mod::lemma_fundamental_div_mod_converse;
use vstd::arithmetic::power2::{lemma_pow2_pos, lemma_pow2_strictly_increases, lemma_pow2_unfold, pow2};
use vstd::prelude::*;

verus! {

/// Whether a number has so many bits.
pub open spec fn has_bits(x: int, precision: nat, signed: bool) -> bool {
    if signed {
        -pow2((precision - 1) as nat) <= x < pow2((precision - 1) as nat)
    } else {
        0 <= x < pow2(precision)
    }
}

/// Whether an element holds a number in its bits from `offset` on: the number itself, or
/// what is missing to a power of two if it is negative. Other bits do not matter.
pub open spec fn holds_number(v: nat, x: int, offset: nat, precision: nat) -> bool {
    (v / pow2(offset)) % pow2(precision) == if x < 0 {
        x + pow2(precision)
    } else {
        x
    }
}

proof fn lemma_widened(v: nat, x: int, offset: nat, precision: nat, size: nat, signed: bool)
    requires
        0 < precision <= 8 * size,
        has_bits(x, precision, signed),
        holds_number(v, x, offset, precision),
    ensures
        widened(field(v, offset, precision), precision, size, signed) == word(x, size),
{
    lemma_pow2_unfold(precision);
    lemma_pow2_pos((precision - 1) as nat);
    lemma_pow256_is_pow2(size);
    if precision < 8 * size {
        lemma_pow2_strictly_increases(precision, 8 * size);
    }
}

/// Every element of reduced precision becomes the number that it holds, in all the bytes of
/// the element and in the byte order of its type; the elements stay in their places.
pub proof fn lemma_elements_widened(
    dt: DatatypeMessage,
    buf: Seq<u8>,
    xs: Seq<int>,
    size: u32,
    little: bool,
    signed: bool,
    offset: u16,
    precision: u16,
)
    requires
        dt == (DatatypeMessage::FixedPoint {
            size,
            byte_order: if little {
                ByteOrder::LittleEndian
            } else {
                ByteOrder::BigEndian
            },
            signed,
            bit_offset: offset,
            bit_precision: precision,
        }),
        0 < size <= 8,
        0 < precision,
        offset + precision <= 8 * size,
        !(offset == 0 && precision == 8 * size),
        buf.len() == xs.len() * size,
        forall|i: int|
            0 <= i < xs.len() ==> {
                &&& has_bits(#[trigger] xs[i], precision as nat, signed)
                &&& holds_number(
                    number_value(buf.subrange(i * size, i * size + size), little),
                    xs[i],
                    offset as nat,
                    precision as nat,
                )
            },
    ensures
        conversion(dt, buf) matches Conversion::Bytes(out) && {
            &&& out.len() == buf.len()
            &&& forall|i: int|
                0 <= i < xs.len() ==> out.subrange(i * size, i * size + size) == number_bytes(
                    word(#[trigger] xs[i], size as nat),
                    size as nat,
                    little,
                )
        },
{
    let z = size as nat;
    let n = xs.len();
    lemma_fundamental_div_mod_converse(buf.len() as int, z as int, n as int, 0);
    let vals = Seq::new(
        buf.len() / z,
        |i: int|
            widened(
                field(
                    number_value(buf.subrange(i * z, i * z + z), little),
                    offset as nat,
                    precision as nat,
                ),
                precision as nat,
                z,
                signed,
            ),
    );
    assert(vals.len() == n);
    lemma_numbers_bytes_len(vals, z, little);
    assert forall|i: int| 0 <= i < n implies vals[i] == word(#[trigger] xs[i], z) by {
        lemma_widened(
            number_value(buf.subrange(i * z, i * z + z), little),
            xs[i],
            offset as nat,
            precision as nat,
            z,
            signed,
        );
    }
    match conversion(dt, buf) {
        Conversion::Bytes(out) => {
            assert forall|i: int| 0 <= i < n implies out.subrange(i * size, i * size + size)
                == number_bytes(word(#[trigger] xs[i], z), z, little) by {
                lemma_numbers_at(vals, z, little, i);
                assert(vals[i] == word(xs[i], z));
            }
        },
        _ => {},
    }
}

} // verus!
